//! The rank computed by Gaussian elimination is at most the dimension of any
//! space that holds the rows: if every row of a matrix over **F**ₚ is a linear
//! combination of *L* vectors, its rank is at most *L*. In particular a matrix
//! filled with a stream that a register of length *L* generates has rank at
//! most *L*, since every window of the stream is a combination of its first
//! *L* windows.
use crate::fermat::{lemma_prime_fermat_inverses, spec_is_prime};
use crate::fp::spec_inv;
use crate::lfsr::{
    bm_state, conv, fermat_inverses, generates, lemma_linear_complexity_register_generates, spec_linear_complexity,
};
use crate::rank::{eliminate_below, pivot_from, rank_from, reduced, spec_rank, swap_rows, to_rows};
use vstd::arithmetic::div_mod::*;
use vstd::arithmetic::mul::*;
use vstd::prelude::*;

verus! {

/// Σ_{*t*<`k`} `f`(*t*).
pub open spec fn sum(f: spec_fn(int) -> int, k: nat) -> int
    decreases k,
{
    if k == 0 {
        0
    } else {
        sum(f, (k - 1) as nat) + f(k - 1)
    }
}

proof fn lemma_sum_ext(f: spec_fn(int) -> int, g: spec_fn(int) -> int, k: nat)
    requires
        forall|t: int| 0 <= t < k ==> #[trigger] f(t) == g(t),
    ensures
        sum(f, k) == sum(g, k),
    decreases k,
{
    if k > 0 {
        lemma_sum_ext(f, g, (k - 1) as nat);
    }
}

/// Σ (`f` − `x`·`g`) = Σ `f` − `x`·Σ `g`.
proof fn lemma_sum_linear(f: spec_fn(int) -> int, g: spec_fn(int) -> int, h: spec_fn(int) -> int, x: int, k: nat)
    requires
        forall|t: int| 0 <= t < k ==> #[trigger] h(t) == f(t) - x * g(t),
    ensures
        sum(h, k) == sum(f, k) - x * sum(g, k),
    decreases k,
{
    if k > 0 {
        let k1 = (k - 1) as nat;
        lemma_sum_linear(f, g, h, x, k1);
        assert(h(k - 1) == f(k - 1) - x * g(k - 1));
        lemma_mul_is_distributive_add(x, sum(g, k1), g(k - 1));
    }
}

/// Σ `f`·`x` = (Σ `f`)·`x`.
proof fn lemma_sum_scale(f: spec_fn(int) -> int, h: spec_fn(int) -> int, x: int, k: nat)
    requires
        forall|t: int| 0 <= t < k ==> #[trigger] h(t) == f(t) * x,
    ensures
        sum(h, k) == sum(f, k) * x,
    decreases k,
{
    if k > 0 {
        let k1 = (k - 1) as nat;
        lemma_sum_scale(f, h, x, k1);
        assert(h(k - 1) == f(k - 1) * x);
        lemma_mul_is_distributive_add_other_way(x, sum(f, k1), f(k - 1));
    }
}

/// Leaving out the term at `t0`: Σ_{*t*<`k`} `f` = Σ_{*t*<`k` − 1} `f`(skip(*t*)) + `f`(`t0`),
/// where skip(*t*) is *t* below `t0` and *t* + 1 from `t0` on.
proof fn lemma_sum_skip(f: spec_fn(int) -> int, g: spec_fn(int) -> int, k: nat, t0: int)
    requires
        0 <= t0 < k,
        forall|t: int| 0 <= t < k - 1 ==> #[trigger] g(t) == f(if t < t0 { t } else { t + 1 }),
    ensures
        sum(f, k) == sum(g, (k - 1) as nat) + f(t0),
    decreases k,
{
    let k1 = (k - 1) as nat;
    if t0 == k - 1 {
        lemma_sum_ext(f, g, k1);
    } else {
        lemma_sum_skip(f, g, k1, t0);
        assert(g(k - 2) == f(k - 1));
    }
}

/// A sum of multiples of `p` is a multiple of `p`.
proof fn lemma_sum_mod_zero(f: spec_fn(int) -> int, k: nat, p: int)
    requires
        p > 0,
        forall|t: int| 0 <= t < k ==> #[trigger] f(t) % p == 0,
    ensures
        sum(f, k) % p == 0,
    decreases k,
{
    if k > 0 {
        lemma_sum_mod_zero(f, (k - 1) as nat, p);
        lemma_add_mod_noop(sum(f, (k - 1) as nat), f(k - 1), p);
        lemma_small_mod(0, p as nat);
    } else {
        lemma_small_mod(0, p as nat);
    }
}

/// Σ (`f` + `g`) = Σ `f` + Σ `g`.
proof fn lemma_sum_add(f: spec_fn(int) -> int, g: spec_fn(int) -> int, h: spec_fn(int) -> int, k: nat)
    requires
        forall|t: int| 0 <= t < k ==> #[trigger] h(t) == f(t) + g(t),
    ensures
        sum(h, k) == sum(f, k) + sum(g, k),
    decreases k,
{
    if k > 0 {
        lemma_sum_add(f, g, h, (k - 1) as nat);
    }
}

/// Sums of terms congruent modulo `p` are congruent.
proof fn lemma_sum_congruent(f: spec_fn(int) -> int, g: spec_fn(int) -> int, k: nat, p: int)
    requires
        p > 0,
        forall|t: int| 0 <= t < k ==> #[trigger] f(t) % p == g(t) % p,
    ensures
        sum(f, k) % p == sum(g, k) % p,
    decreases k,
{
    if k > 0 {
        let k1 = (k - 1) as nat;
        lemma_sum_congruent(f, g, k1, p);
        lemma_add_mod_noop(sum(f, k1), f(k - 1), p);
        lemma_add_mod_noop(sum(g, k1), g(k - 1), p);
    }
}

/// A sum whose only nonzero term is at `t0` is that term.
proof fn lemma_sum_single(f: spec_fn(int) -> int, k: nat, t0: int)
    requires
        0 <= t0 < k,
        forall|t: int| 0 <= t < k && t != t0 ==> #[trigger] f(t) == 0,
    ensures
        sum(f, k) == f(t0),
    decreases k,
{
    if t0 < k - 1 {
        lemma_sum_single(f, (k - 1) as nat, t0);
    } else {
        lemma_sum_zero(f, (k - 1) as nat);
    }
}

proof fn lemma_sum_zero(f: spec_fn(int) -> int, k: nat)
    requires
        forall|t: int| 0 <= t < k ==> #[trigger] f(t) == 0,
    ensures
        sum(f, k) == 0,
    decreases k,
{
    if k > 0 {
        lemma_sum_zero(f, (k - 1) as nat);
    }
}

/// Σ_{*u*<`t`} `f`(*i*, *u*), the `i`-th row sum of `f`.
pub open spec fn row_sum(f: spec_fn(int, int) -> int, t: nat, i: int) -> int {
    sum(|u: int| f(i, u), t)
}

/// Σ_{*i*<`k`} `f`(*i*, *u*), the `u`-th column sum of `f`.
pub open spec fn col_sum(f: spec_fn(int, int) -> int, k: nat, u: int) -> int {
    sum(|i: int| f(i, u), k)
}

/// A finite double sum may be taken in either order.
proof fn lemma_sum_swap(f: spec_fn(int, int) -> int, k: nat, t: nat)
    ensures
        sum(|i: int| row_sum(f, t, i), k) == sum(|u: int| col_sum(f, k, u), t),
    decreases k,
{
    if k == 0 {
        lemma_sum_zero(|u: int| col_sum(f, k, u), t);
    } else {
        let k1 = (k - 1) as nat;
        lemma_sum_swap(f, k1, t);
        lemma_sum_add(|u: int| col_sum(f, k1, u), |u: int| f(k1 as int, u), |u: int| col_sum(f, k, u), t);
    }
}

/// Σ_{*t*} `a[t]` · `basis[t][c]`: entry `c` of the linear combination of the
/// vectors `basis` with coefficients `a`.
pub open spec fn comb(a: Seq<int>, basis: Seq<Seq<int>>, c: int) -> int {
    sum(|t: int| a[t] * basis[t][c], basis.len())
}

/// On the columns `lo` . . `n`, the vector `v` is, modulo `p`, the linear
/// combination of `basis` with coefficients `a`.
pub open spec fn represents(v: Seq<int>, a: Seq<int>, basis: Seq<Seq<int>>, lo: int, n: int, p: int) -> bool {
    &&& a.len() == basis.len()
    &&& forall|c: int| lo <= c < n ==> v[c] % p == #[trigger] comb(a, basis, c) % p
}

/// On the columns `lo` . . `n`, the vector `v` lies, modulo `p`, in the span of
/// `basis`.
pub open spec fn in_span(v: Seq<int>, basis: Seq<Seq<int>>, lo: int, n: int, p: int) -> bool {
    exists|a: Seq<int>| #[trigger] represents(v, a, basis, lo, n, p)
}

/// The coefficients of *v* − `f`·*w*, for *v* and *w* with coefficients `a`, `b`.
pub open spec fn comb_coeffs(a: Seq<int>, b: Seq<int>, f: int) -> Seq<int> {
    Seq::new(a.len(), |t: int| a[t] - f * b[t])
}

/// A combination of *v* and *w* with coefficients `a` and `b` has coefficients
/// `a` − `f`·`b`.
proof fn lemma_comb_sub(a: Seq<int>, b: Seq<int>, basis: Seq<Seq<int>>, f: int, c: int)
    requires
        a.len() == basis.len(),
        b.len() == basis.len(),
    ensures
        comb(comb_coeffs(a, b, f), basis, c) == comb(a, basis, c) - f * comb(b, basis, c),
{
    let d = comb_coeffs(a, b, f);
    let fa = |t: int| a[t] * basis[t][c];
    let fb = |t: int| b[t] * basis[t][c];
    let fd = |t: int| d[t] * basis[t][c];
    assert forall|t: int| 0 <= t < basis.len() implies #[trigger] fd(t) == fa(t) - f * fb(t) by {
        let x = basis[t][c];
        assert((a[t] - f * b[t]) * x == a[t] * x - f * (b[t] * x)) by (nonlinear_arith);
    }
    lemma_sum_linear(fa, fb, fd, f, basis.len());
}

/// The index that skips `t0`.
pub open spec fn skip(t: int, t0: int) -> int {
    if t < t0 {
        t
    } else {
        t + 1
    }
}

/// The basis without `basis[t0]`, every other vector *s* replaced by
/// *s* − (*s*[`j`] / `basis[t0][j]`)·`basis[t0]`, so that all vanish on column `j`.
pub open spec fn reduce_basis(basis: Seq<Seq<int>>, t0: int, j: int, n: int, p: int) -> Seq<Seq<int>> {
    let inv0 = spec_inv(basis[t0][j] % p, p);
    Seq::new(
        (basis.len() - 1) as nat,
        |t: int|
            Seq::new(
                n as nat,
                |c: int| basis[skip(t, t0)][c] - (basis[skip(t, t0)][j] * inv0) * basis[t0][c],
            ),
    )
}

/// The coefficients `a` without `a[t0]`.
pub open spec fn reduce_coeffs(a: Seq<int>, t0: int) -> Seq<int> {
    Seq::new((a.len() - 1) as nat, |t: int| a[skip(t, t0)])
}

/// The exchange step: a combination that vanishes on column `j` is, on the
/// columns from `j` on, the same combination of the reduced basis, which has
/// one vector fewer.
proof fn lemma_exchange(a: Seq<int>, basis: Seq<Seq<int>>, t0: int, j: int, n: int, p: int, c: int)
    requires
        p >= 2,
        fermat_inverses(p),
        a.len() == basis.len(),
        0 <= t0 < basis.len(),
        basis[t0][j] % p != 0,
        comb(a, basis, j) % p == 0,
        0 <= c < n,
    ensures
        comb(reduce_coeffs(a, t0), reduce_basis(basis, t0, j, n, p), c) % p == comb(a, basis, c) % p,
{
    let k = basis.len();
    let b2 = reduce_basis(basis, t0, j, n, p);
    let a2 = reduce_coeffs(a, t0);
    let inv0 = spec_inv(basis[t0][j] % p, p);
    let b0c = basis[t0][c];
    let b0j = basis[t0][j];
    let a0 = a[t0];
    // F(t) = a[t]·basis[t][c], G(t) = a[t]·(basis[t][j]·inv0), and their skipped forms.
    let ff = |t: int| a[t] * basis[t][c];
    let gg = |t: int| a[t] * (basis[t][j] * inv0);
    let fj = |t: int| a[t] * basis[t][j];
    let fs = |t: int| ff(skip(t, t0));
    let gs = |t: int| gg(skip(t, t0));
    let hh = |t: int| a2[t] * b2[t][c];
    assert forall|t: int| 0 <= t < k - 1 implies #[trigger] hh(t) == fs(t) - b0c * gs(t) by {
        let u = skip(t, t0);
        assert(b2[t][c] == basis[u][c] - (basis[u][j] * inv0) * b0c);
        let x = a[u];
        let y = basis[u][c];
        let z = basis[u][j] * inv0;
        assert(x * (y - z * b0c) == x * y - b0c * (x * z)) by (nonlinear_arith);
    }
    lemma_sum_linear(fs, gs, hh, b0c, (k - 1) as nat);
    assert forall|t: int| 0 <= t < k - 1 implies #[trigger] fs(t) == ff(if t < t0 { t } else { t + 1 }) by {}
    assert forall|t: int| 0 <= t < k - 1 implies #[trigger] gs(t) == gg(if t < t0 { t } else { t + 1 }) by {}
    lemma_sum_skip(ff, fs, k, t0);
    lemma_sum_skip(gg, gs, k, t0);
    assert forall|t: int| 0 <= t < k implies #[trigger] gg(t) == fj(t) * inv0 by {
        assert(a[t] * (basis[t][j] * inv0) == (a[t] * basis[t][j]) * inv0) by (nonlinear_arith);
    }
    lemma_sum_scale(fj, gg, inv0, k);
    let x = comb(a, basis, c);
    let cj = comb(a, basis, j);
    assert(sum(ff, k) == x);
    assert(sum(fj, k) == cj);
    let total = sum(hh, (k - 1) as nat);
    assert(total == comb(a2, b2, c));
    // total = x − a0·b0c − b0c·(cj·inv0 − a0·(b0j·inv0))
    //       = x − b0c·inv0·cj + a0·b0c·(b0j·inv0 − 1)
    let e = b0j * inv0;
    assert(total == x - b0c * inv0 * cj + a0 * b0c * (e - 1)) by (nonlinear_arith)
        requires
            total == sum(fs, (k - 1) as nat) - b0c * sum(gs, (k - 1) as nat),
            x == sum(fs, (k - 1) as nat) + a0 * b0c,
            cj * inv0 == sum(gs, (k - 1) as nat) + a0 * (b0j * inv0),
            e == b0j * inv0,
    ;
    // b0j·inv0 ≡ 1, since inv0 is the Fermat inverse of b0j mod p.
    let r0 = b0j % p;
    lemma_mod_bound(b0j, p);
    assert((r0 * inv0) % p == 1);
    lemma_mul_mod_noop_left(b0j, inv0, p);
    assert(e % p == 1);
    lemma_sub_mod_noop(e, 1, p);
    lemma_small_mod(1, p as nat);
    lemma_small_mod(0, p as nat);
    assert((e - 1) % p == 0);
    // Both corrections are multiples of p.
    lemma_mul_mod_noop_right(a0 * b0c, e - 1, p);
    lemma_mul_basics(a0 * b0c);
    assert((a0 * b0c * (e - 1)) % p == 0);
    lemma_mul_mod_noop_right(b0c * inv0, cj, p);
    lemma_mul_basics(b0c * inv0);
    assert((b0c * inv0 * cj) % p == 0);
    lemma_sub_mod_noop(x, b0c * inv0 * cj, p);
    lemma_add_mod_noop(x - b0c * inv0 * cj, a0 * b0c * (e - 1), p);
    lemma_mod_twice(x, p);
    lemma_mod_twice(x - b0c * inv0 * cj, p);
}

/// Entry `c` of *v* − `f`·*w*, for *v* and *w* represented by `a` and `b`, is
/// represented by `a` − `f`·`b`.
proof fn lemma_comb_row(
    v: Seq<int>,
    w: Seq<int>,
    a: Seq<int>,
    b: Seq<int>,
    basis: Seq<Seq<int>>,
    f: int,
    j: int,
    n: int,
    p: int,
    c: int,
)
    requires
        p > 0,
        represents(v, a, basis, j, n, p),
        represents(w, b, basis, j, n, p),
        j <= c < n,
    ensures
        comb(comb_coeffs(a, b, f), basis, c) % p == (v[c] - f * w[c]) % p,
{
    lemma_comb_sub(a, b, basis, f, c);
    let ca = comb(a, basis, c);
    let cb = comb(b, basis, c);
    assert(ca % p == v[c] % p);
    assert(cb % p == w[c] % p);
    lemma_mul_mod_noop_right(f, cb, p);
    lemma_mul_mod_noop_right(f, w[c], p);
    lemma_sub_mod_noop(ca, f * cb, p);
    lemma_sub_mod_noop(v[c], f * w[c], p);
}

/// Subtracting the multiple of the pivot that the elimination uses clears the
/// pivot column: `vj` − ((`vj`·`winv`) mod *p*)·`wj` ≡ 0 when `wj`·`winv` ≡ 1.
proof fn lemma_pivot_clears(vj: int, wj: int, winv: int, p: int)
    requires
        p > 0,
        (wj * winv) % p == 1,
    ensures
        (vj - ((vj * winv) % p) * wj) % p == 0,
{
    let f = (vj * winv) % p;
    lemma_mul_mod_noop_left(vj * winv, wj, p);
    assert((vj * winv) * wj == vj * (wj * winv)) by (nonlinear_arith);
    lemma_mul_mod_noop_right(vj, wj * winv, p);
    assert((f * wj) % p == vj % p);
    lemma_sub_mod_noop(vj, f * wj, p);
    lemma_small_mod(0, p as nat);
}

/// A vector with a nonzero entry in column `j` has a basis vector with a
/// nonzero entry there.
proof fn lemma_nonzero_column(w: Seq<int>, b: Seq<int>, basis: Seq<Seq<int>>, j: int, n: int, p: int) -> (t0: int)
    requires
        p > 0,
        j < n,
        represents(w, b, basis, j, n, p),
        w[j] % p != 0,
    ensures
        0 <= t0 < basis.len(),
        basis[t0][j] % p != 0,
{
    if forall|t: int| 0 <= t < basis.len() ==> #[trigger] basis[t][j] % p == 0 {
        let fj = |t: int| b[t] * basis[t][j];
        assert forall|t: int| 0 <= t < basis.len() implies #[trigger] fj(t) % p == 0 by {
            lemma_mul_mod_noop_right(b[t], basis[t][j], p);
            lemma_mul_basics(b[t]);
            lemma_small_mod(0, p as nat);
        }
        lemma_sum_mod_zero(fj, basis.len(), p);
        assert(comb(b, basis, j) == sum(fj, basis.len()));
        assert(false);
        0
    } else {
        choose|t: int| 0 <= t < basis.len() && basis[t][j] % p != 0
    }
}

/// The pivot found by [pivot_from] is a row at or below `r` with a nonzero
/// entry in column `j`.
proof fn lemma_pivot_some(g: Seq<Seq<int>>, r: int, j: int, n: int, i: int)
    requires
        pivot_from(g, r, j, n) == Some(i),
    ensures
        r <= i < n,
        g[i][j] != 0,
    decreases n - r,
{
    if r < n && g[r][j] == 0 {
        lemma_pivot_some(g, r + 1, j, n, i);
    }
}

/// Gaussian elimination from row `r` and column `j` finds at most as many
/// further pivots as there are vectors in a basis whose span holds the
/// remaining rows on the remaining columns.
proof fn lemma_rank_from_bound(g: Seq<Seq<int>>, n: int, p: int, r: int, j: int, basis: Seq<Seq<int>>)
    requires
        p >= 2,
        fermat_inverses(p),
        0 <= r,
        0 <= j,
        g.len() == n,
        forall|x: int| 0 <= x < n ==> (#[trigger] g[x]).len() == n,
        forall|x: int, c: int| r <= x < n && j <= c < n ==> 0 <= #[trigger] g[x][c] < p,
        forall|x: int| r <= x < n ==> in_span(#[trigger] g[x], basis, j, n, p),
    ensures
        rank_from(g, n, p, r, j) <= r + basis.len(),
    decreases n - j,
{
    if j < n && r < n {
        match pivot_from(g, r, j, n) {
            None => {
                assert forall|x: int| r <= x < n implies in_span(#[trigger] g[x], basis, j + 1, n, p) by {
                    let a = choose|a: Seq<int>| represents(g[x], a, basis, j, n, p);
                    assert(represents(g[x], a, basis, j + 1, n, p));
                }
                lemma_rank_from_bound(g, n, p, r, j + 1, basis);
            },
            Some(i) => {
                lemma_pivot_some(g, r, j, n, i);
                let h = swap_rows(g, i, r);
                assert forall|x: int| 0 <= x < n implies #[trigger] h[x] == (if x == r {
                    g[i]
                } else if x == i {
                    g[r]
                } else {
                    g[x]
                }) by {}
                let w = h[r];
                assert(0 < w[j] < p);
                assert(in_span(g[i], basis, j, n, p));
                let b = choose|b: Seq<int>| represents(w, b, basis, j, n, p);
                lemma_small_mod(w[j] as nat, p as nat);
                let t0 = lemma_nonzero_column(w, b, basis, j, n, p);
                let g2 = eliminate_below(h, r, j, p);
                let b2 = reduce_basis(basis, t0, j, n, p);
                let winv = spec_inv(w[j], p);
                assert((w[j] * winv) % p == 1);
                assert forall|x: int| r + 1 <= x < n implies in_span(#[trigger] g2[x], b2, j + 1, n, p) by {
                    let v = h[x];
                    assert(in_span(v, basis, j, n, p));
                    let a = choose|a: Seq<int>| represents(v, a, basis, j, n, p);
                    let f = (v[j] * winv) % p;
                    let d = comb_coeffs(a, b, f);
                    let d2 = reduce_coeffs(d, t0);
                    lemma_comb_row(v, w, a, b, basis, f, j, n, p, j);
                    lemma_pivot_clears(v[j], w[j], winv, p);
                    assert forall|c: int| j + 1 <= c < n implies g2[x][c] % p == #[trigger] comb(d2, b2, c) % p by {
                        lemma_comb_row(v, w, a, b, basis, f, j, n, p, c);
                        lemma_exchange(d, basis, t0, j, n, p, c);
                        assert(g2[x][c] == (v[c] - f * w[c]) % p);
                        lemma_mod_twice(v[c] - f * w[c], p);
                    }
                    assert(represents(g2[x], d2, b2, j + 1, n, p));
                }
                assert forall|x: int, c: int| r + 1 <= x < n && j + 1 <= c < n implies 0 <= #[trigger] g2[x][c] < p by {
                    lemma_mod_bound(h[x][c] - ((h[x][j] * spec_inv(h[r][j], p)) % p) * h[r][c], p);
                }
                assert forall|x: int| 0 <= x < n implies (#[trigger] g2[x]).len() == n by {}
                lemma_rank_from_bound(g2, n, p, r + 1, j + 1, b2);
            },
        }
    }
}

/// A matrix over **F**ₚ whose rows all lie in the span of `basis` has rank at
/// most the number of vectors in `basis`: *L* vectors span a space of
/// dimension at most *L*, and the rank is the dimension of the row space. This
/// is what makes the rank test detect a generator that is linear over **F**ₚ.
pub proof fn lemma_rank_at_most_span(m: Seq<u64>, n: nat, p: int, basis: Seq<Seq<int>>)
    requires
        p >= 2,
        spec_is_prime(p as nat),
        m.len() == n * n,
        reduced(m, p as nat),
        forall|x: int| 0 <= x < n ==> in_span(#[trigger] to_rows(m, n)[x], basis, 0, n as int, p),
    ensures
        spec_rank(m, n, p as nat) <= basis.len(),
{
    lemma_prime_fermat_inverses(p);
    let g = to_rows(m, n);
    assert forall|x: int, c: int| 0 <= x < n && 0 <= c < n implies 0 <= #[trigger] g[x][c] < p by {
        assert(x * n + c < n * n) by (nonlinear_arith)
            requires
                0 <= x < n,
                0 <= c < n,
        ;
        assert(0 <= x * n) by (nonlinear_arith)
            requires
                0 <= x,
                0 <= n,
        ;
        assert(m[x * n + c] < p);
    }
    assert forall|x: int| 0 <= x < n implies (#[trigger] g[x]).len() == n by {}
    lemma_rank_from_bound(g, n as int, p, 0, 0, basis);
}

// ---------------------------------------------------------------------------
// The pivots span the rows.
// ---------------------------------------------------------------------------

/// Appending a vector `w` with coefficient `f` adds `f`·`w`.
proof fn lemma_comb_push(a: Seq<int>, basis: Seq<Seq<int>>, f: int, w: Seq<int>, c: int)
    requires
        a.len() == basis.len(),
    ensures
        comb(a.push(f), basis.push(w), c) == comb(a, basis, c) + f * w[c],
{
    let a2 = a.push(f);
    let b2 = basis.push(w);
    lemma_sum_ext(|t: int| a2[t] * b2[t][c], |t: int| a[t] * basis[t][c], basis.len());
}

/// The basis with every vector's entry in column `j` set to 0.
pub open spec fn clear_column(basis: Seq<Seq<int>>, j: int) -> Seq<Seq<int>> {
    Seq::new(basis.len(), |t: int| basis[t].update(j, 0))
}

/// Clearing column `j` changes a combination only in column `j`, where it
/// becomes 0.
proof fn lemma_comb_clear(a: Seq<int>, basis: Seq<Seq<int>>, j: int, n: int, c: int)
    requires
        a.len() == basis.len(),
        forall|t: int| 0 <= t < basis.len() ==> (#[trigger] basis[t]).len() == n,
        0 <= j < n,
        0 <= c < n,
    ensures
        comb(a, clear_column(basis, j), c) == (if c == j { 0 } else { comb(a, basis, c) }),
{
    let b2 = clear_column(basis, j);
    if c == j {
        assert forall|t: int| 0 <= t < basis.len() implies #[trigger] (a[t] * b2[t][c]) == 0 by {
            assert(b2[t][c] == 0);
        }
        lemma_sum_zero(|t: int| a[t] * b2[t][c], basis.len());
    } else {
        lemma_sum_ext(|t: int| a[t] * b2[t][c], |t: int| a[t] * basis[t][c], basis.len());
    }
}

/// Gaussian elimination from row `r` and column `j` yields a basis, as many
/// vectors as it finds pivots, whose span holds the remaining rows on the
/// remaining columns: the pivot rows, each padded to the full width.
proof fn lemma_rank_from_spans(g: Seq<Seq<int>>, n: int, p: int, r: int, j: int) -> (basis: Seq<Seq<int>>)
    requires
        p >= 2,
        fermat_inverses(p),
        0 <= r,
        0 <= j,
        g.len() == n,
        forall|x: int| 0 <= x < n ==> (#[trigger] g[x]).len() == n,
        forall|x: int, c: int| r <= x < n && j <= c < n ==> 0 <= #[trigger] g[x][c] < p,
    ensures
        basis.len() == rank_from(g, n, p, r, j) - r,
        forall|t: int| 0 <= t < basis.len() ==> (#[trigger] basis[t]).len() == n,
        forall|x: int| r <= x < n ==> in_span(#[trigger] g[x], basis, j, n, p),
    decreases n - j,
{
    if j >= n || r >= n {
        let basis = Seq::<Seq<int>>::empty();
        assert forall|x: int| r <= x < n implies in_span(#[trigger] g[x], basis, j, n, p) by {
            assert(represents(g[x], Seq::<int>::empty(), basis, j, n, p));
        }
        basis
    } else {
        match pivot_from(g, r, j, n) {
            None => {
                lemma_pivot_none_zero(g, r, j, n);
                let b = lemma_rank_from_spans(g, n, p, r, j + 1);
                let b2 = clear_column(b, j);
                assert forall|x: int| r <= x < n implies in_span(#[trigger] g[x], b2, j, n, p) by {
                    let j1 = j + 1;
                    let a = choose|a: Seq<int>| represents(g[x], a, b, j1, n, p);
                    assert forall|c: int| j <= c < n implies g[x][c] % p == #[trigger] comb(a, b2, c) % p by {
                        lemma_comb_clear(a, b, j, n, c);
                        if c == j {
                            assert(g[x][j] == 0);
                            lemma_small_mod(0, p as nat);
                        }
                    }
                    assert(represents(g[x], a, b2, j, n, p));
                }
                b2
            },
            Some(i) => {
                lemma_pivot_some(g, r, j, n, i);
                let h = swap_rows(g, i, r);
                assert forall|x: int| 0 <= x < n implies #[trigger] h[x] == (if x == r {
                    g[i]
                } else if x == i {
                    g[r]
                } else {
                    g[x]
                }) by {}
                let g2 = eliminate_below(h, r, j, p);
                assert forall|x: int, c: int| r + 1 <= x < n && j + 1 <= c < n implies 0 <= #[trigger] g2[x][c] < p by {
                    lemma_mod_bound(h[x][c] - ((h[x][j] * spec_inv(h[r][j], p)) % p) * h[r][c], p);
                }
                assert forall|x: int| 0 <= x < n implies (#[trigger] g2[x]).len() == n by {}
                let b = lemma_rank_from_spans(g2, n, p, r + 1, j + 1);
                let w = h[r];
                let winv = spec_inv(w[j], p);
                assert(0 < w[j] < p);
                assert((w[j] * winv) % p == 1);
                let k = b.len();
                let b2 = clear_column(b, j).push(w);
                assert forall|t: int| 0 <= t < b2.len() implies (#[trigger] b2[t]).len() == n by {}
                assert forall|x: int| r <= x < n implies in_span(#[trigger] h[x], b2, j, n, p) by {
                    if x == r {
                        let a2 = Seq::new(k, |t: int| 0int).push(1);
                        assert forall|c: int| j <= c < n implies h[x][c] % p == #[trigger] comb(a2, b2, c) % p by {
                            let z = Seq::new(k, |t: int| 0int);
                            lemma_comb_push(z, clear_column(b, j), 1, w, c);
                            lemma_sum_zero(|t: int| z[t] * clear_column(b, j)[t][c], k);
                        }
                        assert(represents(h[x], a2, b2, j, n, p));
                    } else {
                        let j1 = j + 1;
                        let a = choose|a: Seq<int>| represents(g2[x], a, b, j1, n, p);
                        let v = h[x];
                        let f = (v[j] * winv) % p;
                        let a2 = a.push(f);
                        lemma_pivot_clears(v[j], w[j], winv, p);
                        assert forall|c: int| j <= c < n implies v[c] % p == #[trigger] comb(a2, b2, c) % p by {
                            lemma_comb_push(a, clear_column(b, j), f, w, c);
                            lemma_comb_clear(a, b, j, n, c);
                            if c == j {
                                lemma_small_mod(0, p as nat);
                                lemma_mod_equivalence(v[j], f * w[j], p);
                                assert(comb(a2, b2, c) == 0 + f * w[j]);
                            } else {
                                let y = comb(a, b, c);
                                assert(g2[x][c] == (v[c] - f * w[c]) % p);
                                assert(y % p == g2[x][c] % p);
                                lemma_mod_twice(v[c] - f * w[c], p);
                                lemma_add_mod_noop(y, f * w[c], p);
                                lemma_add_mod_noop(v[c] - f * w[c], f * w[c], p);
                                assert(v[c] - f * w[c] + f * w[c] == v[c]);
                            }
                        }
                        assert(represents(v, a2, b2, j, n, p));
                    }
                }
                assert forall|x: int| r <= x < n implies in_span(#[trigger] g[x], b2, j, n, p) by {
                    if x == r {
                        assert(h[i] == g[x]);
                    } else if x == i {
                        assert(h[r] == g[x]);
                    } else {
                        assert(h[x] == g[x]);
                    }
                }
                b2
            },
        }
    }
}

/// With no pivot, column `j` is zero at and below row `r`.
proof fn lemma_pivot_none_zero(g: Seq<Seq<int>>, r: int, j: int, n: int)
    requires
        pivot_from(g, r, j, n) == None::<int>,
    ensures
        forall|x: int| r <= x < n ==> #[trigger] g[x][j] == 0,
    decreases n - r,
{
    if r < n {
        lemma_pivot_none_zero(g, r + 1, j, n);
    }
}

/// The rows of a matrix over **F**ₚ lie in the span of as many vectors as its
/// rank: the pivot rows of the elimination. With [lemma_rank_at_most_span],
/// [spec_rank] is the least number of vectors whose span holds the rows, that
/// is, the dimension of the row space.
pub proof fn lemma_rank_rows_span(m: Seq<u64>, n: nat, p: int) -> (basis: Seq<Seq<int>>)
    requires
        p >= 2,
        spec_is_prime(p as nat),
        m.len() == n * n,
        reduced(m, p as nat),
    ensures
        basis.len() == spec_rank(m, n, p as nat),
        forall|x: int| 0 <= x < n ==> in_span(#[trigger] to_rows(m, n)[x], basis, 0, n as int, p),
{
    lemma_prime_fermat_inverses(p);
    let g = to_rows(m, n);
    assert forall|x: int, c: int| 0 <= x < n && 0 <= c < n implies 0 <= #[trigger] g[x][c] < p by {
        assert(x * n + c < n * n) by (nonlinear_arith)
            requires
                0 <= x < n,
                0 <= c < n,
        ;
        assert(0 <= x * n) by (nonlinear_arith)
            requires
                0 <= x,
                0 <= n,
        ;
        assert(m[x * n + c] < p);
    }
    assert forall|x: int| 0 <= x < n implies (#[trigger] g[x]).len() == n by {}
    lemma_rank_from_spans(g, n as int, p, 0, 0)
}

// ---------------------------------------------------------------------------
// The windows of a linearly recurrent stream.
// ---------------------------------------------------------------------------

/// The `n` elements of `s` from position `q` on.
pub open spec fn window(s: Seq<u64>, q: int, n: nat) -> Seq<int> {
    Seq::new(n, |c: int| s[q + c] as int)
}

/// The `l` windows of length `n` at positions 0 . . `l`.
pub open spec fn first_windows(s: Seq<u64>, l: nat, n: nat) -> Seq<Seq<int>> {
    Seq::new(l, |i: int| window(s, i, n))
}

/// The coefficient of the `i`-th of the first `l` windows in the window at
/// position `q`, for a stream that the register `c` of length `l` generates:
/// the unit vectors for `q` < `l`, and −Σ_{1≤*t*≤`l`} `c`[*t*] times the
/// coefficients at `q` − *t* from then on.
pub open spec fn rec_coef(c: Seq<int>, l: nat, q: nat, i: int) -> int
    decreases q, 1nat, 0nat,
{
    if q < l {
        if q == i {
            1
        } else {
            0
        }
    } else {
        -rec_taps(c, l, q, i, l)
    }
}

/// Σ_{1≤*u*≤`t`} `c`[*u*] · [rec_coef](`c`, `l`, `q` − *u*, `i`).
pub open spec fn rec_taps(c: Seq<int>, l: nat, q: nat, i: int, t: nat) -> int
    decreases q, 0nat, t,
{
    if t == 0 {
        0
    } else {
        rec_taps(c, l, q, i, (t - 1) as nat) + c[t as int] * (if t <= q {
            rec_coef(c, l, (q - t) as nat, i)
        } else {
            0
        })
    }
}

/// The coefficients of the window at `q` (see [rec_coef]).
pub open spec fn rec_coefs(c: Seq<int>, l: nat, q: nat) -> Seq<int> {
    Seq::new(l, |i: int| rec_coef(c, l, q, i))
}

proof fn lemma_rec_taps_sum(c: Seq<int>, l: nat, q: nat, i: int, t: nat)
    requires
        t <= q,
    ensures
        rec_taps(c, l, q, i, t) == sum(|u: int| c[u + 1] * rec_coef(c, l, (q - u - 1) as nat, i), t),
    decreases t,
{
    if t > 0 {
        lemma_rec_taps_sum(c, l, q, i, (t - 1) as nat);
        assert((q - (t - 1) - 1) as nat == (q - t) as nat);
    }
}

/// The taps of a register at position `k`, with the constant term apart.
proof fn lemma_conv_sum(c: Seq<int>, s: Seq<u64>, k: int, t: nat)
    ensures
        conv(c, s, k, t + 1) == c[0] * s[k] + sum(|u: int| c[u + 1] * s[k - u - 1], t),
    decreases t,
{
    if t == 0 {
        assert(conv(c, s, k, 0) == 0);
    } else {
        lemma_conv_sum(c, s, k, (t - 1) as nat);
        assert(k - (t - 1) - 1 == k - t);
    }
}

/// Every window of length `n` of a stream that the register `c` of length `l`
/// generates is, modulo `p`, the combination of the first `l` windows with
/// coefficients [rec_coefs].
proof fn lemma_window_comb(s: Seq<u64>, c: Seq<int>, l: nat, p: int, n: nat, q: nat)
    requires
        p >= 2,
        c[0] == 1,
        generates(c, l, s, p),
        q + n <= s.len(),
    ensures
        forall|cc: int|
            0 <= cc < n ==> #[trigger] window(s, q as int, n)[cc] % p == comb(rec_coefs(c, l, q), first_windows(s, l, n), cc)
                % p,
    decreases q,
{
    let b = first_windows(s, l, n);
    let a = rec_coefs(c, l, q);
    if q < l {
        assert forall|cc: int| 0 <= cc < n implies #[trigger] window(s, q as int, n)[cc] % p == comb(a, b, cc) % p by {
            let f = |i: int| a[i] * b[i][cc];
            assert forall|i: int| 0 <= i < l && i != q implies #[trigger] f(i) == 0 by {}
            lemma_sum_single(f, l, q as int);
            assert(f(q as int) == b[q as int][cc]);
        }
    } else {
        assert forall|cc: int| 0 <= cc < n implies #[trigger] window(s, q as int, n)[cc] % p == comb(a, b, cc) % p by {
            let ff = |i: int, u: int| c[u + 1] * (rec_coef(c, l, (q - u - 1) as nat, i) * b[i][cc]);
            // Each term of the combination is minus a row sum of ff.
            let terms = |i: int| a[i] * b[i][cc];
            let rows = |i: int| row_sum(ff, l, i);
            let zero = |i: int| 0int;
            assert forall|i: int| 0 <= i < l implies #[trigger] terms(i) == zero(i) - 1 * rows(i) by {
                lemma_rec_taps_sum(c, l, q, i, l);
                let taps = |u: int| c[u + 1] * rec_coef(c, l, (q - u - 1) as nat, i);
                let x = b[i][cc];
                let fi = |u: int| ff(i, u);
                assert forall|u: int| 0 <= u < l implies #[trigger] fi(u) == taps(u) * x by {
                    let cu = c[u + 1];
                    let r = rec_coef(c, l, (q - u - 1) as nat, i);
                    assert(cu * (r * x) == (cu * r) * x) by (nonlinear_arith);
                }
                lemma_sum_scale(taps, fi, x, l);
                assert(a[i] == -sum(taps, l));
                assert(-sum(taps, l) * x == -(sum(taps, l) * x)) by (nonlinear_arith);
            }
            lemma_sum_linear(zero, rows, terms, 1, l);
            lemma_sum_zero(zero, l);
            lemma_sum_swap(ff, l, l);
            // Each column sum is a coefficient of the register times an
            // earlier window's combination.
            let cols = |u: int| col_sum(ff, l, u);
            let earlier = |u: int| c[u + 1] * s[(q + cc) - u - 1] as int;
            assert forall|u: int| 0 <= u < l implies #[trigger] cols(u) % p == earlier(u) % p by {
                let q2 = (q - u - 1) as nat;
                lemma_window_comb(s, c, l, p, n, q2);
                let a2 = rec_coefs(c, l, q2);
                let g = |i: int| a2[i] * b[i][cc];
                let g2 = |i: int| rec_coef(c, l, q2, i) * b[i][cc];
                lemma_sum_ext(g, g2, l);
                let fu = |i: int| ff(i, u);
                assert forall|i: int| 0 <= i < l implies #[trigger] fu(i) == g2(i) * c[u + 1] by {
                    let r = rec_coef(c, l, q2, i);
                    let x = b[i][cc];
                    let cu = c[u + 1];
                    assert(cu * (r * x) == (r * x) * cu) by (nonlinear_arith);
                }
                lemma_sum_scale(g2, fu, c[u + 1], l);
                let y = comb(a2, b, cc);
                assert(cols(u) == y * c[u + 1]);
                assert(window(s, q - u - 1, n)[cc] % p == y % p);
                assert(window(s, q - u - 1, n)[cc] == s[(q + cc) - u - 1] as int);
                lemma_mul_mod_noop_left(y, c[u + 1], p);
                lemma_mul_mod_noop_left(s[(q + cc) - u - 1] as int, c[u + 1], p);
                assert(y * c[u + 1] == c[u + 1] * y) by (nonlinear_arith);
                assert(s[(q + cc) - u - 1] as int * c[u + 1] == c[u + 1] * s[(q + cc) - u - 1] as int) by (nonlinear_arith);
            }
            lemma_sum_congruent(cols, earlier, l, p);
            // The register: s[q + cc] + Σ earlier ≡ 0.
            lemma_conv_sum(c, s, q + cc, l);
            assert(conv(c, s, q + cc, l + 1) % p == 0);
            let x = s[q + cc] as int;
            let big_a = sum(cols, l);
            let big_g = sum(earlier, l);
            assert(conv(c, s, q + cc, l + 1) == x + big_g);
            assert(comb(a, b, cc) == -big_a);
            lemma_add_mod_noop(x, big_a, p);
            lemma_add_mod_noop(x, big_g, p);
            assert((x + big_a) % p == 0);
            assert(x - (-big_a) == x + big_a);
            lemma_mod_equivalence(x, -big_a, p);
        }
    }
}

/// A square matrix filled, row after row, with a stream that a register of
/// length `l` generates over **F**ₚ has rank at most `l`: every row lies in the
/// span of the first `l` windows of the stream. This is why a generator of
/// linear complexity *L* yields rank-deficient matrices of side above *L*.
pub proof fn lemma_rank_of_recurrent_stream(s: Seq<u64>, n: nat, p: int, c: Seq<int>, l: nat)
    requires
        p >= 2,
        spec_is_prime(p as nat),
        s.len() == n * n,
        reduced(s, p as nat),
        c[0] == 1,
        generates(c, l, s, p),
    ensures
        spec_rank(s, n, p as nat) <= l,
{
    let b = first_windows(s, l, n);
    assert forall|x: int| 0 <= x < n implies in_span(#[trigger] to_rows(s, n)[x], b, 0, n as int, p) by {
        assert(x * n + n <= n * n) by (nonlinear_arith)
            requires
                0 <= x < n,
        ;
        assert(0 <= x * n) by (nonlinear_arith)
            requires
                0 <= x,
        ;
        let q = (x * n) as nat;
        lemma_window_comb(s, c, l, p, n, q);
        let a = rec_coefs(c, l, q);
        assert forall|cc: int| 0 <= cc < n implies to_rows(s, n)[x][cc] % p == #[trigger] comb(a, b, cc) % p by {
            assert(window(s, q as int, n)[cc] % p == comb(a, b, cc) % p);
        }
        assert(represents(to_rows(s, n)[x], a, b, 0, n as int, p));
    }
    lemma_rank_at_most_span(s, n, p, b);
}

/// The rank of a square matrix filled, row after row, with a sequence over a
/// field of prime order is at most the linear complexity of that sequence:
/// the two tests measure the same linear structure, and the rank test sees
/// any deficiency the linear-complexity test sees.
pub proof fn lemma_rank_at_most_linear_complexity(s: Seq<u64>, n: nat, p: int)
    requires
        p >= 2,
        spec_is_prime(p as nat),
        n >= 1,
        s.len() == n * n,
        reduced(s, p as nat),
    ensures
        spec_rank(s, n, p as nat) <= spec_linear_complexity(s, p),
{
    assert(n * n >= 1) by (nonlinear_arith)
        requires
            n >= 1,
    ;
    assert forall|i: int| 0 <= i < s.len() implies #[trigger] s[i] < p as nat by {}
    lemma_linear_complexity_register_generates(s, p);
    let st = bm_state(s, p, s.len());
    lemma_rank_of_recurrent_stream(s, n, p, st.c, st.l);
}

} // verus!
