//! Rank of a square matrix over **F**_ₚ_ by blocked Gaussian elimination.
use crate::fp::{Field, spec_inv};
use rayon::iter::ParallelIterator;
use rayon::slice::ParallelSliceMut;
use vstd::arithmetic::div_mod::*;
use vstd::arithmetic::mul::*;
use vstd::prelude::*;

verus! {

/// Column-panel width for the blocked elimination: the trailing update is
/// deferred and applied once per panel of this many columns, cutting passes
/// over the (out-of-cache) trailing submatrix by roughly this factor.
pub const PANEL: usize = 64;

/// Trailing column-tile width: the panel's reduced pivot rows, restricted to a
/// tile, stay resident in cache while every far row's tile is updated.
pub const TILE: usize = 256;

// ---------------------------------------------------------------------------
// The specification: Gaussian elimination, one column at a time.
// ---------------------------------------------------------------------------

/// The row-major `n` × `n` matrix `m` as a sequence of rows of integers.
pub open spec fn to_rows(m: Seq<u64>, n: nat) -> Seq<Seq<int>> {
    Seq::new(n, |r: int| Seq::new(n, |c: int| m[r * n + c] as int))
}

/// The first row index `i` ≥ `r` whose entry in column `j` is nonzero.
pub open spec fn pivot_from(g: Seq<Seq<int>>, r: int, j: int, n: int) -> Option<int>
    decreases n - r,
{
    if r >= n {
        None
    } else if g[r][j] != 0 {
        Some(r)
    } else {
        pivot_from(g, r + 1, j, n)
    }
}

/// `g` with rows `a` and `b` exchanged.
pub open spec fn swap_rows(g: Seq<Seq<int>>, a: int, b: int) -> Seq<Seq<int>> {
    g.update(a, g[b]).update(b, g[a])
}

/// Eliminates column `j` below the pivot row `r`: every row `i` > `r` loses
/// *f*ᵢ times row `r`, with *f*ᵢ = `g[i][j]` · `g[r][j]`⁻¹, on the columns
/// right of `j` (column `j` itself, now dead, is left as is).
pub open spec fn eliminate_below(g: Seq<Seq<int>>, r: int, j: int, p: int) -> Seq<Seq<int>> {
    Seq::new(
        g.len(),
        |i: int|
            if i > r {
                let f = (g[i][j] * spec_inv(g[r][j], p)) % p;
                Seq::new(
                    g[i].len(),
                    |c: int|
                        if c > j {
                            (g[i][c] - f * g[r][c]) % p
                        } else {
                            g[i][c]
                        },
                )
            } else {
                g[i]
            },
    )
}

/// The number of pivots found by Gaussian elimination of `g` from row `r` and
/// column `j` on: each column either has no nonzero entry at or below row `r`,
/// or its first such row becomes the pivot row `r` and is eliminated below.
pub open spec fn rank_from(g: Seq<Seq<int>>, n: int, p: int, r: int, j: int) -> int
    decreases n - j,
{
    if j >= n || r >= n {
        r
    } else {
        match pivot_from(g, r, j, n) {
            None => rank_from(g, n, p, r, j + 1),
            Some(i) => rank_from(eliminate_below(swap_rows(g, i, r), r, j, p), n, p, r + 1, j + 1),
        }
    }
}

/// The rank over **F**_ₚ_ of the row-major `n` × `n` matrix `m`, as given by
/// Gaussian elimination (pivots by Fermat inverses, so this is the rank when
/// `p` is prime).
pub open spec fn spec_rank(m: Seq<u64>, n: nat, p: nat) -> int {
    rank_from(to_rows(m, n), n as int, p as int, 0, 0)
}

/// Every element of `s` is reduced modulo `p`.
pub open spec fn reduced(s: Seq<u64>, p: nat) -> bool {
    forall|i: int| 0 <= i < s.len() ==> #[trigger] s[i] < p
}

// ---------------------------------------------------------------------------
// Row kernels, applied to every far row in parallel.
// ---------------------------------------------------------------------------

/// Entry `c` of `row` after the panel step at pivot column `j` with pivot row
/// `prow` and pivot inverse `inv`: a row with a nonzero entry in column `j`
/// stores there its multiplier *f* and loses *f* · `prow` on the panel columns
/// (`j` . . `jend`); the trailing columns are left for later.
pub open spec fn panel_entry(row: Seq<u64>, c: int, j: int, jend: int, inv: int, prow: Seq<u64>, p: int) -> int {
    let e = row[j] as int;
    let f = (e * inv) % p;
    if e == 0 || c < j || c >= jend {
        row[c] as int
    } else if c == j {
        f
    } else {
        (row[c] - f * prow[c]) % p
    }
}

/// The panel step on one row (see [panel_entry]).
fn eliminate_panel_row(field: &Field, rr: &mut [u64], j: usize, jend: usize, inv: u64, prow: &[u64])
    requires
        old(rr)@.len() == prow@.len(),
        j < jend <= prow@.len(),
        inv < field.modulus(),
        reduced(old(rr)@, field.modulus()),
        reduced(prow@, field.modulus()),
    ensures
        final(rr)@.len() == old(rr)@.len(),
        reduced(final(rr)@, field.modulus()),
        forall|c: int|
            0 <= c < old(rr)@.len() ==> #[trigger] final(rr)@[c] as int == panel_entry(
                old(rr)@,
                c,
                j as int,
                jend as int,
                inv as int,
                prow@,
                field.modulus() as int,
            ),
{
    let ghost r0 = rr@;
    let ghost p = field.modulus() as int;
    let _ = field.modulus_u64();
    let e = rr[j];
    if e != 0 {
        let f = field.mul(e, inv);
        rr[j] = f; // store the multiplier instead of zero
        let mut c = j + 1;
        while c < jend
            invariant
                rr@.len() == r0.len(),
                prow@.len() == r0.len(),
                p == field.modulus(),
                p >= 2,
                j < c <= jend,
                jend <= r0.len(),
                e == r0[j as int],
                e != 0,
                f as int == (e as int * inv as int) % p,
                reduced(rr@, p as nat),
                reduced(prow@, p as nat),
                reduced(r0, p as nat),
                forall|k: int|
                    0 <= k < r0.len() ==> #[trigger] rr@[k] as int == (if k < c {
                        panel_entry(r0, k, j as int, jend as int, inv as int, prow@, p)
                    } else {
                        r0[k] as int
                    }),
            decreases jend - c,
        {
            let x = field.mul(f, prow[c]);
            let y = field.sub(rr[c], x);
            proof {
                lemma_sub_mod_noop_right(r0[c as int] as int, f as int * prow@[c as int] as int, p);
            }
            rr[c] = y;
            c += 1;
        }
    }
}

/// Σ_{*k*′<*k*} `row[pcols[k′]]` · `utile[ci·pb + k′]`: the correction of the
/// entry at tile column `ci`, with the multipliers stored in `row`.
pub open spec fn tile_dot(row: Seq<u64>, pcols: Seq<usize>, utile: Seq<u64>, pb: int, ci: int, k: nat) -> int
    decreases k,
{
    if k == 0 {
        0
    } else {
        tile_dot(row, pcols, utile, pb, ci, (k - 1) as nat) + row[pcols[k - 1] as int] as int
            * utile[ci * pb + k - 1] as int
    }
}

/// Entry `c` of `row` after the trailing update of the tile (`c0` . . `c0` + `w`).
pub open spec fn trailing_entry(
    row: Seq<u64>,
    c: int,
    pcols: Seq<usize>,
    utile: Seq<u64>,
    pb: int,
    c0: int,
    w: int,
    p: int,
) -> int {
    if c0 <= c < c0 + w {
        (row[c] - tile_dot(row, pcols, utile, pb, c - c0, pb as nat)) % p
    } else {
        row[c] as int
    }
}

proof fn lemma_tile_index(ci: int, pb: int, k: int, w: int)
    requires
        0 <= ci < w,
        0 <= k < pb,
    ensures
        0 <= ci * pb + k < w * pb,
        ci * pb + k < (ci + 1) * pb,
{
    assert(0 <= ci * pb + k < w * pb) by (nonlinear_arith)
        requires 0 <= ci < w, 0 <= k < pb;
    assert(ci * pb + k < (ci + 1) * pb) by (nonlinear_arith)
        requires 0 <= k < pb;
}

/// The trailing update of one far row on the tile (`c0` . . `c0` + `w`): each
/// entry sums its `pb` products in a `u128`, reducing once per
/// `safe_batch` products.
fn update_trailing_row(
    field: &Field,
    rr: &mut [u64],
    pcols: &[usize],
    utile: &[u64],
    pb: usize,
    c0: usize,
    w: usize,
)
    requires
        pb == pcols@.len(),
        pb <= PANEL,
        forall|k: int| 0 <= k < pb ==> #[trigger] pcols@[k] < c0,
        c0 + w <= old(rr)@.len(),
        w * pb <= utile@.len(),
        reduced(old(rr)@, field.modulus()),
        reduced(utile@, field.modulus()),
    ensures
        final(rr)@.len() == old(rr)@.len(),
        reduced(final(rr)@, field.modulus()),
        forall|c: int|
            0 <= c < old(rr)@.len() ==> #[trigger] final(rr)@[c] as int == trailing_entry(
                old(rr)@,
                c,
                pcols@,
                utile@,
                pb as int,
                c0 as int,
                w as int,
                field.modulus() as int,
            ),
{
    let ghost r0 = rr@;
    let pm = field.modulus_u64();
    let ghost p = pm as int;
    let sb = field.safe_batch();
    let ghost q = (p - 1) * (p - 1);
    let mut fs = [0u64; PANEL];
    let mut k: usize = 0;
    while k < pb
        invariant
            rr@ == r0,
            pb == pcols@.len(),
            pb <= PANEL,
            fs@.len() == PANEL,
            forall|k: int| 0 <= k < pb ==> #[trigger] pcols@[k] < c0,
            c0 <= r0.len(),
            0 <= k <= pb,
            forall|k2: int| 0 <= k2 < k ==> #[trigger] fs@[k2] == r0[pcols@[k2] as int],
        decreases pb - k,
    {
        fs[k] = rr[pcols[k]];
        k += 1;
    }
    let mut ci: usize = 0;
    while ci < w
        invariant
            rr@.len() == r0.len(),
            p == field.modulus(),
            p == pm,
            2 <= p,
            q == (p - 1) * (p - 1),
            sb >= 1,
            sb * q <= u128::MAX,
            pb == pcols@.len(),
            pb <= PANEL,
            fs@.len() == PANEL,
            forall|k: int| 0 <= k < pb ==> #[trigger] pcols@[k] < c0,
            forall|k2: int| 0 <= k2 < pb ==> #[trigger] fs@[k2] == r0[pcols@[k2] as int],
            c0 + w <= r0.len(),
            w * pb <= utile@.len(),
            reduced(r0, p as nat),
            reduced(utile@, p as nat),
            reduced(rr@, p as nat),
            0 <= ci <= w,
            forall|c: int|
                0 <= c < r0.len() ==> #[trigger] rr@[c] as int == (if c < c0 + ci {
                    trailing_entry(r0, c, pcols@, utile@, pb as int, c0 as int, w as int, p)
                } else {
                    r0[c] as int
                }),
        decreases w - ci,
    {
        assert(ci * pb + pb <= w * pb) by (nonlinear_arith) requires ci < w, pb >= 0;
        assert(utile@.len() == utile.len());
        assert(rr@.len() == rr.len());
        let base = ci * pb;
        let mut total: u64 = 0;
        let mut acc: u128 = 0;
        let mut cnt: usize = 0;
        let mut k: usize = 0;
        while k < pb
            invariant
                p == field.modulus(),
                p == pm,
                2 <= p,
                q == (p - 1) * (p - 1),
                sb >= 1,
                sb * q <= u128::MAX,
                pb == pcols@.len(),
                pb <= PANEL,
                fs@.len() == PANEL,
                forall|k2: int| 0 <= k2 < pb ==> #[trigger] fs@[k2] == r0[pcols@[k2] as int],
                forall|k: int| 0 <= k < pb ==> #[trigger] pcols@[k] < c0,
                c0 + w <= r0.len(),
                ci < w,
                base == ci * pb,
                base + pb <= w * pb,
                w * pb <= utile@.len(),
                utile@.len() == utile.len(),
                reduced(r0, p as nat),
                reduced(utile@, p as nat),
                0 <= k <= pb,
                total < p,
                cnt < sb,
                acc <= cnt * q,
                (total as int + acc as int) % p == tile_dot(r0, pcols@, utile@, pb as int, ci as int, k as nat) % p,
            decreases pb - k,
        {
            let a = fs[k];
            let b = utile[base + k];
            proof {
                assert(r0[pcols@[k as int] as int] < p);
                assert(utile@[base + k] < p);
                assert(a as int * b as int <= q) by (nonlinear_arith)
                    requires a < p, b < p, a >= 0, b >= 0, q == (p - 1) * (p - 1);
                assert(acc + a as int * b as int <= (cnt + 1) * q) by (nonlinear_arith)
                    requires acc <= cnt * q, a as int * b as int <= q;
                assert((cnt + 1) * q <= sb * q) by (nonlinear_arith)
                    requires cnt + 1 <= sb, q >= 0;
                lemma_add_mod_noop_right(total as int, acc as int + a as int * b as int, p);
            }
            let ghost old_sum = total as int + acc as int;
            acc += a as u128 * b as u128;
            cnt += 1;
            proof {
                assert(total as int + acc as int == old_sum + a as int * b as int);
                lemma_add_mod_noop(old_sum, a as int * b as int, p);
                lemma_add_mod_noop(tile_dot(r0, pcols@, utile@, pb as int, ci as int, k as nat), a as int * b as int, p);
            }
            if cnt == sb {
                let red = field.reduce_u128(acc);
                proof {
                    lemma_add_mod_noop_right(total as int, acc as int, p);
                }
                total = field.add(total, red);
                proof {
                    lemma_small_mod(total as nat, p as nat);
                }
                acc = 0;
                cnt = 0;
            }
            k += 1;
        }
        if cnt > 0 {
            let red = field.reduce_u128(acc);
            proof {
                lemma_add_mod_noop_right(total as int, acc as int, p);
            }
            total = field.add(total, red);
            proof {
                lemma_mod_twice(total as int, p);
            }
        } else {
            proof {
                lemma_small_mod(total as nat, p as nat);
            }
        }
        let c = c0 + ci;
        let y = field.sub(rr[c], total);
        proof {
            lemma_small_mod(total as nat, p as nat);
            lemma_sub_mod_noop_right(r0[c as int] as int, tile_dot(r0, pcols@, utile@, pb as int, ci as int, pb as nat), p);
        }
        rr[c] = y;
        ci += 1;
    }
}


// ---------------------------------------------------------------------------
// Parallel application of the row kernels.
// ---------------------------------------------------------------------------

/// Entry (`r`, `c`) of the row-major `n` × `n` matrix `m`.
pub open spec fn ent(m: Seq<u64>, n: int, r: int, c: int) -> int {
    m[r * n + c] as int
}

/// Row `r` of the row-major matrix `m` with `n` columns.
pub open spec fn row_of(m: Seq<u64>, n: int, r: int) -> Seq<u64> {
    m.subrange(r * n, r * n + n)
}

/// Applies [eliminate_panel_row] to every `n`-element row of `rows`, the rows
/// being handed out to rayon's thread pool by `par_chunks_mut(n).for_each`:
/// rayon passes each of the disjoint `n`-element chunks of the slice to the
/// closure exactly once (the length is a multiple of `n`, so every chunk is a
/// whole row; rayon refuses a chunk size of 0, hence `n` ≥ 1).
#[verifier::external_body]
fn par_rows_eliminate(field: &Field, rows: &mut [u64], n: usize, j: usize, jend: usize, inv: u64, prow: &[u64])
    requires
        1 <= n,
        (old(rows)@.len() as int) % (n as int) == 0,
        prow@.len() == n,
        j < jend <= n,
        inv < field.modulus(),
        reduced(old(rows)@, field.modulus()),
        reduced(prow@, field.modulus()),
    ensures
        final(rows)@.len() == old(rows)@.len(),
        reduced(final(rows)@, field.modulus()),
        forall|i: int, c: int|
            0 <= i && (i + 1) * n <= old(rows)@.len() && 0 <= c < n ==> #[trigger] row_of(final(rows)@, n as int, i)[c]
                as int == panel_entry(
                row_of(old(rows)@, n as int, i),
                c,
                j as int,
                jend as int,
                inv as int,
                prow@,
                field.modulus() as int,
            ),
{
    rows.par_chunks_mut(n).for_each(|rr| eliminate_panel_row(field, rr, j, jend, inv, prow));
}

/// Applies [update_trailing_row] to every `n`-element row of `rows`, the rows
/// being handed out to rayon's thread pool by `par_chunks_mut(n).for_each`,
/// which passes each of the disjoint `n`-element chunks of the slice to the
/// closure exactly once (the length is a multiple of `n`, so every chunk is a
/// whole row; rayon refuses a chunk size of 0, hence `n` ≥ 1).
#[verifier::external_body]
fn par_rows_update(
    field: &Field,
    rows: &mut [u64],
    n: usize,
    pcols: &[usize],
    utile: &[u64],
    c0: usize,
    w: usize,
)
    requires
        1 <= n,
        (old(rows)@.len() as int) % (n as int) == 0,
        pcols@.len() <= PANEL,
        forall|k: int| 0 <= k < pcols@.len() ==> #[trigger] pcols@[k] < c0,
        c0 + w <= n,
        w * pcols@.len() <= utile@.len(),
        reduced(old(rows)@, field.modulus()),
        reduced(utile@, field.modulus()),
    ensures
        final(rows)@.len() == old(rows)@.len(),
        reduced(final(rows)@, field.modulus()),
        forall|i: int, c: int|
            0 <= i && (i + 1) * n <= old(rows)@.len() && 0 <= c < n ==> #[trigger] row_of(final(rows)@, n as int, i)[c]
                as int == trailing_entry(
                row_of(old(rows)@, n as int, i),
                c,
                pcols@,
                utile@,
                pcols@.len() as int,
                c0 as int,
                w as int,
                field.modulus() as int,
            ),
{
    rows.par_chunks_mut(n).for_each(|rr| update_trailing_row(field, rr, pcols, utile, pcols.len(), c0, w));
}

/// Row `i` of `m` is row `i` − `start` of the rows from `start` on.
proof fn lemma_rows_from(m: Seq<u64>, n: int, start: int, i: int, c: int)
    requires
        0 <= start <= i < n,
        0 <= c < n,
        m.len() == n * n,
    ensures
        start * n <= i * n + c < n * n,
        (i - start) * n + c == i * n + c - start * n,
        (i - start + 1) * n <= n * n - start * n,
        row_of(m.subrange(start * n, n * n), n, i - start) == row_of(m, n, i),
        (m.subrange(start * n, n * n).len() as int) % n == 0,
{
    assert(start * n <= i * n) by (nonlinear_arith) requires start <= i, 0 <= n;
    assert(i * n + c < n * n) by (nonlinear_arith) requires i < n, c < n, 0 <= c;
    assert((i - start) * n + c == i * n + c - start * n) by (nonlinear_arith);
    assert((i - start + 1) * n == i * n + n - start * n) by (nonlinear_arith);
    assert(i * n + n <= n * n) by (nonlinear_arith) requires i < n, 0 <= n;
    assert(0 <= start * n <= n * n) by (nonlinear_arith) requires 0 <= start <= n, 0 <= n;
    assert(row_of(m.subrange(start * n, n * n), n, i - start) =~= row_of(m, n, i));
    assert(n * n - start * n == (n - start) * n) by (nonlinear_arith);
    lemma_mod_multiples_basic(n - start, n);
    assert((n - start) * n == n * (n - start)) by (nonlinear_arith);
}

/// Eliminates column `j` on the panel columns of every row below the pivot
/// row `r` with [eliminate_panel_row], in parallel; rows `0` . . `r` (the
/// pivot row among them) are left untouched.
fn par_eliminate_below(field: &Field, m: &mut [u64], n: usize, r: usize, j: usize, jend: usize, inv: u64)
    requires
        old(m)@.len() == n * n,
        r < n,
        j < jend <= n,
        inv < field.modulus(),
        reduced(old(m)@, field.modulus()),
    ensures
        final(m)@.len() == n * n,
        reduced(final(m)@, field.modulus()),
        forall|i: int| 0 <= i < (r + 1) * n ==> #[trigger] final(m)@[i] == old(m)@[i],
        forall|i: int, c: int|
            r < i < n && 0 <= c < n ==> #[trigger] ent(final(m)@, n as int, i, c) == panel_entry(
                row_of(old(m)@, n as int, i),
                c,
                j as int,
                jend as int,
                inv as int,
                row_of(old(m)@, n as int, r as int),
                field.modulus() as int,
            ),
{
    let ghost m0 = m@;
    let ghost nn = n as int;
    let ghost p = field.modulus();
    let len = m.len();
    proof {
        lemma_rows_from(m0, nn, r as int, r as int, 0);
        assert((r + 1) * n <= n * n) by (nonlinear_arith) requires r < n;
        assert(r * n <= (r + 1) * n) by (nonlinear_arith);
        assert((r + 1) * n == r * n + n) by (nonlinear_arith);
        assert(len == n * n);
    }
    let split = (r + 1) * n;
    let (head, tail) = m.split_at_mut(split);
    let (_, prow) = head.split_at(r * n);
    proof {
        assert(prow@ =~= row_of(m0, nn, r as int));
        assert forall|k: int| 0 <= k < prow@.len() implies #[trigger] prow@[k] < p by {
            assert(prow@[k] == m0[r * n + k]);
        }
        assert(tail@ =~= m0.subrange(split as int, nn * nn));
        assert forall|k: int| 0 <= k < tail@.len() implies #[trigger] tail@[k] < p by {
            assert(tail@[k] == m0[split + k]);
        }
        if r + 1 < n {
            lemma_rows_from(m0, nn, (r + 1) as int, (r + 1) as int, 0);
            assert(tail@.len() == m0.subrange((r + 1) * nn, nn * nn).len());
        } else {
            assert(tail@.len() == 0);
            lemma_small_mod(0, n as nat);
        }
    }
    let ghost t0 = tail@;
    par_rows_eliminate(field, tail, n, j, jend, inv, prow);
    proof {
        let mf = m@;
        assert(mf.len() == n * n);
        assert forall|i: int| 0 <= i < (r + 1) * n implies #[trigger] mf[i] == m0[i] by {}
        assert forall|k: int| 0 <= k < mf.len() implies #[trigger] mf[k] < p by {
            if k >= split {
                assert(mf[k] == tail@[k - split]);
            }
        }
        assert forall|i: int, c: int| r < i < n && 0 <= c < n implies #[trigger] ent(mf, nn, i, c) == panel_entry(
            row_of(m0, nn, i),
            c,
            j as int,
            jend as int,
            inv as int,
            row_of(m0, nn, r as int),
            p as int,
        ) by {
            lemma_rows_from(m0, nn, (r + 1) as int, i, c);
            let i2 = i - (r + 1);
            assert(tail@.len() == t0.len());
            assert(0 <= i2 * nn) by (nonlinear_arith) requires 0 <= i2, 0 <= nn;
            assert((i2 + 1) * nn == i2 * nn + nn) by (nonlinear_arith);
            assert(row_of(t0, nn, i2) == row_of(m0, nn, i));
            assert(row_of(tail@, nn, i2)[c] == tail@[i2 * nn + c]);
            assert(mf[i * nn + c] == tail@[i * nn + c - split]);
        }
    }
}

/// Applies [update_trailing_row] on the tile (`c0` . . `c0` + `w`) to every row
/// from `start` on, in parallel; the rows before `start` are left untouched.
fn par_update_trailing(
    field: &Field,
    m: &mut [u64],
    n: usize,
    start: usize,
    pcols: &Vec<usize>,
    utile: &Vec<u64>,
    c0: usize,
    w: usize,
)
    requires
        old(m)@.len() == n * n,
        1 <= n,
        start <= n,
        pcols@.len() <= PANEL,
        forall|k: int| 0 <= k < pcols@.len() ==> #[trigger] pcols@[k] < c0,
        c0 + w <= n,
        w * pcols@.len() <= utile@.len(),
        reduced(old(m)@, field.modulus()),
        reduced(utile@, field.modulus()),
    ensures
        final(m)@.len() == n * n,
        reduced(final(m)@, field.modulus()),
        forall|i: int| 0 <= i < start * n ==> #[trigger] final(m)@[i] == old(m)@[i],
        forall|i: int, c: int|
            start <= i < n && 0 <= c < n ==> #[trigger] ent(final(m)@, n as int, i, c) == trailing_entry(
                row_of(old(m)@, n as int, i),
                c,
                pcols@,
                utile@,
                pcols@.len() as int,
                c0 as int,
                w as int,
                field.modulus() as int,
            ),
{
    let ghost m0 = m@;
    let ghost nn = n as int;
    let ghost p = field.modulus();
    let len = m.len();
    proof {
        assert(start * n <= n * n) by (nonlinear_arith) requires start <= n;
        assert(len == n * n);
    }
    let split = start * n;
    let (_, rows) = m.split_at_mut(split);
    proof {
        assert(rows@ =~= m0.subrange(split as int, nn * nn));
        assert forall|k: int| 0 <= k < rows@.len() implies #[trigger] rows@[k] < p by {
            assert(rows@[k] == m0[split + k]);
        }
    }
    proof {
        if start < n {
            lemma_rows_from(m0, nn, start as int, start as int, 0);
            assert(rows@.len() == m0.subrange(start * nn, nn * nn).len());
        } else {
            assert(rows@.len() == 0);
            lemma_small_mod(0, n as nat);
        }
    }
    let ghost t0 = rows@;
    par_rows_update(field, rows, n, pcols.as_slice(), utile.as_slice(), c0, w);
    proof {
        let mf = m@;
        assert forall|i: int| 0 <= i < start * n implies #[trigger] mf[i] == m0[i] by {}
        assert forall|k: int| 0 <= k < mf.len() implies #[trigger] mf[k] < p by {
            if k >= split {
                assert(mf[k] == rows@[k - split]);
            }
        }
        assert forall|i: int, c: int| start <= i < n && 0 <= c < n implies #[trigger] ent(mf, nn, i, c) == trailing_entry(
            row_of(m0, nn, i),
            c,
            pcols@,
            utile@,
            pcols@.len() as int,
            c0 as int,
            w as int,
            p as int,
        ) by {
            lemma_rows_from(m0, nn, start as int, i, c);
            let i2 = i - start;
            assert(rows@.len() == t0.len());
            assert(0 <= i2 * nn) by (nonlinear_arith) requires 0 <= i2, 0 <= nn;
            assert((i2 + 1) * nn == i2 * nn + nn) by (nonlinear_arith);
            assert(row_of(t0, nn, i2) == row_of(m0, nn, i));
            assert(row_of(rows@, nn, i2)[c] == rows@[i2 * nn + c]);
            assert(mf[i * nn + c] == rows@[i * nn + c - split]);
        }
    }
}


// ---------------------------------------------------------------------------
// Index arithmetic and the bookkeeping of deferred updates.
// ---------------------------------------------------------------------------

proof fn lemma_ent_index(n: int, r: int, c: int)
    requires
        0 <= r < n,
        0 <= c < n,
    ensures
        0 <= r * n,
        r * n + c < n * n,
        r * n + n <= n * n,
        (r + 1) * n == r * n + n,
{
    assert(0 <= r * n) by (nonlinear_arith) requires 0 <= r, 0 <= n;
    assert(r * n + n <= n * n) by (nonlinear_arith) requires 0 <= r < n;
    assert((r + 1) * n == r * n + n) by (nonlinear_arith);
}

proof fn lemma_ent_distinct(n: int, r1: int, c1: int, r2: int, c2: int)
    requires
        0 <= c1 < n,
        0 <= c2 < n,
        r1 * n + c1 == r2 * n + c2,
    ensures
        r1 == r2,
        c1 == c2,
{
    assert(r1 == r2) by (nonlinear_arith)
        requires 0 <= c1 < n, 0 <= c2 < n, r1 * n + c1 == r2 * n + c2;
}

/// Σ_{*k*<`k`} `m[r][pcols[k]]` · `g[p0 + k][c]`: the correction owed to entry
/// (`r`, `c`) by the first `k` pivots of the current panel, with the
/// multipliers stored in `m` and the pivot rows taken from `g`.
pub open spec fn elim_sum(
    m: Seq<u64>,
    n: int,
    pcols: Seq<usize>,
    g: Seq<Seq<int>>,
    p0: int,
    r: int,
    c: int,
    k: nat,
) -> int
    decreases k,
{
    if k == 0 {
        0
    } else {
        elim_sum(m, n, pcols, g, p0, r, c, (k - 1) as nat) + ent(m, n, r, pcols[k - 1] as int) * g[p0 + k
            - 1][c]
    }
}

proof fn lemma_elim_sum_step(
    m: Seq<u64>,
    n: int,
    pcols: Seq<usize>,
    g: Seq<Seq<int>>,
    p0: int,
    r: int,
    c: int,
    k: nat,
)
    ensures
        elim_sum(m, n, pcols, g, p0, r, c, k + 1) == elim_sum(m, n, pcols, g, p0, r, c, k) + ent(
            m,
            n,
            r,
            pcols[k as int] as int,
        ) * g[p0 + k][c],
{
    assert(((k + 1) as nat - 1) as nat == k);
}

proof fn lemma_block_index(k: int, c: int, n: int)
    requires
        0 <= k < PANEL,
        0 <= c < n,
    ensures
        0 <= k * n + c < PANEL * n,
        0 <= k * n,
{
    assert(0 <= k * n + c < PANEL * n) by (nonlinear_arith) requires 0 <= k < PANEL, 0 <= c < n;
    assert(0 <= k * n) by (nonlinear_arith) requires 0 <= k, 0 <= n;
}

proof fn lemma_elim_sum_congr(
    m1: Seq<u64>,
    m2: Seq<u64>,
    n: int,
    pc1: Seq<usize>,
    pc2: Seq<usize>,
    g1: Seq<Seq<int>>,
    g2: Seq<Seq<int>>,
    p0: int,
    r1: int,
    r2: int,
    c: int,
    k: nat,
)
    requires
        forall|k2: int|
            0 <= k2 < k ==> ent(m1, n, r1, #[trigger] pc1[k2] as int) == ent(m2, n, r2, pc2[k2] as int),
        forall|k2: int| 0 <= k2 < k ==> #[trigger] g1[p0 + k2][c] == g2[p0 + k2][c],
    ensures
        elim_sum(m1, n, pc1, g1, p0, r1, c, k) == elim_sum(m2, n, pc2, g2, p0, r2, c, k),
    decreases k,
{
    if k > 0 {
        lemma_elim_sum_congr(m1, m2, n, pc1, pc2, g1, g2, p0, r1, r2, c, (k - 1) as nat);
        assert(g1[p0 + (k - 1)][c] == g2[p0 + (k - 1)][c]);
        assert(pc1[k - 1] == pc1[(k - 1) as int]);
    }
}

proof fn lemma_tile_dot_is_elim_sum(
    m: Seq<u64>,
    n: int,
    pcols: Seq<usize>,
    g: Seq<Seq<int>>,
    p0: int,
    r: int,
    utile: Seq<u64>,
    pb: int,
    c0: int,
    ci: int,
    k: nat,
)
    requires
        0 <= r < n,
        m.len() == n * n,
        k <= pb,
        forall|k2: int| 0 <= k2 < pb ==> 0 <= #[trigger] pcols[k2] < n,
        forall|k2: int| 0 <= k2 < pb ==> #[trigger] utile[ci * pb + k2] == g[p0 + k2][c0 + ci],
    ensures
        tile_dot(row_of(m, n, r), pcols, utile, pb, ci, k) == elim_sum(m, n, pcols, g, p0, r, c0 + ci, k),
    decreases k,
{
    if k > 0 {
        lemma_tile_dot_is_elim_sum(m, n, pcols, g, p0, r, utile, pb, c0, ci, (k - 1) as nat);
        let pc = pcols[k - 1] as int;
        lemma_ent_index(n, r, pc);
        assert(utile[ci * pb + (k - 1)] == g[p0 + (k - 1)][c0 + ci]);
        assert(row_of(m, n, r)[pc] == m[r * n + pc]);
    }
}

/// The first nonzero entry of column `j` at or below row `r` is at row `i`.
proof fn lemma_pivot_found(g: Seq<Seq<int>>, r: int, j: int, n: int, i: int)
    requires
        r <= i < n,
        g[i][j] != 0,
        forall|k: int| r <= k < i ==> #[trigger] g[k][j] == 0,
    ensures
        pivot_from(g, r, j, n) == Some(i),
    decreases i - r,
{
    if r < i {
        lemma_pivot_found(g, r + 1, j, n, i);
    }
}

/// Column `j` is zero at and below row `r`.
proof fn lemma_pivot_none(g: Seq<Seq<int>>, r: int, j: int, n: int)
    requires
        r <= n,
        forall|k: int| r <= k < n ==> #[trigger] g[k][j] == 0,
    ensures
        pivot_from(g, r, j, n) == None::<int>,
    decreases n - r,
{
    if r < n {
        lemma_pivot_none(g, r + 1, j, n);
    }
}

/// `g` is an `n` × `n` matrix of elements of **F**_ₚ_.
pub open spec fn square_reduced(g: Seq<Seq<int>>, n: int, p: int) -> bool {
    &&& g.len() == n
    &&& forall|r: int| 0 <= r < n ==> (#[trigger] g[r]).len() == n
    &&& forall|r: int, c: int| 0 <= r < n && 0 <= c < n ==> 0 <= #[trigger] g[r][c] < p
}

/// Exchanges rows `a` and `b` of the row-major `n` × `n` matrix `m`.
fn swap_matrix_rows(m: &mut [u64], n: usize, a: usize, b: usize, Ghost(p): Ghost<nat>)
    requires
        old(m)@.len() == n * n,
        reduced(old(m)@, p),
        a < n,
        b < n,
        a != b,
    ensures
        final(m)@.len() == n * n,
        reduced(final(m)@, p),
        forall|r: int, c: int|
            0 <= r < n && 0 <= c < n ==> #[trigger] ent(final(m)@, n as int, r, c) == ent(
                old(m)@,
                n as int,
                if r == a {
                    b as int
                } else if r == b {
                    a as int
                } else {
                    r
                },
                c,
            ),
{
    let ghost m0 = m@;
    proof {
        lemma_ent_index(n as int, a as int, 0);
        lemma_ent_index(n as int, b as int, 0);
    }
    let mut c: usize = 0;
    while c < n
        invariant
            m@.len() == n * n,
            m.len() == n * n,
            m0.len() == n * n,
            reduced(m@, p),
            a < n,
            b < n,
            a != b,
            0 <= c <= n,
            a * n + n <= n * n,
            b * n + n <= n * n,
            forall|r: int, c2: int|
                0 <= r < n && 0 <= c2 < n ==> #[trigger] ent(m@, n as int, r, c2) == ent(
                    m0,
                    n as int,
                    if c2 < c && r == a {
                        b as int
                    } else if c2 < c && r == b {
                        a as int
                    } else {
                        r
                    },
                    c2,
                ),
        decreases n - c,
    {
        let ia = a * n + c;
        let ib = b * n + c;
        let ghost mp = m@;
        let x = m[ia];
        let y = m[ib];
        m[ia] = y;
        m[ib] = x;
        proof {
            assert forall|r: int, c2: int| 0 <= r < n && 0 <= c2 < n implies #[trigger] ent(m@, n as int, r, c2) == ent(
                m0,
                n as int,
                if c2 < c + 1 && r == a {
                    b as int
                } else if c2 < c + 1 && r == b {
                    a as int
                } else {
                    r
                },
                c2,
            ) by {
                lemma_ent_index(n as int, r, c2);
                assert(ent(mp, n as int, r, c2) == mp[r * n + c2]);
                assert(ent(mp, n as int, a as int, c as int) == ent(m0, n as int, a as int, c as int));
                assert(ent(mp, n as int, b as int, c as int) == ent(m0, n as int, b as int, c as int));
                if r * n + c2 == ia {
                    lemma_ent_distinct(n as int, r, c2, a as int, c as int);
                } else if r * n + c2 == ib {
                    lemma_ent_distinct(n as int, r, c2, b as int, c as int);
                } else {
                    if r == a && c2 == c {
                        assert(false);
                    }
                    if r == b && c2 == c {
                        assert(false);
                    }
                }
            }
        }
        c += 1;
    }
}


/// Entries (`r`, `c`) of `m` and `g` agree for `r_lo` ≤ `r` < `n` and
/// `c_lo` ≤ `c` < `c_hi`.
pub open spec fn agrees(m: Seq<u64>, n: int, g: Seq<Seq<int>>, r_lo: int, c_lo: int, c_hi: int) -> bool {
    forall|r: int, c: int|
        r_lo <= r < n && c_lo <= c < c_hi ==> #[trigger] ent(m, n, r, c) == g[r][c]
}

/// How many pivots of the current panel have been applied to row `r`: a
/// pivot row `p0 + k` received the first `k`, a row below all of them.
pub open spec fn applied(r: int, p0: int, rank: int) -> nat {
    if r < rank {
        (r - p0) as nat
    } else {
        (rank - p0) as nat
    }
}

/// On the trailing columns (`c` ≥ `jend`) of the rows touched by the current
/// panel, `m` holds the entries of `g` before the pivots applied to the row:
/// `g[r][c]` = `m[r][c]` − Σ_{*k*} `m[r][pcols[k]]` · `g[p0 + k][c]` (mod *p*).
pub open spec fn deferred(
    m: Seq<u64>,
    n: int,
    pcols: Seq<usize>,
    g: Seq<Seq<int>>,
    p0: int,
    rank: int,
    jend: int,
    p: int,
) -> bool {
    forall|r: int, c: int|
        p0 <= r < n && jend <= c < n ==> #[trigger] g[r][c] == (ent(m, n, r, c) - elim_sum(
            m,
            n,
            pcols,
            g,
            p0,
            r,
            c,
            applied(r, p0, rank),
        )) % p
}

/// The first row at or below `rank` whose entry in column `j` is nonzero.
fn find_pivot(m: &[u64], n: usize, rank: usize, j: usize) -> (pr: Option<usize>)
    requires
        m@.len() == n * n,
        rank < n,
        j < n,
    ensures
        match pr {
            Some(i) => rank <= i < n && ent(m@, n as int, i as int, j as int) != 0 && forall|k: int|
                rank <= k < i ==> #[trigger] ent(m@, n as int, k, j as int) == 0,
            None => forall|k: int| rank <= k < n ==> #[trigger] ent(m@, n as int, k, j as int) == 0,
        },
{
    let mut r = rank;
    while r < n
        invariant
            m@.len() == n * n,
            m.len() == n * n,
            rank <= r <= n,
            j < n,
            forall|k: int| rank <= k < r ==> #[trigger] ent(m@, n as int, k, j as int) == 0,
        decreases n - r,
    {
        proof { lemma_ent_index(n as int, r as int, j as int); }
        if m[r * n + j] != 0 {
            return Some(r);
        }
        r += 1;
    }
    None
}

/// The pivot rows of the current panel, restricted to the trailing columns and
/// reduced among themselves: `u[k·n + c]` = `g[p0 + k][c]` for `c` ≥ `jend`.
fn build_pivot_block(
    field: &Field,
    m: &[u64],
    n: usize,
    p0: usize,
    pcols: &Vec<usize>,
    jend: usize,
    u: &mut Vec<u64>,
    Ghost(g): Ghost<Seq<Seq<int>>>,
)
    requires
        m@.len() == n * n,
        reduced(m@, field.modulus()),
        square_reduced(g, n as int, field.modulus() as int),
        old(u)@.len() == PANEL * n,
        reduced(old(u)@, field.modulus()),
        pcols@.len() <= PANEL,
        p0 + pcols@.len() <= n,
        jend <= n,
        forall|k: int| 0 <= k < pcols@.len() ==> #[trigger] pcols@[k] < jend,
        deferred(m@, n as int, pcols@, g, p0 as int, p0 + pcols@.len(), jend as int, field.modulus() as int),
    ensures
        final(u)@.len() == PANEL * n,
        reduced(final(u)@, field.modulus()),
        forall|k: int, c: int|
            0 <= k < pcols@.len() && jend <= c < n ==> #[trigger] final(u)@[k * n + c] as int == g[p0 + k][c],
{
    let pm = field.modulus_u64();
    let ghost p = pm as int;
    let pb = pcols.len();
    let ghost rank = p0 + pb;
    assert(PANEL * n <= u.len());
    // Copy the trailing parts of the pivot rows.
    let mut k: usize = 0;
    while k < pb
        invariant
            m@.len() == n * n,
            u@.len() == PANEL * n,
            u.len() == PANEL * n,
            p == field.modulus(),
            p >= 2,
            reduced(m@, p as nat),
            reduced(u@, p as nat),
            pb == pcols@.len(),
            pb <= PANEL,
            p0 + pb <= n,
            jend <= n,
            0 <= k <= pb,
            forall|k2: int, c: int|
                0 <= k2 < k && jend <= c < n ==> #[trigger] u@[k2 * n + c] as int == ent(m@, n as int, p0 + k2, c),
        decreases pb - k,
    {
        let mut c = jend;
        while c < n
            invariant
                m@.len() == n * n,
                m.len() == n * n,
                u@.len() == PANEL * n,
                u.len() == PANEL * n,
                p == field.modulus(),
                reduced(m@, p as nat),
                reduced(u@, p as nat),
                pb <= PANEL,
                p0 + pb <= n,
                k < pb,
                jend <= c <= n,
                forall|k2: int, c2: int|
                    0 <= k2 < k && jend <= c2 < n ==> #[trigger] u@[k2 * n + c2] as int == ent(m@, n as int, p0 + k2, c2),
                forall|c2: int| jend <= c2 < c ==> #[trigger] u@[k * n + c2] as int == ent(m@, n as int, (p0 + k) as int, c2),
            decreases n - c,
        {
            proof {
                lemma_ent_index(n as int, (p0 + k) as int, c as int);
                assert(k * n + c < PANEL * n) by (nonlinear_arith) requires k < PANEL, c < n;
            }
            let x = m[(p0 + k) * n + c];
            let ghost up = u@;
            u.set(k * n + c, x);
            proof {
                assert forall|k2: int, c2: int|
                    0 <= k2 < k && jend <= c2 < n implies #[trigger] u@[k2 * n + c2] as int == ent(m@, n as int, p0 + k2, c2) by {
                    lemma_block_index(k2, c2, n as int);
                    if k2 * n + c2 == k * n + c {
                        lemma_ent_distinct(n as int, k2, c2, k as int, c as int);
                    }
                    assert(up[k2 * n + c2] as int == ent(m@, n as int, p0 + k2, c2));
                }
                assert forall|c2: int| jend <= c2 < c + 1 implies #[trigger] u@[k * n + c2] as int == ent(m@, n as int, (p0 + k) as int, c2) by {
                    lemma_block_index(k as int, c2, n as int);
                    if c2 < c {
                        if k * n + c2 == k * n + c {
                            assert(false);
                        }
                        assert(up[k * n + c2] as int == ent(m@, n as int, (p0 + k) as int, c2));
                    }
                }
            }
            c += 1;
        }
        k += 1;
    }
    if pb == 0 {
        return;
    }
    // The first pivot row received no correction: it already equals g.
    proof {
        assert forall|c: int| jend <= c < n implies #[trigger] u@[0 * n + c] as int == g[p0 as int][c] by {
            assert(applied(p0 as int, p0 as int, rank) == 0);
            assert(g[p0 as int][c] == (ent(m@, n as int, p0 as int, c) - elim_sum(m@, n as int, pcols@, g, p0 as int, p0 as int, c, 0)) % p);
            lemma_ent_index(n as int, p0 as int, c);
            lemma_small_mod(ent(m@, n as int, p0 as int, c) as nat, p as nat);
        }
    }
    // Reduce pivot row k by the pivot rows above it (a small triangular solve).
    let mut k: usize = 1;
    while k < pb
        invariant
            m@.len() == n * n,
            m.len() == n * n,
            u@.len() == PANEL * n,
            u.len() == PANEL * n,
            p == field.modulus(),
            p >= 2,
            reduced(m@, p as nat),
            reduced(u@, p as nat),
            square_reduced(g, n as int, p),
            pb == pcols@.len(),
            pb <= PANEL,
            rank == p0 + pb,
            p0 + pb <= n,
            jend <= n,
            forall|k: int| 0 <= k < pcols@.len() ==> #[trigger] pcols@[k] < jend,
            deferred(m@, n as int, pcols@, g, p0 as int, rank, jend as int, p),
            1 <= k <= pb,
            forall|k2: int, c: int|
                0 <= k2 < k && jend <= c < n ==> #[trigger] u@[k2 * n + c] as int == g[p0 + k2][c],
            forall|k2: int, c: int|
                k <= k2 < pb && jend <= c < n ==> #[trigger] u@[k2 * n + c] as int == ent(m@, n as int, p0 + k2, c),
        decreases pb - k,
    {
        let mut k2: usize = 0;
        proof {
            assert forall|c: int| jend <= c < n implies #[trigger] u@[k * n + c] as int == (ent(m@, n as int, (p0 + k) as int, c)
                - elim_sum(m@, n as int, pcols@, g, p0 as int, (p0 + k) as int, c, 0)) % p by {
                assert(u@[k * n + c] as int == ent(m@, n as int, p0 + k, c));
                lemma_ent_index(n as int, (p0 + k) as int, c);
                lemma_small_mod(ent(m@, n as int, (p0 + k) as int, c) as nat, p as nat);
            }
        }
        while k2 < k
            invariant
                m@.len() == n * n,
                m.len() == n * n,
                u@.len() == PANEL * n,
                u.len() == PANEL * n,
                p == field.modulus(),
                p >= 2,
                reduced(m@, p as nat),
                reduced(u@, p as nat),
                square_reduced(g, n as int, p),
                pb == pcols@.len(),
                pb <= PANEL,
                p0 + pb <= n,
                jend <= n,
                forall|k: int| 0 <= k < pcols@.len() ==> #[trigger] pcols@[k] < jend,
                1 <= k < pb,
                0 <= k2 <= k,
                forall|k3: int, c: int|
                    0 <= k3 < k && jend <= c < n ==> #[trigger] u@[k3 * n + c] as int == g[p0 + k3][c],
                forall|k3: int, c: int|
                    k < k3 < pb && jend <= c < n ==> #[trigger] u@[k3 * n + c] as int == ent(m@, n as int, p0 + k3, c),
                forall|c: int| jend <= c < n ==> #[trigger] u@[k * n + c] as int == (ent(m@, n as int, (p0 + k) as int, c)
                    - elim_sum(m@, n as int, pcols@, g, p0 as int, (p0 + k) as int, c, k2 as nat)) % p,
            decreases k - k2,
        {
            proof {
                lemma_ent_index(n as int, (p0 + k) as int, pcols@[k2 as int] as int);
            }
            let f = m[(p0 + k) * n + pcols[k2]];
            let ghost fi = ent(m@, n as int, (p0 + k) as int, pcols@[k2 as int] as int);
            if f != 0 {
                let mut c = jend;
                while c < n
                    invariant
                        u@.len() == PANEL * n,
                        u.len() == PANEL * n,
                        p == field.modulus(),
                        p >= 2,
                        reduced(u@, p as nat),
                        square_reduced(g, n as int, p),
                        pb <= PANEL,
                        p0 + pb <= n,
                        jend <= c <= n,
                        1 <= k < pb,
                        k2 < k,
                        f < p,
                        f as int == fi,
                        pb == pcols@.len(),
                        fi == ent(m@, n as int, (p0 + k) as int, pcols@[k2 as int] as int),
                        forall|k3: int, c2: int|
                            0 <= k3 < k && jend <= c2 < n ==> #[trigger] u@[k3 * n + c2] as int == g[p0 + k3][c2],
                        forall|k3: int, c2: int|
                            k < k3 < pb && jend <= c2 < n ==> #[trigger] u@[k3 * n + c2] as int == ent(m@, n as int, p0 + k3, c2),
                        forall|c2: int| c <= c2 < n ==> #[trigger] u@[k * n + c2] as int == (ent(m@, n as int, (p0 + k) as int, c2)
                            - elim_sum(m@, n as int, pcols@, g, p0 as int, (p0 + k) as int, c2, k2 as nat)) % p,
                        forall|c2: int| jend <= c2 < c ==> #[trigger] u@[k * n + c2] as int == (ent(m@, n as int, (p0 + k) as int, c2)
                            - elim_sum(m@, n as int, pcols@, g, p0 as int, (p0 + k) as int, c2, (k2 + 1) as nat)) % p,
                    decreases n - c,
                {
                    proof {
                        assert(k * n + c < PANEL * n) by (nonlinear_arith) requires k < PANEL, c < n;
                        assert(k2 * n + c < PANEL * n) by (nonlinear_arith) requires k2 < PANEL, c < n;
                    }
                    let ghost up = u@;
                    let x = field.mul(f, u[k2 * n + c]);
                    let y = field.sub(u[k * n + c], x);
                    proof {
                        let e = ent(m@, n as int, (p0 + k) as int, c as int);
                        let sm = elim_sum(m@, n as int, pcols@, g, p0 as int, (p0 + k) as int, c as int, k2 as nat);
                        let gg = g[p0 + k2][c as int];
                        assert(up[k2 * n + c] as int == gg);
                        assert(up[k * n + c] as int == (e - sm) % p);
                        lemma_sub_mod_noop(e - sm, f as int * gg, p);
                        lemma_mod_twice(e - sm, p);
                        lemma_mod_twice(f as int * gg, p);
                        lemma_elim_sum_step(m@, n as int, pcols@, g, p0 as int, (p0 + k) as int, c as int, k2 as nat);
                        assert(x as int == (f as int * gg) % p);
                        assert(y as int == ((e - sm) % p - (f as int * gg) % p) % p);
                        assert(y as int == (e - sm - f as int * gg) % p);
                        assert(elim_sum(m@, n as int, pcols@, g, p0 as int, (p0 + k) as int, c as int, (k2 + 1) as nat) == sm + fi * gg);
                        assert(y as int == (e - elim_sum(m@, n as int, pcols@, g, p0 as int, (p0 + k) as int, c as int, (k2 + 1) as nat)) % p);
                    }
                    u.set(k * n + c, y);
                    proof {
                        assert forall|k3: int, c2: int|
                            0 <= k3 < k && jend <= c2 < n implies #[trigger] u@[k3 * n + c2] as int == g[p0 + k3][c2] by {
                            lemma_block_index(k3, c2, n as int);
                            if k3 * n + c2 == k * n + c {
                                lemma_ent_distinct(n as int, k3, c2, k as int, c as int);
                            }
                            assert(up[k3 * n + c2] as int == g[p0 + k3][c2]);
                        }
                        assert forall|k3: int, c2: int|
                            k < k3 < pb && jend <= c2 < n implies #[trigger] u@[k3 * n + c2] as int == ent(m@, n as int, p0 + k3, c2) by {
                            lemma_block_index(k3, c2, n as int);
                            if k3 * n + c2 == k * n + c {
                                lemma_ent_distinct(n as int, k3, c2, k as int, c as int);
                            }
                            assert(up[k3 * n + c2] as int == ent(m@, n as int, p0 + k3, c2));
                        }
                        assert forall|c2: int| c + 1 <= c2 < n implies #[trigger] u@[k * n + c2] as int == (ent(m@, n as int, (p0 + k) as int, c2)
                            - elim_sum(m@, n as int, pcols@, g, p0 as int, (p0 + k) as int, c2, k2 as nat)) % p by {
                            lemma_block_index(k as int, c2, n as int);
                            assert(up[k * n + c2] as int == (ent(m@, n as int, (p0 + k) as int, c2)
                                - elim_sum(m@, n as int, pcols@, g, p0 as int, (p0 + k) as int, c2, k2 as nat)) % p);
                        }
                        assert forall|c2: int| jend <= c2 < c + 1 implies #[trigger] u@[k * n + c2] as int == (ent(m@, n as int, (p0 + k) as int, c2)
                            - elim_sum(m@, n as int, pcols@, g, p0 as int, (p0 + k) as int, c2, (k2 + 1) as nat)) % p by {
                            lemma_block_index(k as int, c2, n as int);
                            if c2 < c {
                                assert(up[k * n + c2] as int == (ent(m@, n as int, (p0 + k) as int, c2)
                                    - elim_sum(m@, n as int, pcols@, g, p0 as int, (p0 + k) as int, c2, (k2 + 1) as nat)) % p);
                            } else {
                                assert(u@[k * n + c2] == y);
                            }
                        }
                    }
                    c += 1;
                }
            } else {
                proof {
                    assert forall|c: int| jend <= c < n implies #[trigger] u@[k * n + c] as int == (ent(m@, n as int, (p0 + k) as int, c)
                        - elim_sum(m@, n as int, pcols@, g, p0 as int, (p0 + k) as int, c, (k2 + 1) as nat)) % p by {
                        lemma_elim_sum_step(m@, n as int, pcols@, g, p0 as int, (p0 + k) as int, c, k2 as nat);
                    }
                }
            }
            k2 += 1;
        }
        proof {
            assert forall|c: int| jend <= c < n implies #[trigger] u@[k * n + c] as int == g[p0 + k][c] by {
                assert(applied((p0 + k) as int, p0 as int, rank) == k);
                assert(g[(p0 + k) as int][c] == (ent(m@, n as int, (p0 + k) as int, c)
                    - elim_sum(m@, n as int, pcols@, g, p0 as int, (p0 + k) as int, c, applied((p0 + k) as int, p0 as int, rank))) % p);
            }
        }
        k += 1;
    }
}


/// The deferred trailing update of the panel: every row from `rank` on gets,
/// tile by tile, the corrections of all the panel's pivots at once, after
/// which it agrees with `g` on the columns from `jend` on.
fn trailing_update(
    field: &Field,
    m: &mut [u64],
    n: usize,
    rank: usize,
    p0: usize,
    pcols: &Vec<usize>,
    jend: usize,
    u: &Vec<u64>,
    utile: &mut Vec<u64>,
    Ghost(g): Ghost<Seq<Seq<int>>>,
)
    requires
        old(m)@.len() == n * n,
        reduced(old(m)@, field.modulus()),
        square_reduced(g, n as int, field.modulus() as int),
        u@.len() == PANEL * n,
        reduced(u@, field.modulus()),
        old(utile)@.len() == PANEL * TILE,
        reduced(old(utile)@, field.modulus()),
        pcols@.len() <= PANEL,
        p0 + pcols@.len() == rank,
        rank <= n,
        jend <= n,
        forall|k: int| 0 <= k < pcols@.len() ==> #[trigger] pcols@[k] < jend,
        forall|k: int, c: int|
            0 <= k < pcols@.len() && jend <= c < n ==> #[trigger] u@[k * n + c] as int == g[p0 + k][c],
        deferred(old(m)@, n as int, pcols@, g, p0 as int, rank as int, jend as int, field.modulus() as int),
    ensures
        final(m)@.len() == n * n,
        reduced(final(m)@, field.modulus()),
        final(utile)@.len() == PANEL * TILE,
        reduced(final(utile)@, field.modulus()),
        agrees(final(m)@, n as int, g, rank as int, jend as int, n as int),
{
    let pm = field.modulus_u64();
    let ghost p = pm as int;
    let pb = pcols.len();
    proof {
        assert forall|r: int, c: int| rank <= r < n && jend <= c < n implies #[trigger] g[r][c] == (ent(m@, n as int, r, c) - elim_sum(
            m@, n as int, pcols@, g, p0 as int, r, c, pb as nat)) % p by {
            assert(applied(r, p0 as int, rank as int) == pb);
        }
    }
    let mut c0 = jend;
    while c0 < n
        invariant
            m@.len() == n * n,
            m.len() == n * n,
            p == field.modulus(),
            p == pm,
            p >= 2,
            reduced(m@, p as nat),
            square_reduced(g, n as int, p),
            u@.len() == PANEL * n,
            reduced(u@, p as nat),
            utile@.len() == PANEL * TILE,
            utile.len() == PANEL * TILE,
            reduced(utile@, p as nat),
            pb == pcols@.len(),
            pb <= PANEL,
            p0 + pb == rank,
            rank <= n,
            jend <= c0 <= n,
            forall|k: int| 0 <= k < pcols@.len() ==> #[trigger] pcols@[k] < jend,
            forall|k: int, c: int|
                0 <= k < pcols@.len() && jend <= c < n ==> #[trigger] u@[k * n + c] as int == g[p0 + k][c],
            agrees(m@, n as int, g, rank as int, jend as int, c0 as int),
            forall|r: int, c: int| rank <= r < n && c0 <= c < n ==> #[trigger] g[r][c] == (ent(m@, n as int, r, c) - elim_sum(
                m@, n as int, pcols@, g, p0 as int, r, c, pb as nat)) % p,
        decreases n - c0,
    {
        let c1 = if n - c0 > TILE { c0 + TILE } else { n };
        let w = c1 - c0;
        // Pack the pivot rows' tile column-major: utile[ci·pb + k] = u[k·n + c0 + ci].
        let mut k: usize = 0;
        while k < pb
            invariant
                u@.len() == PANEL * n,
                u.len() == PANEL * n,
                utile@.len() == PANEL * TILE,
                utile.len() == PANEL * TILE,
                p == field.modulus(),
                reduced(u@, p as nat),
                reduced(utile@, p as nat),
                pb <= PANEL,
                w <= TILE,
                c0 + w <= n,
                0 <= k <= pb,
                forall|k2: int, ci: int|
                    0 <= k2 < k && 0 <= ci < w ==> #[trigger] utile@[ci * pb + k2] == u@[k2 * n + c0 + ci],
            decreases pb - k,
        {
            let mut ci: usize = 0;
            while ci < w
                invariant
                    u@.len() == PANEL * n,
                    u.len() == PANEL * n,
                    utile@.len() == PANEL * TILE,
                    utile.len() == PANEL * TILE,
                    p == field.modulus(),
                    reduced(u@, p as nat),
                    reduced(utile@, p as nat),
                    pb <= PANEL,
                    w <= TILE,
                    c0 + w <= n,
                    k < pb,
                    0 <= ci <= w,
                    forall|k2: int, ci2: int|
                        0 <= k2 < k && 0 <= ci2 < w ==> #[trigger] utile@[ci2 * pb + k2] == u@[k2 * n + c0 + ci2],
                    forall|ci2: int| 0 <= ci2 < ci ==> #[trigger] utile@[ci2 * pb + k] == u@[k * n + c0 + ci2],
                decreases w - ci,
            {
                proof {
                    lemma_block_index(k as int, (c0 + ci) as int, n as int);
                    lemma_tile_index(ci as int, pb as int, k as int, w as int);
                    assert(w * pb <= PANEL * TILE) by (nonlinear_arith) requires w <= TILE, pb <= PANEL;
                }
                let x = u[k * n + c0 + ci];
                let ghost tp = utile@;
                utile.set(ci * pb + k, x);
                proof {
                    assert forall|k2: int, ci2: int|
                        0 <= k2 < k && 0 <= ci2 < w implies #[trigger] utile@[ci2 * pb + k2] == u@[k2 * n + c0 + ci2] by {
                        lemma_tile_index(ci2, pb as int, k2, w as int);
                        if ci2 * pb + k2 == ci * pb + k {
                            lemma_ent_distinct(pb as int, ci2, k2, ci as int, k as int);
                        }
                        assert(tp[ci2 * pb + k2] == u@[k2 * n + c0 + ci2]);
                    }
                    assert forall|ci2: int| 0 <= ci2 < ci + 1 implies #[trigger] utile@[ci2 * pb + k] == u@[k * n + c0 + ci2] by {
                        lemma_tile_index(ci2, pb as int, k as int, w as int);
                        if ci2 < ci {
                            if ci2 * pb + k == ci * pb + k {
                                lemma_ent_distinct(pb as int, ci2, k as int, ci as int, k as int);
                            }
                            assert(tp[ci2 * pb + k] == u@[k * n + c0 + ci2]);
                        }
                    }
                }
                ci += 1;
            }
            k += 1;
        }
        proof {
            assert(w * pb <= PANEL * TILE) by (nonlinear_arith) requires w <= TILE, pb <= PANEL;
        }
        let ghost mb = m@;
        par_update_trailing(field, m, n, rank, pcols, utile, c0, w);
        proof {
            assert forall|r: int, c: int| rank <= r < n && jend <= c < c1 implies #[trigger] ent(m@, n as int, r, c) == g[r][c] by {
                lemma_ent_index(n as int, r, c);
                assert(row_of(mb, n as int, r)[c] == mb[r * n + c]);
                if c < c0 {
                    assert(ent(mb, n as int, r, c) == g[r][c]);
                } else {
                    let ci = c - c0;
                    assert forall|k2: int| 0 <= k2 < pb implies #[trigger] utile@[ci * pb + k2] == g[p0 + k2][c0 + ci] by {
                        assert(utile@[ci * pb + k2] == u@[k2 * n + c0 + ci]);
                        assert(u@[k2 * n + (c0 + ci)] as int == g[p0 + k2][c0 + ci]);
                    }
                    assert forall|k2: int| 0 <= k2 < pb implies 0 <= #[trigger] pcols@[k2] < n by {
                        assert(pcols@[k2] < jend);
                    }
                    lemma_tile_dot_is_elim_sum(mb, n as int, pcols@, g, p0 as int, r, utile@, pb as int, c0 as int, ci, pb as nat);
                }
            }
            assert forall|r: int, c: int| rank <= r < n && c1 <= c < n implies #[trigger] g[r][c] == (ent(m@, n as int, r, c) - elim_sum(
                m@, n as int, pcols@, g, p0 as int, r, c, pb as nat)) % p by {
                lemma_ent_index(n as int, r, c);
                assert(row_of(mb, n as int, r)[c] == mb[r * n + c]);
                assert forall|k2: int| 0 <= k2 < pb implies ent(m@, n as int, r, #[trigger] pcols@[k2] as int) == ent(mb, n as int, r, pcols@[k2] as int) by {
                    let pc = pcols@[k2] as int;
                    assert(pc < jend);
                    lemma_ent_index(n as int, r, pc);
                    assert(ent(m@, n as int, r, pc) == trailing_entry(row_of(mb, n as int, r), pc, pcols@, utile@, pb as int, c0 as int, w as int, p));
                    assert(row_of(mb, n as int, r)[pc] == mb[r * n + pc]);
                }
                lemma_elim_sum_congr(m@, mb, n as int, pcols@, pcols@, g, g, p0 as int, r, r, c, pb as nat);
                assert(ent(m@, n as int, r, c) == ent(mb, n as int, r, c));
            }
        }
        c0 = c1;
    }
}


/// `g` with rows `a` and `b` exchanged, as a map on row indices.
pub open spec fn swapped(r: int, a: int, b: int) -> int {
    if r == a {
        b
    } else if r == b {
        a
    } else {
        r
    }
}

/// One pivot of the panel: the pivot row `pr` is moved to row `rank`, and
/// column `j` is eliminated on the panel columns of the rows below it, whose
/// multipliers are stored in column `j` for the deferred trailing update.
fn pivot_step(
    field: &Field,
    m: &mut [u64],
    n: usize,
    p0: usize,
    rank: usize,
    pr: usize,
    j: usize,
    jend: usize,
    pcols: &Vec<usize>,
    Ghost(g): Ghost<Seq<Seq<int>>>,
)
    requires
        old(m)@.len() == n * n,
        reduced(old(m)@, field.modulus()),
        square_reduced(g, n as int, field.modulus() as int),
        p0 <= rank <= pr < n,
        j < jend <= n,
        pcols@.len() == rank - p0,
        forall|k: int| 0 <= k < pcols@.len() ==> #[trigger] pcols@[k] < j,
        agrees(old(m)@, n as int, g, rank as int, j as int, jend as int),
        deferred(old(m)@, n as int, pcols@, g, p0 as int, rank as int, jend as int, field.modulus() as int),
        ent(old(m)@, n as int, pr as int, j as int) != 0,
    ensures
        final(m)@.len() == n * n,
        reduced(final(m)@, field.modulus()),
        square_reduced(
            eliminate_below(swap_rows(g, pr as int, rank as int), rank as int, j as int, field.modulus() as int),
            n as int,
            field.modulus() as int,
        ),
        agrees(
            final(m)@,
            n as int,
            eliminate_below(swap_rows(g, pr as int, rank as int), rank as int, j as int, field.modulus() as int),
            rank + 1,
            j + 1,
            jend as int,
        ),
        deferred(
            final(m)@,
            n as int,
            pcols@.push(j),
            eliminate_below(swap_rows(g, pr as int, rank as int), rank as int, j as int, field.modulus() as int),
            p0 as int,
            rank + 1,
            jend as int,
            field.modulus() as int,
        ),
{
    let pm = field.modulus_u64();
    let ghost p = pm as int;
    let ghost g1 = swap_rows(g, pr as int, rank as int);
    let ghost m0 = m@;
    if pr != rank {
        // Swap whole rows (the stored multipliers travel with the row).
        swap_matrix_rows(m, n, pr, rank, Ghost(field.modulus()));
    }
    let ghost m1 = m@;
    proof {
        lemma_after_swap(m0, m1, n as int, pcols@, g, p0 as int, rank as int, pr as int, j as int, jend as int, p);
        lemma_ent_index(n as int, rank as int, j as int);
    }
    assert(m.len() == n * n);
    let inv = field.inv(m[rank * n + j]);
    par_eliminate_below(field, m, n, rank, j, jend, inv);
    proof {
        lemma_after_elimination(m1, m@, n as int, pcols@, g1, p0 as int, rank as int, j as int, jend as int, inv as int, p);
    }
}

/// Exchanging rows `pr` and `rank` of both the matrix and the reference
/// elimination state keeps them in step.
proof fn lemma_after_swap(
    m0: Seq<u64>,
    m1: Seq<u64>,
    n: int,
    pcols: Seq<usize>,
    g: Seq<Seq<int>>,
    p0: int,
    rank: int,
    pr: int,
    j: int,
    jend: int,
    p: int,
)
    requires
        m0.len() == n * n,
        p >= 2,
        square_reduced(g, n, p),
        0 <= p0 <= rank <= pr < n,
        0 <= j < jend <= n,
        pcols.len() == rank - p0,
        forall|k: int| 0 <= k < pcols.len() ==> #[trigger] pcols[k] < j,
        agrees(m0, n, g, rank, j, jend),
        deferred(m0, n, pcols, g, p0, rank, jend, p),
        forall|r: int, c: int| 0 <= r < n && 0 <= c < n ==> #[trigger] ent(m1, n, r, c) == ent(m0, n, swapped(r, pr, rank), c),
    ensures
        square_reduced(swap_rows(g, pr, rank), n, p),
        agrees(m1, n, swap_rows(g, pr, rank), rank, j, jend),
        deferred(m1, n, pcols, swap_rows(g, pr, rank), p0, rank, jend, p),
{
    let g1 = swap_rows(g, pr, rank);
    assert(g.len() == n);
    assert(g1.len() == n);
    assert forall|r: int| 0 <= r < n implies #[trigger] g1[r] == g[swapped(r, pr, rank)] by {
        if r == pr {
            assert(g1[r] == g[rank]);
        } else if r == rank {
            assert(g1[r] == g[pr]);
        } else {
            assert(g1[r] == g[r]);
        }
    }
    assert(square_reduced(g1, n, p)) by {
        assert forall|r: int, c: int| 0 <= r < n && 0 <= c < n implies 0 <= #[trigger] g1[r][c] < p by {
            assert(g1[r] == g[swapped(r, pr, rank)]);
        }
    }
    assert forall|r: int, c: int| rank <= r < n && j <= c < jend implies #[trigger] ent(m1, n, r, c) == g1[r][c] by {
        assert(g1[r] == g[swapped(r, pr, rank)]);
        assert(ent(m0, n, swapped(r, pr, rank), c) == g[swapped(r, pr, rank)][c]);
    }
    assert forall|r: int, c: int| p0 <= r < n && jend <= c < n implies #[trigger] g1[r][c] == (ent(m1, n, r, c) - elim_sum(
        m1, n, pcols, g1, p0, r, c, applied(r, p0, rank))) % p by {
        let sr = swapped(r, pr, rank);
        let kk = applied(r, p0, rank);
        assert(g1[r] == g[sr]);
        assert(applied(sr, p0, rank) == kk);
        assert(g[sr][c] == (ent(m0, n, sr, c) - elim_sum(m0, n, pcols, g, p0, sr, c, kk)) % p);
        assert forall|k2: int| 0 <= k2 < kk implies ent(m1, n, r, #[trigger] pcols[k2] as int) == ent(m0, n, sr, pcols[k2] as int) by {
            assert(pcols[k2] < j);
        }
        assert forall|k2: int| 0 <= k2 < kk implies #[trigger] g1[p0 + k2][c] == g[p0 + k2][c] by {
            assert(g1[p0 + k2] == g[swapped(p0 + k2, pr, rank)]);
        }
        lemma_elim_sum_congr(m1, m0, n, pcols, pcols, g1, g, p0, r, sr, c, kk);
    }
}

/// The parallel elimination below the pivot row `rank` of the matrix keeps it
/// in step with [eliminate_below] on the reference state, with the new
/// multipliers, in column `j`, owed to the trailing columns.
proof fn lemma_after_elimination(
    m1: Seq<u64>,
    m2: Seq<u64>,
    n: int,
    pcols: Seq<usize>,
    g1: Seq<Seq<int>>,
    p0: int,
    rank: int,
    j: int,
    jend: int,
    inv: int,
    p: int,
)
    requires
        m1.len() == n * n,
        m2.len() == n * n,
        p >= 2,
        square_reduced(g1, n, p),
        0 <= p0 <= rank < n,
        0 <= j < jend <= n,
        j <= usize::MAX,
        pcols.len() == rank - p0,
        forall|k: int| 0 <= k < pcols.len() ==> #[trigger] pcols[k] < j,
        agrees(m1, n, g1, rank, j, jend),
        deferred(m1, n, pcols, g1, p0, rank, jend, p),
        inv == spec_inv(ent(m1, n, rank, j), p),
        forall|i: int| 0 <= i < (rank + 1) * n ==> #[trigger] m2[i] == m1[i],
        forall|i: int, c: int|
            rank < i < n && 0 <= c < n ==> #[trigger] ent(m2, n, i, c) == panel_entry(
                row_of(m1, n, i),
                c,
                j,
                jend,
                inv,
                row_of(m1, n, rank),
                p,
            ),
    ensures
        square_reduced(eliminate_below(g1, rank, j, p), n, p),
        agrees(m2, n, eliminate_below(g1, rank, j, p), rank + 1, j + 1, jend),
        deferred(m2, n, pcols.push(j as usize), eliminate_below(g1, rank, j, p), p0, rank + 1, jend, p),
{
    let g2 = eliminate_below(g1, rank, j, p);
    let prow = row_of(m1, n, rank);
    lemma_ent_index(n, rank, j);
    assert(ent(m1, n, rank, j) == g1[rank][j]);
    assert(square_reduced(g2, n, p)) by {
        assert forall|r: int, c: int| 0 <= r < n && 0 <= c < n implies 0 <= #[trigger] g2[r][c] < p by {
            if r > rank && c > j {
                let f = (g1[r][j] * spec_inv(g1[rank][j], p)) % p;
                lemma_mod_bound(g1[r][c] - f * g1[rank][c], p);
            }
        }
    }
    // The multiplier of each far row, as stored in column j.
    assert forall|r: int| rank < r < n implies #[trigger] ent(m2, n, r, j) == (g1[r][j] * spec_inv(g1[rank][j], p)) % p by {
        lemma_ent_index(n, r, j);
        assert(row_of(m1, n, r)[j] == m1[r * n + j]);
        assert(ent(m1, n, r, j) == g1[r][j]);
        if g1[r][j] == 0 {
            assert(0 * spec_inv(g1[rank][j], p) == 0);
            lemma_small_mod(0, p as nat);
        }
    }
    assert forall|r: int, c: int| rank + 1 <= r < n && j + 1 <= c < jend implies #[trigger] ent(m2, n, r, c) == g2[r][c] by {
        lemma_ent_index(n, r, c);
        lemma_ent_index(n, r, j);
        lemma_ent_index(n, rank, c);
        assert(row_of(m1, n, r)[c] == m1[r * n + c]);
        assert(row_of(m1, n, r)[j] == m1[r * n + j]);
        assert(prow[c] == m1[rank * n + c]);
        assert(ent(m1, n, r, c) == g1[r][c]);
        assert(ent(m1, n, r, j) == g1[r][j]);
        assert(ent(m1, n, rank, c) == g1[rank][c]);
        if g1[r][j] == 0 {
            assert(0 * spec_inv(g1[rank][j], p) == 0);
            lemma_small_mod(0, p as nat);
            assert(g1[r][c] - 0 * g1[rank][c] == g1[r][c]);
            lemma_small_mod(g1[r][c] as nat, p as nat);
        }
    }
    let pc2 = pcols.push(j as usize);
    assert forall|r: int, c: int| p0 <= r < n && jend <= c < n implies #[trigger] g2[r][c] == (ent(m2, n, r, c) - elim_sum(
        m2, n, pc2, g2, p0, r, c, applied(r, p0, rank + 1))) % p by {
        lemma_ent_index(n, r, c);
        let kk = applied(r, p0, rank);
        assert(g1[r][c] == (ent(m1, n, r, c) - elim_sum(m1, n, pcols, g1, p0, r, c, kk)) % p);
        if r <= rank {
            assert(applied(r, p0, rank + 1) == kk);
            assert(r * n + c < (rank + 1) * n) by (nonlinear_arith) requires r <= rank, c < n, (r + 1) * n == r * n + n, n >= 0 {
                assert((r + 1) * n <= (rank + 1) * n);
            }
            assert(m2[r * n + c] == m1[r * n + c]);
            assert forall|k2: int| 0 <= k2 < kk implies ent(m2, n, r, #[trigger] pc2[k2] as int) == ent(m1, n, r, pcols[k2] as int) by {
                let pc = pcols[k2] as int;
                lemma_ent_index(n, r, pc);
                assert(r * n + pc < (rank + 1) * n) by (nonlinear_arith) requires r <= rank, pc < n, (r + 1) * n == r * n + n, n >= 0 {
                    assert((r + 1) * n <= (rank + 1) * n);
                }
                assert(m2[r * n + pc] == m1[r * n + pc]);
            }
            assert forall|k2: int| 0 <= k2 < kk implies #[trigger] g2[p0 + k2][c] == g1[p0 + k2][c] by {}
            lemma_elim_sum_congr(m2, m1, n, pc2, pcols, g2, g1, p0, r, r, c, kk);
        } else {
            let pb = pcols.len();
            assert(applied(r, p0, rank + 1) == pb + 1);
            assert(kk == pb);
            assert(row_of(m1, n, r)[c] == m1[r * n + c]);
            assert(ent(m2, n, r, c) == ent(m1, n, r, c));
            assert forall|k2: int| 0 <= k2 < pb implies ent(m2, n, r, #[trigger] pc2[k2] as int) == ent(m1, n, r, pcols[k2] as int) by {
                let pc = pcols[k2] as int;
                lemma_ent_index(n, r, pc);
                assert(row_of(m1, n, r)[pc] == m1[r * n + pc]);
                assert(pc < j);
            }
            assert forall|k2: int| 0 <= k2 < pb implies #[trigger] g2[p0 + k2][c] == g1[p0 + k2][c] by {}
            lemma_elim_sum_congr(m2, m1, n, pc2, pcols, g2, g1, p0, r, r, c, pb as nat);
            lemma_elim_sum_step(m2, n, pc2, g2, p0, r, c, pb as nat);
            assert(pc2[pb as int] == j);
            let f = (g1[r][j] * spec_inv(g1[rank][j], p)) % p;
            let e = ent(m1, n, r, c);
            let sm = elim_sum(m1, n, pcols, g1, p0, r, c, kk);
            let gg = g1[rank][c];
            assert(g2[r][c] == (g1[r][c] - f * gg) % p);
            assert(g2[p0 + pb as int][c] == gg);
            lemma_sub_mod_noop(e - sm, f * gg, p);
            lemma_mod_twice(e - sm, p);
            lemma_sub_mod_noop_right((e - sm) % p, f * gg, p);
        }
    }
}


/// Factorization of the panel of columns `col` . . `jend`, whose pivot rows
/// start at `p0`: eliminates within the panel only, storing each far row's
/// multiplier in place, and returns the new rank with the reference
/// elimination state after the panel's pivots.
fn factor_panel(
    field: &Field,
    m: &mut [u64],
    n: usize,
    col: usize,
    jend: usize,
    p0: usize,
    pcols: &mut Vec<usize>,
    Ghost(g0): Ghost<Seq<Seq<int>>>,
) -> (res: (usize, Ghost<Seq<Seq<int>>>))
    requires
        old(m)@.len() == n * n,
        reduced(old(m)@, field.modulus()),
        square_reduced(g0, n as int, field.modulus() as int),
        col < jend <= n,
        jend - col <= PANEL,
        p0 < n,
        old(pcols)@.len() == 0,
        agrees(old(m)@, n as int, g0, p0 as int, col as int, jend as int),
        deferred(old(m)@, n as int, old(pcols)@, g0, p0 as int, p0 as int, jend as int, field.modulus() as int),
    ensures
        final(m)@.len() == n * n,
        reduced(final(m)@, field.modulus()),
        square_reduced(res.1@, n as int, field.modulus() as int),
        p0 <= res.0 <= n,
        final(pcols)@.len() == res.0 - p0,
        final(pcols)@.len() <= PANEL,
        forall|k: int| 0 <= k < final(pcols)@.len() ==> #[trigger] final(pcols)@[k] < jend,
        rank_from(g0, n as int, field.modulus() as int, p0 as int, col as int) == rank_from(
            res.1@,
            n as int,
            field.modulus() as int,
            res.0 as int,
            jend as int,
        ),
        agrees(final(m)@, n as int, res.1@, res.0 as int, jend as int, jend as int),
        deferred(final(m)@, n as int, final(pcols)@, res.1@, p0 as int, res.0 as int, jend as int, field.modulus() as int),
{
    let pm = field.modulus_u64();
    let ghost p = pm as int;
    let ghost mut g = g0;
    let mut rank = p0;
    let mut j = col;
    assert(m.len() == n * n);
    while j < jend && rank < n
        invariant
            m@.len() == n * n,
            m.len() == n * n,
            p == field.modulus(),
            p >= 2,
            reduced(m@, p as nat),
            square_reduced(g, n as int, p),
            col <= j <= jend,
            jend <= n,
            jend - col <= PANEL,
            p0 <= rank <= n,
            pcols@.len() == rank - p0,
            rank - p0 <= j - col,
            forall|k: int| 0 <= k < pcols@.len() ==> col <= #[trigger] pcols@[k] < j,
            rank_from(g0, n as int, p, p0 as int, col as int) == rank_from(g, n as int, p, rank as int, j as int),
            agrees(m@, n as int, g, rank as int, j as int, jend as int),
            deferred(m@, n as int, pcols@, g, p0 as int, rank as int, jend as int, p),
        decreases jend - j,
    {
        match find_pivot(m, n, rank, j) {
            Some(pr) => {
                proof {
                    assert forall|k: int| rank <= k < pr implies #[trigger] g[k][j as int] == 0 by {
                        assert(ent(m@, n as int, k, j as int) == g[k][j as int]);
                    }
                    assert(ent(m@, n as int, pr as int, j as int) == g[pr as int][j as int]);
                    lemma_pivot_found(g, rank as int, j as int, n as int, pr as int);
                }
                pivot_step(field, m, n, p0, rank, pr, j, jend, pcols, Ghost(g));
                proof {
                    g = eliminate_below(swap_rows(g, pr as int, rank as int), rank as int, j as int, p);
                }
                pcols.push(j);
                rank += 1;
            },
            None => {
                proof {
                    assert forall|k: int| rank <= k < n implies #[trigger] g[k][j as int] == 0 by {
                        assert(ent(m@, n as int, k, j as int) == g[k][j as int]);
                    }
                    lemma_pivot_none(g, rank as int, j as int, n as int);
                }
            },
        }
        j += 1;
    }
    proof {
        if j < jend {
            assert(rank == n);
            assert(rank_from(g, n as int, p, rank as int, j as int) == rank);
            assert(rank_from(g, n as int, p, rank as int, jend as int) == rank);
        }
    }
    (rank, Ghost(g))
}

/// Blocked Gaussian elimination of an *n* × *n* matrix over **F**_ₚ_, one
/// panel of [PANEL] columns at a time, so that a caller can report progress
/// between panels: the pivot-row buffers reused across panels, the pivots
/// found and the columns processed so far.
pub struct RankElimination {
    u: Vec<u64>,
    utile: Vec<u64>,
    pcols: Vec<usize>,
    rank: usize,
    col: usize,
    g: Ghost<Seq<Seq<int>>>,
    target: Ghost<int>,
}

impl RankElimination {
    /// The rank the elimination will find: [spec_rank] of the matrix it
    /// started from.
    pub closed spec fn target(&self) -> int {
        self.target@
    }

    /// The columns processed so far.
    pub closed spec fn columns(&self) -> nat {
        self.col as nat
    }

    /// The elimination is finished: every column is processed or every row
    /// holds a pivot.
    pub closed spec fn finished(&self, n: nat) -> bool {
        !(self.col < n && self.rank < n)
    }

    /// `m` is the `n` × `n` matrix over **F**_ₚ_ in the middle of this
    /// elimination.
    pub closed spec fn wf(&self, p: int, m: Seq<u64>, n: nat) -> bool {
        let g = self.g@;
        &&& m.len() == n * n
        &&& p >= 2
        &&& reduced(m, p as nat)
        &&& square_reduced(g, n as int, p)
        &&& self.u@.len() == PANEL * n
        &&& reduced(self.u@, p as nat)
        &&& self.utile@.len() == PANEL * TILE
        &&& reduced(self.utile@, p as nat)
        &&& self.rank <= n
        &&& self.col <= n
        &&& rank_from(g, n as int, p, self.rank as int, self.col as int) == self.target@
        &&& agrees(m, n as int, g, self.rank as int, self.col as int, n as int)
    }

    /// The elimination of the row-major `n` × `n` matrix `m`, before the first panel.
    pub fn new(field: &Field, m: &[u64], n: usize) -> (e: Self)
        requires
            m@.len() == n * n,
            reduced(m@, field.modulus()),
        ensures
            e.wf(field.modulus() as int, m@, n as nat),
            e.target() == spec_rank(m@, n as nat, field.modulus()),
            e.columns() == 0,
    {
        let pm = field.modulus_u64();
        let ghost p = pm as int;
        assert(m.len() == n * n);
        assert(PANEL * n <= usize::MAX) by {
            if n >= PANEL {
                assert(PANEL * n <= n * n) by (nonlinear_arith) requires n >= PANEL;
            } else {
                assert(PANEL * n <= PANEL * PANEL) by (nonlinear_arith) requires n < PANEL;
            }
        }
        // Reduced pivot rows of the current panel (full width; only the trailing
        // part is used), reused across panels.
        let u: Vec<u64> = vec![0; PANEL * n];
        // Column-major repacking of the pivot rows for one trailing tile.
        let utile: Vec<u64> = vec![0; PANEL * TILE];
        // Pivot columns found in the current panel.
        let pcols: Vec<usize> = Vec::with_capacity(PANEL);
        let ghost target = spec_rank(m@, n as nat, p as nat);
        let ghost mut g = to_rows(m@, n as nat);
        proof {
            assert forall|r: int, c: int| 0 <= r < n && 0 <= c < n implies #[trigger] ent(m@, n as int, r, c) == g[r][c] by {
                lemma_ent_index(n as int, r, c);
            }
            assert forall|r: int, c: int| 0 <= r < n && 0 <= c < n implies 0 <= #[trigger] g[r][c] < p by {
                lemma_ent_index(n as int, r, c);
                assert(m@[r * n + c] < p);
            }
            assert(square_reduced(g, n as int, p));
            assert(reduced(u@, p as nat));
            assert(reduced(utile@, p as nat));
        }

        RankElimination { u, utile, pcols, rank: 0, col: 0, g: Ghost(g), target: Ghost(target) }
    }

    /// The columns processed so far.
    pub fn columns_done(&self) -> (c: usize)
        ensures
            c == self.columns(),
    {
        self.col
    }

    /// Whether the elimination is finished (see [Self::finished]).
    pub fn is_finished(&self, n: usize) -> (b: bool)
        ensures
            b == self.finished(n as nat),
    {
        !(self.col < n && self.rank < n)
    }

    /// The number of pivots found, which is the rank once finished.
    pub fn pivots(&self, field: &Field, m: &[u64], n: usize) -> (r: usize)
        requires
            self.wf(field.modulus() as int, m@, n as nat),
            self.finished(n as nat),
        ensures
            r == self.target(),
            r <= n,
    {
        self.rank
    }

    /// Processes one panel: factors its columns, storing each row's multiplier
    /// in place of the eliminated entry, then applies the deferred corrections
    /// of all the panel's pivots to the trailing columns of the rows below, in
    /// tiles of [TILE] columns, the rows being handed out to rayon's thread pool.
    pub fn step(&mut self, field: &Field, m: &mut [u64], n: usize)
        requires
            old(self).wf(field.modulus() as int, old(m)@, n as nat),
            !old(self).finished(n as nat),
        ensures
            final(self).wf(field.modulus() as int, final(m)@, n as nat),
            final(self).target() == old(self).target(),
            final(self).columns() == (if n - old(self).columns() > PANEL {
                old(self).columns() + PANEL
            } else {
                n as int
            }),
            old(self).columns() < final(self).columns() <= n,
    {
        let pm = field.modulus_u64();
        let ghost p = pm as int;
        let mut u: Vec<u64> = Vec::new();
        let mut utile: Vec<u64> = Vec::new();
        let mut pcols: Vec<usize> = Vec::new();
        std::mem::swap(&mut u, &mut self.u);
        std::mem::swap(&mut utile, &mut self.utile);
        std::mem::swap(&mut pcols, &mut self.pcols);
        let mut rank = self.rank;
        let col = self.col;
        let ghost mut g = self.g@;
        let ghost target = self.target@;
        assert(m.len() == n * n);
        let jend = if n - col > PANEL { col + PANEL } else { n };
        let p0 = rank; // first pivot row of this panel
        pcols.clear();
        proof {
            assert forall|r: int, c: int| p0 <= r < n && jend <= c < n implies #[trigger] g[r][c] == (ent(m@, n as int, r, c) - elim_sum(
                m@, n as int, pcols@, g, p0 as int, r, c, applied(r, p0 as int, rank as int))) % p by {
                assert(applied(r, p0 as int, rank as int) == 0);
                lemma_ent_index(n as int, r, c);
                lemma_small_mod(ent(m@, n as int, r, c) as nat, p as nat);
            }
        }
        let (new_rank, Ghost(g2)) = factor_panel(field, m, n, col, jend, rank, &mut pcols, Ghost(g));
        proof {
            g = g2;
        }
        rank = new_rank;
        let pb = pcols.len();
        if pb > 0 && jend < n {
            // Build U, then apply the deferred trailing update to the far rows.
            build_pivot_block(field, m, n, p0, &pcols, jend, &mut u, Ghost(g));
            trailing_update(field, m, n, rank, p0, &pcols, jend, &u, &mut utile, Ghost(g));
        } else {
            proof {
                assert forall|r: int, c: int| rank <= r < n && jend <= c < n implies #[trigger] ent(m@, n as int, r, c) == g[r][c] by {
                    assert(applied(r, p0 as int, rank as int) == 0);
                    lemma_ent_index(n as int, r, c);
                    lemma_small_mod(ent(m@, n as int, r, c) as nat, p as nat);
                }
            }
        }
        self.u = u;
        self.utile = utile;
        self.pcols = pcols;
        self.rank = rank;
        self.col = jend;
        self.g = Ghost(g);
    }
}

/// Rank over **F**_ₚ_ of an *n* × *n* matrix stored row-major in `m`, by
/// blocked Gaussian elimination.
///
/// Columns are processed in panels of [PANEL] columns: within a panel the
/// elimination touches only the panel's columns, storing each row's
/// multiplier in place of the eliminated entry; the trailing columns of the
/// rows below then receive the corrections of all the panel's pivots at once,
/// in tiles of [TILE] columns. The rows are handed out to rayon's thread pool.
/// The result is the number of pivots found by plain Gaussian elimination
/// ([spec_rank]), that is, the rank when *p* is prime; the contents of `m`
/// afterwards are scratch.
pub fn rank(field: &Field, m: &mut [u64], n: usize) -> (r: usize)
    requires
        old(m)@.len() == n * n,
        reduced(old(m)@, field.modulus()),
    ensures
        r == spec_rank(old(m)@, n as nat, field.modulus()),
        r <= n,
        final(m)@.len() == n * n,
{
    let mut e = RankElimination::new(field, m, n);
    while !e.is_finished(n)
        invariant
            e.wf(field.modulus() as int, m@, n as nat),
            e.target() == spec_rank(old(m)@, n as nat, field.modulus()),
            e.columns() <= n,
        decreases n - e.columns(),
    {
        e.step(field, m, n);
    }
    e.pivots(field, m, n)
}

} // verus!
