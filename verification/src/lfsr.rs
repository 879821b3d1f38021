//! Linear complexity of a sequence over **F**_ₚ_ by the Berlekamp–Massey
//! algorithm.
use crate::fermat::{lemma_prime_fermat_inverses, spec_is_prime};
use crate::fp::{Field, spec_inv};
use vstd::arithmetic::power::*;
use vstd::arithmetic::div_mod::*;
use vstd::arithmetic::mul::*;
use vstd::prelude::*;

verus! {

/// The state of the Berlekamp–Massey algorithm over **F**_ₚ_ after some steps:
/// the current connection polynomial `c`, the polynomial `b` saved at the last
/// length change, the current linear complexity `l`, the number of steps `m`
/// since the last length change, and the discrepancy `bb` at that change.
pub struct BmState {
    pub c: Seq<int>,
    pub b: Seq<int>,
    pub l: nat,
    pub m: nat,
    pub bb: int,
}

/// *s*[*i*] + Σ_{*j*=1}^{*k*} *c*[*j*] · *s*[*i* − *j*] (not reduced).
pub open spec fn bm_discrepancy_sum(c: Seq<int>, s: Seq<u64>, i: int, k: nat) -> int
    decreases k,
{
    if k == 0 {
        s[i] as int
    } else {
        bm_discrepancy_sum(c, s, i, (k - 1) as nat) + c[k as int] * s[i - k] as int
    }
}

/// The unit polynomial 1 as a coefficient sequence of length `n`.
pub open spec fn bm_unit(n: nat) -> Seq<int> {
    Seq::new(n, |k: int| if k == 0 { 1int } else { 0int })
}

/// The state before the first step on a sequence of length `n`.
pub open spec fn bm_initial(n: nat) -> BmState {
    BmState { c: bm_unit(n), b: bm_unit(n), l: 0, m: 1, bb: 1 }
}

/// One step of the Berlekamp–Massey algorithm, processing `s[i]`: the
/// discrepancy *d* of the current register on `s[i]` is computed, and if it is
/// nonzero the register is corrected by *c* ← *c* − (*d*/*bb*)·*xᵐ*·*b*; the length
/// changes to *i* + 1 − *l* when 2*l* ≤ *i*.
pub open spec fn bm_step(st: BmState, s: Seq<u64>, p: int, i: int) -> BmState {
    let d = bm_discrepancy_sum(st.c, s, i, st.l) % p;
    if d == 0 {
        BmState { m: st.m + 1, ..st }
    } else {
        let coef = (d * spec_inv(st.bb, p)) % p;
        let c2 = Seq::new(
            st.c.len(),
            |k: int|
                if st.m <= k {
                    (st.c[k] - coef * st.b[k - st.m]) % p
                } else {
                    st.c[k]
                },
        );
        if 2 * st.l <= i {
            BmState { c: c2, b: st.c, l: (i + 1 - st.l) as nat, m: 1, bb: d }
        } else {
            BmState { c: c2, m: st.m + 1, ..st }
        }
    }
}

/// The Berlekamp–Massey state after processing `s[0..i)`.
pub open spec fn bm_state(s: Seq<u64>, p: int, i: nat) -> BmState
    decreases i,
{
    if i == 0 {
        bm_initial(s.len())
    } else {
        bm_step(bm_state(s, p, (i - 1) as nat), s, p, i - 1)
    }
}

/// The linear complexity of `s` over **F**_ₚ_ as computed by the plain
/// Berlekamp–Massey algorithm (the length of the register it ends with).
pub open spec fn spec_linear_complexity(s: Seq<u64>, p: int) -> nat {
    bm_state(s, p, s.len()).l
}

/// The elements of `s` are all reduced modulo `p`.
pub open spec fn all_reduced(s: Seq<u64>, p: nat) -> bool {
    forall|i: int| 0 <= i < s.len() ==> #[trigger] s[i] < p
}

/// The exec buffers `c`, `b` agree with the abstract state `st`, whose `c` has
/// degree at most `l` and whose `b` has degree less than `bl`.
spec fn bm_buffers_match(st: BmState, c: Seq<u64>, b: Seq<u64>, bl: int, n: int, p: int) -> bool {
    &&& st.c.len() == n
    &&& st.b.len() == n
    &&& c.len() == n
    &&& b.len() == n
    &&& 1 <= bl <= n
    &&& forall|k: int| 0 <= k < n ==> #[trigger] c[k] as int == st.c[k]
    &&& forall|k: int| 0 <= k < bl ==> #[trigger] b[k] as int == st.b[k]
    &&& forall|k: int| 0 <= k < n ==> 0 <= #[trigger] st.c[k] < p
    &&& forall|k: int| 0 <= k < n ==> 0 <= #[trigger] st.b[k] < p
    &&& forall|k: int| st.l < k < n ==> #[trigger] st.c[k] == 0
    &&& forall|k: int| bl <= k < n ==> #[trigger] st.b[k] == 0
}

/// The correction *c* ← *c* − coef·*xᵐ*·*b*, applied to the `jmax` = min(`bl`, *n* − *m*)
/// coefficients where *b* may be nonzero.
fn update_connection(
    field: &Field,
    c: &mut Vec<u64>,
    b: &Vec<u64>,
    m: usize,
    jmax: usize,
    coef: u64,
    Ghost(st): Ghost<BmState>,
    Ghost(bl): Ghost<int>,
)
    requires
        bm_buffers_match(st, old(c)@, b@, bl, old(c)@.len() as int, field.modulus() as int),
        1 <= m <= old(c)@.len(),
        jmax == (if bl < old(c)@.len() - m { bl } else { old(c)@.len() - m }),
        coef < field.modulus(),
    ensures
        final(c)@.len() == old(c)@.len(),
        forall|k: int|
            0 <= k < old(c)@.len() ==> #[trigger] final(c)@[k] as int == (if m <= k {
                (st.c[k] - coef * st.b[k - m]) % (field.modulus() as int)
            } else {
                st.c[k]
            }),
{
    let ghost n = c@.len() as int;
    let _ = field.modulus_u64();
    let ghost p = field.modulus() as int;
    let ghost c0 = c@;
    let mut j: usize = 0;
    while j < jmax
        invariant
            n == c@.len(),
            n == c.len(),
            p == field.modulus(),
            p >= 2,
            bm_buffers_match(st, c0, b@, bl, n, p),
            1 <= m <= n,
            jmax == (if bl < n - m { bl } else { n - m }),
            coef < p,
            0 <= j <= jmax,
            forall|k: int|
                0 <= k < n ==> #[trigger] c@[k] as int == (if m <= k < m + j {
                    (st.c[k] - coef * st.b[k - m]) % p
                } else {
                    st.c[k]
                }),
        decreases jmax - j,
    {
        let x = field.mul(coef, b[j]);
        let y = field.sub(c[j + m], x);
        proof {
            lemma_sub_mod_noop_right(st.c[j + m], coef * st.b[j as int], p);
        }
        c.set(j + m, y);
        j += 1;
    }
    proof {
        assert forall|k: int| 0 <= k < n implies #[trigger] c@[k] as int == (if m <= k {
            (st.c[k] - coef * st.b[k - m]) % p
        } else {
            st.c[k]
        }) by {
            if m + jmax <= k {
                assert(st.b[k - m] == 0);
                lemma_small_mod(st.c[k] as nat, p as nat);
            }
        }
    }
}

/// The Berlekamp–Massey algorithm on a sequence over **F**_ₚ_, one element at a
/// time, so that a caller can report progress between steps: the current and
/// saved connection polynomials, the current length, and the bookkeeping of
/// the last length change.
pub struct BerlekampMassey {
    c: Vec<u64>,
    b: Vec<u64>,
    t: Vec<u64>,
    l: usize,
    bl: usize,
    m: usize,
    bb_inv: u64,
    i: usize,
    st: Ghost<BmState>,
}

impl BerlekampMassey {
    /// The number of elements processed.
    pub closed spec fn steps(&self) -> nat {
        self.i as nat
    }

    /// The state is that of the algorithm on `s` over **F**_ₚ_ after
    /// [Self::steps] elements.
    pub closed spec fn wf(&self, p: int, s: Seq<u64>) -> bool {
        let n = s.len();
        let st = self.st@;
        &&& 1 <= n < usize::MAX
        &&& 2 <= p
        &&& all_reduced(s, p as nat)
        &&& self.i <= n
        &&& st == bm_state(s, p, self.i as nat)
        &&& bm_buffers_match(st, self.c@, self.b@, self.bl as int, n as int, p)
        &&& self.t.len() == n
        &&& self.l == st.l
        &&& self.m == st.m
        &&& 0 <= st.bb < p
        &&& self.bb_inv as int == spec_inv(st.bb, p)
        &&& self.l + self.bl == self.i + 2 - self.m
        &&& self.l <= self.i
        &&& self.m >= 1
    }

    /// The algorithm before the first element of `s`.
    pub fn new(field: &Field, s: &[u64]) -> (bm: Self)
        requires
            1 <= s.len() < usize::MAX,
            all_reduced(s@, field.modulus()),
        ensures
            bm.wf(field.modulus() as int, s@),
            bm.steps() == 0,
    {
        let n = s.len();
        let pm = field.modulus_u64();
        let ghost p = pm as int;
        let mut c: Vec<u64> = vec![0; n]; // current connection polynomial, c[0] = 1
        let mut b: Vec<u64> = vec![0; n]; // last connection polynomial before a length change
        let t: Vec<u64> = vec![0; n]; // reusable scratch
        c.set(0, 1);
        b.set(0, 1);
        let ghost st = bm_initial(n as nat);
        proof {
            assert(pow(1int, (p - 2) as nat) == 1) by { vstd::arithmetic::power::lemma1_pow((p - 2) as nat); }
            lemma_small_mod(1, p as nat);
            assert(st == bm_state(s@, p, 0));
        }
        BerlekampMassey { c, b, t, l: 0, bl: 1, m: 1, bb_inv: 1, i: 0, st: Ghost(st) }
    }

    /// The number of elements processed.
    pub fn steps_done(&self) -> (i: usize)
        ensures
            i == self.steps(),
    {
        self.i
    }

    /// The current length, the linear complexity of the elements processed.
    pub fn complexity(&self, field: &Field, s: &[u64]) -> (l: usize)
        requires
            self.wf(field.modulus() as int, s@),
        ensures
            l == bm_state(s@, field.modulus() as int, self.steps()).l,
            l <= self.steps(),
    {
        self.l
    }

    /// Processes the next element: computes the discrepancy of the current
    /// register on it and, if it is nonzero, corrects the register
    /// (*c* ← *c* − (*d*/*bb*)·*xᵐ*·*b*), touching only the deg(*b*) + 1
    /// coefficients where *b* may be nonzero.
    pub fn step(&mut self, field: &Field, s: &[u64])
        requires
            old(self).wf(field.modulus() as int, s@),
            old(self).steps() < s.len(),
        ensures
            final(self).wf(field.modulus() as int, s@),
            final(self).steps() == old(self).steps() + 1,
    {
        let n = s.len();
        let pm = field.modulus_u64();
        let ghost p = pm as int;
        let mut c: Vec<u64> = Vec::new();
        let mut b: Vec<u64> = Vec::new();
        let mut t: Vec<u64> = Vec::new();
        std::mem::swap(&mut c, &mut self.c);
        std::mem::swap(&mut b, &mut self.b);
        std::mem::swap(&mut t, &mut self.t);
        let mut l = self.l;
        let mut bl = self.bl;
        let mut m = self.m;
        let mut bb_inv = self.bb_inv;
        let i = self.i;
        let ghost mut st = self.st@;
        // Discrepancy d = s[i] + Σ_{j=1}^{l} c[j]·s[i−j].
        let mut d = s[i];
        proof { lemma_small_mod(s@[i as int] as nat, p as nat); }
        let mut j: usize = 1;
        while j <= l
            invariant
                n == s.len(),
                p == field.modulus(),
                2 <= p,
                all_reduced(s@, p as nat),
                i < n,
                l <= i,
                1 <= j <= l + 1,
                bm_buffers_match(st, c@, b@, bl as int, n as int, p),
                d as int == bm_discrepancy_sum(st.c, s@, i as int, (j - 1) as nat) % p,
            decreases l + 1 - j,
        {
            let x = field.mul(c[j], s[i - j]);
            proof {
                lemma_add_mod_noop_right(bm_discrepancy_sum(st.c, s@, i as int, (j - 1) as nat), st.c[j as int] * s@[i - j] as int, p);
                lemma_add_mod_noop(bm_discrepancy_sum(st.c, s@, i as int, (j - 1) as nat), st.c[j as int] * s@[i - j] as int, p);
                lemma_mod_twice(bm_discrepancy_sum(st.c, s@, i as int, (j - 1) as nat), p);
                lemma_mod_twice(st.c[j as int] * s@[i - j] as int, p);
            }
            d = field.add(d, x);
            j += 1;
        }
        let ghost next = bm_step(st, s@, p, i as int);
        if d == 0 {
            m += 1;
        } else {
            // c(x) ← c(x) − (d/bb)·xᵐ·b(x), over the bl meaningful coefficients of b.
            let coef = field.mul(d, bb_inv);
            let jmax = if bl < n - m { bl } else { n - m };
            if l <= i - l {
                // Length change: the pre-update c becomes the new b.
                let old_l = l;
                let mut k: usize = 0;
                while k < old_l + 1
                    invariant
                        old_l < n,
                        t.len() == n,
                        c.len() == n,
                        0 <= k <= old_l + 1,
                        forall|q: int| 0 <= q < k ==> #[trigger] t@[q] == c@[q],
                    decreases old_l + 1 - k,
                {
                    t.set(k, c[k]);
                    k += 1;
                }
                self::update_connection(field, &mut c, &b, m, jmax, coef, Ghost(st), Ghost(bl as int));
                std::mem::swap(&mut b, &mut t);
                bl = old_l + 1;
                bb_inv = field.inv(d);
                l = i + 1 - old_l;
                m = 1;
            } else {
                self::update_connection(field, &mut c, &b, m, jmax, coef, Ghost(st), Ghost(bl as int));
                m += 1;
            }
        }
        proof {
            let pp = p;
            assert(bm_state(s@, p, (i + 1) as nat) == next);
            assert forall|k: int| 0 <= k < n implies 0 <= #[trigger] next.c[k] < pp by {
                lemma_mod_bound(st.c[k] - (next.c[k] - next.c[k]), pp);
                if d != 0 && st.m <= k {
                    let coef = (d as int * spec_inv(st.bb, p)) % p;
                    lemma_mod_bound(st.c[k] - coef * st.b[k - st.m], pp);
                }
            }
            assert forall|k: int| next.l < k < n implies #[trigger] next.c[k] == 0 by {
                lemma_small_mod(0, pp as nat);
                if d != 0 && st.m <= k {
                    let coef = (d as int * spec_inv(st.bb, p)) % p;
                    assert(st.c[k] == 0);
                    assert(st.b[k - st.m] == 0);
                    lemma_mul_basics(coef);
                    assert(st.c[k] - coef * st.b[k - st.m] == 0);
                    assert(next.c[k] == (st.c[k] - coef * st.b[k - st.m]) % p);
                } else {
                    assert(next.c[k] == st.c[k]);
                }
            }
            st = next;
        }
        self.c = c;
        self.b = b;
        self.t = t;
        self.l = l;
        self.bl = bl;
        self.m = m;
        self.bb_inv = bb_inv;
        self.i = i + 1;
        self.st = Ghost(st);
    }
}

/// Linear complexity of a sequence over **F**_ₚ_ (the length of the shortest
/// linear-feedback shift register that generates it) by the Berlekamp–Massey
/// algorithm. The connection-polynomial update touches only the deg(*b*) + 1
/// nonzero coefficients of the stored polynomial *b*, so the cost is O(*n* · *L*)
/// in the recovered complexity *L* rather than O(*n*²).
pub fn linear_complexity(field: &Field, s: &[u64]) -> (l: usize)
    requires
        1 <= s.len() < usize::MAX,
        all_reduced(s@, field.modulus()),
    ensures
        l == spec_linear_complexity(s@, field.modulus() as int),
        l <= s.len(),
{
    let n = s.len();
    let mut bm = BerlekampMassey::new(field, s);
    while bm.steps_done() < n
        invariant
            n == s.len(),
            bm.wf(field.modulus() as int, s@),
            bm.steps() <= n,
        decreases n - bm.steps(),
    {
        bm.step(field, s);
    }
    bm.complexity(field, s)
}

// ---------------------------------------------------------------------------
// The register found generates the sequence.
// ---------------------------------------------------------------------------

/// Σ_{*j*<`t`} `c[j]` · `s[k − j]`: the first `t` taps of the register `c`
/// applied at position `k`.
pub open spec fn conv(c: Seq<int>, s: Seq<u64>, k: int, t: nat) -> int
    decreases t,
{
    if t == 0 {
        0
    } else {
        conv(c, s, k, (t - 1) as nat) + c[t - 1] * s[k - (t - 1)] as int
    }
}

/// The register with connection polynomial `c` and length `l` generates `s`
/// over **F**_ₚ_: Σ_{*j*≤*l*} *c*[*j*] · *s*[*k* − *j*] ≡ 0 for every *k* with
/// *l* ≤ *k* < |*s*|, that is (with *c*[0] = 1) every element from the *l*-th
/// on is the linear combination −Σ_{1≤*j*≤*l*} *c*[*j*] · *s*[*k* − *j*] of the
/// *l* before it.
pub open spec fn generates(c: Seq<int>, l: nat, s: Seq<u64>, p: int) -> bool {
    forall|k: int| l <= k < s.len() ==> #[trigger] conv(c, s, k, l + 1) % p == 0
}

/// Every nonzero residue times its Fermat inverse is 1 modulo `p`, which is
/// Fermat's little theorem and holds exactly when `p` is prime.
pub open spec fn fermat_inverses(p: int) -> bool {
    forall|a: int| 0 < a < p ==> (a * #[trigger] spec_inv(a, p)) % p == 1
}

proof fn lemma_discrepancy_is_conv(c: Seq<int>, s: Seq<u64>, i: int, k: nat)
    requires
        c[0] == 1,
    ensures
        bm_discrepancy_sum(c, s, i, k) == conv(c, s, i, k + 1),
    decreases k,
{
    if k > 0 {
        lemma_discrepancy_is_conv(c, s, i, (k - 1) as nat);
        assert(conv(c, s, i, k + 1) == conv(c, s, i, k) + c[k as int] * s[i - k] as int);
    } else {
        assert(conv(c, s, i, 1) == conv(c, s, i, 0) + c[0] * s[i] as int);
    }
}

/// Taps beyond the degree of `c` add nothing.
proof fn lemma_conv_zero_tail(c: Seq<int>, s: Seq<u64>, k: int, t: nat, u: nat)
    requires
        t <= u,
        forall|j: int| t <= j < u ==> #[trigger] c[j] == 0,
    ensures
        conv(c, s, k, u) == conv(c, s, k, t),
    decreases u - t,
{
    if t < u {
        lemma_conv_zero_tail(c, s, k, t, (u - 1) as nat);
        assert(c[u - 1] == 0);
        assert(c[u - 1] * s[k - (u - 1)] as int == 0);
    }
}

/// The correction *c* ← *c* − coef·*xᵐ*·*b* acts on the taps at position `k`
/// as *c* − coef times the taps of *b* at position `k` − `m`.
proof fn lemma_conv_update(
    c: Seq<int>,
    b: Seq<int>,
    c2: Seq<int>,
    s: Seq<u64>,
    m: int,
    coef: int,
    p: int,
    k: int,
    t: nat,
)
    requires
        p >= 2,
        m >= 1,
        t <= c.len(),
        c2.len() == c.len(),
        forall|j: int| 0 <= j < c.len() ==> #[trigger] c2[j] == (if m <= j {
            (c[j] - coef * b[j - m]) % p
        } else {
            c[j]
        }),
    ensures
        conv(c2, s, k, t) % p == (conv(c, s, k, t) - coef * (if t >= m {
            conv(b, s, k - m, (t - m) as nat)
        } else {
            0
        })) % p,
    decreases t,
{
    if t > 0 {
        let t1 = (t - 1) as nat;
        lemma_conv_update(c, b, c2, s, m, coef, p, k, t1);
        let x = s[k - t1] as int;
        let prev2 = conv(c2, s, k, t1);
        let prev = conv(c, s, k, t1);
        let bprev = if t1 >= m { conv(b, s, k - m, (t1 - m) as nat) } else { 0 };
        assert(conv(c2, s, k, t) == prev2 + c2[t1 as int] * x);
        assert(conv(c, s, k, t) == prev + c[t1 as int] * x);
        if t1 >= m {
            let bt = conv(b, s, k - m, (t - m) as nat);
            assert(bt == bprev + b[t1 - m] * s[(k - m) - (t1 - m)] as int);
            assert((k - m) - (t1 - m) == k - t1);
            assert(c2[t1 as int] == (c[t1 as int] - coef * b[t1 - m]) % p);
            // prev2 + c2·x ≡ (prev − coef·bprev) + (c − coef·b)·x
            lemma_mul_mod_noop_left(c[t1 as int] - coef * b[t1 - m], x, p);
            lemma_add_mod_noop(prev2, c2[t1 as int] * x, p);
            lemma_add_mod_noop(prev - coef * bprev, (c[t1 as int] - coef * b[t1 - m]) * x, p);
            assert((prev - coef * bprev) + (c[t1 as int] - coef * b[t1 - m]) * x == (prev + c[t1 as int] * x) - coef * (bprev + b[t1 - m] * x)) by (nonlinear_arith);
        } else {
            assert(c2[t1 as int] == c[t1 as int]);
            lemma_add_mod_noop(prev2, c2[t1 as int] * x, p);
            lemma_add_mod_noop(prev - coef * bprev, c[t1 as int] * x, p);
            if t == m {
                assert(conv(b, s, k - m, 0) == 0);
            }
            assert(bprev == 0);
        }
    }
}

/// The invariant of the Berlekamp–Massey algorithm after `i` steps: the
/// current register (length `l`) generates `s[0..i)`; once a length change has
/// happened, the saved register `b` (length *lb* = `i` + 1 − `m` − `l`) generates
/// `s[0..i − m)` and has discrepancy `bb` at `i − m`.
pub open spec fn bm_invariant(st: BmState, s: Seq<u64>, p: int, i: int) -> bool {
    let n = s.len() as int;
    let lb = i + 1 - st.m - st.l;
    &&& st.c.len() == n
    &&& st.b.len() == n
    &&& st.c[0] == 1
    &&& st.b[0] == 1
    &&& st.m >= 1
    &&& st.l <= i
    &&& 0 <= lb
    &&& forall|j: int| 0 <= j < n ==> 0 <= #[trigger] st.c[j] < p
    &&& forall|j: int| 0 <= j < n ==> 0 <= #[trigger] st.b[j] < p
    &&& forall|j: int| st.l < j < n ==> #[trigger] st.c[j] == 0
    &&& forall|j: int| lb < j < n ==> #[trigger] st.b[j] == 0
    &&& 0 < st.bb < p
    &&& forall|k: int| st.l <= k < i ==> #[trigger] conv(st.c, s, k, st.l + 1) % p == 0
    &&& st.l > 0 ==> (forall|k: int| lb <= k < i - st.m ==> #[trigger] conv(st.b, s, k, (lb + 1) as nat) % p
        == 0)
    &&& st.l > 0 ==> conv(st.b, s, i - st.m, (lb + 1) as nat) % p == st.bb
}

/// One step keeps the invariant.
proof fn lemma_bm_step(s: Seq<u64>, p: int, i: int)
    requires
        p >= 2,
        all_reduced(s, p as nat),
        fermat_inverses(p),
        0 <= i < s.len(),
        bm_invariant(bm_state(s, p, i as nat), s, p, i),
    ensures
        bm_invariant(bm_state(s, p, (i + 1) as nat), s, p, i + 1),
{
    let n = s.len() as int;
    let st = bm_state(s, p, i as nat);
    let next = bm_step(st, s, p, i);
    assert(bm_state(s, p, (i + 1) as nat) == next);
    let l = st.l as int;
    let m = st.m as int;
    let lb = i + 1 - m - l;
    lemma_discrepancy_is_conv(st.c, s, i, st.l);
    let d = conv(st.c, s, i, st.l + 1) % p;
    assert(d == bm_discrepancy_sum(st.c, s, i, st.l) % p);
    lemma_mod_bound(conv(st.c, s, i, st.l + 1), p);
    if d == 0 {
        assert(bm_invariant(next, s, p, i + 1));
    } else {
        let coef = (d * spec_inv(st.bb, p)) % p;
        let c2 = next.c;
        assert(forall|j: int| 0 <= j < n ==> #[trigger] c2[j] == (if m <= j {
            (st.c[j] - coef * st.b[j - m]) % p
        } else {
            st.c[j]
        }));
        let nl = next.l as int;
        // The new length covers the correction: m + lb ≤ nl.
        assert(m + lb <= nl);
        assert forall|j: int| 0 <= j < n implies 0 <= #[trigger] c2[j] < p by {
            if m <= j {
                lemma_mod_bound(st.c[j] - coef * st.b[j - m], p);
            }
        }
        assert forall|j: int| nl < j < n implies #[trigger] c2[j] == 0 by {
            lemma_small_mod(0, p as nat);
            if m <= j {
                assert(st.c[j] == 0);
                assert(st.b[j - m] == 0);
                assert(coef * 0 == 0);
                assert(st.c[j] - coef * st.b[j - m] == 0);
            }
        }
        // The correction cancels the discrepancy at i: d − coef·bb ≡ 0.
        let inv = spec_inv(st.bb, p);
        assert((d - coef * st.bb) % p == 0) by {
            let bb = st.bb;
            assert((bb * inv) % p == 1);
            lemma_mul_mod_noop_left(d * inv, bb, p);
            assert((coef * bb) % p == (d * inv * bb) % p);
            lemma_mul_is_associative(d, inv, bb);
            lemma_mul_is_commutative(inv, bb);
            assert(d * inv * bb == d * (bb * inv));
            lemma_mul_mod_noop_right(d, bb * inv, p);
            assert((d * (bb * inv)) % p == (d * 1) % p);
            lemma_small_mod(d as nat, p as nat);
            assert((coef * bb) % p == d);
            lemma_sub_mod_noop(d, coef * bb, p);
            assert((d - coef * bb) % p == (d - d) % p);
            lemma_small_mod(0, p as nat);
        }
        // The new register generates s[0..i+1).
        assert forall|k: int| nl <= k < i + 1 implies #[trigger] conv(c2, s, k, next.l + 1) % p == 0 by {
            lemma_conv_update(st.c, st.b, c2, s, m, coef, p, k, next.l + 1);
            lemma_conv_zero_tail(st.c, s, k, st.l + 1, next.l + 1);
            lemma_conv_zero_tail(st.b, s, k - m, (lb + 1) as nat, (next.l + 1 - m) as nat);
            let cv = conv(st.c, s, k, st.l + 1);
            let bv = conv(st.b, s, k - m, (lb + 1) as nat);
            assert(l > 0);
            if k < i {
                assert(cv % p == 0);
                assert(bv % p == 0);
                lemma_sub_mod_noop(cv, coef * bv, p);
                lemma_mul_mod_noop_right(coef, bv, p);
                lemma_small_mod(0, p as nat);
            } else {
                assert(cv % p == d);
                assert(bv % p == st.bb);
                lemma_mul_mod_noop_right(coef, bv, p);
                lemma_mul_mod_noop_right(coef, st.bb, p);
                lemma_sub_mod_noop(cv, coef * bv, p);
                lemma_sub_mod_noop(d, coef * st.bb, p);
                lemma_mod_twice(cv, p);
            }
        }
        assert(bm_invariant(next, s, p, i + 1));
    }
}

proof fn lemma_bm_invariant(s: Seq<u64>, p: int, i: nat)
    requires
        p >= 2,
        s.len() >= 1,
        all_reduced(s, p as nat),
        fermat_inverses(p),
        i <= s.len(),
    ensures
        bm_invariant(bm_state(s, p, i), s, p, i as int),
    decreases i,
{
    if i == 0 {
        let st = bm_state(s, p, 0);
        assert(st == bm_initial(s.len()));
        assert(bm_invariant(st, s, p, 0));
    } else {
        lemma_bm_invariant(s, p, (i - 1) as nat);
        lemma_bm_step(s, p, i - 1);
    }
}

/// The register the Berlekamp–Massey algorithm ends with, of length
/// [spec_linear_complexity], generates the whole sequence: its connection
/// polynomial has constant term 1 and degree at most that length, and every
/// element from that index on is the linear combination of the ones before
/// that the register prescribes. This holds over every field of prime order.
pub proof fn lemma_linear_complexity_register_generates(s: Seq<u64>, p: int)
    requires
        p >= 2,
        spec_is_prime(p as nat),
        s.len() >= 1,
        all_reduced(s, p as nat),
    ensures
        bm_state(s, p, s.len()).l == spec_linear_complexity(s, p),
        bm_state(s, p, s.len()).c[0] == 1,
        forall|j: int|
            spec_linear_complexity(s, p) < j < s.len() ==> #[trigger] bm_state(s, p, s.len()).c[j] == 0,
        generates(bm_state(s, p, s.len()).c, spec_linear_complexity(s, p), s, p),
{
    lemma_prime_fermat_inverses(p);
    lemma_bm_invariant(s, p, s.len());
}

// ---------------------------------------------------------------------------
// No shorter register generates the sequence.
// ---------------------------------------------------------------------------

/// The register with connection polynomial `c` and length `l` generates the
/// prefix `s[0..n)` over **F**_ₚ_.
pub open spec fn generates_prefix(c: Seq<int>, l: nat, s: Seq<u64>, p: int, n: int) -> bool {
    forall|k: int| l <= k < n ==> #[trigger] conv(c, s, k, l + 1) % p == 0
}

/// Σ_{*i*<`a`} `c[i]` · conv(`c2`, `s`, `n` − *i*, `b`): the double sum
/// Σ_{*i*<`a`, *k*<`b`} *c*[*i*] · *c2*[*k*] · *s*[*n* − *i* − *k*], taken over *i* outside.
spec fn taps_outer(c: Seq<int>, c2: Seq<int>, s: Seq<u64>, n: int, a: nat, b: nat) -> int
    decreases a,
{
    if a == 0 {
        0
    } else {
        taps_outer(c, c2, s, n, (a - 1) as nat, b) + c[a - 1] * conv(c2, s, n - (a - 1), b)
    }
}

/// The same double sum taken over *k* outside:
/// Σ_{*k*<`b`} `c2[k]` · conv(`c`, `s`, `n` − *k*, `a`).
spec fn taps_inner(c: Seq<int>, c2: Seq<int>, s: Seq<u64>, n: int, a: nat, b: nat) -> int
    decreases b,
{
    if b == 0 {
        0
    } else {
        taps_inner(c, c2, s, n, a, (b - 1) as nat) + c2[b - 1] * conv(c, s, n - (b - 1), a)
    }
}

/// One more tap of `c` adds `c[a]` · conv(`c2`, `s`, `n` − `a`, `b`) to the
/// inner-first double sum.
proof fn lemma_taps_inner_step(c: Seq<int>, c2: Seq<int>, s: Seq<u64>, n: int, a: nat, b: nat)
    ensures
        taps_inner(c, c2, s, n, a + 1, b) == taps_inner(c, c2, s, n, a, b) + c[a as int] * conv(c2, s, n - a, b),
    decreases b,
{
    if b > 0 {
        let b1 = (b - 1) as nat;
        lemma_taps_inner_step(c, c2, s, n, a, b1);
        let x = s[n - b1 - a] as int;
        assert(conv(c, s, n - b1, a + 1) == conv(c, s, n - b1, a) + c[a as int] * s[(n - b1) - a] as int);
        assert(conv(c2, s, n - a, b) == conv(c2, s, n - a, b1) + c2[b1 as int] * s[(n - a) - b1] as int);
        assert((n - b1) - a == (n - a) - b1);
        let ca = c[a as int];
        let cb = c2[b1 as int];
        let u = conv(c, s, n - b1, a);
        let v = conv(c2, s, n - a, b1);
        assert(cb * (u + ca * x) + ca * v == cb * u + ca * (v + cb * x)) by (nonlinear_arith);
    }
}

/// The double sum does not depend on the order of summation.
proof fn lemma_taps_swap(c: Seq<int>, c2: Seq<int>, s: Seq<u64>, n: int, a: nat, b: nat)
    ensures
        taps_outer(c, c2, s, n, a, b) == taps_inner(c, c2, s, n, a, b),
    decreases a,
{
    if a == 0 {
        lemma_taps_inner_zero(c, c2, s, n, b);
    } else {
        let a1 = (a - 1) as nat;
        lemma_taps_swap(c, c2, s, n, a1, b);
        lemma_taps_inner_step(c, c2, s, n, a1, b);
    }
}

proof fn lemma_taps_inner_zero(c: Seq<int>, c2: Seq<int>, s: Seq<u64>, n: int, b: nat)
    ensures
        taps_inner(c, c2, s, n, 0, b) == 0,
    decreases b,
{
    if b > 0 {
        lemma_taps_inner_zero(c, c2, s, n, (b - 1) as nat);
        assert(conv(c, s, n - (b - 1), 0) == 0);
    }
}

/// If every inner sum conv(`c2`, `s`, `n` − *i*, `b`) with *i* < `a` vanishes
/// modulo `p`, so does the outer-first double sum.
proof fn lemma_taps_outer_vanishes(c: Seq<int>, c2: Seq<int>, s: Seq<u64>, n: int, a: nat, b: nat, p: int)
    requires
        p > 0,
        forall|i: int| 0 <= i < a ==> #[trigger] conv(c2, s, n - i, b) % p == 0,
    ensures
        taps_outer(c, c2, s, n, a, b) % p == 0,
    decreases a,
{
    if a > 0 {
        let a1 = (a - 1) as nat;
        lemma_taps_outer_vanishes(c, c2, s, n, a1, b, p);
        let y = conv(c2, s, n - a1, b);
        assert(y % p == 0);
        lemma_mul_mod_noop_right(c[a1 as int], y, p);
        lemma_mul_basics(c[a1 as int]);
        lemma_small_mod(0, p as nat);
        lemma_add_mod_noop(taps_outer(c, c2, s, n, a1, b), c[a1 as int] * y, p);
    } else {
        lemma_small_mod(0, p as nat);
    }
}

/// If conv(`c`, `s`, `n` − *k*, `a`) vanishes modulo `p` for 0 < *k* < `b`,
/// the inner-first double sum is `c2[0]` · conv(`c`, `s`, `n`, `a`) modulo `p`.
proof fn lemma_taps_inner_first(c: Seq<int>, c2: Seq<int>, s: Seq<u64>, n: int, a: nat, b: nat, p: int)
    requires
        p > 0,
        b >= 1,
        forall|k: int| 1 <= k < b ==> #[trigger] conv(c, s, n - k, a) % p == 0,
    ensures
        taps_inner(c, c2, s, n, a, b) % p == (c2[0] * conv(c, s, n, a)) % p,
    decreases b,
{
    if b == 1 {
        assert(taps_inner(c, c2, s, n, a, 0) == 0);
        assert(n - 0 == n);
    } else {
        let b1 = (b - 1) as nat;
        lemma_taps_inner_first(c, c2, s, n, a, b1, p);
        let y = conv(c, s, n - b1, a);
        assert(y % p == 0);
        lemma_mul_mod_noop_right(c2[b1 as int], y, p);
        lemma_mul_basics(c2[b1 as int]);
        lemma_small_mod(0, p as nat);
        lemma_add_mod_noop(taps_inner(c, c2, s, n, a, b1), c2[b1 as int] * y, p);
        lemma_mod_twice(taps_inner(c, c2, s, n, a, b1), p);
        lemma_mod_twice(c2[0] * conv(c, s, n, a), p);
    }
}

/// Massey's lemma: if a register of length `l` generates `s[0..n)` but not
/// `s[0..n]`, every register generating `s[0..n]` has length at least
/// `n` + 1 − `l`.
proof fn lemma_massey(c: Seq<int>, l: nat, c2: Seq<int>, l2: nat, s: Seq<u64>, p: int, n: int)
    requires
        p > 0,
        c[0] == 1,
        c2[0] == 1,
        l <= n,
        generates_prefix(c, l, s, p, n),
        conv(c, s, n, l + 1) % p != 0,
        generates_prefix(c2, l2, s, p, n + 1),
    ensures
        l2 >= n + 1 - l,
{
    if l + l2 <= n {
        // Σ_{i≤l, k≤l2} c[i]·c2[k]·s[n−i−k], summed over k first, vanishes ...
        assert forall|i: int| 0 <= i < l + 1 implies #[trigger] conv(c2, s, n - i, l2 + 1) % p == 0 by {
            assert(l2 <= n - i < n + 1);
        }
        lemma_taps_outer_vanishes(c, c2, s, n, l + 1, l2 + 1, p);
        // ... and summed over i first, is the discrepancy of c at n.
        assert forall|k: int| 1 <= k < l2 + 1 implies #[trigger] conv(c, s, n - k, l + 1) % p == 0 by {
            assert(l <= n - k < n);
        }
        lemma_taps_inner_first(c, c2, s, n, l + 1, l2 + 1, p);
        lemma_taps_swap(c, c2, s, n, l + 1, l2 + 1);
        assert(c2[0] * conv(c, s, n, l + 1) == conv(c, s, n, l + 1));
        assert(false);
    }
}

/// After `i` steps, no register shorter than the Berlekamp–Massey one
/// generates `s[0..i)`.
proof fn lemma_bm_minimal(s: Seq<u64>, p: int, i: nat, c2: Seq<int>, l2: nat)
    requires
        p >= 2,
        s.len() >= 1,
        all_reduced(s, p as nat),
        fermat_inverses(p),
        i <= s.len(),
        c2[0] == 1,
        generates_prefix(c2, l2, s, p, i as int),
    ensures
        bm_state(s, p, i).l <= l2,
    decreases i,
{
    if i > 0 {
        let i1 = (i - 1) as nat;
        lemma_bm_minimal(s, p, i1, c2, l2);
        lemma_bm_invariant(s, p, i1);
        let st = bm_state(s, p, i1);
        assert(bm_state(s, p, i) == bm_step(st, s, p, i1 as int));
        lemma_discrepancy_is_conv(st.c, s, i1 as int, st.l);
        let d = bm_discrepancy_sum(st.c, s, i1 as int, st.l) % p;
        if d != 0 && 2 * st.l <= i1 {
            assert(generates_prefix(st.c, st.l, s, p, i1 as int));
            lemma_massey(st.c, st.l, c2, l2, s, p, i1 as int);
        }
    }
}

/// The Berlekamp–Massey register is a shortest one: every register whose
/// connection polynomial has constant term 1 and that generates `s` over a
/// field of prime order has length at least [spec_linear_complexity]. With
/// [lemma_linear_complexity_register_generates], this makes
/// [spec_linear_complexity] the linear complexity of `s`.
pub proof fn lemma_linear_complexity_minimal(s: Seq<u64>, p: int, c: Seq<int>, l: nat)
    requires
        p >= 2,
        spec_is_prime(p as nat),
        all_reduced(s, p as nat),
        c[0] == 1,
        generates(c, l, s, p),
    ensures
        spec_linear_complexity(s, p) <= l,
{
    if s.len() >= 1 {
        lemma_prime_fermat_inverses(p);
        assert(generates_prefix(c, l, s, p, s.len() as int));
        lemma_bm_minimal(s, p, s.len(), c, l);
    } else {
        assert(bm_state(s, p, 0) == bm_initial(0));
    }
}

// ---------------------------------------------------------------------------
// A prefix of twice the complexity already has the full complexity.
// ---------------------------------------------------------------------------

/// The discrepancy sums of two registers agreeing on their first `n`
/// coefficients, over two sequences agreeing on their first `n` elements, are
/// equal at positions below `n`.
proof fn lemma_discrepancy_agree(c1: Seq<int>, c2: Seq<int>, s1: Seq<u64>, s2: Seq<u64>, i: int, k: nat, n: int)
    requires
        0 <= k <= i < n,
        forall|t: int| 0 <= t < n ==> #[trigger] c1[t] == c2[t],
        forall|t: int| 0 <= t < n ==> #[trigger] s1[t] == s2[t],
    ensures
        bm_discrepancy_sum(c1, s1, i, k) == bm_discrepancy_sum(c2, s2, i, k),
    decreases k,
{
    if k > 0 {
        lemma_discrepancy_agree(c1, c2, s1, s2, i, (k - 1) as nat, n);
        assert(c1[k as int] == c2[k as int]);
        assert(s1[i - k] == s2[i - k]);
    }
}

/// The Berlekamp–Massey state after `i` steps depends only on `s[0..i)`: on
/// `s` and on its prefix of length `n` ≥ `i` the lengths, step counts and
/// saved discrepancies agree, and so do the polynomials' first `n`
/// coefficients. Moreover the length never exceeds `i`.
proof fn lemma_bm_state_prefix(s: Seq<u64>, p: int, n: nat, i: nat)
    requires
        i <= n <= s.len(),
    ensures
        bm_state(s.take(n as int), p, i).l == bm_state(s, p, i).l,
        bm_state(s.take(n as int), p, i).m == bm_state(s, p, i).m,
        bm_state(s.take(n as int), p, i).bb == bm_state(s, p, i).bb,
        bm_state(s, p, i).l <= i,
        bm_state(s, p, i).c.len() == s.len(),
        bm_state(s, p, i).b.len() == s.len(),
        bm_state(s.take(n as int), p, i).c.len() == n,
        bm_state(s.take(n as int), p, i).b.len() == n,
        forall|t: int| 0 <= t < n ==> #[trigger] bm_state(s.take(n as int), p, i).c[t] == bm_state(s, p, i).c[t],
        forall|t: int| 0 <= t < n ==> #[trigger] bm_state(s.take(n as int), p, i).b[t] == bm_state(s, p, i).b[t],
    decreases i,
{
    let s2 = s.take(n as int);
    if i == 0 {
        assert(bm_state(s2, p, 0) == bm_initial(n));
        assert(bm_state(s, p, 0) == bm_initial(s.len()));
    } else {
        let i1 = (i - 1) as nat;
        lemma_bm_state_prefix(s, p, n, i1);
        let st = bm_state(s, p, i1);
        let st2 = bm_state(s2, p, i1);
        assert(bm_state(s, p, i) == bm_step(st, s, p, i1 as int));
        assert(bm_state(s2, p, i) == bm_step(st2, s2, p, i1 as int));
        assert forall|t: int| 0 <= t < n implies #[trigger] s2[t] == s[t] by {}
        lemma_discrepancy_agree(st2.c, st.c, s2, s, i1 as int, st.l, n as int);
        let nx = bm_state(s, p, i);
        let nx2 = bm_state(s2, p, i);
        assert forall|t: int| 0 <= t < n implies #[trigger] nx2.c[t] == nx.c[t] by {
            if st.m <= t {
                assert(st2.b[t - st.m] == st.b[t - st.m]);
            }
        }
    }
}

/// The length found by the Berlekamp–Massey algorithm never decreases, and
/// when it changes at step `i` it becomes `i` + 1 minus the previous length.
proof fn lemma_bm_length_step(s: Seq<u64>, p: int, i: nat)
    ensures
        bm_state(s, p, i).l <= bm_state(s, p, i + 1).l,
        bm_state(s, p, i + 1).l != bm_state(s, p, i).l ==> bm_state(s, p, i + 1).l == i + 1 - bm_state(s, p, i).l,
{
    assert(bm_state(s, p, i + 1) == bm_step(bm_state(s, p, i), s, p, i as int));
}

proof fn lemma_bm_length_monotone(s: Seq<u64>, p: int, i: nat, k: nat)
    requires
        i <= k,
    ensures
        bm_state(s, p, i).l <= bm_state(s, p, k).l,
    decreases k - i,
{
    if i < k {
        lemma_bm_length_monotone(s, p, i, (k - 1) as nat);
        lemma_bm_length_step(s, p, (k - 1) as nat);
    }
}

/// Once `i` ≥ 2*L*, where *L* is the final length, the length no longer changes.
proof fn lemma_bm_length_settled(s: Seq<u64>, p: int, i: nat)
    requires
        2 * spec_linear_complexity(s, p) <= i <= s.len(),
    ensures
        bm_state(s, p, i).l == spec_linear_complexity(s, p),
    decreases s.len() - i,
{
    if i < s.len() {
        lemma_bm_length_settled(s, p, i + 1);
        lemma_bm_length_step(s, p, i);
    }
}

/// A prefix of length at least twice the linear complexity of `s` has the
/// same linear complexity: a stream whose shortest register has length *L*
/// shows complexity *L* once 2*L* elements have been read.
pub proof fn lemma_linear_complexity_prefix(s: Seq<u64>, p: int, n: nat)
    requires
        2 * spec_linear_complexity(s, p) <= n <= s.len(),
    ensures
        spec_linear_complexity(s.take(n as int), p) == spec_linear_complexity(s, p),
{
    lemma_bm_state_prefix(s, p, n, n);
    lemma_bm_length_settled(s, p, n);
}

} // verus!
