//! MIXMAX, the matrix generator over the field of size 2⁶¹ − 1, bit for bit as
//! in CERN ROOT's `MixMaxEngine<N, SkipNumber>`.
//!
//! One generic engine carries the four template parameters of ROOT's engine
//! as const generics: `N` is the dimension, `SPECIALMUL` and `SPECIAL` encode
//! the per-`N` matrix tweak and `SKIP` is the skip number. Seeding follows
//! ROOT's `seed_spbox`.
use crate::prng::Generator;
use vstd::prelude::*;

verus! {

/// The prime modulus *p* = 2⁶¹ − 1.
pub const MM_P: u64 = 2305843009213693951;

/// The number of bits of the modulus.
pub const MM_BITS: u32 = 61;

/// Knuth's 64-bit LCG multiplier, used by seed_spbox.
pub const MULT64: u64 = 6364136223846793005;

/// The value of `SPECIAL` that stands for the C value −1 (the N = 256 variant).
pub const SPECIAL_MINUS_ONE: u64 = 0xFFFF_FFFF_FFFF_FFFF;

/// The seed used in place of 0, which the C code rejects.
pub const ZERO_SEED: u64 = 0x9e3779b97f4a7c15;

/// Payne reduction modulo 2⁶¹ − 1, non-canonical as ROOT's MOD_MERSENNE: the
/// result is congruent to `k` and may slightly exceed *p*.
pub open spec fn spec_mod_mersenne(k: u64) -> u64 {
    ((k & MM_P) + (k >> 61u64)) as u64
}

/// Payne reduction is congruent to its argument modulo 2⁶¹ − 1, because
/// 2⁶¹ ≡ 1.
pub proof fn lemma_mod_mersenne_congruent(k: u64)
    ensures
        spec_mod_mersenne(k) <= MM_P + 7,
        spec_mod_mersenne(k) as int % (MM_P as int) == k as int % (MM_P as int),
{
    let lo = k & MM_P;
    let hi = k >> 61u64;
    assert(lo <= MM_P && hi <= 7 && k as int == lo as int + hi as int * 0x2000_0000_0000_0000int) by (bit_vector)
        requires
            lo == k & MM_P,
            hi == k >> 61u64,
    ;
    let r = spec_mod_mersenne(k);
    assert(r == lo + hi);
    assert(k as int == MM_P as int * hi as int + r as int);
    vstd::arithmetic::div_mod::lemma_mod_multiples_vanish(hi as int, r as int, MM_P as int);
}

/// Payne reduction modulo 2⁶¹ − 1 (see [spec_mod_mersenne]).
pub fn mod_mersenne(k: u64) -> (r: u64)
    ensures
        r == spec_mod_mersenne(k),
        r <= MM_P + 7,
        r as int % (MM_P as int) == k as int % (MM_P as int),
{
    proof { lemma_mod_mersenne_congruent(k); }
    assert((k & MM_P) <= MM_P && (k >> 61u64) <= 7) by (bit_vector);
    (k & MM_P) + (k >> MM_BITS)
}

/// (*a* + *b*) mod *p*, non-canonical (ROOT's modadd).
pub open spec fn spec_modadd(a: u64, b: u64) -> u64 {
    spec_mod_mersenne(a.wrapping_add(b))
}

/// (*a* + *b*) mod *p*, non-canonical (ROOT's modadd).
pub fn modadd(a: u64, b: u64) -> (r: u64)
    ensures
        r == spec_modadd(a, b),
        a + b <= u64::MAX ==> r as int % (MM_P as int) == (a + b) % (MM_P as int),
{
    mod_mersenne(a.wrapping_add(b))
}

/// (*a*·*b* + cum) mod *p* via 128-bit arithmetic (ROOT's fmodmulM61).
pub open spec fn spec_fmodmul_m61(cum: u64, a: u64, b: u64) -> u64 {
    let s = (a as u128).wrapping_mul(b as u128).wrapping_add(cum as u128);
    let lo = s as u64;
    let hi = (s >> 64u128) as u64;
    let s1 = (lo & MM_P).wrapping_add(hi.wrapping_mul(8)).wrapping_add(lo >> 61u64);
    spec_mod_mersenne(s1)
}

/// For factors below 2⁶² no step of [spec_fmodmul_m61] wraps, and the result
/// is congruent to *a*·*b* + cum modulo 2⁶¹ − 1, because 2⁶⁴ ≡ 8.
pub proof fn lemma_fmodmul_m61_congruent(cum: u64, a: u64, b: u64)
    requires
        a < 0x4000_0000_0000_0000u64,
        b < 0x4000_0000_0000_0000u64,
    ensures
        spec_fmodmul_m61(cum, a, b) as int % (MM_P as int) == (a * b + cum) % (MM_P as int),
{
    let pp = MM_P as int;
    let prod = a as nat * b as nat;
    assert(prod < 0x1000_0000_0000_0000_0000_0000_0000_0000nat) by (nonlinear_arith)
        requires
            a < 0x4000_0000_0000_0000u64,
            b < 0x4000_0000_0000_0000u64,
            prod == a as nat * b as nat,
    ;
    let m = (a as u128).wrapping_mul(b as u128);
    vstd::arithmetic::div_mod::lemma_small_mod(prod, 0x1_0000_0000_0000_0000_0000_0000_0000_0000nat);
    assert(m == prod);
    let s = m.wrapping_add(cum as u128);
    assert(s == prod + cum);
    let lo = s as u64;
    let hi = (s >> 64u128) as u64;
    assert(s as int == hi as int * 0x1_0000_0000_0000_0000int + lo as int && hi <= 0x1000_0000_0000_0000u64)
        by (bit_vector)
        requires
            s < 0x1000_0000_0000_0001_0000_0000_0000_0000u128,
            lo == s as u64,
            hi == (s >> 64u128) as u64,
    ;
    let lm = lo & MM_P;
    let lh = lo >> 61u64;
    assert(lm <= MM_P && lh <= 7 && lo as int == lm as int + lh as int * 0x2000_0000_0000_0000int) by (bit_vector)
        requires
            lm == lo & MM_P,
            lh == lo >> 61u64,
    ;
    let h8 = hi.wrapping_mul(8);
    vstd::arithmetic::div_mod::lemma_small_mod((hi * 8) as nat, 0x1_0000_0000_0000_0000nat);
    assert(h8 == hi * 8);
    let s1 = lm.wrapping_add(h8).wrapping_add(lh);
    assert(s1 == lm + hi * 8 + lh);
    assert(s as int == pp * (8 * hi + lh) + s1 as int);
    vstd::arithmetic::div_mod::lemma_mod_multiples_vanish(8 * hi + lh, s1 as int, pp);
    lemma_mod_mersenne_congruent(s1);
}

/// (*a*·*b* + cum) mod *p* via 128-bit arithmetic (ROOT's fmodmulM61).
pub fn fmodmul_m61(cum: u64, a: u64, b: u64) -> (r: u64)
    ensures
        r == spec_fmodmul_m61(cum, a, b),
        a < 0x4000_0000_0000_0000u64 && b < 0x4000_0000_0000_0000u64 ==> r as int % (MM_P as int) == (a * b
            + cum) % (MM_P as int),
{
    proof {
        if a < 0x4000_0000_0000_0000u64 && b < 0x4000_0000_0000_0000u64 {
            lemma_fmodmul_m61_congruent(cum, a, b);
        }
    }
    let s = (a as u128).wrapping_mul(b as u128).wrapping_add(cum as u128);
    let lo = s as u64;
    let hi = (s >> 64) as u64;
    let s1 = (lo & MM_P).wrapping_add(hi.wrapping_mul(8)).wrapping_add(lo >> MM_BITS);
    mod_mersenne(s1)
}

/// The state of a MIXMAX engine: the vector `v`, the running sum `sumtot`
/// of its entries, and the index `counter` of the next entry to hand out.
pub struct MixMaxState {
    pub v: Seq<u64>,
    pub sumtot: u64,
    pub counter: int,
}

/// The loop accumulators of one vector iteration after the entries before
/// index `i`.
pub struct IterAcc {
    pub v: Seq<u64>,
    pub temp_v: u64,
    pub temp_p: u64,
    pub sumtot: u64,
    pub ovflow: u64,
}

/// The seeding accumulators after the first `i` entries.
pub struct SeedAcc {
    pub l: u64,
    pub v: Seq<u64>,
    pub sumtot: u64,
    pub ovflow: u64,
}

/// `a` + `b` wrapping, counting the wrap in `ovflow`.
pub open spec fn spec_sum_step(sumtot: u64, x: u64, ovflow: u64) -> (u64, u64) {
    let s = sumtot.wrapping_add(x);
    (s, if s < sumtot { (ovflow + 1) as u64 } else { ovflow })
}

/// The reinjection of the wrapped sum: each 2⁶⁴ wrap is 2⁶⁴ mod *p* = 8.
pub open spec fn spec_fold_sum(sumtot: u64, ovflow: u64) -> u64 {
    spec_mod_mersenne(spec_mod_mersenne(sumtot).wrapping_add(ovflow << 3u64))
}

/// The seeding recurrence: the state after `i` steps of the LCG with the
/// half-word swap, each step filling one entry.
pub open spec fn spec_seed_loop(seed: u64, i: nat) -> SeedAcc
    decreases i,
{
    if i == 0 {
        SeedAcc { l: if seed == 0 { ZERO_SEED } else { seed }, v: Seq::empty(), sumtot: 0, ovflow: 0 }
    } else {
        let a = spec_seed_loop(seed, (i - 1) as nat);
        let l1 = a.l.wrapping_mul(MULT64);
        let l2 = (l1 << 32u64) ^ (l1 >> 32u64);
        let x = l2 & MM_P;
        let (s, o) = spec_sum_step(a.sumtot, x, a.ovflow);
        SeedAcc { l: l2, v: a.v.push(x), sumtot: s, ovflow: o }
    }
}

/// The MIXMAX engine MixMax<N, SPECIALMUL, SPECIAL, SKIP>, mirroring ROOT's
/// MixMaxEngine<N, SkipNumber>. `SPECIAL` == [SPECIAL_MINUS_ONE] stands for the C value
/// −1 (the N = 256 variant), whose special-entry map is *p* − *k*; any other
/// nonzero `SPECIAL` uses `SPECIAL`·*k*.
#[derive(Clone, Copy)]
pub struct MixMax<const N: usize, const SPECIALMUL: u32, const SPECIAL: u64, const SKIP: usize> {
    v: [u64; N],
    sumtot: u64,
    counter: usize,
}

impl<const N: usize, const SPECIALMUL: u32, const SPECIAL: u64, const SKIP: usize> View for MixMax<
    N,
    SPECIALMUL,
    SPECIAL,
    SKIP,
> {
    type V = MixMaxState;

    closed spec fn view(&self) -> MixMaxState {
        MixMaxState { v: self.v@, sumtot: self.sumtot, counter: self.counter as int }
    }
}

impl<const N: usize, const SPECIALMUL: u32, const SPECIAL: u64, const SKIP: usize> MixMax<
    N,
    SPECIALMUL,
    SPECIAL,
    SKIP,
> {
    /// The parameters under which a vector iteration is defined: it reads
    /// entry 1 (and entry 2 when `SPECIAL` ≠ 0), and the rotation by
    /// `SPECIALMUL` within 61 bits shifts right by 61 − `SPECIALMUL`.
    pub open spec fn valid_params() -> bool {
        &&& N >= 2
        &&& (SPECIAL == 0 || N >= 3)
        &&& SPECIALMUL <= 61
    }

    /// The state seed_spbox derives from `seed`: `counter` = `N`, so the first
    /// draw re-iterates the whole vector.
    pub open spec fn spec_new(seed: u64) -> MixMaxState {
        let a = spec_seed_loop(seed, N as nat);
        MixMaxState { v: a.v, sumtot: spec_fold_sum(a.sumtot, a.ovflow), counter: N as int }
    }

    /// Seeds via ROOT's seed_spbox: a 64-bit LCG plus a half-word swap fills the
    /// state, then counter = N so the first draw re-iterates the whole vector.
    /// A zero seed (which the C code rejects) is remapped to a fixed nonzero
    /// constant.
    pub fn new(seed: u64) -> (e: Self)
        ensures
            e@ == Self::spec_new(seed),
    {
        let mut l = if seed == 0 { ZERO_SEED } else { seed };
        let mut v = [0u64; N];
        let mut sumtot: u64 = 0;
        let mut ovflow: u64 = 0;
        let mut i: usize = 0;
        while i < N
            invariant
                v@.len() == N,
                0 <= i <= N,
                ovflow <= i,
                spec_seed_loop(seed, i as nat).l == l,
                spec_seed_loop(seed, i as nat).sumtot == sumtot,
                spec_seed_loop(seed, i as nat).ovflow == ovflow,
                spec_seed_loop(seed, i as nat).v == v@.subrange(0, i as int),
            decreases N - i,
        {
            l = l.wrapping_mul(MULT64);
            l = (l << 32) ^ (l >> 32);
            let x = l & MM_P;
            v[i] = x;
            let s = sumtot.wrapping_add(x);
            if s < sumtot {
                ovflow += 1;
            }
            sumtot = s;
            proof {
                assert(v@.subrange(0, i + 1) == spec_seed_loop(seed, i as nat).v.push(x));
            }
            i += 1;
        }
        proof {
            assert(v@.subrange(0, N as int) == v@);
        }
        let sumtot = mod_mersenne(mod_mersenne(sumtot).wrapping_add(ovflow << 3));
        Self { v, sumtot, counter: N }
    }

    /// The special-entry map MOD_MULSPEC of the `SPECIAL` ≠ 0 variants.
    pub open spec fn spec_mod_mulspec(k: u64) -> u64 {
        if SPECIAL == SPECIAL_MINUS_ONE {
            MM_P.wrapping_sub(k)
        } else {
            spec_fmodmul_m61(0, SPECIAL, k)
        }
    }

    /// The special-entry map MOD_MULSPEC of the `SPECIAL` ≠ 0 variants.
    fn mod_mulspec(k: u64) -> (r: u64)
        ensures
            r == Self::spec_mod_mulspec(k),
    {
        if SPECIAL == SPECIAL_MINUS_ONE {
            MM_P.wrapping_sub(k) // N = 256: MERSBASE − k (C SPECIAL == −1)
        } else {
            fmodmul_m61(0, SPECIAL, k) // N = 240: SPECIAL · k mod p

        }
    }

    /// The loop of one vector application on `v0` with running sum `sumtot0`,
    /// after the entries before index `i` (1 ≤ `i` ≤ `N`): entry 0 becomes the
    /// old sum, and each following entry the running sum of partial sums,
    /// with the `SPECIALMUL` rotation term when it is nonzero.
    pub open spec fn spec_iter_loop(v0: Seq<u64>, sumtot0: u64, i: nat) -> IterAcc
        decreases i,
    {
        if i <= 1 {
            IterAcc { v: v0.update(0, sumtot0), temp_v: sumtot0, temp_p: 0, sumtot: sumtot0, ovflow: 0 }
        } else {
            let a = Self::spec_iter_loop(v0, sumtot0, (i - 1) as nat);
            let k = i - 1;
            let tp = spec_modadd(a.temp_p, v0[k]);
            let tv = if SPECIALMUL != 0 {
                let po = ((a.temp_p << SPECIALMUL) & MM_P) | (a.temp_p >> (61 - SPECIALMUL) as u32);
                spec_mod_mersenne(a.temp_v.wrapping_add(tp).wrapping_add(po))
            } else {
                spec_modadd(a.temp_v, tp)
            };
            let (s, o) = spec_sum_step(a.sumtot, tv, a.ovflow);
            IterAcc { v: a.v.update(k, tv), temp_v: tv, temp_p: tp, sumtot: s, ovflow: o }
        }
    }

    /// One full vector application, ROOT's iterate_raw_vec.
    pub open spec fn spec_iterate(st: MixMaxState) -> MixMaxState {
        let a = Self::spec_iter_loop(st.v, st.sumtot, N as nat);
        if SPECIAL != 0 {
            let t2 = Self::spec_mod_mulspec(st.v[1]);
            let (s, o) = spec_sum_step(a.sumtot, t2, a.ovflow);
            MixMaxState {
                v: a.v.update(2, spec_modadd(a.v[2], t2)),
                sumtot: spec_fold_sum(s, o),
                counter: st.counter,
            }
        } else {
            MixMaxState { v: a.v, sumtot: spec_fold_sum(a.sumtot, a.ovflow), counter: st.counter }
        }
    }

    /// `k` vector applications.
    pub open spec fn spec_iterate_n(st: MixMaxState, k: nat) -> MixMaxState
        decreases k,
    {
        if k == 0 {
            st
        } else {
            Self::spec_iterate(Self::spec_iterate_n(st, (k - 1) as nat))
        }
    }

    /// One full vector application — ROOT's iterate_raw_vec. sumtot is a raw
    /// u64 allowed to wrap; each 2⁶⁴ wrap is reinjected as 2⁶⁴ mod *p* = 8.
    fn iterate(&mut self)
        requires
            Self::valid_params(),
        ensures
            final(self)@ == Self::spec_iterate(old(self)@),
    {
        let ghost st = self@;
        let temp2 = self.v[1]; // used only when SPECIAL != 0
        let mut temp_v = self.sumtot;
        self.v[0] = temp_v;
        let mut sumtot = temp_v;
        let mut ovflow: u64 = 0;
        let mut temp_p: u64 = 0;
        let mut i: usize = 1;
        while i < N
            invariant
                Self::valid_params(),
                1 <= i <= N,
                ovflow < i,
                self.v@.len() == N,
                st.v.len() == N,
                self.counter == st.counter,
                temp2 == st.v[1],
                Self::spec_iter_loop(st.v, st.sumtot, i as nat).v == self.v@,
                Self::spec_iter_loop(st.v, st.sumtot, i as nat).temp_v == temp_v,
                Self::spec_iter_loop(st.v, st.sumtot, i as nat).temp_p == temp_p,
                Self::spec_iter_loop(st.v, st.sumtot, i as nat).sumtot == sumtot,
                Self::spec_iter_loop(st.v, st.sumtot, i as nat).ovflow == ovflow,
                forall|k: int| i <= k < N ==> #[trigger] self.v@[k] == st.v[k],
            decreases N - i,
        {
            if SPECIALMUL != 0 {
                // MULWU(temp_p): 61-bit rotate left by SPECIALMUL = ·2^SPECIALMUL mod p.
                let temp_po = ((temp_p << SPECIALMUL) & MM_P) | (temp_p >> (MM_BITS - SPECIALMUL));
                temp_p = modadd(temp_p, self.v[i]);
                temp_v = mod_mersenne(temp_v.wrapping_add(temp_p).wrapping_add(temp_po));
            } else {
                temp_p = modadd(temp_p, self.v[i]);
                temp_v = modadd(temp_v, temp_p);
            }
            self.v[i] = temp_v;
            let s = sumtot.wrapping_add(temp_v);
            if s < sumtot {
                ovflow += 1;
            }
            sumtot = s;
            i += 1;
        }
        if SPECIAL != 0 {
            let t2 = Self::mod_mulspec(temp2);
            self.v[2] = modadd(self.v[2], t2);
            let s = sumtot.wrapping_add(t2);
            if s < sumtot {
                ovflow += 1;
            }
            sumtot = s;
        }
        self.sumtot = mod_mersenne(mod_mersenne(sumtot).wrapping_add(ovflow << 3));
    }

    /// ROOT's get_next: hands out entry `counter` of the vector, or re-iterates
    /// the whole vector and hands out entry 1 (resuming at entry 2) once it is
    /// exhausted.
    pub open spec fn spec_get_next(st: MixMaxState) -> (MixMaxState, u64) {
        if st.counter < N {
            (MixMaxState { counter: st.counter + 1, ..st }, st.v[st.counter])
        } else {
            let it = Self::spec_iterate(st);
            (MixMaxState { counter: 2, ..it }, it.v[1])
        }
    }

    /// ROOT's get_next/GET_BY_MACRO (see [Self::spec_get_next]).
    fn get_next(&mut self) -> (r: u64)
        requires
            Self::valid_params(),
        ensures
            (final(self)@, r) == Self::spec_get_next(old(self)@),
    {
        let i = self.counter;
        if i < N {
            self.counter += 1;
            self.v[i]
        } else {
            self.iterate();
            self.counter = 2;
            self.v[1]
        }
    }

    /// The state and output of [Self::next_raw]: when a re-iterate is imminent
    /// (counter ≥ N), `SKIP` extra iterations come first.
    pub open spec fn spec_next_raw(st: MixMaxState) -> (MixMaxState, u64) {
        if st.counter >= N {
            Self::spec_get_next(Self::spec_iterate_n(st, SKIP as nat))
        } else {
            Self::spec_get_next(st)
        }
    }

    /// One raw 61-bit output, reproducing ROOT's
    /// MixMaxEngine<N, SkipNumber>::IntRndm: when a re-iterate is imminent
    /// (counter ≥ N), perform SKIP extra iterations first, then draw.
    pub fn next_raw(&mut self) -> (r: u64)
        requires
            Self::valid_params(),
        ensures
            (final(self)@, r) == Self::spec_next_raw(old(self)@),
    {
        let ghost st = self@;
        let counter = self.counter;
        if counter >= N {
            let mut k: usize = 0;
            while k < SKIP
                invariant
                    Self::valid_params(),
                    0 <= k <= SKIP,
                    self@ == Self::spec_iterate_n(st, k as nat),
                decreases SKIP - k,
            {
                self.iterate();
                k += 1;
            }
        }
        self.counter = counter;
        proof {
            if counter >= N {
                lemma_iterate_n_counter::<N, SPECIALMUL, SPECIAL, SKIP>(st, SKIP as nat);
            }
        }
        self.get_next()
    }
}

/// Iterating never moves the counter.
proof fn lemma_iterate_n_counter<const N: usize, const SPECIALMUL: u32, const SPECIAL: u64, const SKIP: usize>(
    st: MixMaxState,
    k: nat,
)
    ensures
        MixMax::<N, SPECIALMUL, SPECIAL, SKIP>::spec_iterate_n(st, k).counter == st.counter,
    decreases k,
{
    if k > 0 {
        lemma_iterate_n_counter::<N, SPECIALMUL, SPECIAL, SKIP>(st, (k - 1) as nat);
    }
}

// ---------------------------------------------------------------------------
// How draws walk through the vector.
// ---------------------------------------------------------------------------

/// The state after `k` raw draws from `st`, and the `k` raw outputs.
pub open spec fn raw_draws<const N: usize, const SPECIALMUL: u32, const SPECIAL: u64, const SKIP: usize>(
    st: MixMaxState,
    k: nat,
) -> (MixMaxState, Seq<u64>)
    decreases k,
{
    if k == 0 {
        (st, Seq::empty())
    } else {
        let prev = raw_draws::<N, SPECIALMUL, SPECIAL, SKIP>(st, (k - 1) as nat);
        let d = MixMax::<N, SPECIALMUL, SPECIAL, SKIP>::spec_next_raw(prev.0);
        (d.0, prev.1.push(d.1))
    }
}

/// A draw with entries left in the vector (counter below `N`) iterates
/// nothing: it hands out the entry at the counter unchanged and advances the
/// counter by one.
pub proof fn lemma_next_raw_within_vector<const N: usize, const SPECIALMUL: u32, const SPECIAL: u64, const SKIP: usize>(
    st: MixMaxState,
)
    requires
        0 <= st.counter < N,
    ensures
        MixMax::<N, SPECIALMUL, SPECIAL, SKIP>::spec_next_raw(st).1 == st.v[st.counter],
        MixMax::<N, SPECIALMUL, SPECIAL, SKIP>::spec_next_raw(st).0 == (MixMaxState { counter: st.counter + 1, ..st }),
{
}

/// From an exhausted vector (counter `N`, as after seeding), the next `N` − 1
/// draws hand out entries 1 . . `N` − 1 of one vector, the one obtained by
/// exactly `SKIP` + 1 applications of the MIXMAX matrix, in order; after the
/// `k`-th of them the counter is `k` + 1.
pub proof fn lemma_raw_draws_after_exhaustion<const N: usize, const SPECIALMUL: u32, const SPECIAL: u64, const SKIP: usize>(
    st: MixMaxState,
    k: nat,
)
    requires
        st.counter == N,
        1 <= k <= N - 1,
    ensures
        raw_draws::<N, SPECIALMUL, SPECIAL, SKIP>(st, k).1.len() == k,
        forall|j: int|
            0 <= j < k ==> #[trigger] raw_draws::<N, SPECIALMUL, SPECIAL, SKIP>(st, k).1[j]
                == MixMax::<N, SPECIALMUL, SPECIAL, SKIP>::spec_iterate_n(st, (SKIP + 1) as nat).v[j + 1],
        raw_draws::<N, SPECIALMUL, SPECIAL, SKIP>(st, k).0 == (MixMaxState {
            counter: (k + 1) as int,
            ..MixMax::<N, SPECIALMUL, SPECIAL, SKIP>::spec_iterate_n(st, (SKIP + 1) as nat)
        }),
    decreases k,
{
    let w = MixMax::<N, SPECIALMUL, SPECIAL, SKIP>::spec_iterate_n(st, (SKIP + 1) as nat);
    lemma_iterate_n_counter::<N, SPECIALMUL, SPECIAL, SKIP>(st, SKIP as nat);
    lemma_iterate_n_counter::<N, SPECIALMUL, SPECIAL, SKIP>(st, (SKIP + 1) as nat);
    if k == 1 {
        assert(raw_draws::<N, SPECIALMUL, SPECIAL, SKIP>(st, 0).0 == st);
        let it = MixMax::<N, SPECIALMUL, SPECIAL, SKIP>::spec_iterate_n(st, SKIP as nat);
        assert(MixMax::<N, SPECIALMUL, SPECIAL, SKIP>::spec_iterate(it) == w);
    } else {
        let k1 = (k - 1) as nat;
        lemma_raw_draws_after_exhaustion::<N, SPECIALMUL, SPECIAL, SKIP>(st, k1);
        let prev = raw_draws::<N, SPECIALMUL, SPECIAL, SKIP>(st, k1);
        lemma_next_raw_within_vector::<N, SPECIALMUL, SPECIAL, SKIP>(prev.0);
    }
}

// ---------------------------------------------------------------------------
// The running sum stays the sum of the vector.
// ---------------------------------------------------------------------------

/// Σ_{*t*<`k`} `v[t]`.
pub open spec fn vsum(v: Seq<u64>, k: nat) -> int
    decreases k,
{
    if k == 0 {
        0
    } else {
        vsum(v, (k - 1) as nat) + v[k - 1]
    }
}

/// The vector of `st` has `n` entries, each at most `b`, and so is the sum.
pub open spec fn within(st: MixMaxState, n: nat, b: int) -> bool {
    &&& st.v.len() == n
    &&& forall|i: int| 0 <= i < n ==> #[trigger] st.v[i] <= b
    &&& st.sumtot <= b
}

/// The running sum of `st` is congruent to the sum of its `n` entries modulo
/// 2⁶¹ − 1.
pub open spec fn sum_consistent(st: MixMaxState, n: nat) -> bool {
    st.sumtot as int % (MM_P as int) == vsum(st.v, n) % (MM_P as int)
}

proof fn lemma_vsum_update(v: Seq<u64>, k: int, x: u64, i: nat)
    requires
        0 <= k < v.len(),
        i <= v.len(),
    ensures
        vsum(v.update(k, x), i) == (if i <= k { vsum(v, i) } else { vsum(v, i) - v[k] + x }),
    decreases i,
{
    if i > 0 {
        lemma_vsum_update(v, k, x, (i - 1) as nat);
    }
}

/// Adding `x` to a wrapping sum and counting the wrap keeps the exact sum.
proof fn lemma_sum_step_exact(sumtot: u64, x: u64, ovflow: u64)
    requires
        ovflow < u64::MAX,
    ensures
        spec_sum_step(sumtot, x, ovflow).0 + spec_sum_step(sumtot, x, ovflow).1 * 0x1_0000_0000_0000_0000int == sumtot
            + x + ovflow * 0x1_0000_0000_0000_0000int,
        spec_sum_step(sumtot, x, ovflow).1 <= ovflow + 1,
{
}

/// Payne reduction is canonical on arguments up to 2*p*.
proof fn lemma_mod_mersenne_small(k: u64)
    requires
        k <= 2 * MM_P,
    ensures
        spec_mod_mersenne(k) <= MM_P,
{
    assert((k & MM_P) + (k >> 61u64) <= MM_P) by (bit_vector)
        requires
            k <= 0x3FFF_FFFF_FFFF_FFFEu64,
    ;
}

/// The reinjection of a wrapped sum is congruent to the exact sum, because
/// 2⁶⁴ ≡ 8 modulo 2⁶¹ − 1.
proof fn lemma_fold_sum(s: u64, o: u64)
    requires
        o < 0x0100_0000_0000_0000u64,
    ensures
        spec_fold_sum(s, o) <= MM_P + 7,
        spec_fold_sum(s, o) as int % (MM_P as int) == (s + o * 0x1_0000_0000_0000_0000int) % (MM_P as int),
        spec_fold_sum(s, o) <= MM_P,
{
    let pp = MM_P as int;
    lemma_mod_mersenne_congruent(s);
    let r = spec_mod_mersenne(s);
    assert(o << 3u64 == o * 8) by (bit_vector)
        requires
            o < 0x0100_0000_0000_0000u64,
    ;
    let k = r.wrapping_add(o << 3u64);
    assert(k == r + o * 8);
    lemma_mod_mersenne_congruent(k);
    lemma_mod_mersenne_small(k);
    vstd::arithmetic::div_mod::lemma_add_mod_noop(r as int, o * 8, pp);
    vstd::arithmetic::div_mod::lemma_add_mod_noop(s as int, o * 8, pp);
    assert(s + o * 0x1_0000_0000_0000_0000int == pp * (8 * o) + (s + o * 8));
    vstd::arithmetic::div_mod::lemma_mod_multiples_vanish(8 * o, s + o * 8, pp);
}

/// The loop of a vector application keeps the wrapped running sum, with its
/// wrap count, equal to the sum of the entries written so far; every entry
/// written is at most *p* + 7, and at most *p* when `SPECIALMUL` = 0 and the
/// inputs are at most *p*.
proof fn lemma_iter_loop_sum<const N: usize, const SPECIALMUL: u32, const SPECIAL: u64, const SKIP: usize>(
    v0: Seq<u64>,
    s0: u64,
    i: nat,
)
    requires
        1 <= i <= v0.len(),
        v0.len() < 0x0100_0000_0000_0000,
    ensures
        ({
            let a = MixMax::<N, SPECIALMUL, SPECIAL, SKIP>::spec_iter_loop(v0, s0, i);
            &&& a.v.len() == v0.len()
            &&& a.v[0] == s0
            &&& a.sumtot + a.ovflow * 0x1_0000_0000_0000_0000int == vsum(a.v, i)
            &&& a.ovflow < i
            &&& forall|t: int| 1 <= t < i ==> #[trigger] a.v[t] <= MM_P + 7
            &&& (SPECIALMUL == 0 && s0 <= MM_P && (forall|t: int| 0 <= t < v0.len() ==> #[trigger] v0[t] <= MM_P))
                ==> (a.temp_v <= MM_P && a.temp_p <= MM_P && forall|t: int| 0 <= t < i ==> #[trigger] a.v[t] <= MM_P)
        }),
    decreases i,
{
    if i > 1 {
        let i1 = (i - 1) as nat;
        lemma_iter_loop_sum::<N, SPECIALMUL, SPECIAL, SKIP>(v0, s0, i1);
        let a = MixMax::<N, SPECIALMUL, SPECIAL, SKIP>::spec_iter_loop(v0, s0, i1);
        let k = i - 1;
        let tp = spec_modadd(a.temp_p, v0[k]);
        let tv = if SPECIALMUL != 0 {
            let po = ((a.temp_p << SPECIALMUL) & MM_P) | (a.temp_p >> (61 - SPECIALMUL) as u32);
            spec_mod_mersenne(a.temp_v.wrapping_add(tp).wrapping_add(po))
        } else {
            spec_modadd(a.temp_v, tp)
        };
        if SPECIALMUL != 0 {
            let po = ((a.temp_p << SPECIALMUL) & MM_P) | (a.temp_p >> (61 - SPECIALMUL) as u32);
            lemma_mod_mersenne_congruent(a.temp_v.wrapping_add(tp).wrapping_add(po));
        } else {
            lemma_mod_mersenne_congruent(a.temp_v.wrapping_add(tp));
        }
        lemma_sum_step_exact(a.sumtot, tv, a.ovflow);
        lemma_vsum_update(a.v, k, tv, i);
        lemma_vsum_update(a.v, k, tv, i1);
        if SPECIALMUL == 0 && s0 <= MM_P && (forall|t: int| 0 <= t < v0.len() ==> #[trigger] v0[t] <= MM_P) {
            assert(v0[k] <= MM_P);
            lemma_mod_mersenne_small(a.temp_p.wrapping_add(v0[k]));
            lemma_mod_mersenne_small(a.temp_v.wrapping_add(tp));
        }
        assert(vsum(a.v, i) == vsum(a.v, i1) + a.v[k]);
        let nx = MixMax::<N, SPECIALMUL, SPECIAL, SKIP>::spec_iter_loop(v0, s0, i);
        assert(nx.v == a.v.update(k, tv));
        assert(nx.sumtot == spec_sum_step(a.sumtot, tv, a.ovflow).0);
        assert(nx.ovflow == spec_sum_step(a.sumtot, tv, a.ovflow).1);
    } else {
        let a = MixMax::<N, SPECIALMUL, SPECIAL, SKIP>::spec_iter_loop(v0, s0, i);
        assert(vsum(a.v, 0) == 0);
        assert(vsum(a.v, 1) == vsum(a.v, 0) + a.v[0]);
    }
}

/// One vector application keeps the running sum congruent to the sum of the
/// vector, the wraps of the raw 64-bit sum included, and every entry at most
/// *p* + 7 (the reduction is not canonical); with `SPECIALMUL` = 0 and
/// `SPECIAL` either 0 or −1 (the N = 256 engine), entries at most *p* stay at
/// most *p*. For `SPECIAL` = −1 the special entry is *p* − *v*[1], which needs
/// *v*[1] ≤ *p*. The counter does not move.
pub proof fn lemma_iterate_keeps_sum<const N: usize, const SPECIALMUL: u32, const SPECIAL: u64, const SKIP: usize>(
    st: MixMaxState,
)
    requires
        MixMax::<N, SPECIALMUL, SPECIAL, SKIP>::valid_params(),
        N < 0x0100_0000_0000_0000,
        within(st, N as nat, MM_P + 7),
        SPECIAL == SPECIAL_MINUS_ONE ==> st.v[1] <= MM_P,
    ensures
        within(MixMax::<N, SPECIALMUL, SPECIAL, SKIP>::spec_iterate(st), N as nat, MM_P + 7),
        sum_consistent(MixMax::<N, SPECIALMUL, SPECIAL, SKIP>::spec_iterate(st), N as nat),
        MixMax::<N, SPECIALMUL, SPECIAL, SKIP>::spec_iterate(st).counter == st.counter,
        (SPECIALMUL == 0 && (SPECIAL == 0 || SPECIAL == SPECIAL_MINUS_ONE) && within(st, N as nat, MM_P as int))
            ==> within(MixMax::<N, SPECIALMUL, SPECIAL, SKIP>::spec_iterate(st), N as nat, MM_P as int),
{
    let pp = MM_P as int;
    let it = MixMax::<N, SPECIALMUL, SPECIAL, SKIP>::spec_iterate(st);
    let a = MixMax::<N, SPECIALMUL, SPECIAL, SKIP>::spec_iter_loop(st.v, st.sumtot, N as nat);
    lemma_iter_loop_sum::<N, SPECIALMUL, SPECIAL, SKIP>(st.v, st.sumtot, N as nat);
    let canon = SPECIALMUL == 0 && (SPECIAL == 0 || SPECIAL == SPECIAL_MINUS_ONE) && within(st, N as nat, MM_P as int);
    if SPECIAL != 0 {
        let t2 = MixMax::<N, SPECIALMUL, SPECIAL, SKIP>::spec_mod_mulspec(st.v[1]);
        if SPECIAL != SPECIAL_MINUS_ONE {
            let cum = 0u64;
            let s = (SPECIAL as u128).wrapping_mul(st.v[1] as u128).wrapping_add(cum as u128);
            let lo = s as u64;
            let hi = (s >> 64u128) as u64;
            lemma_mod_mersenne_congruent((lo & MM_P).wrapping_add(hi.wrapping_mul(8)).wrapping_add(lo >> 61u64));
        }
        assert(t2 <= MM_P + 7);
        let (s, o) = spec_sum_step(a.sumtot, t2, a.ovflow);
        lemma_sum_step_exact(a.sumtot, t2, a.ovflow);
        let x2 = spec_modadd(a.v[2], t2);
        lemma_mod_mersenne_congruent(a.v[2].wrapping_add(t2));
        assert(a.v[2] <= MM_P + 7);
        assert(a.v[2].wrapping_add(t2) == a.v[2] + t2);
        lemma_vsum_update(a.v, 2, x2, N as nat);
        lemma_fold_sum(s, o);
        // sumtot ≡ Σ a.v + t2 ≡ Σ a.v − a.v[2] + x2.
        vstd::arithmetic::div_mod::lemma_add_mod_noop(vsum(a.v, N as nat) - a.v[2], a.v[2] + t2, pp);
        vstd::arithmetic::div_mod::lemma_add_mod_noop(vsum(a.v, N as nat) - a.v[2], x2 as int, pp);
        if canon {
            assert(t2 <= MM_P);
            lemma_mod_mersenne_small(a.v[2].wrapping_add(t2));
        }
    } else {
        lemma_fold_sum(a.sumtot, a.ovflow);
    }
}

proof fn lemma_seed_loop_sum(seed: u64, i: nat)
    requires
        i < 0x0100_0000_0000_0000,
    ensures
        spec_seed_loop(seed, i).v.len() == i,
        spec_seed_loop(seed, i).sumtot + spec_seed_loop(seed, i).ovflow * 0x1_0000_0000_0000_0000int == vsum(
            spec_seed_loop(seed, i).v,
            i,
        ),
        spec_seed_loop(seed, i).ovflow <= i,
        forall|t: int| 0 <= t < i ==> #[trigger] spec_seed_loop(seed, i).v[t] <= MM_P,
    decreases i,
{
    if i > 0 {
        let i1 = (i - 1) as nat;
        lemma_seed_loop_sum(seed, i1);
        let a = spec_seed_loop(seed, i1);
        let l1 = a.l.wrapping_mul(MULT64);
        let l2 = (l1 << 32u64) ^ (l1 >> 32u64);
        let x = l2 & MM_P;
        assert(x <= MM_P) by (bit_vector)
            requires
                x == l2 & MM_P,
        ;
        lemma_sum_step_exact(a.sumtot, x, a.ovflow);
        let v = spec_seed_loop(seed, i).v;
        assert(v == a.v.push(x));
        assert(vsum(v, i1) == vsum(a.v, i1)) by {
            lemma_vsum_prefix(a.v, v, i1);
        }
    }
}

proof fn lemma_vsum_prefix(v: Seq<u64>, w: Seq<u64>, i: nat)
    requires
        i <= v.len(),
        i <= w.len(),
        forall|t: int| 0 <= t < i ==> #[trigger] v[t] == w[t],
    ensures
        vsum(v, i) == vsum(w, i),
    decreases i,
{
    if i > 0 {
        lemma_vsum_prefix(v, w, (i - 1) as nat);
    }
}

/// Seeding yields entries and a running sum that are canonical residues, the
/// sum congruent to the sum of the entries.
pub proof fn lemma_new_consistent<const N: usize, const SPECIALMUL: u32, const SPECIAL: u64, const SKIP: usize>(
    seed: u64,
)
    requires
        N < 0x0100_0000_0000_0000,
    ensures
        within(MixMax::<N, SPECIALMUL, SPECIAL, SKIP>::spec_new(seed), N as nat, MM_P as int),
        sum_consistent(MixMax::<N, SPECIALMUL, SPECIAL, SKIP>::spec_new(seed), N as nat),
{
    lemma_seed_loop_sum(seed, N as nat);
    let a = spec_seed_loop(seed, N as nat);
    lemma_fold_sum(a.sumtot, a.ovflow);
}

// ---------------------------------------------------------------------------
// One vector application is the MIXMAX matrix acting modulo p.
// ---------------------------------------------------------------------------

/// The 61-bit rotation of `x` by `s` (ROOT's MULWU).
pub open spec fn spec_rotate61(x: u64, s: u32) -> u64 {
    ((x << s) & MM_P) | (x >> (61 - s) as u32)
}

/// Rotating a residue below 2⁶¹ by `s` bits within 61 bits multiplies it by
/// 2ˢ modulo 2⁶¹ − 1.
pub proof fn lemma_rotate61(x: u64, s: u32)
    requires
        x <= MM_P,
        1 <= s <= 61,
    ensures
        spec_rotate61(x, s) <= MM_P,
        spec_rotate61(x, s) as int % (MM_P as int) == (vstd::arithmetic::power2::pow2(s as nat) * x) % (MM_P as int),
{
    let k = (61 - s) as u32;
    let one: u64 = 1;
    let m: u64 = ((one << (k as u64)) - 1) as u64;
    let lo = x & m;
    let hi = x >> k;
    let r = spec_rotate61(x, s);
    assert(r == (lo << s) + hi && (lo << s) <= MM_P - hi && lo < (one << (k as u64)) && (one << (k as u64)) >= 1) by (bit_vector)
        requires
            x <= MM_P,
            1 <= s <= 61,
            k == 61 - s,
            one == 1,
            m == ((one << (k as u64)) - 1) as u64,
            lo == x & m,
            hi == x >> k,
            r == ((x << s) & MM_P) | (x >> k),
    ;
    vstd::arithmetic::power2::lemma2_to64();
    vstd::arithmetic::power2::lemma2_to64_rest();
    vstd::bits::lemma_u64_pow2_no_overflow(k as nat);
    vstd::bits::lemma_u64_shl_is_mul(one, k as u64);
    assert(m == vstd::bits::low_bits_mask(k as nat) as u64);
    vstd::bits::lemma_u64_low_bits_mask_is_mod(x, k as nat);
    vstd::bits::lemma_u64_shr_is_div(x, k as u64);
    let pk = vstd::arithmetic::power2::pow2(k as nat);
    let ps = vstd::arithmetic::power2::pow2(s as nat);
    vstd::arithmetic::power2::lemma_pow2_adds(k as nat, s as nat);
    assert(k as nat + s as nat == 61);
    assert(vstd::arithmetic::power2::pow2(61) == 0x2000_0000_0000_0000int);
    assert(pk * ps == 0x2000_0000_0000_0000int);
    vstd::arithmetic::power2::lemma_pow2_pos(s as nat);
    assert(lo == x % (pk as u64));
    assert(hi == x / (pk as u64));
    vstd::arithmetic::div_mod::lemma_fundamental_div_mod(x as int, pk as int);
    assert(lo * ps < 0x2000_0000_0000_0000int) by (nonlinear_arith)
        requires
            lo < pk,
            pk * ps == 0x2000_0000_0000_0000int,
            0 < ps,
    ;
    vstd::bits::lemma_u64_shl_is_mul(lo, s as u64);
    assert(lo << s == lo << (s as u64)) by (bit_vector);
    // x·2ˢ = hi·2⁶¹ + lo·2ˢ = r + hi·p.
    assert(ps * x == (MM_P as int) * hi + r) by (nonlinear_arith)
        requires
            x == pk * hi + lo,
            pk * ps == 0x2000_0000_0000_0000int,
            r == lo * ps + hi,
    ;
    vstd::arithmetic::div_mod::lemma_mod_multiples_vanish(hi as int, r as int, MM_P as int);
}

/// Σ_{1≤*j*≤`i`} `v[j]`.
pub open spec fn partial_sum(v: Seq<u64>, i: nat) -> int
    decreases i,
{
    if i == 0 {
        0
    } else {
        partial_sum(v, (i - 1) as nat) + v[i as int]
    }
}

/// Entry `i` of the MIXMAX matrix applied to `v`, with entry 0 of the image
/// taken to be `base` (the sum of `v`): each entry is the one before plus the
/// partial sum Σ_{1≤*j*≤*i*} *v*ⱼ, plus 2ˢ times the partial sum before it when
/// `s` ≠ 0.
pub open spec fn matrix_entry(v: Seq<u64>, base: int, i: nat, s: nat) -> int
    decreases i,
{
    if i == 0 {
        base
    } else {
        matrix_entry(v, base, (i - 1) as nat, s) + partial_sum(v, i) + (if s == 0 {
            0
        } else {
            vstd::arithmetic::power2::pow2(s) * partial_sum(v, (i - 1) as nat)
        })
    }
}

proof fn lemma_matrix_entry_base(v: Seq<u64>, base: int, i: nat, s: nat)
    ensures
        matrix_entry(v, base, i, s) == matrix_entry(v, 0, i, s) + base,
    decreases i,
{
    if i > 0 {
        lemma_matrix_entry_base(v, base, (i - 1) as nat, s);
    }
}

proof fn lemma_congr_add(a: int, b: int, a2: int, b2: int, p: int)
    requires
        p > 0,
        a % p == a2 % p,
        b % p == b2 % p,
    ensures
        (a + b) % p == (a2 + b2) % p,
{
    vstd::arithmetic::div_mod::lemma_add_mod_noop(a, b, p);
    vstd::arithmetic::div_mod::lemma_add_mod_noop(a2, b2, p);
}

/// The loop of a vector application on residues at most *p* computes the
/// entries of the matrix action modulo *p*.
proof fn lemma_iter_loop_matrix<const N: usize, const SPECIALMUL: u32, const SPECIAL: u64, const SKIP: usize>(
    v0: Seq<u64>,
    s0: u64,
    i: nat,
)
    requires
        1 <= i <= v0.len(),
        SPECIALMUL <= 61,
        s0 <= MM_P,
        forall|t: int| 0 <= t < v0.len() ==> #[trigger] v0[t] <= MM_P,
    ensures
        ({
            let a = MixMax::<N, SPECIALMUL, SPECIAL, SKIP>::spec_iter_loop(v0, s0, i);
            &&& a.v.len() == v0.len()
            &&& a.temp_p <= MM_P
            &&& a.temp_p as int % (MM_P as int) == partial_sum(v0, (i - 1) as nat) % (MM_P as int)
            &&& a.temp_v <= MM_P + 7
            &&& a.temp_v as int % (MM_P as int) == matrix_entry(v0, s0 as int, (i - 1) as nat, SPECIALMUL as nat) % (
            MM_P as int)
            &&& forall|t: int|
                0 <= t < i ==> #[trigger] a.v[t] as int % (MM_P as int) == matrix_entry(
                    v0,
                    s0 as int,
                    t as nat,
                    SPECIALMUL as nat,
                ) % (MM_P as int)
        }),
    decreases i,
{
    let pp = MM_P as int;
    if i > 1 {
        let i1 = (i - 1) as nat;
        lemma_iter_loop_matrix::<N, SPECIALMUL, SPECIAL, SKIP>(v0, s0, i1);
        let a = MixMax::<N, SPECIALMUL, SPECIAL, SKIP>::spec_iter_loop(v0, s0, i1);
        let k = i - 1;
        let sm = SPECIALMUL as nat;
        let tp = spec_modadd(a.temp_p, v0[k]);
        assert(v0[k] <= MM_P);
        lemma_mod_mersenne_congruent(a.temp_p.wrapping_add(v0[k]));
        lemma_mod_mersenne_small(a.temp_p.wrapping_add(v0[k]));
        assert(partial_sum(v0, k as nat) == partial_sum(v0, (k - 1) as nat) + v0[k]);
        lemma_congr_add(a.temp_p as int, v0[k] as int, partial_sum(v0, (k - 1) as nat), v0[k] as int, pp);
        assert(tp as int % pp == partial_sum(v0, k as nat) % pp);
        let me = matrix_entry(v0, s0 as int, k as nat, sm);
        let me1 = matrix_entry(v0, s0 as int, (k - 1) as nat, sm);
        if SPECIALMUL != 0 {
            let po = ((a.temp_p << SPECIALMUL) & MM_P) | (a.temp_p >> (61 - SPECIALMUL) as u32);
            assert(po == spec_rotate61(a.temp_p, SPECIALMUL));
            lemma_rotate61(a.temp_p, SPECIALMUL);
            let ps = vstd::arithmetic::power2::pow2(sm) as int;
            vstd::arithmetic::div_mod::lemma_mul_mod_noop_right(ps, a.temp_p as int, pp);
            vstd::arithmetic::div_mod::lemma_mul_mod_noop_right(ps, partial_sum(v0, (k - 1) as nat), pp);
            let x = a.temp_v.wrapping_add(tp).wrapping_add(po);
            assert(x == a.temp_v + tp + po);
            lemma_mod_mersenne_congruent(x);
            lemma_congr_add(a.temp_v as int, tp as int, me1, partial_sum(v0, k as nat), pp);
            lemma_congr_add(a.temp_v + tp, po as int, me1 + partial_sum(v0, k as nat), ps * partial_sum(v0, (k - 1) as nat), pp);
            assert(me == me1 + partial_sum(v0, k as nat) + ps * partial_sum(v0, (k - 1) as nat));
        } else {
            let x = a.temp_v.wrapping_add(tp);
            assert(x == a.temp_v + tp);
            lemma_mod_mersenne_congruent(x);
            lemma_congr_add(a.temp_v as int, tp as int, me1, partial_sum(v0, k as nat), pp);
            assert(me == me1 + partial_sum(v0, k as nat));
        }
    }
}

/// The special correction of entry 2: `SPECIAL`·*v*[1] (or −*v*[1] for the
/// C value −1), and nothing when `SPECIAL` = 0.
pub open spec fn special_term(special: u64, v1: u64) -> int {
    if special == 0 {
        0
    } else if special == SPECIAL_MINUS_ONE {
        -(v1 as int)
    } else {
        special * v1
    }
}

/// Entry `i` of the MIXMAX matrix of the engine with these parameters
/// applied to `v`: [matrix_entry] from the sum of `v`, with the special
/// correction on entry 2.
pub open spec fn matrix_action(v: Seq<u64>, i: nat, specialmul: nat, special: u64) -> int {
    matrix_entry(v, vsum(v, v.len()), i, specialmul) + (if i == 2 {
        special_term(special, v[1])
    } else {
        0
    })
}

/// One vector application is the MIXMAX matrix acting on the vector modulo
/// 2⁶¹ − 1, for a state whose entries and running sum are residues at most
/// *p* and whose running sum is consistent.
pub proof fn lemma_iterate_is_matrix<const N: usize, const SPECIALMUL: u32, const SPECIAL: u64, const SKIP: usize>(
    st: MixMaxState,
)
    requires
        MixMax::<N, SPECIALMUL, SPECIAL, SKIP>::valid_params(),
        N < 0x0100_0000_0000_0000,
        SPECIAL == SPECIAL_MINUS_ONE || SPECIAL < 0x4000_0000_0000_0000u64,
        within(st, N as nat, MM_P as int),
        sum_consistent(st, N as nat),
    ensures
        forall|i: int|
            0 <= i < N ==> #[trigger] MixMax::<N, SPECIALMUL, SPECIAL, SKIP>::spec_iterate(st).v[i] as int % (
            MM_P as int) == matrix_action(st.v, i as nat, SPECIALMUL as nat, SPECIAL) % (MM_P as int),
{
    let pp = MM_P as int;
    let it = MixMax::<N, SPECIALMUL, SPECIAL, SKIP>::spec_iterate(st);
    let a = MixMax::<N, SPECIALMUL, SPECIAL, SKIP>::spec_iter_loop(st.v, st.sumtot, N as nat);
    lemma_iter_loop_matrix::<N, SPECIALMUL, SPECIAL, SKIP>(st.v, st.sumtot, N as nat);
    lemma_iter_loop_sum::<N, SPECIALMUL, SPECIAL, SKIP>(st.v, st.sumtot, N as nat);
    let sm = SPECIALMUL as nat;
    let total = vsum(st.v, N as nat);
    assert forall|i: int| 0 <= i < N implies a.v[i] as int % pp == matrix_entry(st.v, total, i as nat, sm) % pp by {
        lemma_matrix_entry_base(st.v, st.sumtot as int, i as nat, sm);
        lemma_matrix_entry_base(st.v, total, i as nat, sm);
        lemma_congr_add(matrix_entry(st.v, 0, i as nat, sm), st.sumtot as int, matrix_entry(st.v, 0, i as nat, sm), total, pp);
    }
    if SPECIAL != 0 {
        let v1 = st.v[1];
        let t2 = MixMax::<N, SPECIALMUL, SPECIAL, SKIP>::spec_mod_mulspec(v1);
        assert(v1 <= MM_P);
        if SPECIAL == SPECIAL_MINUS_ONE {
            assert(t2 == MM_P - v1);
            assert(t2 as int == pp * 1 + (-(v1 as int)));
            vstd::arithmetic::div_mod::lemma_mod_multiples_vanish(1, -(v1 as int), pp);
        } else {
            lemma_fmodmul_m61_congruent(0, SPECIAL, v1);
            let cum = 0u64;
            let s = (SPECIAL as u128).wrapping_mul(v1 as u128).wrapping_add(cum as u128);
            let lo = s as u64;
            let hi = (s >> 64u128) as u64;
            lemma_mod_mersenne_congruent((lo & MM_P).wrapping_add(hi.wrapping_mul(8)).wrapping_add(lo >> 61u64));
        }
        assert(t2 as int % pp == special_term(SPECIAL, v1) % pp);
        assert(t2 <= MM_P + 7);
        let x2 = spec_modadd(a.v[2], t2);
        lemma_mod_mersenne_congruent(a.v[2].wrapping_add(t2));
        assert(a.v[2].wrapping_add(t2) == a.v[2] + t2);
        assert forall|i: int| 0 <= i < N implies #[trigger] it.v[i] as int % pp == matrix_action(st.v, i as nat, sm, SPECIAL) % pp by {
            if i == 2 {
                assert(it.v[i] == x2);
                lemma_congr_add(a.v[2] as int, t2 as int, matrix_entry(st.v, total, 2, sm), special_term(SPECIAL, v1), pp);
            } else {
                assert(it.v[i] == a.v[i]);
            }
        }
    } else {
        assert forall|i: int| 0 <= i < N implies #[trigger] it.v[i] as int % pp == matrix_action(st.v, i as nat, sm, SPECIAL) % pp by {
            assert(it.v[i] == a.v[i]);
        }
    }
}

/// MIXMAX with N = 240 (ROOT's TRandomMixMax).
#[derive(Clone, Copy)]
pub struct Prng(MixMax<240, 51, 487013230256099140, 0>);

impl View for Prng {
    type V = MixMaxState;

    closed spec fn view(&self) -> MixMaxState {
        self.0@
    }
}

impl Prng {
    pub const NAME: &'static str = "MIXMAX (TRandomMixMax, N=240, s=487013230256099140)";

    /// The generator seeded by `seed` (0 is remapped, see [MixMax::new]).
    pub fn new(seed: u64) -> (g: Self)
        ensures
            g@ == MixMax::<240, 51, 487013230256099140, 0>::spec_new(seed),
    {
        Self(MixMax::new(seed))
    }

    /// The generator seeded by `seed`, or `None` for the zero seed, which
    /// ROOT's seeding rejects.
    pub fn try_new(seed: u64) -> (g: Option<Self>)
        ensures
            g is Some <==> seed != 0,
            g matches Some(g) ==> g@ == MixMax::<240, 51, 487013230256099140, 0>::spec_new(seed),
    {
        if seed == 0 {
            None
        } else {
            Some(Self::new(seed))
        }
    }

    /// The next raw 61-bit output, left-justified into 64 bits.
    pub fn next_u64(&mut self) -> (r: u64)
        ensures
            final(self)@ == MixMax::<240, 51, 487013230256099140, 0>::spec_next_raw(old(self)@).0,
            r == MixMax::<240, 51, 487013230256099140, 0>::spec_next_raw(old(self)@).1 << 3u64,
    {
        self.0.next_raw() << 3
    }
}

impl Generator for Prng {
    open spec fn spec_next(s: MixMaxState) -> (MixMaxState, u64) {
        let n = MixMax::<240, 51, 487013230256099140, 0>::spec_next_raw(s);
        (n.0, n.1 << 3u64)
    }

    fn next_u64(&mut self) -> (r: u64) {
        Prng::next_u64(self)
    }
}

} // verus!
