//! xoroshiro128++: a 128-bit xor/shift/rotate generator with a ++ scrambler,
//! seeded by SplitMix64.
use crate::prng::splitmix::{lemma_mix64_zero, mix64, spec_mix64, PHI};
use crate::prng::splitmix::{lemma_splitmix_kth, weyl};
use crate::prng::{outputs, Generator};
use vstd::prelude::*;

verus! {

/// `x` rotated left by `k` bits (0 < `k` < 64).
pub open spec fn spec_rotl(x: u64, k: u64) -> u64 {
    (x << k) | (x >> (64 - k) as u64)
}

fn rotl(x: u64, k: u64) -> (r: u64)
    requires
        0 < k < 64,
    ensures
        r == spec_rotl(x, k),
{
    (x << k) | (x >> (64 - k))
}

/// The output of xoroshiro128++ on state (`s0`, `s1`).
pub open spec fn spec_output(s0: u64, s1: u64) -> u64 {
    spec_rotl(s0.wrapping_add(s1), 17).wrapping_add(s0)
}

/// The state that follows (`s0`, `s1`).
pub open spec fn spec_advance(s0: u64, s1: u64) -> (u64, u64) {
    let t = s1 ^ s0;
    (spec_rotl(s0, 49) ^ t ^ (t << 21u64), spec_rotl(t, 28))
}

/// The state SplitMix64 derives from `seed`: its first two outputs, the Weyl
/// sequence starting at `seed` + φ.
pub open spec fn spec_seeded(seed: u64) -> (u64, u64) {
    (spec_mix64(seed.wrapping_add(PHI)), spec_mix64(seed.wrapping_add(PHI).wrapping_add(PHI)))
}

/// The SplitMix64-derived state is never all zero: the mixer sends only 0 to
/// 0, and the two Weyl terms differ by φ ≠ 0.
pub proof fn lemma_seeded_nonzero(seed: u64)
    ensures
        spec_seeded(seed).0 != 0 || spec_seeded(seed).1 != 0,
{
    let x = seed.wrapping_add(PHI);
    lemma_mix64_zero(x);
    lemma_mix64_zero(x.wrapping_add(PHI));
    assert(!(x == 0 && x.wrapping_add(PHI) == 0));
}

/// The seeded state is what SplitMix64 gives from `seed`: the mixes of the
/// Weyl terms `seed` + φ and `seed` + 2φ (mod 2⁶⁴), that is, the second and
/// third outputs of [crate::prng::splitmix::Prng] started at `seed` (SplitMix64
/// advances before it mixes, so its first two outputs from `seed`).
pub proof fn lemma_seeded_is_splitmix64(seed: u64)
    ensures
        spec_seeded(seed) == (spec_mix64(weyl(seed, 1)), spec_mix64(weyl(seed, 2))),
        spec_seeded(seed) == (
            outputs::<crate::prng::splitmix::Prng>(seed, 3).1[1],
            outputs::<crate::prng::splitmix::Prng>(seed, 3).1[2],
        ),
{
    lemma_splitmix_kth(seed, 1);
    lemma_splitmix_kth(seed, 2);
    assert(outputs::<crate::prng::splitmix::Prng>(seed, 1).0 == seed.wrapping_add(PHI));
    assert(outputs::<crate::prng::splitmix::Prng>(seed, 2).0 == seed.wrapping_add(PHI).wrapping_add(PHI));
    assert(outputs::<crate::prng::splitmix::Prng>(seed, 3).1 == outputs::<crate::prng::splitmix::Prng>(seed, 2).1.push(
        spec_mix64(outputs::<crate::prng::splitmix::Prng>(seed, 2).0),
    ));
    crate::prng::lemma_outputs_len::<crate::prng::splitmix::Prng>(seed, 2);
}

/// A state that is not all zero has a successor that is not all zero.
pub proof fn lemma_advance_nonzero(s0: u64, s1: u64)
    requires
        s0 != 0 || s1 != 0,
    ensures
        spec_advance(s0, s1).0 != 0 || spec_advance(s0, s1).1 != 0,
{
    let t = s1 ^ s0;
    assert((t << 28u64) | (t >> 36u64) == 0 ==> t == 0) by (bit_vector);
    assert(t == 0 ==> s0 == s1) by (bit_vector) requires t == s1 ^ s0;
    assert((s0 << 49u64) | (s0 >> 15u64) == 0 ==> s0 == 0) by (bit_vector);
    assert(t == 0 ==> (t << 21u64) == 0 && ((s0 << 49u64) | (s0 >> 15u64)) ^ t ^ (t << 21u64) == (s0 << 49u64) | (s0 >> 15u64)) by (bit_vector);
}

/// The xoroshiro128++ generator; its state is never all zero.
#[derive(Clone, Copy)]
pub struct Prng {
    s0: u64,
    s1: u64,
}

impl View for Prng {
    type V = (u64, u64);

    /// The 128-bit state.
    closed spec fn view(&self) -> (u64, u64) {
        (self.s0, self.s1)
    }
}

impl Prng {
    #[verifier::type_invariant]
    spec fn nonzero(&self) -> bool {
        self.s0 != 0 || self.s1 != 0
    }

    pub const NAME: &'static str = "xoroshiro128++";

    /// The generator whose state SplitMix64 derives from `seed`.
    pub fn new(seed: u64) -> (g: Self)
        ensures
            g@ == spec_seeded(seed),
            g@ == (spec_mix64(weyl(seed, 1)), spec_mix64(weyl(seed, 2))),
    {
        proof { lemma_seeded_nonzero(seed); lemma_seeded_is_splitmix64(seed); }
        let x = seed.wrapping_add(PHI);
        let s0 = mix64(x);
        let s1 = mix64(x.wrapping_add(PHI));
        Self { s0, s1 }
    }

    /// The generator with the given state, which must not be all zero.
    pub fn from_state(s0: u64, s1: u64) -> (g: Option<Self>)
        ensures
            g matches Some(g) ==> g@ == (s0, s1),
            g is Some <==> (s0 != 0 || s1 != 0),
    {
        if s0 == 0 && s1 == 0 {
            None
        } else {
            Some(Self { s0, s1 })
        }
    }

    /// The generator whose state SplitMix64 derives from `seed`, unless that
    /// state is all zero (the one state xoroshiro cannot leave), which
    /// [lemma_seeded_nonzero] shows never happens.
    pub fn try_new(seed: u64) -> (g: Option<Self>)
        ensures
            g matches Some(g) && g@ == spec_seeded(seed),
            g matches Some(g) && g@ == (spec_mix64(weyl(seed, 1)), spec_mix64(weyl(seed, 2))),
    {
        proof { lemma_seeded_is_splitmix64(seed); }
        let x = seed.wrapping_add(PHI);
        let s0 = mix64(x);
        let s1 = mix64(x.wrapping_add(PHI));
        proof { lemma_seeded_nonzero(seed); }
        Self::from_state(s0, s1)
    }

    /// Outputs rotl(*s*₀ + *s*₁, 17) + *s*₀ and advances the state.
    pub fn next_u64(&mut self) -> (r: u64)
        ensures
            r == spec_output(old(self)@.0, old(self)@.1),
            final(self)@ == spec_advance(old(self)@.0, old(self)@.1),
    {
        proof { use_type_invariant(&*self); }
        let s0 = self.s0;
        let s1 = self.s1;
        proof { lemma_advance_nonzero(s0, s1); }
        let r = rotl(s0.wrapping_add(s1), 17).wrapping_add(s0);
        let t = s1 ^ s0;
        let n0 = rotl(s0, 49) ^ t ^ (t << 21);
        let n1 = rotl(t, 28);
        *self = Prng { s0: n0, s1: n1 };
        r
    }
}

impl Generator for Prng {
    open spec fn spec_next(s: (u64, u64)) -> ((u64, u64), u64) {
        (spec_advance(s.0, s.1), spec_output(s.0, s.1))
    }

    fn next_u64(&mut self) -> (r: u64) {
        Prng::next_u64(self)
    }
}

} // verus!
