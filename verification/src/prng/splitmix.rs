//! SplitMix: a Weyl sequence of increment φ·2⁶⁴ passed through a 64-bit mixer.
use crate::prng::{outputs, Generator};
use vstd::prelude::*;

verus! {

/// The Weyl increment ⌊2⁶⁴/φ⌋ (odd).
pub const PHI: u64 = 0x9e3779b97f4a7c15;

/// The SplitMix output mixer applied to `z`.
pub open spec fn spec_mix64(z: u64) -> u64 {
    let z1 = (z ^ (z >> 30u64)).wrapping_mul(0xbf58476d1ce4e5b9u64);
    let z2 = (z1 ^ (z1 >> 27u64)).wrapping_mul(0x94d049bb133111ebu64);
    z2 ^ (z2 >> 31u64)
}

/// The SplitMix output mixer.
pub fn mix64(z: u64) -> (r: u64)
    ensures
        r == spec_mix64(z),
{
    let z = (z ^ (z >> 30)).wrapping_mul(0xbf58476d1ce4e5b9);
    let z = (z ^ (z >> 27)).wrapping_mul(0x94d049bb133111eb);
    z ^ (z >> 31)
}

/// The mixer sends only 0 to 0.
pub proof fn lemma_mix64_zero(z: u64)
    ensures
        spec_mix64(z) == 0 <==> z == 0,
{
    let z1 = (z ^ (z >> 30u64)).wrapping_mul(0xbf58476d1ce4e5b9u64);
    let z2 = (z1 ^ (z1 >> 27u64)).wrapping_mul(0x94d049bb133111ebu64);
    let a = z ^ (z >> 30u64);
    let b = z1 ^ (z1 >> 27u64);
    assert(a == 0 <==> z == 0) by (bit_vector) requires a == z ^ (z >> 30u64);
    assert(b == 0 <==> z1 == 0) by (bit_vector) requires b == z1 ^ (z1 >> 27u64);
    assert(z2 ^ (z2 >> 31u64) == 0 <==> z2 == 0) by (bit_vector);
    assert(a.wrapping_mul(0xbf58476d1ce4e5b9u64) == 0 <==> a == 0) by (bit_vector);
    assert(b.wrapping_mul(0x94d049bb133111ebu64) == 0 <==> b == 0) by (bit_vector);
}

/// The SplitMix generator, whose state is the current term of the Weyl sequence.
#[derive(Clone, Copy)]
pub struct Prng {
    x: u64,
}

impl View for Prng {
    type V = u64;

    /// The current term of the Weyl sequence.
    closed spec fn view(&self) -> u64 {
        self.x
    }
}

impl Prng {
    pub const NAME: &'static str = "SplitMix";

    /// The generator whose Weyl sequence starts at `seed`.
    pub fn new(seed: u64) -> (g: Self)
        ensures
            g@ == seed,
    {
        Self { x: seed }
    }

    /// Same as [Self::new]: every seed is accepted.
    pub fn try_new(seed: u64) -> (g: Option<Self>)
        ensures
            g matches Some(g) && g@ == seed,
    {
        Some(Self::new(seed))
    }

    /// Outputs the mixed current term and advances the Weyl sequence by φ.
    pub fn next_u64(&mut self) -> (r: u64)
        ensures
            r == spec_mix64(old(self)@),
            final(self)@ == old(self)@.wrapping_add(PHI),
    {
        let z = mix64(self.x);
        self.x = self.x.wrapping_add(PHI);
        z
    }
}

impl Generator for Prng {
    open spec fn spec_next(s: u64) -> (u64, u64) {
        (s.wrapping_add(PHI), spec_mix64(s))
    }

    fn next_u64(&mut self) -> (r: u64) {
        Prng::next_u64(self)
    }
}

/// The `k`-th term of the Weyl sequence from `seed`: `seed` + `k`·φ mod 2⁶⁴.
pub open spec fn weyl(seed: u64, k: nat) -> u64 {
    ((seed + k * PHI) % 0x1_0000_0000_0000_0000int) as u64
}

/// After `k` steps from `seed` the state is the `k`-th Weyl term, and the
/// `k`-th output (counting from 0) is its mix: SplitMix can jump ahead.
pub proof fn lemma_splitmix_kth(seed: u64, k: nat)
    ensures
        outputs::<Prng>(seed, k).0 == weyl(seed, k),
        outputs::<Prng>(seed, k + 1).1[k as int] == spec_mix64(weyl(seed, k)),
    decreases k,
{
    let m = 0x1_0000_0000_0000_0000int;
    if k == 0 {
        vstd::arithmetic::div_mod::lemma_small_mod(seed as nat, m as nat);
    } else {
        lemma_splitmix_kth(seed, (k - 1) as nat);
        let x = weyl(seed, (k - 1) as nat);
        vstd::arithmetic::div_mod::lemma_mod_bound(seed + (k - 1) * PHI, m);
        vstd::arithmetic::div_mod::lemma_add_mod_noop(seed + (k - 1) * PHI, PHI as int, m);
        vstd::arithmetic::div_mod::lemma_small_mod(PHI as nat, m as nat);
        assert(seed + (k - 1) * PHI + PHI == seed + k * PHI) by (nonlinear_arith);
        let y = x.wrapping_add(PHI);
        if x + PHI > u64::MAX {
            vstd::arithmetic::div_mod::lemma_mod_sub_multiples_vanish(x + PHI, m);
            vstd::arithmetic::div_mod::lemma_small_mod((x + PHI - m) as nat, m as nat);
        } else {
            vstd::arithmetic::div_mod::lemma_small_mod((x + PHI) as nat, m as nat);
        }
        assert(y == weyl(seed, k));
    }
    assert(outputs::<Prng>(seed, k + 1).1 == outputs::<Prng>(seed, k).1.push(spec_mix64(outputs::<Prng>(seed, k).0)));
    crate::prng::lemma_outputs_len::<Prng>(seed, k);
}

} // verus!
