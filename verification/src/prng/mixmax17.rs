//! MIXMAX with N = 17 (ROOT's TRandomMixMax17).
use crate::prng::mixmax::{MixMax, MixMaxState};
use crate::prng::Generator;
use vstd::prelude::*;

verus! {

/// MIXMAX with N = 17 (ROOT's TRandomMixMax17).
#[derive(Clone, Copy)]
pub struct Prng(MixMax<17, 36, 0, 0>);

impl View for Prng {
    type V = MixMaxState;

    closed spec fn view(&self) -> MixMaxState {
        self.0@
    }
}

impl Prng {
    pub const NAME: &'static str = "MIXMAX (TRandomMixMax17, N=17)";

    /// The generator seeded by `seed` (0 is remapped, see [MixMax::new]).
    pub fn new(seed: u64) -> (g: Self)
        ensures
            g@ == MixMax::<17, 36, 0, 0>::spec_new(seed),
    {
        Self(MixMax::new(seed))
    }

    /// The generator seeded by `seed`, or `None` for the zero seed, which
    /// ROOT's seeding rejects.
    pub fn try_new(seed: u64) -> (g: Option<Self>)
        ensures
            g is Some <==> seed != 0,
            g matches Some(g) ==> g@ == MixMax::<17, 36, 0, 0>::spec_new(seed),
    {
        if seed == 0 {
            None
        } else {
            Some(Self::new(seed))
        }
    }

    /// The next raw 61-bit output, left-justified into 64 bits.
    pub fn next_u64(&mut self) -> (r: u64)
        ensures
            final(self)@ == MixMax::<17, 36, 0, 0>::spec_next_raw(old(self)@).0,
            r == MixMax::<17, 36, 0, 0>::spec_next_raw(old(self)@).1 << 3u64,
    {
        self.0.next_raw() << 3
    }
}

impl Generator for Prng {
    open spec fn spec_next(s: MixMaxState) -> (MixMaxState, u64) {
        let n = MixMax::<17, 36, 0, 0>::spec_next_raw(s);
        (n.0, n.1 << 3u64)
    }

    fn next_u64(&mut self) -> (r: u64) {
        Prng::next_u64(self)
    }
}

} // verus!
