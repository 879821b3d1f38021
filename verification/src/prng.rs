//! Pseudorandom number generators.
//!
//! Each generator lives in a module of its own and exposes a `Prng` type with a
//! `new(seed: u64) -> Self` constructor, a `try_new(seed: u64)` constructor
//! that returns `None` on a seed the generator's C code rejects, and a
//! `next_u64(&mut self) -> u64` step function; the test reduces each output
//! modulo the field prime, so every generator emits a 64-bit integer (MIXMAX,
//! a 61-bit generator, is left-justified into 64 bits).
pub mod mixmax;
pub mod mixmax17;
pub mod mixmax256;
pub mod splitmix;
pub mod xoroshiro128pp;

use vstd::prelude::*;

verus! {

/// A generator of 64-bit outputs, as the tests draw their inputs.
pub trait Generator: Sized + View {
    /// The state after one step from state `s`, and the output of that step.
    spec fn spec_next(s: Self::V) -> (Self::V, u64);

    /// One step: advances the state and returns its output.
    fn next_u64(&mut self) -> (r: u64)
        ensures
            (final(self)@, r) == Self::spec_next(old(self)@),
    ;
}

/// The state after `k` steps from state `s`, and the `k` outputs of those
/// steps.
pub open spec fn outputs<G: Generator>(s: G::V, k: nat) -> (G::V, Seq<u64>)
    decreases k,
{
    if k == 0 {
        (s, Seq::empty())
    } else {
        let prev = outputs::<G>(s, (k - 1) as nat);
        let step = G::spec_next(prev.0);
        (step.0, prev.1.push(step.1))
    }
}

/// Drawing `a` + `b` outputs is drawing `a` outputs and then `b` more from
/// the state where they stopped: consecutive draws (the rows of a matrix, or
/// the repetitions of a test) read disjoint, contiguous stretches of the
/// orbit.
pub proof fn lemma_outputs_split<G: Generator>(s: G::V, a: nat, b: nat)
    ensures
        outputs::<G>(s, a + b).0 == outputs::<G>(outputs::<G>(s, a).0, b).0,
        outputs::<G>(s, a + b).1 == outputs::<G>(s, a).1 + outputs::<G>(outputs::<G>(s, a).0, b).1,
    decreases b,
{
    if b > 0 {
        lemma_outputs_split::<G>(s, a, (b - 1) as nat);
        assert(outputs::<G>(s, a + b).1 == outputs::<G>(s, (a + b - 1) as nat).1.push(
            G::spec_next(outputs::<G>(s, (a + b - 1) as nat).0).1,
        ));
        assert(outputs::<G>(s, a).1 + outputs::<G>(outputs::<G>(s, a).0, b).1 == (outputs::<G>(s, a).1
            + outputs::<G>(outputs::<G>(s, a).0, (b - 1) as nat).1).push(
            G::spec_next(outputs::<G>(outputs::<G>(s, a).0, (b - 1) as nat).0).1,
        ));
    }
}

/// Every draw yields exactly as many outputs as asked for.
pub proof fn lemma_outputs_len<G: Generator>(s: G::V, k: nat)
    ensures
        outputs::<G>(s, k).1.len() == k,
    decreases k,
{
    if k > 0 {
        lemma_outputs_len::<G>(s, (k - 1) as nat);
    }
}

} // verus!
