//! Drawing the test inputs from a generator.
use crate::fp::Field;
use crate::prng::{outputs, Generator};
use vstd::prelude::*;

verus! {

/// Fills `data` with the next `data.len()` outputs of `rng`, each reduced
/// modulo *p*: the contiguous stretch of the orbit that makes up one matrix
/// (row-major) or one sequence.
pub fn fill_reduced<G: Generator>(field: &Field, rng: &mut G, data: &mut [u64])
    ensures
        final(data)@.len() == old(data)@.len(),
        final(rng)@ == outputs::<G>(old(rng)@, old(data)@.len()).0,
        forall|i: int|
            0 <= i < old(data)@.len() ==> #[trigger] final(data)@[i] as int == outputs::<G>(
                old(rng)@,
                old(data)@.len(),
            ).1[i] as int % (field.modulus() as int),
{
    let ghost s0 = rng@;
    let ghost len = data@.len();
    let n = data.len();
    let mut i: usize = 0;
    while i < n
        invariant
            n == len,
            data@.len() == len,
            0 <= i <= n,
            rng@ == outputs::<G>(s0, i as nat).0,
            outputs::<G>(s0, i as nat).1.len() == i,
            forall|j: int|
                0 <= j < i ==> #[trigger] data@[j] as int == outputs::<G>(s0, i as nat).1[j] as int % (
                field.modulus() as int),
        decreases n - i,
    {
        let x = rng.next_u64();
        data[i] = field.reduce(x);
        proof {
            let prev = outputs::<G>(s0, i as nat);
            assert(outputs::<G>(s0, (i + 1) as nat).1 == prev.1.push(x));
        }
        i += 1;
    }
}

} // verus!
