use modlin::fp::Field;
use modlin::prng::{splitmix, xoroshiro128pp};
use modlin::sample::fill_reduced;

#[test]
fn fill_reduced_draws_contiguous_outputs() {
    let f = Field::new(97);
    let mut rng = splitmix::Prng::new(42);
    let mut reference = splitmix::Prng::new(42);
    let mut data = vec![0u64; 30];
    fill_reduced(&f, &mut rng, &mut data[..]);
    for &x in &data {
        assert_eq!(x, reference.next_u64() % 97);
    }
    // The generator continues where the fill stopped.
    assert_eq!(rng.next_u64(), reference.next_u64());
}

#[test]
fn fill_reduced_in_rows_equals_whole() {
    let f = Field::new(2305843009213693951);
    let mut a = xoroshiro128pp::Prng::new(7);
    let mut b = xoroshiro128pp::Prng::new(7);
    let mut whole = vec![0u64; 12];
    fill_reduced(&f, &mut a, &mut whole[..]);
    let mut rows = vec![0u64; 12];
    for row in rows.chunks_mut(4) {
        fill_reduced(&f, &mut b, row);
    }
    assert_eq!(whole, rows);
}
