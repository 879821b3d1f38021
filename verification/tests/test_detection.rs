// The two tests on a generator that is linear over the field of size 2⁶¹ − 1
// (MIXMAX with N = 17, seed 1) and on one that is not (xoroshiro128++, seed 0).
use modlin::fp::{linear_complexity, rank, Field};
use modlin::prng::{mixmax17, xoroshiro128pp};
use modlin::sample::fill_reduced;

const P61: u64 = 2305843009213693951;

#[test]
fn mixmax17_rank_deficiency() {
    let f = Field::new(P61);
    let mut rng = mixmax17::Prng::new(1);
    let n = 500;
    let mut m = vec![0u64; n * n];
    fill_reduced(&f, &mut rng, &mut m[..]);
    assert_eq!(n - rank(&f, &mut m, n), 432);
}

#[test]
fn mixmax17_linear_complexity() {
    let f = Field::new(P61);
    let mut rng = mixmax17::Prng::new(1);
    let mut s = vec![0u64; 1000];
    fill_reduced(&f, &mut rng, &mut s[..]);
    assert_eq!(linear_complexity(&f, &s), 272);
}

#[test]
fn xoroshiro_linear_complexity_over_gf2() {
    let f = Field::new(2);
    let mut rng = xoroshiro128pp::Prng::new(0);
    let mut s = vec![0u64; 1000];
    fill_reduced(&f, &mut rng, &mut s[..]);
    assert_eq!(linear_complexity(&f, &s), 503);
}

#[test]
fn xoroshiro_full_rank_over_large_field() {
    let f = Field::new(P61);
    let mut rng = xoroshiro128pp::Prng::new(0);
    let n = 200;
    let mut m = vec![0u64; n * n];
    fill_reduced(&f, &mut rng, &mut m[..]);
    assert_eq!(rank(&f, &mut m, n), n);
}
