// Bit-exactness checks against the official MIXMAX C source and the reference
// xoroshiro128++ algorithm. The MIXMAX vectors are the first 10 raw 61-bit
// outputs of ROOT's mixmax.h/.icc (spbox-seeded) for the seed below;
// next_u64() left-shifts the raw output by 3, so we compare next_u64() >> 3.
use modlin::prng::{mixmax, mixmax17, mixmax256, splitmix, xoroshiro128pp};

const SEED: u64 = 1234567890123456789;

const EXPECTED_MIXMAX17: [u64; 10] = [
    725153038902651861,
    1378221679953707950,
    1286954255613532202,
    2183378240693018162,
    480095223529858829,
    1028486193651132422,
    1683776858464191402,
    752698145398996242,
    1196878046144236647,
    1221112387665998636,
];

const EXPECTED_MIXMAX: [u64; 10] = [
    1894724080392768937,
    2178403735632896525,
    82974682673747095,
    1362029167703491378,
    175589691633294316,
    1981764336260928646,
    1644676922156291251,
    463159379824582110,
    73102843550620337,
    783499878333038877,
];

const EXPECTED_MIXMAX256: [u64; 10] = [
    379984832372095102,
    2262036764019001978,
    952890261108261993,
    1848869284066170746,
    412703182074144958,
    1796627384723021327,
    1959941208714421405,
    1149684300799040022,
    525039624349349232,
    110320404022327900,
];

#[test]
fn matches_official_mixmax() {
    let mut p = mixmax17::Prng::try_new(SEED).unwrap();
    for (i, &expected) in EXPECTED_MIXMAX17.iter().enumerate() {
        let raw = p.next_u64() >> 3;
        assert_eq!(raw, expected, "MIXMAX output {i} disagrees with ROOT");
    }
    let mut p = mixmax::Prng::try_new(SEED).unwrap();
    for (i, &expected) in EXPECTED_MIXMAX.iter().enumerate() {
        let raw = p.next_u64() >> 3;
        assert_eq!(raw, expected, "MIXMAX output {i} disagrees with ROOT");
    }
    let mut p = mixmax256::Prng::try_new(SEED).unwrap();
    for (i, &expected) in EXPECTED_MIXMAX256.iter().enumerate() {
        let raw = p.next_u64() >> 3;
        assert_eq!(raw, expected, "MIXMAX output {i} disagrees with ROOT");
    }
}

// The expected values are the first 10 outputs of xoroshiro128++ whose
// 128-bit state is SplitMix64-seeded from seed 0, computed from the published
// recurrence independently of this crate.
#[test]
fn matches_reference_xoroshiro() {
    const EXPECTED: [u64; 10] = [
        8027914721839836897,
        13805533416164201645,
        5256508173613850168,
        7973558954284022901,
        8526501294691771125,
        6116102375994396471,
        16028966417245382669,
        12808598746819302742,
        15824426267781808726,
        5829521525559713354,
    ];
    let mut p = xoroshiro128pp::Prng::try_new(0).unwrap();
    for (i, &expected) in EXPECTED.iter().enumerate() {
        assert_eq!(
            p.next_u64(),
            expected,
            "xoroshiro128++ output {i} disagrees with the reference"
        );
    }
}

#[test]
fn xoroshiro_recurrence_from_raw_state() {
    // From the raw state [1, 0] the first output is 131073 and the next
    // state [562949955518465, 268435456].
    let mut p = xoroshiro128pp::Prng::from_state(1, 0).unwrap();
    assert_eq!(p.next_u64(), 131073);
    let mut q = xoroshiro128pp::Prng::from_state(562949955518465, 268435456).unwrap();
    let mut p2 = p;
    assert_eq!(p2.next_u64(), q.next_u64());
    assert!(xoroshiro128pp::Prng::from_state(0, 0).is_none());
}

#[test]
fn splitmix_outputs_mix_then_steps() {
    let mut g = splitmix::Prng::new(0);
    // First output mixes the seed itself (0 mixes to 0), then the Weyl step.
    assert_eq!(g.next_u64(), 0);
    assert_eq!(g.next_u64(), splitmix::mix64(0x9e3779b97f4a7c15));
    assert!(splitmix::Prng::try_new(0).is_some());
}

#[test]
fn mixmax_zero_seed() {
    assert!(mixmax17::Prng::try_new(0).is_none());
    // new remaps the zero seed to a fixed constant.
    let mut a = mixmax17::Prng::new(0);
    let mut b = mixmax17::Prng::new(0x9e3779b97f4a7c15);
    for _ in 0..40 {
        assert_eq!(a.next_u64(), b.next_u64());
    }
}

#[test]
fn mixmax_outputs_are_left_justified() {
    let mut p = mixmax17::Prng::new(SEED);
    for _ in 0..100 {
        assert_eq!(p.next_u64() & 7, 0);
    }
}

#[test]
fn mixmax_reductions_are_congruent() {
    let p = mixmax::MM_P as u128;
    for &k in &[0u64, 1, mixmax::MM_P, mixmax::MM_P + 1, u64::MAX, u64::MAX - 5, 1 << 63] {
        let r = mixmax::mod_mersenne(k);
        assert!(r <= mixmax::MM_P + 7);
        assert_eq!(r as u128 % p, k as u128 % p);
    }
    assert_eq!(mixmax::mod_mersenne(u64::MAX), (1u64 << 61) - 1 + 7);
    assert_eq!(mixmax::modadd(mixmax::MM_P, 5) as u128 % p, 5);
    let (a, b, cum) = ((1u64 << 61) + 3, (1u64 << 61) + 7, 11u64);
    let r = mixmax::fmodmul_m61(cum, a, b);
    assert_eq!(r as u128 % p, (a as u128 * b as u128 + cum as u128) % p);
    assert_eq!(mixmax::fmodmul_m61(0, 2, 3), 6);
}

#[test]
fn splitmix_jumps_ahead() {
    let seed = 12345u64;
    let mut g = splitmix::Prng::new(seed);
    for k in 0..20u64 {
        let x = g.next_u64();
        assert_eq!(x, splitmix::mix64(seed.wrapping_add(k.wrapping_mul(splitmix::PHI))));
    }
}
