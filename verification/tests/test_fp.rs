use modlin::fp::Field;

#[test]
fn barrett_matches_division() {
    // The Barrett reduction must equal the % p for every modulus, over the
    // full u128 input range and the worst-case corners.
    fn mix(x: u64) -> u64 {
        let mut z = x.wrapping_mul(0x9E3779B97F4A7C15);
        z = (z ^ (z >> 30)).wrapping_mul(0xBF58476D1CE4E5B9);
        z ^ (z >> 31)
    }
    let primes = [
        2,
        3,
        97,
        65537,
        (1 << 31) - 1,
        (1 << 61) - 1,
        2305843009213693951, // 2⁶¹ − 1 (MIXMAX)
        (1 << 62) + 135,
        (1 << 63) - 25,
    ];
    for &p in &primes {
        let f = Field::new(p);
        let pm = p as u128;
        // reduce_u128 over corners and a pseudo-random sweep up to ~2¹²⁸.
        let mut corners = vec![
            0u128,
            1,
            pm - 1,
            pm,
            pm + 1,
            u128::MAX,
            u128::MAX - 1,
            1u128 << 127,
            (1u128 << 127) | 1,
        ];
        for i in 0..256 {
            let hi = mix(i) as u128;
            let lo = mix(i ^ 0xABCD) as u128;
            corners.push((hi << 64) | lo);
        }
        for &t in &corners {
            assert_eq!(f.reduce_u128(t), (t % pm) as u64, "p={p} t={t}");
        }
        // reduce(x) for 64-bit inputs, and mul for products.
        for &x in &[0, 1, p - 1, p.wrapping_sub(0), u64::MAX, u64::MAX - 1] {
            assert_eq!(f.reduce(x), (x as u128 % pm) as u64, "p={p} x={x}");
        }
        for i in 0..256 {
            let a = mix(i) % p;
            let b = mix(i ^ 0x1234) % p;
            assert_eq!(f.mul(a, b), ((a as u128 * b as u128) % pm) as u64, "p={p}");
        }
    }
}

#[test]
fn modulus_is_kept() {
    let f = Field::new(65537);
    assert_eq!(f.modulus_u64(), 65537);
}

#[test]
fn reduce_exact_values() {
    let f = Field::new(97);
    assert_eq!(f.reduce(1000), 30);
    assert_eq!(f.reduce_u128(1u128 << 100), ((1u128 << 100) % 97) as u64);
    assert_eq!(f.mul(96, 96), 1);
}
