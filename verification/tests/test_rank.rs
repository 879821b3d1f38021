use modlin::fp::{rank, Field};

fn mix(x: u64) -> u64 {
    let mut z = x.wrapping_mul(0x9E3779B97F4A7C15);
    z = (z ^ (z >> 30)).wrapping_mul(0xBF58476D1CE4E5B9);
    z = (z ^ (z >> 27)).wrapping_mul(0x94D049BB133111EB);
    z ^ (z >> 31)
}

fn addmod(a: u64, b: u64, p: u64) -> u64 {
    ((a as u128 + b as u128) % p as u128) as u64
}

fn mulmod(a: u64, b: u64, p: u64) -> u64 {
    (a as u128 * b as u128 % p as u128) as u64
}

fn submod(a: u64, b: u64, p: u64) -> u64 {
    if a >= b { a - b } else { a + p - b }
}

fn powmod(a: u64, mut e: u64, p: u64) -> u64 {
    let pm = p as u128;
    let mut r: u128 = 1 % pm;
    let mut base = a as u128 % pm;
    while e > 0 {
        if e & 1 == 1 {
            r = r * base % pm;
        }
        base = base * base % pm;
        e >>= 1;
    }
    r as u64
}

fn rank_ref(p: u64, m: &mut [u64], n: usize) -> usize {
    assert_eq!(m.len(), n * n);
    let mut rank = 0;
    for col in 0..n {
        if rank == n {
            break;
        }
        let Some(pr) = (rank..n).find(|&r| m[r * n + col] != 0) else {
            continue;
        };
        if pr != rank {
            for c in col..n {
                m.swap(pr * n + c, rank * n + c);
            }
        }
        let inv = powmod(m[rank * n + col], p - 2, p);
        for r in (rank + 1)..n {
            let head = m[r * n + col];
            if head != 0 {
                let f = mulmod(head, inv, p);
                for c in col..n {
                    m[r * n + c] = submod(m[r * n + c], mulmod(f, m[rank * n + c], p), p);
                }
            }
        }
        rank += 1;
    }
    rank
}

#[test]
fn rank_of_known_matrices() {
    let f = Field::new(2305843009213693951); // 2⁶¹ − 1

    let mut id = vec![0; 9];
    for i in 0..3 {
        id[i * 3 + i] = 1;
    }
    assert_eq!(rank(&f, &mut id, 3), 3);

    // r2 = r0 + r1 → rank 2.
    let mut m = vec![1, 2, 3, 4, 5, 6, 5, 7, 9];
    assert_eq!(rank(&f, &mut m, 3), 2);

    let mut z = vec![0; 16];
    assert_eq!(rank(&f, &mut z, 4), 0);
}

#[test]
fn rank_over_gf2() {
    let f = Field::new(2);
    let mut m = vec![1, 1, 0, 0, 1, 1, 1, 0, 1];
    assert_eq!(rank(&f, &mut m, 3), 2);
}

#[test]
fn blocked_matches_reference() {
    let mut seed = 0u64;
    let mut next = || {
        seed = seed.wrapping_add(1);
        mix(seed)
    };

    for &p in &[2, 97, 2305843009213693951] {
        let f = Field::new(p);
        for &n in &[1, 2, 5, 63, 64, 65, 129, 200, 257, 300] {
            for &target in &[n, n / 2, n / 3, 1, 0] {
                let target = target.min(n);
                // Build an n×n matrix of exact rank ≤ target: target random
                // independent rows, the rest random linear combinations of them.
                let mut a = vec![0; n * n];
                for r in 0..target {
                    for c in 0..n {
                        a[r * n + c] = next() % p;
                    }
                }
                for r in target..n {
                    for k in 0..target {
                        let coeff = next() % p;
                        if coeff == 0 {
                            continue;
                        }
                        for c in 0..n {
                            a[r * n + c] = addmod(a[r * n + c], mulmod(coeff, a[k * n + c], p), p);
                        }
                    }
                }
                // Shuffle rows so pivots are not pre-sorted.
                for r in (1..n).rev() {
                    let s = (next() as usize) % (r + 1);
                    if s != r {
                        for c in 0..n {
                            a.swap(r * n + c, s * n + c);
                        }
                    }
                }

                let mut b = a.clone();
                let expected = rank_ref(p, &mut a, n);
                let got = rank(&f, &mut b, n);
                assert_eq!(got, expected, "p={p} n={n} target={target}");
                assert!(expected <= target);
            }
        }
    }
}

#[test]
fn rank_of_empty_matrix_is_zero() {
    let f = Field::new(97);
    let mut m: Vec<u64> = vec![];
    assert_eq!(rank(&f, &mut m, 0), 0);
}

#[test]
fn rank_never_exceeds_side() {
    let f = Field::new(97);
    let mut m: Vec<u64> = (0..25).map(|i| (i * 7 + 3) % 97).collect();
    assert!(rank(&f, &mut m, 5) <= 5);
}

#[test]
fn rank_spans_panels_and_tiles() {
    // A 300×300 identity spans several panels and trailing tiles.
    let f = Field::new(65537);
    let n = 300;
    let mut id = vec![0; n * n];
    for i in 0..n {
        id[i * n + i] = 1;
    }
    assert_eq!(rank(&f, &mut id, n), n);
    // Two equal rows far apart lose one dimension.
    let mut m = vec![0; n * n];
    for i in 0..n {
        m[i * n + i] = 1;
    }
    for c in 0..n {
        m[299 * n + c] = m[3 * n + c];
    }
    assert_eq!(rank(&f, &mut m, n), n - 1);
}

#[test]
fn rank_of_recurrent_stream_is_at_most_its_order() {
    // s[k] = 3 s[k-1] + 5 s[k-2] + 7 s[k-3] mod 97 fills a 9 × 9 matrix: every
    // row lies in the span of the first three windows.
    let p = 97u64;
    let f = Field::new(p);
    let mut s = vec![1u64, 4, 9];
    while s.len() < 81 {
        let k = s.len();
        s.push((3 * s[k - 1] + 5 * s[k - 2] + 7 * s[k - 3]) % p);
    }
    let r = rank(&f, &mut s.clone(), 9);
    assert!(r <= 3);
    assert_eq!(r, 3);
}

#[test]
fn rank_of_rows_in_a_plane_is_at_most_two() {
    let p = 65537u64;
    let f = Field::new(p);
    let (u, v) = ([1u64, 2, 3, 4, 5], [7u64, 0, 11, 13, 17]);
    let mut m = Vec::new();
    for x in 0..5u64 {
        for c in 0..5 {
            m.push(((x + 1) * u[c] + (3 * x + 2) * v[c]) % p);
        }
    }
    assert_eq!(rank(&f, &mut m, 5), 2);
}

#[test]
fn rank_by_panels_matches_rank() {
    let p = 97u64;
    let f = Field::new(p);
    let n = 150;
    let mut seed = 7u64;
    let mut m: Vec<u64> = (0..n * n)
        .map(|_| {
            seed = seed.wrapping_add(1);
            mix(seed) % p
        })
        .collect();
    // Make the last row the sum of the first two.
    for c in 0..n {
        m[(n - 1) * n + c] = (m[c] + m[n + c]) % p;
    }
    let mut whole = m.clone();
    let expected = rank(&f, &mut whole, n);
    let mut elim = modlin::rank::RankElimination::new(&f, &m, n);
    let mut panels = 0;
    while !elim.is_finished(n) {
        elim.step(&f, &mut m, n);
        panels += 1;
    }
    assert_eq!(elim.pivots(&f, &m, n), expected);
    assert_eq!(expected, n - 1);
    assert_eq!(panels, 3);
    assert_eq!(elim.columns_done(), n);
}

#[test]
fn rank_panels_have_full_width() {
    let f = Field::new(97);
    let n = 150;
    let mut m = vec![0u64; n * n];
    for i in 0..n {
        m[i * n + i] = 1;
    }
    let mut elim = modlin::rank::RankElimination::new(&f, &m, n);
    let mut widths = Vec::new();
    while !elim.is_finished(n) {
        let before = elim.columns_done();
        elim.step(&f, &mut m, n);
        widths.push(elim.columns_done() - before);
    }
    assert_eq!(widths, vec![64, 64, 22]);
    assert_eq!(elim.pivots(&f, &m, n), n);
}
