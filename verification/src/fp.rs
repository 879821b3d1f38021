//! Arithmetic in a prime field, matrix rank and linear complexity over it.
use vstd::arithmetic::div_mod::*;
use vstd::arithmetic::mul::*;
use vstd::arithmetic::power::*;
use vstd::prelude::*;

pub use crate::lfsr::linear_complexity;
pub use crate::rank::rank;

verus! {

/// 2⁶⁴ as an integer.
pub open spec fn b64() -> int {
    0x1_0000_0000_0000_0000int
}

/// 2¹²⁸ as an integer.
pub open spec fn b128() -> int {
    0x1_0000_0000_0000_0000_0000_0000_0000_0000int
}

proof fn lemma_split_u128(x: u128)
    ensures
        (x >> 64u128) as int == x as int / b64(),
        (x as u64) as int == x as int % b64(),
        (x & 0xFFFF_FFFF_FFFF_FFFFu128) as int == x as int % b64(),
        x as int == (x as int / b64()) * b64() + x as int % b64(),
        x as int / b64() < b64(),
{
    assert((x >> 64u128) == x / 0x1_0000_0000_0000_0000u128) by (bit_vector);
    assert((x as u64) as u128 == x % 0x1_0000_0000_0000_0000u128) by (bit_vector);
    assert((x & 0xFFFF_FFFF_FFFF_FFFFu128) == x % 0x1_0000_0000_0000_0000u128) by (bit_vector);
    lemma_fundamental_div_mod(x as int, b64());
    assert(x as int / b64() < b64()) by {
        lemma_div_by_multiple_is_strongly_ordered(x as int, b128(), b64(), b64());
        lemma_div_by_multiple(b64(), b64());
    }
}

/// High 128 bits of the 256-bit product *a* · *b*.
fn mul_hi_128(a: u128, b: u128) -> (r: u128)
    ensures
        r as int == (a as int * b as int) / b128(),
{
    proof {
        lemma_split_u128(a);
        lemma_split_u128(b);
    }
    let (a1, a0) = ((a >> 64) as u64 as u128, a as u64 as u128);
    let (b1, b0) = ((b >> 64) as u64 as u128, b as u64 as u128);
    let ghost (ia1, ia0, ib1, ib0) = (a1 as int, a0 as int, b1 as int, b0 as int);
    assert(ia0 * ib0 < b128() && ia1 * ib0 < b128() && ia0 * ib1 < b128() && ia1 * ib1 < b128())
        by (nonlinear_arith)
        requires
            0 <= ia0 < b64(), 0 <= ia1 < b64(), 0 <= ib0 < b64(), 0 <= ib1 < b64(),
            b128() == b64() * b64(),
    ;
    let lo = a0 * b0;
    let mid1 = a1 * b0;
    let mid2 = a0 * b1;
    let hi = a1 * b1;
    proof {
        lemma_split_u128(lo);
        lemma_split_u128(mid1);
        lemma_split_u128(mid2);
    }
    let carry = (lo >> 64) + (mid1 & 0xFFFF_FFFF_FFFF_FFFF) + (mid2 & 0xFFFF_FFFF_FFFF_FFFF);
    proof {
        lemma_split_u128(carry);
        let l1 = lo as int / b64();
        let l0 = lo as int % b64();
        let m1h = mid1 as int / b64();
        let m1l = mid1 as int % b64();
        let m2h = mid2 as int / b64();
        let m2l = mid2 as int % b64();
        let ch = carry as int / b64();
        let cl = carry as int % b64();
        let ab = a as int * b as int;
        assert(ab == (hi as int + m1h + m2h + ch) * b128() + (cl * b64() + l0)) by (nonlinear_arith)
            requires
                a as int == ia1 * b64() + ia0,
                b as int == ib1 * b64() + ib0,
                lo as int == ia0 * ib0,
                mid1 as int == ia1 * ib0,
                mid2 as int == ia0 * ib1,
                hi as int == ia1 * ib1,
                lo as int == l1 * b64() + l0,
                mid1 as int == m1h * b64() + m1l,
                mid2 as int == m2h * b64() + m2l,
                carry as int == l1 + m1l + m2l,
                carry as int == ch * b64() + cl,
                b128() == b64() * b64(),
                ab == a as int * b as int,
        ;
        assert(0 <= cl * b64() + l0 < b128()) by (nonlinear_arith)
            requires 0 <= cl < b64(), 0 <= l0 < b64(), b128() == b64() * b64();
        lemma_fundamental_div_mod_converse(ab, b128(), hi as int + m1h + m2h + ch, cl * b64() + l0);
        assert(ab / b128() < b128()) by {
            assert(ab < b128() * b128()) by (nonlinear_arith)
                requires ab == a as int * b as int, 0 <= a < b128(), 0 <= b < b128();
            lemma_div_by_multiple_is_strongly_ordered(ab, b128() * b128(), b128(), b128());
            lemma_div_by_multiple(b128(), b128());
        }
    }
    hi + (mid1 >> 64) + (mid2 >> 64) + (carry >> 64)
}


/// One square-and-multiply step: with *c* = *a* when *e* is odd and 1
/// otherwise, *r* · *aᵉ* ≡ (*r* · *c* mod *p*) · (*a*² mod *p*)^⌊*e*/2⌋ (mod *p*).
proof fn lemma_pow_step(r: int, a: int, e: nat, p: int)
    requires
        p > 0,
        a >= 0,
        r >= 0,
    ensures
        (((r * (if e % 2 == 1 { a } else { 1 })) % p) * pow((a * a) % p, e / 2)) % p
            == (r * pow(a, e)) % p,
{
    let h = e / 2;
    let c = if e % 2 == 1 { a } else { 1 };
    let aa = a * a;
    lemma_square_is_pow2(a);
    lemma_pow_multiplies(a, 2, h);
    assert(pow(a, 2 * h) == pow(aa, h));
    lemma_pow_adds(a, 2 * h, e % 2);
    assert(e == 2 * h + e % 2);
    if e % 2 == 1 {
        lemma_pow1(a);
    } else {
        lemma_pow0(a);
    }
    assert(pow(a, e) == pow(aa, h) * c);
    lemma_pow_mod_noop(aa, h, p);
    let x = pow(aa % p, h);
    let y = pow(aa, h);
    // (r·c mod p) · x ≡ r·c·x ≡ r·c·y (mod p)
    lemma_mul_mod_noop_left(r * c, x, p);
    lemma_mul_mod_noop_right(r * c, x, p);
    lemma_mul_mod_noop_right(r * c, y, p);
    lemma_mul_is_associative(r, c, y);
    lemma_mul_is_commutative(y, c);
}

/// The Fermat inverse *aᵖ*⁻² mod *p*, which is the multiplicative inverse of
/// *a* ≢ 0 when *p* is prime.
pub open spec fn spec_inv(a: int, p: int) -> int {
    pow(a, (p - 2) as nat) % p
}

/// A prime field **F**_ₚ_ with *p* < 2⁶³.
///
/// The modulus is not checked for primality here: callers that need a field
/// (for inverses) validate it beforehand.
#[derive(Clone, Copy)]
pub struct Field {
    p: u64,
    /// Barrett reciprocal μ = ⌊(2¹²⁸ − 1)/*p*⌋, used for division-free
    /// reduction of any `u128` modulo *p* (see [Self::reduce_u128]).
    mu: u128,
    /// Largest number of products of two reduced elements that can be summed
    /// in a `u128` without overflow.
    safe_batch: usize,
}

/// ⌊(2¹²⁸ − 1)/((*p* − 1)²)⌋ capped at `usize::MAX`: how many products of two
/// elements of **F**_ₚ_ can be summed in a `u128`.
pub open spec fn spec_safe_batch(p: nat) -> int {
    let q = (b128() - 1) / ((p - 1) * (p - 1));
    if q > usize::MAX {
        usize::MAX as int
    } else {
        q
    }
}

impl Field {
    #[verifier::type_invariant]
    spec fn well_formed(&self) -> bool {
        &&& 2 <= self.p < 0x8000_0000_0000_0000u64
        &&& self.mu as int == (b128() - 1) / (self.p as int)
        &&& self.safe_batch as int == spec_safe_batch(self.p as nat)
    }

    /// The modulus *p*.
    pub closed spec fn modulus(&self) -> nat {
        self.p as nat
    }

    /// Creates the field of size `p`, with 2 ≤ `p` < 2⁶³.
    pub fn new(p: u64) -> (f: Self)
        requires
            2 <= p < 0x8000_0000_0000_0000u64,
        ensures
            f.modulus() == p,
    {
        let mu = u128::MAX / p as u128;
        let pm1 = p as u128 - 1;
        assert(pm1 * pm1 < b128()) by (nonlinear_arith)
            requires 1 <= pm1 < 0x8000_0000_0000_0000u64;
        let max_prod = pm1 * pm1;
        assert(max_prod >= 1) by (nonlinear_arith) requires max_prod == pm1 * pm1, pm1 >= 1;
        let q = u128::MAX / max_prod;
        let safe_batch: usize = if q > usize::MAX as u128 { usize::MAX } else { q as usize };
        Self { p, mu, safe_batch }
    }

    /// The modulus *p*, with 2 ≤ *p* < 2⁶³.
    pub fn modulus_u64(&self) -> (p: u64)
        ensures
            p == self.modulus(),
            2 <= p < 0x8000_0000_0000_0000u64,
    {
        proof { use_type_invariant(self); }
        self.p
    }

    /// How many products of two reduced elements can be summed in a `u128`.
    pub(crate) fn safe_batch(&self) -> (sb: usize)
        ensures
            sb >= 1,
            sb as int * ((self.modulus() as int - 1) * (self.modulus() as int - 1)) <= u128::MAX,
    {
        proof {
            use_type_invariant(self);
            let y = (self.p as int - 1) * (self.p as int - 1);
            assert(y >= 1) by (nonlinear_arith) requires y == (self.p as int - 1) * (self.p as int - 1), self.p >= 2;
            assert(y < b128() - 1) by (nonlinear_arith) requires y == (self.p as int - 1) * (self.p as int - 1), self.p < 0x8000_0000_0000_0000u64;
            let q = (b128() - 1) / y;
            lemma_fundamental_div_mod(b128() - 1, y);
            lemma_mod_bound(b128() - 1, y);
            assert(q * y <= b128() - 1) by (nonlinear_arith) requires b128() - 1 == y * q + (b128() - 1) % y, (b128() - 1) % y >= 0;
            assert(q >= 1) by (nonlinear_arith) requires y < b128() - 1, b128() - 1 == y * q + (b128() - 1) % y, (b128() - 1) % y < y, y >= 1 {
            }
            if q > usize::MAX {
                assert(usize::MAX as int * y <= q * y) by (nonlinear_arith) requires usize::MAX < q, y >= 1;
            }
        }
        self.safe_batch
    }

    /// Reduces an arbitrary 64-bit value into [0 . . *p*).
    pub fn reduce(&self, x: u64) -> (r: u64)
        ensures
            r as int == x as int % (self.modulus() as int),
    {
        self.reduce_u128(x as u128)
    }

    /// Reduces a 128-bit value into [0 . . *p*) by Barrett reduction.
    pub fn reduce_u128(&self, t: u128) -> (r: u64)
        ensures
            r as int == t as int % (self.modulus() as int),
    {
        proof { use_type_invariant(self); }
        let q = mul_hi_128(t, self.mu); // ⌊t·μ / 2¹²⁸⌋ ≤ ⌊t/p⌋, so q·p ≤ t
        let p = self.p as u128;
        proof {
            let ti = t as int;
            let mi = self.mu as int;
            let pi = p as int;
            let qi = q as int;
            lemma_fundamental_div_mod(b128() - 1, pi);
            lemma_fundamental_div_mod(ti * mi, b128());
            lemma_mod_pos_bound(b128() - 1, pi);
            lemma_mod_pos_bound(ti * mi, b128());
            assert(qi * pi <= ti) by (nonlinear_arith)
                requires
                    pi >= 2, ti >= 0, mi >= 0, qi >= 0,
                    mi * pi <= b128() - 1,
                    qi * b128() <= ti * mi,
                    b128() > 0,
            {
                assert(qi * pi * b128() <= ti * mi * pi);
                assert(ti * mi * pi <= ti * (b128() - 1));
            }
        }
        let mut r = t - q * p;
        proof {
            lemma_mod_multiples_vanish(-(q as int), t as int, p as int);
            assert((p as int) * (-(q as int)) + t as int == r as int) by (nonlinear_arith)
                requires r as int == t as int - q as int * p as int;
        }
        while r >= p
            invariant
                p == self.p,
                p >= 2,
                r as int % (p as int) == t as int % (p as int),
            decreases r,
        {
            proof { lemma_mod_sub_multiples_vanish(r as int, p as int); }
            r -= p;
        }
        proof { lemma_small_mod(r as nat, p as nat); }
        r as u64
    }

    /// (*a* + *b*) mod *p* for reduced *a*, *b*.
    pub(crate) fn add(&self, a: u64, b: u64) -> (r: u64)
        requires
            a < self.modulus(),
            b < self.modulus(),
        ensures
            r as int == (a as int + b as int) % (self.modulus() as int),
    {
        proof { use_type_invariant(self); }
        let s = a + b;
        if s >= self.p {
            proof { lemma_mod_sub_multiples_vanish(s as int, self.p as int); lemma_small_mod((s - self.p) as nat, self.p as nat); }
            s - self.p
        } else {
            proof { lemma_small_mod(s as nat, self.p as nat); }
            s
        }
    }

    /// (*a* − *b*) mod *p* for reduced *a*, *b*.
    pub(crate) fn sub(&self, a: u64, b: u64) -> (r: u64)
        requires
            a < self.modulus(),
            b < self.modulus(),
        ensures
            r as int == (a as int - b as int) % (self.modulus() as int),
    {
        proof { use_type_invariant(self); }
        if a >= b {
            proof { lemma_small_mod((a - b) as nat, self.p as nat); }
            a - b
        } else {
            proof {
                lemma_mod_add_multiples_vanish(a as int - b as int, self.p as int);
                lemma_small_mod((a + self.p - b) as nat, self.p as nat);
            }
            a + self.p - b
        }
    }

    /// *a* · *b* mod *p* for reduced *a*, *b*.
    pub fn mul(&self, a: u64, b: u64) -> (r: u64)
        requires
            a < self.modulus(),
            b < self.modulus(),
        ensures
            r as int == (a as int * b as int) % (self.modulus() as int),
    {
        proof { use_type_invariant(self); }
        assert(a as int * b as int <= u128::MAX) by (nonlinear_arith)
            requires a < 0x8000_0000_0000_0000u64, b < 0x8000_0000_0000_0000u64;
        self.reduce_u128(a as u128 * b as u128)
    }

    /// *aᵉ* mod *p* by square-and-multiply, for reduced *a*.
    pub(crate) fn pow(&self, a: u64, e: u64) -> (r: u64)
        requires
            a < self.modulus(),
        ensures
            r as int == pow(a as int, e as nat) % (self.modulus() as int),
    {
        proof { use_type_invariant(self); }
        let ghost a0 = a;
        let ghost e0 = e;
        let ghost pm = self.p as int;
        let mut a = a;
        let mut e = e;
        let mut r: u64 = 1;
        proof {
            lemma_pow0(a as int);
            lemma_small_mod(1, self.p as nat);
        }
        while e != 0
            invariant
                pm == self.modulus(),
                pm >= 2,
                a < pm,
                r < pm,
                (r as int * pow(a as int, e as nat)) % pm == (1 * pow(a0 as int, e0 as nat)) % pm,
            decreases e,
        {
            proof {
                lemma_pow_step(r as int, a as int, e as nat, pm);
                assert((e & 1u64) == e % 2) by (bit_vector);
                assert((e >> 1u64) == e / 2) by (bit_vector);
            }
            let ghost r_before = r;
            if e & 1 == 1 {
                r = self.mul(r, a);
            } else {
                proof { lemma_small_mod(r as nat, pm as nat); }
            }
            a = self.mul(a, a);
            e >>= 1;
        }
        proof {
            lemma_pow0(a as int);
            lemma_small_mod(r as nat, pm as nat);
        }
        r
    }

    /// Multiplicative inverse via Fermat: *aᵖ*⁻² mod *p* (*a* ≠ 0).
    pub(crate) fn inv(&self, a: u64) -> (r: u64)
        requires
            a < self.modulus(),
        ensures
            r as int == spec_inv(a as int, self.modulus() as int),
    {
        proof { use_type_invariant(self); }
        self.pow(a, self.p - 2)
    }
}

} // verus!
