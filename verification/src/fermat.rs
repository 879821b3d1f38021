//! Fermat's little theorem: for a prime *p*, *a*ᵖ⁻¹ ≡ 1 (mod *p*) whenever
//! *p* ∤ *a*, so that the Fermat inverse *a*ᵖ⁻² used by the field is the
//! multiplicative inverse.
use crate::fp::spec_inv;
use crate::lfsr::fermat_inverses;
use vstd::arithmetic::div_mod::*;
use vstd::arithmetic::mul::*;
use vstd::arithmetic::power::*;
use vstd::prelude::*;

verus! {

/// `n` is prime: at least 2 and divisible by no integer in 2 . . `n`.
pub open spec fn spec_is_prime(n: nat) -> bool {
    n >= 2 && forall|d: nat| 2 <= d < n ==> #[trigger] (n % d) != 0
}

/// The binomial coefficient C(`n`, `k`), by Pascal's rule.
pub open spec fn binom(n: nat, k: nat) -> nat
    decreases n,
{
    if k == 0 {
        1
    } else if n == 0 {
        0
    } else {
        binom((n - 1) as nat, (k - 1) as nat) + binom((n - 1) as nat, k)
    }
}

proof fn lemma_pow_succ(b: int, e: nat)
    ensures
        pow(b, e + 1) == b * pow(b, e),
{
    reveal(pow);
    assert(((e + 1) as nat - 1) as nat == e);
}

/// Euclid's lemma for a residue: if 0 < `a` < `p` and *p* | *a*·*b*, then *p* | *b*.
proof fn lemma_euclid_reduced(a: int, b: int, p: int)
    requires
        spec_is_prime(p as nat),
        0 < a < p,
        (a * b) % p == 0,
    ensures
        b % p == 0,
    decreases a,
{
    if a == 1 {
        assert(a * b == b);
    } else {
        let q = p / a;
        let r = p % a;
        lemma_fundamental_div_mod(p, a);
        lemma_mod_bound(p, a);
        assert(r != 0) by {
            assert(2 <= a < p);
            assert((p as nat) % (a as nat) != 0);
        }
        // r·b = p·b − q·(a·b) is a multiple of p.
        assert(r * b == p * b - q * (a * b)) by (nonlinear_arith)
            requires p == a * q + r;
        lemma_mod_multiples_basic(b, p);
        assert((p * b) % p == 0) by {
            lemma_mul_is_commutative(p, b);
        }
        lemma_mul_mod_noop_right(q, a * b, p);
        assert((q * (a * b)) % p == 0) by {
            assert(q * 0 == 0);
            lemma_small_mod(0, p as nat);
        }
        lemma_sub_mod_noop(p * b, q * (a * b), p);
        assert((r * b) % p == 0) by {
            lemma_small_mod(0, p as nat);
        }
        lemma_euclid_reduced(r, b, p);
    }
}

/// Euclid's lemma: if a prime divides a product, it divides a factor.
pub proof fn lemma_euclid(a: int, b: int, p: int)
    requires
        p > 0,
        spec_is_prime(p as nat),
        (a * b) % p == 0,
    ensures
        a % p == 0 || b % p == 0,
{
    if a % p != 0 {
        let ar = a % p;
        lemma_mod_bound(a, p);
        lemma_mul_mod_noop_left(a, b, p);
        lemma_euclid_reduced(ar, b, p);
    }
}

proof fn lemma_binom_zero(n: nat, k: nat)
    requires
        k > n,
    ensures
        binom(n, k) == 0,
    decreases n,
{
    if n > 0 {
        lemma_binom_zero((n - 1) as nat, (k - 1) as nat);
        lemma_binom_zero((n - 1) as nat, k);
    }
}

proof fn lemma_binom_one(n: nat)
    ensures
        binom(n, 1) == n,
    decreases n,
{
    if n > 0 {
        lemma_binom_one((n - 1) as nat);
        assert(binom((n - 1) as nat, 0) == 1);
        assert(binom(n, 1) == binom((n - 1) as nat, 0) + binom((n - 1) as nat, 1));
    }
}

/// The absorption identity *k*·C(*n*, *k*) = *n*·C(*n* − 1, *k* − 1).
proof fn lemma_absorption(n: nat, k: nat)
    requires
        1 <= k <= n,
    ensures
        k * binom(n, k) == n * binom((n - 1) as nat, (k - 1) as nat),
    decreases n,
{
    if k == 1 {
        lemma_binom_one(n);
        assert(binom((n - 1) as nat, 0) == 1);
    } else {
        let n1 = (n - 1) as nat;
        // k·C(n,k) = k·C(n−1,k−1) + k·C(n−1,k)
        //          = C(n−1,k−1) + (n−1)·C(n−2,k−2) + (n−1)·C(n−2,k−1)
        //          = C(n−1,k−1) + (n−1)·C(n−1,k−1) = n·C(n−1,k−1)
        lemma_absorption(n1, (k - 1) as nat);
        let a = binom(n1, (k - 1) as nat);
        let b = binom(n1, k);
        assert(binom(n, k) == a + b);
        let a2 = binom((n1 - 1) as nat, (k - 2) as nat);
        let b2 = binom((n1 - 1) as nat, (k - 1) as nat);
        assert((k - 1) * a == n1 * a2);
        if k <= n1 {
            lemma_absorption(n1, k);
            assert(k * b == n1 * b2);
        } else {
            lemma_binom_zero(n1, k);
            lemma_binom_zero((n1 - 1) as nat, (k - 1) as nat);
            assert(k * b == n1 * b2);
        }
        assert(a == a2 + b2);
        assert(k * (a + b) == n * a) by (nonlinear_arith)
            requires
                (k - 1) * a == n1 * a2,
                k * b == n1 * b2,
                a == a2 + b2,
                n1 == n - 1,
        ;
    }
}

/// A prime divides the inner binomial coefficients C(*p*, *k*), 0 < *k* < *p*.
proof fn lemma_prime_divides_binom(p: nat, k: nat)
    requires
        spec_is_prime(p),
        0 < k < p,
    ensures
        binom(p, k) % p == 0,
{
    lemma_absorption(p, k);
    let c = binom((p - 1) as nat, (k - 1) as nat) as int;
    lemma_mod_multiples_basic(c, p as int);
    lemma_mul_is_commutative(c, p as int);
    lemma_euclid(k as int, binom(p, k) as int, p as int);
    lemma_small_mod(k, p);
}

/// Σ_{*k*<`t`} C(`n`, *k*)·`x`ᵏ.
pub open spec fn binom_sum(x: int, n: nat, t: nat) -> int
    decreases t,
{
    if t == 0 {
        0
    } else {
        binom_sum(x, n, (t - 1) as nat) + binom(n, (t - 1) as nat) * pow(x, (t - 1) as nat)
    }
}

proof fn lemma_binom_sum_one(x: int, n: nat)
    ensures
        binom_sum(x, n, 1) == 1,
{
    assert(binom_sum(x, n, 0) == 0);
    lemma_pow0(x);
    assert(binom(n, 0) == 1);
    assert(binom_sum(x, n, 1) == binom_sum(x, n, 0) + binom(n, 0) * pow(x, 0));
}

/// Pascal's rule on the partial sums: Σ_{k≤t} C(n+1,k)xᵏ = x·Σ_{k<t} C(n,k)xᵏ + Σ_{k≤t} C(n,k)xᵏ.
proof fn lemma_binom_sum_pascal(x: int, n: nat, t: nat)
    ensures
        binom_sum(x, n + 1, t + 1) == x * binom_sum(x, n, t) + binom_sum(x, n, t + 1),
    decreases t,
{
    if t == 0 {
        lemma_binom_sum_one(x, n + 1);
        lemma_binom_sum_one(x, n);
        assert(binom_sum(x, n, 0) == 0);
    } else {
        let t1 = (t - 1) as nat;
        lemma_binom_sum_pascal(x, n, t1);
        assert(binom_sum(x, n + 1, t + 1) == binom_sum(x, n + 1, t) + binom(n + 1, t) * pow(x, t));
        assert(binom(n + 1, t) == binom(n, t1) + binom(n, t));
        assert(binom_sum(x, n, t + 1) == binom_sum(x, n, t) + binom(n, t) * pow(x, t));
        assert(binom_sum(x, n, t) == binom_sum(x, n, t1) + binom(n, t1) * pow(x, t1));
        lemma_pow_succ(x, t1);
        assert(pow(x, t) == x * pow(x, t1));
        let s1 = binom_sum(x, n, t1);
        let c0 = binom(n, t1) as int;
        let c1 = binom(n, t) as int;
        let pt1 = pow(x, t1);
        assert((x * s1 + (s1 + c0 * pt1)) + (c0 + c1) * (x * pt1) == x * (s1 + c0 * pt1) + ((s1 + c0 * pt1) + c1 * (x * pt1))) by (nonlinear_arith);
    }
}

/// The binomial theorem for (*x* + 1)ⁿ.
proof fn lemma_binomial(x: int, n: nat)
    ensures
        pow(x + 1, n) == binom_sum(x, n, n + 1),
    decreases n,
{
    if n == 0 {
        lemma_pow0(x + 1);
        lemma_pow0(x);
        lemma_binom_sum_one(x, 0);
    } else {
        let n1 = (n - 1) as nat;
        lemma_binomial(x, n1);
        lemma_pow_succ(x + 1, n1);
        lemma_binom_sum_pascal(x, n1, n);
        lemma_binom_zero(n1, n);
        assert(binom_sum(x, n1, n + 1) == binom_sum(x, n1, n) + binom(n1, n) * pow(x, n));
        assert(binom(n1, n) * pow(x, n) == 0);
        assert((x + 1) * binom_sum(x, n1, n) == x * binom_sum(x, n1, n) + binom_sum(x, n1, n)) by (nonlinear_arith);
    }
}

/// Modulo a prime *p*, the inner terms of (*x* + 1)ᵖ vanish: Σ_{*k*<*t*} C(*p*, *k*)*x*ᵏ ≡ 1 for 1 ≤ *t* ≤ *p*.
proof fn lemma_binom_sum_mod_prime(x: int, p: nat, t: nat)
    requires
        spec_is_prime(p),
        1 <= t <= p,
    ensures
        binom_sum(x, p, t) % (p as int) == 1,
    decreases t,
{
    let pi = p as int;
    if t == 1 {
        lemma_binom_sum_one(x, p);
        lemma_small_mod(1, p);
    } else {
        let t1 = (t - 1) as nat;
        lemma_binom_sum_mod_prime(x, p, t1);
        lemma_prime_divides_binom(p, t1);
        let c = binom(p, t1) as int;
        let y = pow(x, t1);
        lemma_mul_mod_noop_left(c, y, pi);
        assert((c * y) % pi == 0) by {
            assert(0 * y == 0);
            lemma_small_mod(0, p);
        }
        lemma_add_mod_noop(binom_sum(x, p, t1), c * y, pi);
        lemma_small_mod(1, p);
    }
}

/// The freshman's dream (*x* + 1)ᵖ ≡ *x*ᵖ + 1 (mod *p*) for a prime *p*.
proof fn lemma_freshman(x: int, p: nat)
    requires
        spec_is_prime(p),
    ensures
        pow(x + 1, p) % (p as int) == (pow(x, p) + 1) % (p as int),
{
    let pi = p as int;
    lemma_binomial(x, p);
    lemma_binom_sum_mod_prime(x, p, p);
    assert(binom(p, p) == 1) by {
        lemma_absorption(p, p);
        lemma_binom_zero((p - 1) as nat, p);
        assert(binom(p, p) == binom((p - 1) as nat, (p - 1) as nat) + binom((p - 1) as nat, p));
        lemma_binom_diag((p - 1) as nat);
    }
    assert(binom_sum(x, p, p + 1) == binom_sum(x, p, p) + binom(p, p) * pow(x, p));
    lemma_add_mod_noop(binom_sum(x, p, p), pow(x, p), pi);
    lemma_add_mod_noop(1, pow(x, p), pi);
    lemma_small_mod(1, p);
}

proof fn lemma_binom_diag(n: nat)
    ensures
        binom(n, n) == 1,
    decreases n,
{
    if n > 0 {
        lemma_binom_diag((n - 1) as nat);
        lemma_binom_zero((n - 1) as nat, n);
    }
}

/// *x*ᵖ ≡ *x* (mod *p*) for a prime *p* and every *x* ≥ 0.
proof fn lemma_pow_p(x: nat, p: nat)
    requires
        spec_is_prime(p),
    ensures
        pow(x as int, p) % (p as int) == (x as int) % (p as int),
    decreases x,
{
    let pi = p as int;
    if x == 0 {
        lemma_pow_succ(0, (p - 1) as nat);
        assert(pow(0, p) == 0);
    } else {
        let x1 = (x - 1) as nat;
        lemma_pow_p(x1, p);
        lemma_freshman(x1 as int, p);
        lemma_add_mod_noop(pow(x1 as int, p), 1, pi);
        lemma_add_mod_noop(x1 as int, 1, pi);
    }
}

/// Fermat's little theorem: *a*ᵖ⁻¹ ≡ 1 (mod *p*) for a prime *p* and 0 < *a* < *p*.
pub proof fn lemma_fermat_little(a: int, p: int)
    requires
        spec_is_prime(p as nat),
        0 < a < p,
    ensures
        pow(a, (p - 1) as nat) % p == 1,
{
    let e = (p - 1) as nat;
    lemma_pow_p(a as nat, p as nat);
    lemma_pow_succ(a, e);
    assert(pow(a, p as nat) == a * pow(a, e));
    lemma_pow_positive(a, e);
    let y = pow(a, e);
    // a·(y − 1) ≡ 0, and p ∤ a, so p | y − 1.
    lemma_small_mod(a as nat, p as nat);
    lemma_sub_mod_noop(a * y, a, p);
    assert(a * (y - 1) == a * y - a) by (nonlinear_arith);
    lemma_small_mod(0, p as nat);
    lemma_euclid(a, y - 1, p);
    lemma_add_mod_noop(y - 1, 1, p);
    lemma_small_mod(1, p as nat);
}

/// Modulo a prime, every nonzero residue times its Fermat inverse is 1.
pub proof fn lemma_prime_fermat_inverses(p: int)
    requires
        spec_is_prime(p as nat),
    ensures
        fermat_inverses(p),
{
    assert forall|a: int| 0 < a < p implies (a * #[trigger] spec_inv(a, p)) % p == 1 by {
        lemma_fermat_little(a, p);
        let e = (p - 2) as nat;
        lemma_pow_succ(a, e);
        assert((e + 1) as nat == (p - 1) as nat);
        lemma_mul_mod_noop_right(a, pow(a, e), p);
    }
}

} // verus!
