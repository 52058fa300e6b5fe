//! Arithmetic modulo an integer: how `%` passes through sums, products and powers, and what
//! changes when the modulus is prime.
use vstd::arithmetic::div_mod::{
    lemma_add_mod_noop, lemma_fundamental_div_mod, lemma_mod_bound, lemma_mod_multiples_basic,
    lemma_mod_twice, lemma_mul_mod_noop, lemma_small_mod, lemma_sub_mod_noop,
};
use vstd::arithmetic::mul::lemma_mul_is_commutative;
use vstd::arithmetic::power::{lemma_pow_mod_noop, pow};
use vstd::prelude::*;

verus! {

/// Whether `p` is a prime number.
pub open spec fn is_prime(p: int) -> bool {
    &&& p > 1
    &&& forall|d: int| 1 < d < p ==> #[trigger] (p % d) != 0
}

/// Whether `x` is the inverse of `a` among the residues `0..m`.
pub open spec fn is_inverse(a: int, x: int, m: int) -> bool {
    &&& 0 <= x < m
    &&& (a * x) % m == 1
}

/// The inverse of `a` modulo `m`, where there is one.
pub open spec fn inverse(a: int, m: int) -> int {
    choose|x: int| is_inverse(a, x, m)
}

/// Sums of congruent numbers are congruent.
pub proof fn lemma_add_congr(a: int, a2: int, b: int, b2: int, m: int)
    requires
        m > 0,
        a % m == a2 % m,
        b % m == b2 % m,
    ensures
        (a + b) % m == (a2 + b2) % m,
{
    lemma_add_mod_noop(a, b, m);
    lemma_add_mod_noop(a2, b2, m);
}

/// Differences of congruent numbers are congruent.
pub proof fn lemma_sub_congr(a: int, a2: int, b: int, b2: int, m: int)
    requires
        m > 0,
        a % m == a2 % m,
        b % m == b2 % m,
    ensures
        (a - b) % m == (a2 - b2) % m,
{
    lemma_sub_mod_noop(a, b, m);
    lemma_sub_mod_noop(a2, b2, m);
}

/// Products of congruent numbers are congruent.
pub proof fn lemma_mul_congr(a: int, a2: int, b: int, b2: int, m: int)
    requires
        m > 0,
        a % m == a2 % m,
        b % m == b2 % m,
    ensures
        (a * b) % m == (a2 * b2) % m,
{
    lemma_mul_mod_noop(a, b, m);
    lemma_mul_mod_noop(a2, b2, m);
}

/// Powers of congruent numbers are congruent.
pub proof fn lemma_pow_congr(a: int, a2: int, e: nat, m: int)
    requires
        m > 0,
        a % m == a2 % m,
    ensures
        pow(a, e) % m == pow(a2, e) % m,
{
    lemma_pow_mod_noop(a, e, m);
    lemma_pow_mod_noop(a2, e, m);
}

/// A residue is congruent to the number it was taken of.
pub proof fn lemma_mod_mod(a: int, m: int)
    requires
        m > 0,
    ensures
        (a % m) % m == a % m,
        0 <= a % m < m,
{
    lemma_mod_twice(a, m);
    lemma_mod_bound(a, m);
}

/// Two numbers are congruent exactly when their difference is divisible.
pub proof fn lemma_congr_iff(a: int, b: int, m: int)
    requires
        m > 0,
    ensures
        a % m == b % m <==> (a - b) % m == 0,
{
    if a % m == b % m {
        lemma_sub_congr(a, b, b, b, m);
        lemma_small_mod(0, m as nat);
    }
    if (a - b) % m == 0 {
        lemma_small_mod(0, m as nat);
        lemma_add_congr(a - b, 0, b, b, m);
    }
}

/// A multiple of the modulus is congruent to zero.
pub proof fn lemma_multiple(k: int, m: int)
    requires
        m > 0,
    ensures
        (k * m) % m == 0,
        (m * k) % m == 0,
{
    lemma_mod_multiples_basic(k, m);
    lemma_mul_is_commutative(k, m);
}

/// Every divisible number is a multiple.
pub proof fn lemma_divisible(a: int, m: int)
    requires
        m > 0,
        a % m == 0,
    ensures
        a == m * (a / m),
{
    lemma_fundamental_div_mod(a, m);
}

/// What is congruent modulo `m` is congruent modulo every divisor of `m`.
pub proof fn lemma_congr_divisor(a: int, b: int, m: int, d: int)
    requires
        m > 0,
        d > 0,
        m % d == 0,
        a % m == b % m,
    ensures
        a % d == b % d,
{
    lemma_congr_iff(a, b, m);
    lemma_divisible(a - b, m);
    lemma_divisible(m, d);
    let k = (a - b) / m;
    let l = m / d;
    assert(a - b == d * (l * k)) by (nonlinear_arith)
        requires
            a - b == m * k,
            m == d * l,
    ;
    lemma_multiple(l * k, d);
    lemma_congr_iff(a, b, d);
}

/// Every number in `1..p` has an inverse modulo a prime `p`.
proof fn lemma_inverse_exists_small(a: int, p: int) -> (x: int)
    requires
        is_prime(p),
        0 < a < p,
    ensures
        (a * x) % p == 1,
    decreases a,
{
    if a == 1 {
        lemma_small_mod(1, p as nat);
        1
    } else {
        let q = p / a;
        let s = p % a;
        lemma_fundamental_div_mod(p, a);
        lemma_mod_bound(p, a);
        assert(s != 0);
        let y = lemma_inverse_exists_small(s, p);
        let x = -(q * y);
        assert(a * x - s * y == (-y) * p) by (nonlinear_arith)
            requires
                p == a * q + s,
                x == -(q * y),
        ;
        lemma_multiple(-y, p);
        lemma_congr_iff(a * x, s * y, p);
        x
    }
}

/// Modulo a prime, `inverse` is the inverse of every number that is not divisible.
pub proof fn lemma_inverse(a: int, p: int)
    requires
        is_prime(p),
        a % p != 0,
    ensures
        is_inverse(a, inverse(a, p), p),
{
    lemma_mod_mod(a, p);
    let y = lemma_inverse_exists_small(a % p, p);
    lemma_mod_mod(y, p);
    lemma_mul_congr(a, a % p, y % p, y, p);
    assert(is_inverse(a, y % p, p));
}

/// Modulo a prime, there are no zero divisors.
pub proof fn lemma_no_zero_divisors(a: int, b: int, p: int)
    requires
        is_prime(p),
        (a * b) % p == 0,
    ensures
        a % p == 0 || b % p == 0,
{
    if a % p != 0 {
        lemma_inverse(a, p);
        let x = inverse(a, p);
        lemma_small_mod(0, p as nat);
        lemma_small_mod(1, p as nat);
        lemma_mul_congr(a * b, 0, x, x, p);
        assert((a * b) * x == (a * x) * b) by (nonlinear_arith);
        lemma_mul_congr(a * x, 1, b, b, p);
    }
}

/// Inverses are unique.
pub proof fn lemma_inverse_unique(a: int, x: int, y: int, p: int)
    requires
        p > 1,
        (a * x) % p == 1,
        (a * y) % p == 1,
    ensures
        x % p == y % p,
{
    lemma_small_mod(1, p as nat);
    lemma_mul_congr(a * x, 1, y, y, p);
    lemma_mul_congr(a * y, 1, x, x, p);
    assert((a * x) * y == (a * y) * x) by (nonlinear_arith);
}

/// Modulo a prime, a factor that is not divisible can be cancelled.
pub proof fn lemma_cancel(a: int, x: int, y: int, p: int)
    requires
        is_prime(p),
        a % p != 0,
        (a * x) % p == (a * y) % p,
    ensures
        x % p == y % p,
{
    lemma_congr_iff(a * x, a * y, p);
    assert(a * x - a * y == a * (x - y)) by (nonlinear_arith);
    lemma_no_zero_divisors(a, x - y, p);
    lemma_congr_iff(x, y, p);
}

} // verus!
