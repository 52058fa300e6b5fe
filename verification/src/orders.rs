//! Multiplicative orders, and how they show that a number is prime.
use crate::digits::lemma_pow_step;
use crate::modular::{
    is_prime, lemma_congr_divisor, lemma_congr_iff, lemma_divisible, lemma_mod_mod, lemma_mul_congr,
    lemma_multiple, lemma_no_zero_divisors, lemma_pow_congr,
};
use crate::transform::{lemma_root_exponent, primitive_root};
use vstd::arithmetic::div_mod::lemma_small_mod;
use vstd::arithmetic::power::{
    lemma1_pow, lemma_pow0, lemma_pow_adds, lemma_pow_distributes, lemma_pow_multiplies,
    lemma_pow_positive, pow,
};
use vstd::prelude::*;
use vstd::relations::injective_on;
use vstd::set_lib::{lemma_int_range, lemma_len_subset, lemma_map_size, set_int_range};

verus! {

/// An order divides every exponent that makes one.
pub proof fn lemma_order_divides(w: int, n: int, e: nat, d: int)
    requires
        d > 1,
        primitive_root(w, n, d),
        pow(w, e) % d == 1,
    ensures
        e as int % n == 0,
{
    let r = (e as int % n) as nat;
    lemma_mod_mod(e as int, n);
    lemma_root_exponent(w, n, e, r, d);
    if r > 0 {
        assert(pow(w, r) % d != 1);
    }
}

/// A multiple of the order makes one.
proof fn lemma_order_multiple(w: int, n: int, e: nat, d: int)
    requires
        d > 1,
        n > 0,
        pow(w, n as nat) % d == 1,
        e as int % n == 0,
    ensures
        pow(w, e) % d == 1,
{
    lemma_small_mod(0, n as nat);
    lemma_root_exponent(w, n, e, 0, d);
    lemma_pow0(w);
    lemma_small_mod(1, d as nat);
}

/// If some exponent makes one, there is a least one.
proof fn lemma_least_order(w: int, e: int, d: int) -> (o: int)
    requires
        e > 0,
        pow(w, e as nat) % d == 1,
    ensures
        0 < o <= e,
        primitive_root(w, o, d),
    decreases e,
{
    if exists|j: nat| 0 < j < e && #[trigger] pow(w, j) % d == 1 {
        let j = choose|j: nat| 0 < j < e && #[trigger] pow(w, j) % d == 1;
        lemma_least_order(w, j as int, d)
    } else {
        e
    }
}

/// The divisors of a prime power are powers of the prime.
proof fn lemma_divisor_of_power(r: int, k: nat, o: int) -> (t: nat)
    requires
        is_prime(r),
        o > 0,
        pow(r, k) % o == 0,
    ensures
        t <= k,
        o == pow(r, t),
    decreases k,
{
    lemma_divisible(pow(r, k), o);
    let m = pow(r, k) / o;
    if k == 0 {
        lemma_pow0(r);
        assert(o == 1) by (nonlinear_arith)
            requires
                1 == o * m,
                o > 0,
        ;
        0
    } else {
        let l = (k - 1) as nat;
        lemma_pow_step(r, l);
        let q = pow(r, l);
        lemma_multiple(q, r);
        lemma_no_zero_divisors(o, m, r);
        if o % r == 0 {
            lemma_divisible(o, r);
            let o2 = o / r;
            assert(o2 > 0) by (nonlinear_arith)
                requires
                    o == r * o2,
                    o > 0,
                    r > 1,
            ;
            assert(q == o2 * m) by (nonlinear_arith)
                requires
                    r * q == o * m,
                    o == r * o2,
                    r > 1,
            ;
            lemma_multiple(m, o2);
            let t = lemma_divisor_of_power(r, l, o2);
            lemma_pow_step(r, t);
            t + 1
        } else {
            lemma_divisible(m, r);
            let m2 = m / r;
            assert(q == o * m2) by (nonlinear_arith)
                requires
                    r * q == o * m,
                    m == r * m2,
                    r > 1,
            ;
            lemma_multiple(m2, o);
            lemma_divisor_of_power(r, l, o)
        }
    }
}

/// A number whose `r^k`-th power is one, but not its `r^(k - 1)`-th power, has order `r^k`.
pub proof fn lemma_prime_power_order(w: int, r: int, k: nat, d: int)
    requires
        d > 1,
        is_prime(r),
        k > 0,
        pow(w, pow(r, k) as nat) % d == 1,
        pow(w, pow(r, (k - 1) as nat) as nat) % d != 1,
    ensures
        primitive_root(w, pow(r, k), d),
{
    let n = pow(r, k);
    lemma_pow_positive(r, k);
    let o = lemma_least_order(w, n, d);
    lemma_order_divides(w, o, n as nat, d);
    let t = lemma_divisor_of_power(r, k, o);
    if t < k {
        let l = (k - 1) as nat;
        lemma_pow_positive(r, l);
        lemma_pow_adds(r, t, (l - t) as nat);
        lemma_multiple(pow(r, (l - t) as nat), o);
        lemma_order_multiple(w, o, pow(r, l) as nat, d);
    }
}

/// A prime power that divides a product divides the factor that it must.
pub proof fn lemma_prime_power_divides(r: int, k: nat, a: int, b: int)
    requires
        is_prime(r),
        (a * b) % pow(r, k) == 0,
        b % r != 0,
    ensures
        a % pow(r, k) == 0,
    decreases k,
{
    if k == 0 {
        lemma_pow0(r);
    } else {
        let l = (k - 1) as nat;
        let q = pow(r, l);
        lemma_pow_step(r, l);
        lemma_pow_positive(r, l);
        lemma_pow_positive(r, k);
        lemma_divisible(a * b, r * q);
        let m = (a * b) / (r * q);
        assert(a * b == r * (q * m)) by (nonlinear_arith)
            requires
                a * b == (r * q) * m,
        ;
        lemma_multiple(q * m, r);
        lemma_no_zero_divisors(a, b, r);
        lemma_divisible(a, r);
        let a2 = a / r;
        assert(a2 * b == q * m) by (nonlinear_arith)
            requires
                a * b == r * (q * m),
                a == r * a2,
                r > 1,
        ;
        lemma_multiple(m, q);
        lemma_prime_power_divides(r, l, a2, b);
        lemma_divisible(a2, q);
        let a3 = a2 / q;
        assert(a == (r * q) * a3) by (nonlinear_arith)
            requires
                a == r * a2,
                a2 == q * a3,
        ;
        lemma_multiple(a3, r * q);
    }
}

/// Whether a multiple of `n` is divisible by `m` only when the cofactor is, and the other way
/// round.
pub open spec fn coprime(m: int, n: int) -> bool {
    &&& forall|a: int| #[trigger] (a * n) % m == 0 ==> a % m == 0
    &&& forall|a: int| #[trigger] (a * m) % n == 0 ==> a % n == 0
}

/// If a power of a product is one, raising it to the order of one factor leaves the other.
proof fn lemma_split_order(x: int, y: int, m: int, n: int, j: nat, d: int)
    requires
        d > 1,
        primitive_root(x, m, d),
        primitive_root(y, n, d),
        pow(x * y, j) % d == 1,
        forall|a: int| #[trigger] (a * n) % m == 0 ==> a % m == 0,
    ensures
        j as int % m == 0,
{
    let jn = j * (n as nat);
    lemma_small_mod(1, d as nat);
    lemma_pow_multiplies(x * y, j, n as nat);
    lemma_pow_congr(pow(x * y, j), 1, n as nat, d);
    lemma1_pow(n as nat);
    lemma_pow_distributes(x, y, jn);
    assert(jn == n * (j as int)) by (nonlinear_arith)
        requires
            jn == j * (n as nat),
            n > 0,
    ;
    lemma_multiple(j as int, n);
    lemma_order_multiple(y, n, jn, d);
    lemma_mul_congr(pow(x, jn), pow(x, jn), pow(y, jn), 1, d);
    lemma_order_divides(x, m, jn, d);
    assert((j as int) * n == jn) by (nonlinear_arith)
        requires
            jn == n * (j as int),
    ;
    assert(((j as int) * n) % m == 0);
}

/// The product of two numbers of coprime orders has the product of the orders for its order.
pub proof fn lemma_product_order(x: int, y: int, m: int, n: int, d: int)
    requires
        d > 1,
        primitive_root(x, m, d),
        primitive_root(y, n, d),
        coprime(m, n),
    ensures
        primitive_root(x * y, m * n, d),
{
    let o = m * n;
    assert(o > 0) by (nonlinear_arith)
        requires
            o == m * n,
            m > 0,
            n > 0,
    ;
    lemma_small_mod(1, d as nat);
    lemma_multiple(n, m);
    lemma_multiple(m, n);
    lemma_order_multiple(x, m, o as nat, d);
    lemma_order_multiple(y, n, o as nat, d);
    lemma_pow_distributes(x, y, o as nat);
    lemma_mul_congr(pow(x, o as nat), 1, pow(y, o as nat), 1, d);
    assert forall|j: nat| 0 < j < o implies #[trigger] pow(x * y, j) % d != 1 by {
        if pow(x * y, j) % d == 1 {
            lemma_split_order(x, y, m, n, j, d);
            assert(x * y == y * x) by (nonlinear_arith);
            lemma_split_order(y, x, n, m, j, d);
            lemma_divisible(j as int, m);
            let a = j as int / m;
            assert(a * m == m * a) by (nonlinear_arith);
            assert((a * m) % n == 0);
            lemma_divisible(a, n);
            let b = a / n;
            assert(j as int == o * b) by (nonlinear_arith)
                requires
                    j as int == m * a,
                    a == n * b,
                    o == m * n,
            ;
            assert(b >= 1) by (nonlinear_arith)
                requires
                    j as int == o * b,
                    j > 0,
                    o > 0,
            ;
            assert(o * b >= o) by (nonlinear_arith)
                requires
                    b >= 1,
                    o > 0,
            ;
        }
    }
}

/// There are no more powers than residues.
pub proof fn lemma_order_bound(w: int, n: int, d: int)
    requires
        d > 1,
        primitive_root(w, n, d),
    ensures
        n <= d,
{
    let f = |i: int| pow(w, i as nat) % d;
    let dom = set_int_range(0, n);
    let all = set_int_range(0, d);
    lemma_int_range(0, n);
    lemma_int_range(0, d);
    assert forall|i: int, j: int|
        dom.contains(i) && dom.contains(j) && #[trigger] f(i) == #[trigger] f(j) implies i == j by {
        if i < j {
            lemma_powers_differ(w, n, i, j, d);
        }
        if j < i {
            lemma_powers_differ(w, n, j, i, d);
        }
    }
    assert(injective_on(f, dom));
    lemma_map_size(dom, dom.map(f), f);
    assert forall|y: int| dom.map(f).contains(y) implies all.contains(y) by {
        let i = choose|i: int| dom.contains(i) && f(i) == y;
        lemma_mod_mod(pow(w, i as nat), d);
    }
    lemma_len_subset(dom.map(f), all);
}

/// Powers below the order differ.
proof fn lemma_powers_differ(w: int, n: int, i: int, j: int, d: int)
    requires
        d > 1,
        primitive_root(w, n, d),
        0 <= i < j < n,
    ensures
        pow(w, i as nat) % d != pow(w, j as nat) % d,
{
    if pow(w, i as nat) % d == pow(w, j as nat) % d {
        let k = (n - i) as nat;
        let t = pow(w, k);
        lemma_mul_congr(pow(w, i as nat), pow(w, j as nat), t, t, d);
        lemma_pow_adds(w, i as nat, k);
        lemma_pow_adds(w, j as nat, k);
        lemma_pow_adds(w, n as nat, (j - i) as nat);
        lemma_small_mod(1, d as nat);
        let s = pow(w, (j - i) as nat);
        lemma_mul_congr(pow(w, n as nat), 1, s, s, d);
        assert(s % d != 1);
    }
}

/// What differs from one by an invertible number is not one, modulo any divisor.
pub proof fn lemma_not_one(x: int, t: int, p: int, d: int)
    requires
        p > 1,
        d > 1,
        p % d == 0,
        ((x - 1) * t) % p == 1,
    ensures
        x % d != 1,
{
    if x % d == 1 {
        lemma_small_mod(1, p as nat);
        lemma_small_mod(1, d as nat);
        lemma_small_mod(0, d as nat);
        lemma_congr_divisor((x - 1) * t, 1, p, d);
        lemma_congr_iff(x, 1, d);
        lemma_mul_congr(x - 1, 0, t, t, d);
        assert(0 * t == 0);
    }
}

/// A number is prime if no divisor up to its root exists.
pub proof fn lemma_prime_if(p: int)
    requires
        p > 1,
        forall|d: int| 1 < d && d * d <= p ==> #[trigger] (p % d) != 0,
    ensures
        is_prime(p),
{
    assert forall|d: int| 1 < d < p implies #[trigger] (p % d) != 0 by {
        if p % d == 0 {
            lemma_divisible(p, d);
            let e = p / d;
            assert(1 < e < p) by (nonlinear_arith)
                requires
                    p == d * e,
                    1 < d < p,
            ;
            if d * d > p {
                assert(e * e <= p) by (nonlinear_arith)
                    requires
                        p == d * e,
                        d * d > p,
                        d > 1,
                        e > 1,
                ;
                lemma_multiple(d, e);
            }
        }
    }
}

/// One step of repeated squaring.
pub proof fn lemma_square(a: int, e: nat, b: int, c: int, p: int)
    requires
        p > 0,
        pow(a, e) % p == b,
        (b * b) % p == c,
    ensures
        pow(a, 2 * e) % p == c,
{
    lemma_pow_adds(a, e, e);
    lemma_mod_mod(pow(a, e), p);
    lemma_mul_congr(pow(a, e), b, pow(a, e), b, p);
}

/// One step of repeated cubing.
pub proof fn lemma_cube(a: int, e: nat, b: int, c: int, p: int)
    requires
        p > 0,
        pow(a, e) % p == b,
        (b * b * b) % p == c,
    ensures
        pow(a, 3 * e) % p == c,
{
    lemma_pow_adds(a, e, e);
    lemma_pow_adds(a, e, 2 * e);
    lemma_mod_mod(pow(a, e), p);
    lemma_mul_congr(pow(a, e), b, pow(a, e), b, p);
    lemma_mul_congr(pow(a, e), b, pow(a, e) * pow(a, e), b * b, p);
    assert(b * (b * b) == b * b * b) by (nonlinear_arith);
}

} // verus!
