//! Powers of a radix, and numbers whose digits in that radix are reversed.
use vstd::arithmetic::div_mod::{
    lemma_div_pos_is_pos, lemma_fundamental_div_mod, lemma_fundamental_div_mod_converse,
    lemma_mod_bound,
};
use vstd::arithmetic::power::{
    lemma_pow0, lemma_pow1, lemma_pow_adds, lemma_pow_increases, lemma_pow_positive,
    lemma_pow_strictly_increases, pow,
};
use vstd::arithmetic::power2::{lemma2_to64, lemma2_to64_rest, lemma_pow2};
use vstd::prelude::*;

verus! {

/// Whether `n` is a power of `radix`.
pub open spec fn is_power(radix: int, n: int) -> bool {
    exists|k: nat| n == #[trigger] pow(radix, k)
}

/// Whether `k` is the least exponent such that `radix^k` is at least `n`.
pub open spec fn is_ceil_log(radix: int, n: int, k: nat) -> bool {
    &&& n <= pow(radix, k)
    &&& k > 0 ==> pow(radix, (k - 1) as nat) < n
}

/// The least exponent such that `radix` to that exponent is at least `n`.
pub open spec fn ceil_log(radix: int, n: int) -> nat {
    choose|k: nat| is_ceil_log(radix, n, k)
}

/// The smallest power of `radix` that is at least `n`.
pub open spec fn next_power(radix: int, n: int) -> int {
    pow(radix, ceil_log(radix, n))
}

/// The number whose `len` digits in the given radix are the lowest `len` digits of `x`, in reverse.
pub open spec fn reversed(radix: int, len: nat, x: int) -> int
    decreases len,
{
    if len == 0 {
        0
    } else {
        reversed(radix, (len - 1) as nat, x / radix) + (x % radix) * pow(radix, (len - 1) as nat)
    }
}

/// A power of the radix, one factor at a time.
pub proof fn lemma_pow_step(radix: int, k: nat)
    ensures
        pow(radix, k + 1) == radix * pow(radix, k),
{
    lemma_pow_adds(radix, 1, k);
    lemma_pow1(radix);
}

/// Powers of a radix of at least two grow, and exceed their exponent.
pub proof fn lemma_pow_exceeds(radix: int, k: nat)
    requires
        radix >= 2,
    ensures
        pow(radix, k) > k,
    decreases k,
{
    if k == 0 {
        lemma_pow0(radix);
    } else {
        let j = (k - 1) as nat;
        lemma_pow_exceeds(radix, j);
        lemma_pow_step(radix, j);
        let q = pow(radix, j);
        assert(radix * q >= 2 * q) by (nonlinear_arith)
            requires
                radix >= 2,
                q >= 0,
        ;
    }
}

/// There is a least exponent that reaches `n`.
proof fn lemma_ceil_log_exists(radix: int, n: int, k: nat) -> (j: nat)
    requires
        radix >= 2,
        n <= pow(radix, k),
    ensures
        is_ceil_log(radix, n, j),
    decreases k,
{
    if k > 0 && n <= pow(radix, (k - 1) as nat) {
        lemma_ceil_log_exists(radix, n, (k - 1) as nat)
    } else {
        k
    }
}

/// The least exponent that reaches `n` is unique.
pub proof fn lemma_ceil_log_is(radix: int, n: int, k: nat)
    requires
        radix >= 2,
        is_ceil_log(radix, n, k),
    ensures
        ceil_log(radix, n) == k,
{
    let j = ceil_log(radix, n);
    assert(is_ceil_log(radix, n, j));
    if j < k {
        lemma_pow_increases(radix as nat, j, (k - 1) as nat);
    }
    if k < j {
        lemma_pow_increases(radix as nat, k, (j - 1) as nat);
    }
}

/// What `ceil_log` and `next_power` are.
pub proof fn lemma_next_power(radix: int, n: int)
    requires
        radix >= 2,
    ensures
        is_ceil_log(radix, n, ceil_log(radix, n)),
        next_power(radix, n) >= n,
        next_power(radix, n) >= 1,
        is_power(radix, next_power(radix, n)),
{
    let k = if n >= 0 {
        n as nat
    } else {
        0
    };
    lemma_pow_exceeds(radix, k);
    let j = lemma_ceil_log_exists(radix, n, k);
    assert(is_ceil_log(radix, n, j));
    lemma_pow_positive(radix, ceil_log(radix, n));
}

/// A power of the radix is the smallest power that reaches it.
pub proof fn lemma_next_power_fixed(radix: int, k: nat)
    requires
        radix >= 2,
    ensures
        ceil_log(radix, pow(radix, k)) == k,
        next_power(radix, pow(radix, k)) == pow(radix, k),
        pow(radix, k) >= 1,
{
    lemma_pow_positive(radix, k);
    if k > 0 {
        lemma_pow_strictly_increases(radix as nat, (k - 1) as nat, k);
    }
    lemma_ceil_log_is(radix, pow(radix, k), k);
}

/// The first power reaches every number up to one.
pub proof fn lemma_next_power_small(radix: int, n: int)
    requires
        radix >= 2,
        n <= 1,
    ensures
        next_power(radix, n) == 1,
{
    lemma_pow0(radix);
    lemma_ceil_log_is(radix, n, 0);
}

/// No power of the radix that reaches `n` is smaller than `next_power`, and each is a multiple
/// of it.
pub proof fn lemma_next_power_least(radix: int, n: int, k: nat)
    requires
        radix >= 2,
        n <= pow(radix, k),
    ensures
        ceil_log(radix, n) <= k,
        next_power(radix, n) <= pow(radix, k),
        pow(radix, k) == next_power(radix, n) * pow(radix, (k - ceil_log(radix, n)) as nat),
{
    lemma_next_power(radix, n);
    let j = ceil_log(radix, n);
    if j > k {
        lemma_pow_increases(radix as nat, k, (j - 1) as nat);
    }
    lemma_pow_increases(radix as nat, j, k);
    lemma_pow_adds(radix, j, (k - j) as nat);
}

/// A reversed number has no more digits than were reversed.
pub proof fn lemma_reversed_bound(radix: int, len: nat, x: int)
    requires
        radix >= 2,
        x >= 0,
    ensures
        0 <= reversed(radix, len, x) < pow(radix, len),
    decreases len,
{
    if len == 0 {
        lemma_pow0(radix);
    } else {
        let l = (len - 1) as nat;
        lemma_mod_bound(x, radix);
        lemma_div_pos_is_pos(x, radix);
        lemma_reversed_bound(radix, l, x / radix);
        lemma_pow_step(radix, l);
        let q = pow(radix, l);
        let d = x % radix;
        assert(0 <= d * q <= (radix - 1) * q) by (nonlinear_arith)
            requires
                0 <= d <= radix - 1,
                q >= 0,
        ;
        assert((radix - 1) * q + q == radix * q) by (nonlinear_arith);
    }
}

/// Reversing sends the highest digit to the lowest place.
proof fn lemma_reversed_top(radix: int, len: nat, y: int, d: int)
    requires
        radix >= 2,
        0 <= y < pow(radix, len),
        0 <= d < radix,
    ensures
        reversed(radix, len + 1, y + d * pow(radix, len)) == radix * reversed(radix, len, y) + d,
    decreases len,
{
    let x = y + d * pow(radix, len);
    if len == 0 {
        lemma_pow0(radix);
        assert(x == d);
        lemma_fundamental_div_mod_converse(x, radix, 0, d);
        assert(reversed(radix, 1, x) == reversed(radix, 0, x / radix) + (x % radix) * pow(
            radix,
            0,
        ));
        assert(radix * 0 == 0);
    } else {
        let l = (len - 1) as nat;
        let q = pow(radix, l);
        lemma_pow_step(radix, l);
        lemma_fundamental_div_mod(y, radix);
        lemma_mod_bound(y, radix);
        lemma_div_pos_is_pos(y, radix);
        let h = y / radix;
        let e = y % radix;
        assert(h < q) by (nonlinear_arith)
            requires
                y == radix * h + e,
                0 <= e,
                y < radix * q,
                radix >= 2,
        ;
        assert(x == radix * (h + d * q) + e) by (nonlinear_arith)
            requires
                x == y + d * (radix * q),
                y == radix * h + e,
        ;
        lemma_fundamental_div_mod_converse(x, radix, h + d * q, e);
        lemma_reversed_top(radix, l, h, d);
        let s = reversed(radix, l, h);
        assert(radix * s + d + e * (radix * q) == radix * (s + e * q) + d) by (nonlinear_arith);
        assert((len + 1 - 1) as nat == len);
        assert(l + 1 == len);
    }
}

/// Reversing twice gives the number back.
pub proof fn lemma_reversed_involution(radix: int, len: nat, x: int)
    requires
        radix >= 2,
        0 <= x < pow(radix, len),
    ensures
        reversed(radix, len, reversed(radix, len, x)) == x,
    decreases len,
{
    if len == 0 {
        lemma_pow0(radix);
    } else {
        let l = (len - 1) as nat;
        let q = pow(radix, l);
        lemma_pow_step(radix, l);
        lemma_fundamental_div_mod(x, radix);
        lemma_mod_bound(x, radix);
        lemma_div_pos_is_pos(x, radix);
        let h = x / radix;
        let e = x % radix;
        assert(h < q) by (nonlinear_arith)
            requires
                x == radix * h + e,
                0 <= e,
                x < radix * q,
                radix >= 2,
        ;
        lemma_reversed_involution(radix, l, h);
        lemma_reversed_bound(radix, l, h);
        lemma_reversed_top(radix, l, reversed(radix, l, h), e);
    }
}

/// Reversing a number given by its lowest digit and the rest.
pub proof fn lemma_reversed_step(radix: int, len: nat, b: int, d: int)
    requires
        radix >= 2,
        b >= 0,
        0 <= d < radix,
    ensures
        reversed(radix, len + 1, b * radix + d) == reversed(radix, len, b) + d * pow(radix, len),
{
    lemma_fundamental_div_mod_converse(b * radix + d, radix, b, d);
}

/// Returns the smallest power of `radix` that is at least `n`.
pub fn next_power_of(radix: usize, n: usize) -> (r: usize)
    requires
        radix >= 2,
        next_power(radix as int, n as int) <= usize::MAX,
    ensures
        r == next_power(radix as int, n as int),
{
    let mut power: usize = 1;
    let ghost mut k: nat = 0;
    proof {
        lemma_pow0(radix as int);
        lemma_next_power(radix as int, n as int);
    }
    while power < n
        invariant
            radix >= 2,
            next_power(radix as int, n as int) <= usize::MAX,
            power == pow(radix as int, k),
            k <= ceil_log(radix as int, n as int),
            is_ceil_log(radix as int, n as int, ceil_log(radix as int, n as int)),
        decreases ceil_log(radix as int, n as int) - k,
    {
        proof {
            assert(k < ceil_log(radix as int, n as int));
            lemma_pow_step(radix as int, k);
            lemma_pow_increases(radix as nat, k + 1, ceil_log(radix as int, n as int));
        }
        assert(power * radix == radix * power) by (nonlinear_arith);
        power = power * radix;
        proof {
            k = k + 1;
        }
    }
    proof {
        if k > 0 {
            lemma_pow_increases(
                radix as nat,
                (k - 1) as nat,
                (ceil_log(radix as int, n as int) - 1) as nat,
            );
        }
        lemma_ceil_log_is(radix as int, n as int, k);
    }
    power
}

/// Whether the smallest power of two that is at least `n` is a machine word.
pub fn next_power_of_two_fits(n: usize) -> (r: bool)
    ensures
        r == (next_power(2, n as int) <= usize::MAX),
{
    let half: usize = usize::MAX / 2 + 1;
    proof {
        let e = (usize::BITS - 1) as nat;
        lemma_pow2(e);
        lemma2_to64();
        lemma2_to64_rest();
        assert(half == pow(2, e));
        lemma_next_power(2, n as int);
        if n <= half {
            lemma_next_power_least(2, n as int, e);
        } else if next_power(2, n as int) <= usize::MAX {
            lemma_exponent_fits(2, ceil_log(2, n as int));
            lemma_pow_increases(2, ceil_log(2, n as int), e);
        }
    }
    n <= half
}

/// Returns the exponent of `n`, which must be a power of `radix`.
pub fn log_of(radix: usize, n: usize) -> (r: u32)
    requires
        radix >= 2,
        is_power(radix as int, n as int),
    ensures
        n == pow(radix as int, r as nat),
        r == ceil_log(radix as int, n as int),
        r < usize::BITS,
{
    let mut power: usize = 1;
    let mut k: u32 = 0;
    let ghost e = choose|e: nat| n == #[trigger] pow(radix as int, e);
    proof {
        lemma_pow0(radix as int);
        lemma_next_power_fixed(radix as int, e);
        lemma_exponent_fits(radix as int, e);
    }
    while power < n
        invariant
            radix >= 2,
            n == pow(radix as int, e),
            power == pow(radix as int, k as nat),
            k <= e,
            e < usize::BITS,
        decreases e - k,
    {
        proof {
            lemma_pow_step(radix as int, k as nat);
            assert(k < e);
            lemma_pow_increases(radix as nat, (k + 1) as nat, e);
        }
        assert(power * radix == radix * power) by (nonlinear_arith);
        power = power * radix;
        k = k + 1;
    }
    proof {
        if k < e {
            lemma_pow_strictly_increases(radix as nat, k as nat, e);
        }
    }
    k
}

/// A power that fits in a machine word has an exponent below the number of its bits.
pub proof fn lemma_exponent_fits(radix: int, e: nat)
    requires
        radix >= 2,
        pow(radix, e) <= usize::MAX,
    ensures
        e < usize::BITS,
{
    if e >= usize::BITS {
        lemma_pow_base(2, radix, e);
        lemma_pow_increases(2, usize::BITS as nat, e);
        lemma_pow2(usize::BITS as nat);
        lemma2_to64();
        lemma2_to64_rest();
    }
}

/// The exponents of powers are ordered as the powers are.
pub proof fn lemma_exponent_order(radix: int, k: nat, e: nat)
    requires
        radix >= 2,
        pow(radix, k) <= pow(radix, e),
    ensures
        k <= e,
{
    if e < k {
        lemma_pow_strictly_increases(radix as nat, e, k);
    }
}

/// Powers of a larger radix are larger.
pub proof fn lemma_pow_base(a: int, b: int, e: nat)
    requires
        0 <= a <= b,
    ensures
        0 <= pow(a, e) <= pow(b, e),
    decreases e,
{
    if e == 0 {
        lemma_pow0(a);
        lemma_pow0(b);
    } else {
        let k = (e - 1) as nat;
        lemma_pow_base(a, b, k);
        lemma_pow_step(a, k);
        lemma_pow_step(b, k);
        let s = pow(a, k);
        let t = pow(b, k);
        assert(0 <= a * s <= b * t) by (nonlinear_arith)
            requires
                0 <= a <= b,
                0 <= s <= t,
        ;
    }
}

/// Returns the number whose `len` digits in the given radix are those of `x`, in reverse.
pub fn reverse_digits(radix: usize, len: u32, x: usize) -> (r: usize)
    requires
        radix >= 2,
        pow(radix as int, len as nat) <= usize::MAX,
    ensures
        r == reversed(radix as int, len as nat, x as int),
{
    let mut result: usize = 0;
    let mut rest: usize = x;
    let mut i: u32 = 0;
    let ghost g = reversed(radix as int, len as nat, x as int);
    proof {
        lemma_reversed_bound(radix as int, len as nat, x as int);
        assert(0 * pow(radix as int, len as nat) == 0);
    }
    while i < len
        invariant
            radix >= 2,
            i <= len,
            pow(radix as int, len as nat) <= usize::MAX,
            0 <= g < pow(radix as int, len as nat),
            g == result * pow(radix as int, (len - i) as nat) + reversed(
                radix as int,
                (len - i) as nat,
                rest as int,
            ),
        decreases len - i,
    {
        proof {
            let l = (len - i - 1) as nat;
            let q = pow(radix as int, l);
            lemma_pow_step(radix as int, l);
            lemma_pow_positive(radix as int, l);
            let d = rest as int % radix as int;
            let s = result as int;
            lemma_reversed_bound(radix as int, l, rest as int / radix as int);
            assert(s * (radix * q) + d * q == (s * radix + d) * q) by (nonlinear_arith);
            lemma_mod_bound(rest as int, radix as int);
            assert(0 <= s * radix) by (nonlinear_arith)
                requires
                    0 <= s,
                    radix >= 2,
            ;
            assert(s * radix + d <= (s * radix + d) * q) by (nonlinear_arith)
                requires
                    0 <= s * radix + d,
                    q >= 1,
            ;
        }
        result = result * radix + rest % radix;
        rest = rest / radix;
        i = i + 1;
    }
    proof {
        lemma_pow0(radix as int);
    }
    result
}

} // verus!
