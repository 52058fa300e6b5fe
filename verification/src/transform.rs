//! The discrete Fourier transform over a prime field and its inverse.
use crate::algebra::{coef, eval, lemma_eval_congr, poly_scale, reduced};
use crate::modular::{
    inverse, is_prime, lemma_cancel, lemma_congr_iff, lemma_inverse, lemma_inverse_unique,
    lemma_mod_mod, lemma_mul_congr, lemma_no_zero_divisors, lemma_pow_congr, lemma_sub_congr,
};
use crate::sums::{
    lemma_sum_congr, lemma_sum_ext, lemma_sum_scale, lemma_sum_single, lemma_sum_swap, sum,
};
use vstd::arithmetic::div_mod::{
    lemma_div_pos_is_pos, lemma_fundamental_div_mod, lemma_fundamental_div_mod_converse,
    lemma_mod_bound, lemma_small_mod,
};
use vstd::arithmetic::power::{
    lemma0_pow, lemma1_pow, lemma_pow0, lemma_pow1, lemma_pow_adds, lemma_pow_distributes,
    lemma_pow_multiplies, pow,
};
use vstd::prelude::*;

verus! {

/// Whether `w` is a primitive `n`-th root of unity modulo `p`.
pub open spec fn primitive_root(w: int, n: int, p: int) -> bool {
    &&& n > 0
    &&& pow(w, n as nat) % p == 1
    &&& forall|j: nat| 0 < j < n ==> #[trigger] pow(w, j) % p != 1
}

/// The values of the polynomial at the powers of `w`.
pub open spec fn dft(c: Seq<int>, w: int, p: int) -> Seq<int> {
    Seq::new(c.len(), |i: int| eval(c, pow(w, i as nat)) % p)
}

/// The polynomial that has the given values at the powers of `w`.
pub open spec fn idft(v: Seq<int>, w: int, p: int) -> Seq<int> {
    poly_scale(dft(v, inverse(w, p), p), inverse(v.len() as int, p), p)
}

/// A geometric sum, multiplied by the difference of its ratio and one.
proof fn lemma_geometric(x: int, n: nat)
    ensures
        (x - 1) * sum(n, |k: int| pow(x, k as nat)) == pow(x, n) - 1,
    decreases n,
{
    let f = |k: int| pow(x, k as nat);
    if n == 0 {
        lemma_pow0(x);
        assert((x - 1) * 0 == 0);
    } else {
        let m = (n - 1) as nat;
        lemma_geometric(x, m);
        lemma_pow_adds(x, 1, m);
        lemma_pow1(x);
        let s = sum(m, f);
        let q = pow(x, m);
        assert((x - 1) * (s + q) == (x - 1) * s + (x * q - q)) by (nonlinear_arith);
    }
}

/// The exponent of a root of unity counts modulo its order.
pub proof fn lemma_root_exponent(w: int, n: int, e: nat, f: nat, p: int)
    requires
        p > 1,
        n > 0,
        pow(w, n as nat) % p == 1,
        e as int % n == f as int % n,
    ensures
        pow(w, e) % p == pow(w, f) % p,
{
    lemma_root_exponent_mod(w, n, e, p);
    lemma_root_exponent_mod(w, n, f, p);
}

proof fn lemma_root_exponent_mod(w: int, n: int, e: nat, p: int)
    requires
        p > 1,
        n > 0,
        pow(w, n as nat) % p == 1,
    ensures
        pow(w, e) % p == pow(w, (e as int % n) as nat) % p,
{
    let q = (e as int / n) as nat;
    let r = (e as int % n) as nat;
    lemma_fundamental_div_mod(e as int, n);
    lemma_mod_bound(e as int, n);
    lemma_div_pos_is_pos(e as int, n);
    let nq = (n as nat) * q;
    assert(nq == n * (e as int / n));
    lemma_pow_adds(w, nq, r);
    lemma_pow_multiplies(w, n as nat, q);
    lemma_small_mod(1, p as nat);
    lemma_pow_congr(pow(w, n as nat), 1, q, p);
    lemma1_pow(q);
    lemma_mul_congr(pow(w, nq), 1, pow(w, r), pow(w, r), p);
}

/// The powers of a primitive root of unity sum up to zero, unless each of them is one.
pub proof fn lemma_root_sum(w: int, n: int, e: nat, p: int)
    requires
        is_prime(p),
        primitive_root(w, n, p),
    ensures
        sum(n as nat, |i: int| pow(w, e * (i as nat))) % p == (if e as int % n == 0 {
            n
        } else {
            0
        }) % p,
{
    let f = |i: int| pow(w, e * (i as nat));
    let r = (e as int % n) as nat;
    lemma_mod_bound(e as int, n);
    lemma_small_mod(1, p as nat);
    if r == 0 {
        let one = |i: int| 1int;
        assert forall|i: int| 0 <= i < n implies #[trigger] f(i) % p == one(i) % p by {
            lemma_pow_multiplies(w, e, i as nat);
            lemma_root_exponent(w, n, e, 0, p);
            lemma_small_mod(0, n as nat);
            lemma_pow0(w);
            lemma_pow_congr(pow(w, e), 1, i as nat, p);
            lemma1_pow(i as nat);
        }
        lemma_sum_congr(n as nat, f, one, p);
        lemma_sum_ones(n as nat);
        lemma_sum_ext(n as nat, one, |i: int| 1int);
    } else {
        let x = pow(w, e);
        let g = |k: int| pow(x, k as nat);
        assert forall|i: int| 0 <= i < n implies #[trigger] f(i) == g(i) by {
            lemma_pow_multiplies(w, e, i as nat);
        }
        lemma_sum_ext(n as nat, f, g);
        lemma_geometric(x, n as nat);
        lemma_pow_multiplies(w, e, n as nat);
        lemma_pow_multiplies(w, n as nat, e);
        assert(e * (n as nat) == (n as nat) * e) by (nonlinear_arith);
        lemma_pow_congr(pow(w, n as nat), 1, e, p);
        lemma1_pow(e);
        lemma_sub_congr(pow(x, n as nat), 1, 1, 1, p);
        lemma_small_mod(0, p as nat);
        lemma_no_zero_divisors(x - 1, sum(n as nat, g), p);
        if (x - 1) % p == 0 {
            lemma_congr_iff(x, 1, p);
            lemma_mod_mod(e as int, n);
            lemma_root_exponent(w, n, e, r, p);
            assert(pow(w, r) % p != 1);
        }
    }
}

proof fn lemma_sum_ones(n: nat)
    ensures
        sum(n, |i: int| 1int) == n,
    decreases n,
{
    if n > 0 {
        lemma_sum_ones((n - 1) as nat);
    }
}

/// A root of unity is not zero.
pub proof fn lemma_root_nonzero(w: int, n: int, p: int)
    requires
        p > 1,
        n > 0,
        pow(w, n as nat) % p == 1,
    ensures
        w % p != 0,
{
    if w % p == 0 {
        lemma_small_mod(0, p as nat);
        lemma_pow_congr(w, 0, n as nat, p);
        lemma0_pow(n as nat);
    }
}

/// The inverse of a root of unity is its last power before one.
proof fn lemma_root_inverse_power(w: int, w2: int, n: int, p: int)
    requires
        p > 1,
        n > 0,
        pow(w, n as nat) % p == 1,
        (w * w2) % p == 1,
    ensures
        w2 % p == pow(w, (n - 1) as nat) % p,
{
    lemma_pow_adds(w, 1, (n - 1) as nat);
    lemma_pow1(w);
    lemma_inverse_unique(w, w2, pow(w, (n - 1) as nat), p);
}

/// The inverse of a primitive root of unity is one too.
pub proof fn lemma_inverse_root(w: int, w2: int, n: int, p: int)
    requires
        p > 1,
        primitive_root(w, n, p),
        (w * w2) % p == 1,
    ensures
        primitive_root(w2, n, p),
{
    lemma_small_mod(1, p as nat);
    assert forall|j: nat| 0 < j <= n implies (#[trigger] pow(w2, j) % p == 1) == (pow(w, j) % p
        == 1) by {
        lemma_pow_distributes(w, w2, j);
        lemma_pow_congr(w * w2, 1, j, p);
        lemma1_pow(j);
        if pow(w2, j) % p == 1 {
            lemma_mul_congr(pow(w, j), pow(w, j), pow(w2, j), 1, p);
        }
        if pow(w, j) % p == 1 {
            lemma_mul_congr(pow(w, j), 1, pow(w2, j), pow(w2, j), p);
        }
    }
}

/// Transforming twice, by a root of unity and by its inverse, multiplies by the length.
proof fn lemma_transform_twice(c: Seq<int>, w: int, w2: int, p: int, k: int)
    requires
        is_prime(p),
        primitive_root(w, c.len() as int, p),
        (w * w2) % p == 1,
        0 <= k < c.len(),
    ensures
        eval(dft(c, w, p), pow(w2, k as nat)) % p == (c.len() * c[k]) % p,
{
    let n = c.len();
    let d = dft(c, w, p);
    let y = pow(w2, k as nat);
    let e0 = (n - 1) as nat * (k as nat);
    let f = |i: int, j: int| c[j] * pow(w, (j as nat + e0) * (i as nat));
    let rows = |i: int| sum(n, |j: int| f(i, j));
    let cols = |j: int| sum(n, |i: int| f(i, j));
    let lhs = |i: int| d[i] * pow(y, i as nat);
    lemma_root_inverse_power(w, w2, n as int, p);
    assert forall|i: int| 0 <= i < n implies #[trigger] lhs(i) % p == rows(i) % p by {
        let x = pow(w, i as nat);
        let yi = pow(y, i as nat);
        // y^i is congruent to w^(e0 * i)
        lemma_pow_congr(w2, pow(w, (n - 1) as nat), k as nat, p);
        lemma_pow_multiplies(w, (n - 1) as nat, k as nat);
        lemma_pow_congr(y, pow(w, e0), i as nat, p);
        lemma_pow_multiplies(w, e0, i as nat);
        let z = pow(w, e0 * (i as nat));
        lemma_mod_mod(eval(c, x), p);
        lemma_mul_congr(d[i], eval(c, x), yi, z, p);
        let g = |j: int| c[j] * pow(x, j as nat);
        let h = |j: int| z * g(j);
        let row = |j: int| f(i, j);
        lemma_sum_scale(n, z, g);
        assert forall|j: int| 0 <= j < n implies #[trigger] h(j) == row(j) by {
            lemma_pow_multiplies(w, i as nat, j as nat);
            lemma_pow_adds(w, (i as nat) * (j as nat), e0 * (i as nat));
            assert((i as nat) * (j as nat) + e0 * (i as nat) == (j as nat + e0) * (i as nat))
                by (nonlinear_arith);
            let s = c[j];
            let t = pow(x, j as nat);
            assert(z * (s * t) == s * (t * z)) by (nonlinear_arith);
        }
        lemma_sum_ext(n, h, row);
        assert(z * sum(n, g) == sum(n, g) * z) by (nonlinear_arith);
    }
    lemma_sum_congr(n, lhs, rows, p);
    lemma_sum_swap(n, n, f);
    let rhs = |j: int| if j == k {
        n * c[j]
    } else {
        0
    };
    assert forall|j: int| 0 <= j < n implies #[trigger] cols(j) % p == rhs(j) % p by {
        let e = j as nat + e0;
        let g = |i: int| pow(w, e * (i as nat));
        lemma_sum_scale(n, c[j], g);
        lemma_sum_ext(n, |i: int| f(i, j), |i: int| c[j] * g(i));
        lemma_root_sum(w, n as int, e, p);
        // e is j - k, up to multiples of n
        assert(e == (j - k) + n * k) by (nonlinear_arith)
            requires
                e == j + (n - 1) * k,
        ;
        if j >= k {
            lemma_fundamental_div_mod_converse(e as int, n as int, k, j - k);
        } else {
            assert((j - k) + n * k == n * (k - 1) + (n + j - k)) by (nonlinear_arith);
            lemma_fundamental_div_mod_converse(e as int, n as int, k - 1, n + j - k);
        }
        if j == k {
            lemma_mul_congr(c[j], c[j], sum(n, g), n as int, p);
            assert(c[j] * n == n * c[j]) by (nonlinear_arith);
        } else {
            lemma_mul_congr(c[j], c[j], sum(n, g), 0, p);
            assert(c[j] * 0 == 0);
        }
    }
    lemma_sum_congr(n, cols, rhs, p);
    lemma_sum_single(n, k, rhs);
}

/// Scaling the second transform by the inverse of the length gives the sequence back.
proof fn lemma_scaled_twice(c: Seq<int>, w: int, w2: int, p: int)
    requires
        is_prime(p),
        primitive_root(w, c.len() as int, p),
        (w * w2) % p == 1,
        reduced(c, p),
        c.len() as int % p != 0,
    ensures
        poly_scale(dft(dft(c, w, p), w2, p), inverse(c.len() as int, p), p) == c,
{
    let n = c.len() as int;
    let u = inverse(n, p);
    let d = dft(dft(c, w, p), w2, p);
    lemma_inverse(n, p);
    lemma_small_mod(1, p as nat);
    let r = poly_scale(d, u, p);
    assert forall|k: int| 0 <= k < n implies r[k] == c[k] by {
        lemma_transform_twice(c, w, w2, p, k);
        let t = eval(dft(c, w, p), pow(w2, k as nat));
        lemma_mod_mod(t, p);
        lemma_mul_congr(d[k], n * c[k], u, u, p);
        assert((n * c[k]) * u == (n * u) * c[k]) by (nonlinear_arith);
        lemma_mul_congr(n * u, 1, c[k], c[k], p);
        lemma_small_mod(c[k] as nat, p as nat);
    }
    assert(r =~= c);
}

/// The inverse transform undoes the transform.
pub proof fn lemma_idft_dft(c: Seq<int>, w: int, p: int)
    requires
        is_prime(p),
        primitive_root(w, c.len() as int, p),
        reduced(c, p),
        c.len() as int % p != 0,
    ensures
        idft(dft(c, w, p), w, p) == c,
{
    lemma_root_nonzero(w, c.len() as int, p);
    lemma_inverse(w, p);
    lemma_scaled_twice(c, w, inverse(w, p), p);
}

/// The transform of a scaled sequence is the scaled transform.
proof fn lemma_dft_scale(c: Seq<int>, u: int, w: int, p: int)
    requires
        p > 0,
    ensures
        dft(poly_scale(c, u, p), w, p) == poly_scale(dft(c, w, p), u, p),
{
    let s = poly_scale(c, u, p);
    let l = dft(s, w, p);
    let r = poly_scale(dft(c, w, p), u, p);
    let raw = Seq::new(c.len(), |i: int| c[i] * u);
    assert forall|i: int| 0 <= i implies #[trigger] coef(s, i) % p == coef(raw, i) % p by {
        if i < c.len() {
            lemma_mod_mod(c[i] * u, p);
        }
    }
    assert forall|i: int| 0 <= i < c.len() implies l[i] == r[i] by {
        let x = pow(w, i as nat);
        lemma_eval_congr(s, raw, x, x, p);
        let f = |j: int| c[j] * pow(x, j as nat);
        let g = |j: int| raw[j] * pow(x, j as nat);
        let h = |j: int| u * f(j);
        assert forall|j: int| 0 <= j < c.len() implies #[trigger] g(j) == h(j) by {
            let a = c[j];
            let b = pow(x, j as nat);
            assert((a * u) * b == u * (a * b)) by (nonlinear_arith);
        }
        lemma_sum_ext(c.len(), g, h);
        lemma_sum_scale(c.len(), u, f);
        let t = eval(c, x);
        assert(u * t == t * u) by (nonlinear_arith);
        lemma_mod_mod(t, p);
        lemma_mul_congr(t % p, t, u, u, p);
    }
    assert(l =~= r);
}

/// The transform undoes the inverse transform.
pub proof fn lemma_dft_idft(v: Seq<int>, w: int, p: int)
    requires
        is_prime(p),
        primitive_root(w, v.len() as int, p),
        reduced(v, p),
        v.len() as int % p != 0,
    ensures
        dft(idft(v, w, p), w, p) == v,
{
    let w2 = inverse(w, p);
    lemma_root_nonzero(w, v.len() as int, p);
    lemma_inverse(w, p);
    lemma_inverse_root(w, w2, v.len() as int, p);
    lemma_dft_scale(dft(v, w2, p), inverse(v.len() as int, p), w, p);
    assert(w2 * w == w * w2) by (nonlinear_arith);
    lemma_scaled_twice(v, w2, w, p);
}

/// A power of a primitive root of unity is a primitive root of unity of a lower order.
pub proof fn lemma_root_power(w: int, n: int, q: int, p: int)
    requires
        p > 1,
        n > 0,
        q > 0,
        primitive_root(w, n * q, p),
    ensures
        primitive_root(pow(w, q as nat), n, p),
{
    let v = pow(w, q as nat);
    lemma_pow_multiplies(w, q as nat, n as nat);
    assert((q as nat) * (n as nat) == n * q) by (nonlinear_arith)
        requires
            n > 0,
            q > 0,
    ;
    assert forall|j: nat| 0 < j < n implies #[trigger] pow(v, j) % p != 1 by {
        lemma_pow_multiplies(w, q as nat, j);
        let e = (q as nat) * j;
        assert(0 < e < n * q) by (nonlinear_arith)
            requires
                e == q * j,
                0 < j < n,
                q > 0,
        ;
        assert(pow(w, e) % p != 1);
    }
}

/// Congruent numbers are primitive roots of unity together.
pub proof fn lemma_root_congr(w: int, w2: int, n: int, p: int)
    requires
        p > 1,
        primitive_root(w, n, p),
        w % p == w2 % p,
    ensures
        primitive_root(w2, n, p),
{
    lemma_pow_congr(w, w2, n as nat, p);
    assert forall|j: nat| 0 < j < n implies #[trigger] pow(w2, j) % p != 1 by {
        lemma_pow_congr(w, w2, j, p);
        assert(pow(w, j) % p != 1);
    }
}

/// The powers of a primitive root of unity are distinct.
pub proof fn lemma_root_powers_distinct(w: int, n: int, i: nat, j: nat, p: int)
    requires
        is_prime(p),
        primitive_root(w, n, p),
        i < j < n,
    ensures
        pow(w, i) % p != pow(w, j) % p,
{
    if pow(w, i) % p == pow(w, j) % p {
        let d = (j - i) as nat;
        lemma_pow_adds(w, i, d);
        lemma_root_nonzero(w, n, p);
        lemma_pow_nonzero(w, i, p);
        assert(pow(w, i) * 1 == pow(w, i));
        lemma_cancel(pow(w, i), 1, pow(w, d), p);
        lemma_small_mod(1, p as nat);
        assert(pow(w, d) % p != 1);
    }
}

/// Modulo a prime, powers of a number that is not divisible are not divisible.
pub proof fn lemma_pow_nonzero(w: int, i: nat, p: int)
    requires
        is_prime(p),
        w % p != 0,
    ensures
        pow(w, i) % p != 0,
    decreases i,
{
    if i == 0 {
        lemma_pow0(w);
        lemma_small_mod(1, p as nat);
    } else {
        let k = (i - 1) as nat;
        lemma_pow_nonzero(w, k, p);
        lemma_pow_adds(w, 1, k);
        lemma_pow1(w);
        if pow(w, i) % p == 0 {
            lemma_no_zero_divisors(w, pow(w, k), p);
        }
    }
}

} // verus!
