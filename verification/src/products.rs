//! The product of polynomials: its coefficients, its values and the laws it obeys.
use crate::algebra::{
    coef, degree_bound, eval, lemma_eval_congr, lemma_eval_sum, mul_coef, mul_len, poly_mul,
    reduced, same_poly,
};
use crate::modular::{is_prime, lemma_mod_mod, lemma_mul_congr, lemma_no_zero_divisors};
use crate::sums::{
    lemma_sum_congr, lemma_sum_ext, lemma_sum_reverse, lemma_sum_scale, lemma_sum_single,
    lemma_sum_split, lemma_sum_swap, lemma_sum_zero, sum,
};
use vstd::arithmetic::div_mod::lemma_small_mod;
use vstd::arithmetic::power::{lemma_pow_adds, pow};
use vstd::prelude::*;

verus! {

/// The coefficient of a product as a sum over any range that covers it.
pub proof fn lemma_mul_coef_extend(a: Seq<int>, b: Seq<int>, k: int, n: nat)
    requires
        0 <= k < n,
    ensures
        mul_coef(a, b, k) == sum(n, |i: int| coef(a, i) * coef(b, k - i)),
{
    let f = |i: int| coef(a, i) * coef(b, k - i);
    let rest = (n - (k + 1)) as nat;
    lemma_sum_split((k + 1) as nat, rest, f);
    let g = |i: int| f((k + 1) as nat + i);
    assert forall|i: int| 0 <= i < rest implies #[trigger] g(i) == 0 by {
        assert(coef(b, k - (k + 1 + i)) == 0);
        assert(coef(a, k + 1 + i) * 0 == 0);
    }
    lemma_sum_zero(rest, g);
}

/// A sum over shifted coefficients, taken from the first one that can differ from zero.
proof fn lemma_sum_shift(b: Seq<int>, g: spec_fn(int) -> int, i: int, n: nat)
    requires
        0 <= i <= n,
    ensures
        sum(n, |k: int| coef(b, k - i) * g(k)) == sum(
            (n - i) as nat,
            |l: int| coef(b, l) * g(i + l),
        ),
{
    let f = |k: int| coef(b, k - i) * g(k);
    lemma_sum_split(i as nat, (n - i) as nat, f);
    assert forall|k: int| 0 <= k < i implies #[trigger] f(k) == 0 by {
        assert(coef(b, k - i) == 0);
        assert(0 * g(k) == 0);
    }
    lemma_sum_zero(i as nat, f);
    lemma_sum_ext(
        (n - i) as nat,
        |l: int| f(i as nat + l),
        |l: int| coef(b, l) * g(i + l),
    );
}

/// Beyond the length of a product its coefficients are zero.
pub proof fn lemma_mul_coef_beyond(a: Seq<int>, b: Seq<int>, k: int)
    requires
        k >= mul_len(a, b),
    ensures
        mul_coef(a, b, k) == 0,
{
    let f = |i: int| coef(a, i) * coef(b, k - i);
    assert forall|i: int| 0 <= i < k + 1 implies #[trigger] f(i) == 0 by {
        if i < a.len() {
            assert(coef(b, k - i) == 0);
            assert(coef(a, i) * 0 == 0);
        } else {
            assert(0 * coef(b, k - i) == 0);
        }
    }
    lemma_sum_zero((k + 1) as nat, f);
}

/// Every coefficient of a product.
pub proof fn lemma_poly_mul_coef(a: Seq<int>, b: Seq<int>, p: int, k: int)
    requires
        p > 0,
        k >= 0,
    ensures
        coef(poly_mul(a, b, p), k) == mul_coef(a, b, k) % p,
{
    if k >= mul_len(a, b) {
        lemma_mul_coef_beyond(a, b, k);
        lemma_small_mod(0, p as nat);
    }
}

/// A product has residues for coefficients.
pub proof fn lemma_poly_mul_reduced(a: Seq<int>, b: Seq<int>, p: int)
    requires
        p > 0,
    ensures
        reduced(poly_mul(a, b, p), p),
{
    let c = poly_mul(a, b, p);
    assert forall|k: int| 0 <= k < c.len() implies 0 <= #[trigger] c[k] < p by {
        lemma_mod_mod(mul_coef(a, b, k), p);
    }
}

/// Products of polynomials with congruent coefficients have congruent coefficients.
pub proof fn lemma_mul_coef_congr(
    a: Seq<int>,
    a2: Seq<int>,
    b: Seq<int>,
    b2: Seq<int>,
    k: int,
    p: int,
)
    requires
        p > 0,
        k >= 0,
        forall|i: int| 0 <= i ==> #[trigger] coef(a, i) % p == coef(a2, i) % p,
        forall|i: int| 0 <= i ==> #[trigger] coef(b, i) % p == coef(b2, i) % p,
    ensures
        mul_coef(a, b, k) % p == mul_coef(a2, b2, k) % p,
{
    let f = |i: int| coef(a, i) * coef(b, k - i);
    let g = |i: int| coef(a2, i) * coef(b2, k - i);
    assert forall|i: int| 0 <= i < k + 1 implies #[trigger] f(i) % p == g(i) % p by {
        assert(coef(a, i) % p == coef(a2, i) % p);
        assert(coef(b, k - i) % p == coef(b2, k - i) % p);
        lemma_mul_congr(coef(a, i), coef(a2, i), coef(b, k - i), coef(b2, k - i), p);
    }
    lemma_sum_congr((k + 1) as nat, f, g, p);
}

/// The product depends on the polynomials alone, not on trailing zeros.
pub proof fn lemma_poly_mul_same(a: Seq<int>, a2: Seq<int>, b: Seq<int>, b2: Seq<int>, p: int)
    requires
        p > 0,
        same_poly(a, a2),
        same_poly(b, b2),
    ensures
        same_poly(poly_mul(a, b, p), poly_mul(a2, b2, p)),
{
    let c = poly_mul(a, b, p);
    let d = poly_mul(a2, b2, p);
    assert forall|k: int| #[trigger] coef(c, k) == coef(d, k) by {
        if k >= 0 {
            lemma_poly_mul_coef(a, b, p, k);
            lemma_poly_mul_coef(a2, b2, p, k);
            lemma_mul_coef_congr(a, a2, b, b2, k, p);
        }
    }
}

/// Multiplication of polynomials is commutative.
pub proof fn lemma_poly_mul_commutes(a: Seq<int>, b: Seq<int>, p: int)
    ensures
        poly_mul(a, b, p) == poly_mul(b, a, p),
{
    let c = poly_mul(a, b, p);
    let d = poly_mul(b, a, p);
    assert forall|k: int| 0 <= k < c.len() implies c[k] == d[k] by {
        let n = (k + 1) as nat;
        let f = |i: int| coef(a, i) * coef(b, k - i);
        let g = |i: int| coef(b, i) * coef(a, k - i);
        let h = |i: int| f(n - 1 - i);
        lemma_sum_reverse(n, f);
        assert forall|i: int| 0 <= i < n implies #[trigger] h(i) == g(i) by {
            let u = coef(a, k - i);
            let v = coef(b, i);
            assert(u * v == v * u) by (nonlinear_arith);
            assert(k - (n - 1 - i) == i);
        }
        lemma_sum_ext(n, h, g);
    }
    assert(c =~= d);
}

/// The coefficient of a product of three polynomials does not depend on how they are grouped.
proof fn lemma_mul_coef_assoc(
    a: Seq<int>,
    b: Seq<int>,
    c: Seq<int>,
    ab: Seq<int>,
    bc: Seq<int>,
    k: int,
)
    requires
        k >= 0,
        forall|i: int| 0 <= i ==> #[trigger] coef(ab, i) == mul_coef(a, b, i),
        forall|i: int| 0 <= i ==> #[trigger] coef(bc, i) == mul_coef(b, c, i),
    ensures
        mul_coef(ab, c, k) == mul_coef(a, bc, k),
{
    let n = (k + 1) as nat;
    let f = |i: int, j: int| coef(a, j) * (coef(b, i - j) * coef(c, k - i));
    let rows = |i: int| sum(n, |j: int| f(i, j));
    let cols = |j: int| sum(n, |i: int| f(i, j));
    let lhs = |i: int| coef(ab, i) * coef(c, k - i);
    let rhs = |j: int| coef(a, j) * coef(bc, k - j);
    assert forall|i: int| 0 <= i < n implies #[trigger] lhs(i) == rows(i) by {
        lemma_mul_coef_extend(a, b, i, n);
        let g = |j: int| coef(a, j) * coef(b, i - j);
        let u = coef(c, k - i);
        lemma_sum_scale(n, u, g);
        assert(coef(ab, i) == sum(n, g));
        let h = |j: int| u * g(j);
        let row = |j: int| f(i, j);
        assert forall|j: int| 0 <= j < n implies #[trigger] h(j) == row(j) by {
            let s = coef(a, j);
            let t = coef(b, i - j);
            assert(u * (s * t) == s * (t * u)) by (nonlinear_arith);
        }
        lemma_sum_ext(n, h, row);
        assert(u * sum(n, g) == sum(n, g) * u) by (nonlinear_arith);
    }
    lemma_sum_ext(n, lhs, rows);
    lemma_sum_swap(n, n, f);
    assert forall|j: int| 0 <= j < n implies #[trigger] cols(j) == rhs(j) by {
        let g = |i: int| coef(b, i - j) * coef(c, k - i);
        lemma_sum_scale(n, coef(a, j), g);
        lemma_sum_ext(n, |i: int| f(i, j), |i: int| coef(a, j) * g(i));
        let w = |i: int| coef(c, k - i);
        lemma_sum_ext(n, g, |i: int| coef(b, i - j) * w(i));
        lemma_sum_shift(b, w, j, n);
        let r = (n - j) as nat;
        lemma_sum_ext(
            r,
            |l: int| coef(b, l) * w(j + l),
            |l: int| coef(b, l) * coef(c, (k - j) - l),
        );
        assert(coef(bc, k - j) == mul_coef(b, c, k - j));
        assert((k - j + 1) as nat == r);
    }
    lemma_sum_ext(n, cols, rhs);
}

/// Multiplication of polynomials is associative.
pub proof fn lemma_poly_mul_assoc(a: Seq<int>, b: Seq<int>, c: Seq<int>, p: int)
    requires
        p > 0,
    ensures
        poly_mul(poly_mul(a, b, p), c, p) == poly_mul(a, poly_mul(b, c, p), p),
{
    let ab = poly_mul(a, b, p);
    let bc = poly_mul(b, c, p);
    let ab2 = Seq::new(mul_len(a, b), |k: int| mul_coef(a, b, k));
    let bc2 = Seq::new(mul_len(b, c), |k: int| mul_coef(b, c, k));
    let l = poly_mul(ab, c, p);
    let r = poly_mul(a, bc, p);
    assert forall|i: int| 0 <= i implies #[trigger] coef(ab2, i) == mul_coef(a, b, i) by {
        if i >= mul_len(a, b) {
            lemma_mul_coef_beyond(a, b, i);
        }
    }
    assert forall|i: int| 0 <= i implies #[trigger] coef(bc2, i) == mul_coef(b, c, i) by {
        if i >= mul_len(b, c) {
            lemma_mul_coef_beyond(b, c, i);
        }
    }
    assert forall|i: int| 0 <= i implies #[trigger] coef(ab, i) % p == coef(ab2, i) % p by {
        lemma_poly_mul_coef(a, b, p, i);
        lemma_mod_mod(mul_coef(a, b, i), p);
    }
    assert forall|i: int| 0 <= i implies #[trigger] coef(bc, i) % p == coef(bc2, i) % p by {
        lemma_poly_mul_coef(b, c, p, i);
        lemma_mod_mod(mul_coef(b, c, i), p);
    }
    assert(l.len() == r.len());
    assert forall|k: int| 0 <= k < l.len() implies l[k] == r[k] by {
        lemma_mul_coef_congr(ab, ab2, c, c, k, p);
        lemma_mul_coef_congr(a, a, bc, bc2, k, p);
        lemma_mul_coef_assoc(a, b, c, ab2, bc2, k);
    }
    assert(l =~= r);
}

/// The value of a product is the product of the values.
pub proof fn lemma_eval_poly_mul(a: Seq<int>, b: Seq<int>, x: int, p: int)
    requires
        p > 0,
    ensures
        eval(poly_mul(a, b, p), x) % p == (eval(a, x) * eval(b, x)) % p,
{
    let m = poly_mul(a, b, p);
    let n = mul_len(a, b);
    let raw = Seq::new(n, |k: int| mul_coef(a, b, k));
    assert forall|i: int| 0 <= i implies #[trigger] coef(m, i) % p == coef(raw, i) % p by {
        if i < n {
            lemma_mod_mod(mul_coef(a, b, i), p);
        }
    }
    lemma_eval_congr(m, raw, x, x, p);
    if n == 0 {
        assert(eval(a, x) * eval(b, x) == 0) by (nonlinear_arith)
            requires
                eval(a, x) == 0 || eval(b, x) == 0,
        ;
    } else {
        let pw = |k: int| pow(x, k as nat);
        let f = |k: int, i: int| coef(a, i) * (coef(b, k - i) * pw(k));
        let rows = |k: int| sum(n, |i: int| f(k, i));
        let cols = |i: int| sum(n, |k: int| f(k, i));
        let lhs = |k: int| raw[k] * pow(x, k as nat);
        assert forall|k: int| 0 <= k < n implies #[trigger] lhs(k) == rows(k) by {
            lemma_mul_coef_extend(a, b, k, n);
            let g = |i: int| coef(a, i) * coef(b, k - i);
            let h = |i: int| pw(k) * g(i);
            let row = |i: int| f(k, i);
            lemma_sum_scale(n, pw(k), g);
            assert forall|i: int| 0 <= i < n implies #[trigger] h(i) == row(i) by {
                let s = coef(a, i);
                let t = coef(b, k - i);
                let u = pw(k);
                assert(u * (s * t) == s * (t * u)) by (nonlinear_arith);
            }
            lemma_sum_ext(n, h, row);
            assert(pw(k) * sum(n, g) == sum(n, g) * pw(k)) by (nonlinear_arith);
        }
        lemma_sum_ext(n, lhs, rows);
        lemma_sum_swap(n, n, f);
        let eb = eval(b, x);
        let ea = |i: int| coef(a, i) * pow(x, i as nat);
        let rhs = |i: int| eb * ea(i);
        assert forall|i: int| 0 <= i < n implies #[trigger] cols(i) == rhs(i) by {
            let col = |k: int| f(k, i);
            let g = |k: int| coef(b, k - i) * pw(k);
            lemma_sum_ext(n, col, |k: int| coef(a, i) * g(k));
            lemma_sum_scale(n, coef(a, i), g);
            if i < a.len() {
                let r = (n - i) as nat;
                lemma_sum_shift(b, pw, i, n);
                let u = |l: int| coef(b, l) * pw(i + l);
                let w = |l: int| coef(b, l) * pow(x, l as nat);
                let v = |l: int| pow(x, i as nat) * w(l);
                assert forall|l: int| 0 <= l < r implies #[trigger] u(l) == v(l) by {
                    lemma_pow_adds(x, i as nat, l as nat);
                    let s = coef(b, l);
                    let t = pow(x, i as nat);
                    let z = pow(x, l as nat);
                    assert(s * (t * z) == t * (s * z)) by (nonlinear_arith);
                }
                lemma_sum_ext(r, u, v);
                lemma_sum_scale(r, pow(x, i as nat), w);
                lemma_eval_sum(b, r, x);
                assert(sum(n, g) == pow(x, i as nat) * eb);
                let s = coef(a, i);
                let t = pow(x, i as nat);
                assert(s * (t * eb) == eb * (s * t)) by (nonlinear_arith);
            } else {
                assert(0 * sum(n, g) == 0);
                assert(0 * pow(x, i as nat) == 0);
                assert(eb * 0 == 0);
            }
        }
        lemma_sum_ext(n, cols, rhs);
        lemma_sum_scale(n, eb, ea);
        lemma_eval_sum(a, n, x);
        assert(eval(raw, x) == eb * eval(a, x));
        assert(eb * eval(a, x) == eval(a, x) * eb) by (nonlinear_arith);
    }
}

/// The leading coefficient of a product is the product of the leading coefficients.
proof fn lemma_mul_coef_top(a: Seq<int>, b: Seq<int>)
    requires
        a.len() > 0,
        b.len() > 0,
    ensures
        mul_coef(a, b, a.len() + b.len() - 2) == a.last() * b.last(),
{
    let k = a.len() + b.len() - 2;
    let f = |i: int| coef(a, i) * coef(b, k - i);
    let t = a.len() - 1;
    assert forall|i: int| 0 <= i < k + 1 && i != t implies #[trigger] f(i) == 0 by {
        if i < t {
            assert(coef(b, k - i) == 0);
            assert(coef(a, i) * 0 == 0);
        } else {
            assert(0 * coef(b, k - i) == 0);
        }
    }
    lemma_sum_single((k + 1) as nat, t, f);
}

/// Modulo a prime, degrees add up: the product of two polynomials without trailing zeros has none.
pub proof fn lemma_poly_mul_trimmed(a: Seq<int>, b: Seq<int>, p: int)
    requires
        is_prime(p),
        reduced(a, p),
        reduced(b, p),
        a.len() > 0,
        b.len() > 0,
        a.last() != 0,
        b.last() != 0,
    ensures
        poly_mul(a, b, p).last() != 0,
        degree_bound(poly_mul(a, b, p)) == a.len() + b.len() - 1,
{
    lemma_mul_coef_top(a, b);
    lemma_small_mod(a.last() as nat, p as nat);
    lemma_small_mod(b.last() as nat, p as nat);
    if (a.last() * b.last()) % p == 0 {
        lemma_no_zero_divisors(a.last(), b.last(), p);
    }
}

} // verus!
