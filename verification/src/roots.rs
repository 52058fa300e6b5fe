//! Linear factors: division by them, products of them, and how many roots a polynomial can have.
use crate::algebra::{
    coef, eval, lemma_eval_congr, lemma_eval_constant, lemma_eval_empty, lemma_eval_first, poly_mul,
    reduced,
};
use crate::butterfly::lemma_eval_pair;
use crate::modular::{
    is_prime, lemma_add_congr, lemma_congr_iff, lemma_mod_mod, lemma_mul_congr,
    lemma_no_zero_divisors, lemma_sub_congr,
};
use crate::products::{
    lemma_eval_poly_mul, lemma_mul_coef_extend, lemma_poly_mul_assoc, lemma_poly_mul_coef,
    lemma_poly_mul_commutes, lemma_poly_mul_reduced,
};
use crate::sums::lemma_sum_pair;
use vstd::arithmetic::div_mod::lemma_small_mod;
use vstd::prelude::*;

verus! {

/// The polynomial `x - r`.
pub open spec fn linear_factor(r: int) -> Seq<int> {
    seq![-r, 1int]
}

/// The product of `b` and of `x - r` for each root `r`.
pub open spec fn roots_product(roots: Seq<int>, b: int, p: int) -> Seq<int>
    decreases roots.len(),
{
    if roots.len() == 0 {
        seq![b]
    } else {
        poly_mul(roots_product(roots.drop_last(), b, p), linear_factor(roots.last()), p)
    }
}

/// The product of `b` and of the differences of `x` and each root.
pub open spec fn differences_product(roots: Seq<int>, b: int, x: int) -> int
    decreases roots.len(),
{
    if roots.len() == 0 {
        b
    } else {
        differences_product(roots.drop_last(), b, x) * (x - roots.last())
    }
}

/// The quotient of a division by `x - z`.
pub open spec fn quotient(c: Seq<int>, z: int, p: int) -> Seq<int> {
    let len = if c.len() > 0 {
        c.len() - 1
    } else {
        0
    };
    Seq::new(len as nat, |i: int| eval(c.skip(i + 1), z) % p)
}

/// A value of the polynomial, from the division by `x - z`, without reduction.
proof fn lemma_division_eval_exact(c: Seq<int>, q: Seq<int>, z: int, x: int)
    requires
        c.len() > 0,
        q.len() == c.len() - 1,
        forall|i: int| 0 <= i < q.len() ==> #[trigger] q[i] == eval(c.skip(i + 1), z),
    ensures
        eval(c, x) == (x - z) * eval(q, x) + eval(c, z),
    decreases c.len(),
{
    if c.len() == 1 {
        lemma_eval_constant(c, x);
        lemma_eval_constant(c, z);
        assert((x - z) * 0 == 0);
    } else {
        let c2 = c.skip(1);
        let q2 = q.skip(1);
        assert forall|i: int| 0 <= i < q2.len() implies #[trigger] q2[i] == eval(
            c2.skip(i + 1),
            z,
        ) by {
            assert(q2[i] == q[i + 1]);
            assert(c2.skip(i + 1) =~= c.skip(i + 2));
        }
        lemma_division_eval_exact(c2, q2, z, x);
        lemma_eval_first(c, x);
        lemma_eval_first(c, z);
        lemma_eval_first(q, x);
        let e1 = eval(c2, z);
        let f = eval(q2, x);
        let a = c[0];
        assert(q[0] == e1);
        assert(a + x * ((x - z) * f + e1) == (x - z) * (e1 + x * f) + (a + z * e1))
            by (nonlinear_arith);
    }
}

/// A value of the polynomial, from the division by `x - z`.
pub proof fn lemma_division_eval(c: Seq<int>, z: int, x: int, p: int)
    requires
        p > 0,
        c.len() > 0,
    ensures
        eval(c, x) % p == ((x - z) * eval(quotient(c, z, p), x) + eval(c, z)) % p,
{
    let q = Seq::new((c.len() - 1) as nat, |i: int| eval(c.skip(i + 1), z));
    let r = quotient(c, z, p);
    lemma_division_eval_exact(c, q, z, x);
    assert forall|i: int| 0 <= i implies #[trigger] coef(r, i) % p == coef(q, i) % p by {
        if i < r.len() {
            lemma_mod_mod(eval(c.skip(i + 1), z), p);
        }
    }
    lemma_eval_congr(r, q, x, x, p);
    lemma_mul_congr(x - z, x - z, eval(r, x), eval(q, x), p);
    lemma_add_congr((x - z) * eval(r, x), (x - z) * eval(q, x), eval(c, z), eval(c, z), p);
}

/// The coefficients of a product with `x - r`.
pub proof fn lemma_linear_coef(c: Seq<int>, r: int, p: int, k: int)
    requires
        p > 0,
        k >= 0,
    ensures
        coef(poly_mul(c, linear_factor(r), p), k) == (coef(c, k - 1) - r * coef(c, k)) % p,
{
    let l = linear_factor(r);
    lemma_poly_mul_commutes(c, l, p);
    lemma_poly_mul_coef(l, c, p, k);
    let n = (k + 2) as nat;
    lemma_mul_coef_extend(l, c, k, n);
    let f = |i: int| coef(l, i) * coef(c, k - i);
    let a = coef(c, k);
    let b = coef(c, k - 1);
    assert((-r) * a == -(r * a)) by (nonlinear_arith);
    assert forall|i: int| 0 <= i < n implies #[trigger] f(i) == (if i == 1 {
        b
    } else {
        0
    }) + (if i == 0 {
        -(r * a)
    } else {
        0
    }) by {
        let t = coef(c, k - i);
        assert(l[0] == -r);
        assert(l[1] == 1);
        assert(1 * t == t);
        assert(0 * t == 0);
    }
    lemma_sum_pair(n, 1, 0, b, -(r * a), f);
}

/// Dividing a product by its linear factor gives the other factor.
pub proof fn lemma_quotient_of_product(c: Seq<int>, z: int, p: int)
    requires
        p > 0,
        reduced(c, p),
        c.len() > 0,
    ensures
        quotient(poly_mul(c, linear_factor(z), p), z, p) == c,
        eval(poly_mul(c, linear_factor(z), p), z) % p == 0,
{
    let m = poly_mul(c, linear_factor(z), p);
    let q = quotient(m, z, p);
    assert(m.len() == c.len() + 1);
    assert forall|k: int| 0 <= k < c.len() implies q[k] == c[k] by {
        lemma_quotient_step(c, z, p, k + 1);
        lemma_small_mod(c[k] as nat, p as nat);
    }
    assert(q =~= c);
    lemma_eval_poly_mul(c, linear_factor(z), z, p);
    lemma_eval_pair(linear_factor(z), z);
    assert(eval(c, z) * 0 == 0);
    lemma_small_mod(0, p as nat);
}

/// The value of the upper part of a product at the root of its linear factor.
proof fn lemma_quotient_step(c: Seq<int>, z: int, p: int, k: int)
    requires
        p > 0,
        0 < k <= c.len(),
    ensures
        eval(poly_mul(c, linear_factor(z), p).skip(k), z) % p == c[k - 1] % p,
    decreases c.len() - k,
{
    let m = poly_mul(c, linear_factor(z), p);
    let u = m.skip(k);
    assert(m.len() == c.len() + 1);
    lemma_linear_coef(c, z, p, k);
    assert(u[0] == coef(m, k));
    if k == c.len() {
        lemma_eval_constant(u, z);
        assert(z * 0 == 0);
        lemma_mod_mod(c[k - 1], p);
    } else {
        lemma_quotient_step(c, z, p, k + 1);
        lemma_eval_first(u, z);
        assert(u.skip(1) =~= m.skip(k + 1));
        let e = eval(m.skip(k + 1), z);
        lemma_mul_congr(z, z, e, c[k], p);
        let d = c[k - 1] - z * c[k];
        lemma_mod_mod(d, p);
        lemma_add_congr(u[0], d, z * e, z * c[k], p);
    }
}

/// The shape of a product of linear factors.
pub proof fn lemma_roots_product(roots: Seq<int>, b: int, p: int)
    requires
        p > 1,
        0 <= b < p,
    ensures
        roots_product(roots, b, p).len() == roots.len() + 1,
        reduced(roots_product(roots, b, p), p),
        roots_product(roots, b, p).last() == b,
    decreases roots.len(),
{
    if roots.len() > 0 {
        let c = roots_product(roots.drop_last(), b, p);
        lemma_roots_product(roots.drop_last(), b, p);
        lemma_poly_mul_reduced(c, linear_factor(roots.last()), p);
        let k = roots.len() as int;
        lemma_linear_coef(c, roots.last(), p, k);
        assert(roots.last() * 0 == 0);
        lemma_small_mod(b as nat, p as nat);
    }
}

/// The values of a product of linear factors.
pub proof fn lemma_eval_roots_product(roots: Seq<int>, b: int, x: int, p: int)
    requires
        p > 1,
    ensures
        eval(roots_product(roots, b, p), x) % p == differences_product(roots, b, x) % p,
    decreases roots.len(),
{
    if roots.len() == 0 {
        lemma_eval_constant(roots_product(roots, b, p), x);
    } else {
        let r = roots.drop_last();
        let l = linear_factor(roots.last());
        let c = roots_product(r, b, p);
        lemma_eval_roots_product(r, b, x, p);
        lemma_eval_poly_mul(c, l, x, p);
        lemma_eval_pair(l, x);
        assert(1 * x == x);
        lemma_mul_congr(eval(c, x), differences_product(r, b, x), eval(l, x), x - roots.last(), p);
    }
}

/// A product of differences is divisible when one of them is zero.
pub proof fn lemma_differences_zero(roots: Seq<int>, b: int, x: int, i: int)
    requires
        0 <= i < roots.len(),
        roots[i] == x,
    ensures
        differences_product(roots, b, x) == 0,
    decreases roots.len(),
{
    let d = differences_product(roots.drop_last(), b, x);
    if i == roots.len() - 1 {
        assert(d * 0 == 0);
    } else {
        lemma_differences_zero(roots.drop_last(), b, x, i);
        assert(0 * (x - roots.last()) == 0);
    }
}

/// Modulo a prime, a product of differences is divisible only when `b` or one of them is.
pub proof fn lemma_differences_nonzero(roots: Seq<int>, b: int, x: int, p: int)
    requires
        is_prime(p),
        b % p != 0,
        0 <= x < p,
        reduced(roots, p),
        forall|i: int| 0 <= i < roots.len() ==> #[trigger] roots[i] != x,
    ensures
        differences_product(roots, b, x) % p != 0,
    decreases roots.len(),
{
    if roots.len() > 0 {
        let r = roots.drop_last();
        let d = differences_product(r, b, x);
        assert forall|i: int| 0 <= i < r.len() implies #[trigger] r[i] != x by {
            assert(r[i] == roots[i]);
        }
        assert forall|i: int| 0 <= i < r.len() implies 0 <= #[trigger] r[i] < p by {
            assert(r[i] == roots[i]);
        }
        lemma_differences_nonzero(r, b, x, p);
        let last = roots[roots.len() - 1];
        if (d * (x - last)) % p == 0 {
            lemma_no_zero_divisors(d, x - last, p);
            lemma_congr_iff(x, last, p);
            lemma_small_mod(x as nat, p as nat);
            lemma_small_mod(last as nat, p as nat);
        }
    }
}

/// Any of the linear factors can be taken out of a product.
pub proof fn lemma_roots_product_remove(roots: Seq<int>, b: int, p: int, i: int)
    requires
        p > 0,
        0 <= i < roots.len(),
    ensures
        roots_product(roots, b, p) == poly_mul(
            roots_product(roots.remove(i), b, p),
            linear_factor(roots[i]),
            p,
        ),
    decreases roots.len(),
{
    let r = roots.drop_last();
    if i == roots.len() - 1 {
        assert(roots.remove(i) =~= r);
    } else {
        let s = roots.remove(i);
        lemma_roots_product_remove(r, b, p, i);
        assert(s.drop_last() =~= r.remove(i));
        assert(s.last() == roots.last());
        let c = roots_product(r.remove(i), b, p);
        let u = linear_factor(roots[i]);
        let v = linear_factor(roots.last());
        lemma_poly_mul_assoc(c, u, v, p);
        lemma_poly_mul_commutes(u, v, p);
        lemma_poly_mul_assoc(c, v, u, p);
    }
}

/// A polynomial with at least as many roots as coefficients is zero.
pub proof fn lemma_too_many_roots(c: Seq<int>, roots: Seq<int>, p: int)
    requires
        is_prime(p),
        c.len() <= roots.len(),
        reduced(roots, p),
        roots.no_duplicates(),
        forall|i: int| 0 <= i < roots.len() ==> eval(c, #[trigger] roots[i]) % p == 0,
    ensures
        forall|i: int| 0 <= i < c.len() ==> #[trigger] c[i] % p == 0,
    decreases c.len(),
{
    if c.len() > 0 {
        let z = roots[0];
        let q = quotient(c, z, p);
        let rest = roots.skip(1);
        assert forall|i: int| 0 <= i < rest.len() implies 0 <= #[trigger] rest[i] < p by {
            assert(rest[i] == roots[i + 1]);
        }
        assert forall|i: int| 0 <= i < rest.len() implies eval(q, #[trigger] rest[i]) % p == 0 by {
            let x = roots[i + 1];
            assert(rest[i] == x);
            assert(x != z);
            lemma_division_eval(c, z, x, p);
            lemma_small_mod(0, p as nat);
            lemma_add_congr((x - z) * eval(q, x), (x - z) * eval(q, x), eval(c, z), 0, p);
            lemma_no_zero_divisors(x - z, eval(q, x), p);
            lemma_congr_iff(x, z, p);
            lemma_small_mod(x as nat, p as nat);
            lemma_small_mod(z as nat, p as nat);
        }
        lemma_too_many_roots(q, rest, p);
        assert forall|i: int| 0 <= i < c.len() implies #[trigger] c[i] % p == 0 by {
            lemma_coefficient_of_division(c, z, p, i);
        }
    }
}

/// A coefficient is divisible when the quotient by `x - z` and the remainder are.
proof fn lemma_coefficient_of_division(c: Seq<int>, z: int, p: int, i: int)
    requires
        p > 0,
        0 <= i < c.len(),
        eval(c, z) % p == 0,
        forall|j: int| 0 <= j < c.len() - 1 ==> #[trigger] quotient(c, z, p)[j] % p == 0,
    ensures
        c[i] % p == 0,
{
    let q = quotient(c, z, p);
    let u = c.skip(i);
    let e = eval(u, z);
    let f = eval(c.skip(i + 1), z);
    lemma_eval_first(u, z);
    assert(u.skip(1) =~= c.skip(i + 1));
    assert(c.skip(0) =~= c);
    assert(e % p == 0) by {
        if i > 0 {
            assert(q[i - 1] % p == 0);
            lemma_mod_mod(e, p);
        }
    }
    assert(f % p == 0) by {
        if i + 1 < c.len() {
            assert(q[i] % p == 0);
            lemma_mod_mod(f, p);
        } else {
            lemma_small_mod(0, p as nat);
        }
    }
    lemma_small_mod(0, p as nat);
    lemma_mul_congr(z, z, f, 0, p);
    assert(z * 0 == 0);
    lemma_sub_congr(e, 0, z * f, 0, p);
}

/// The coefficients of a polynomial, from the division by `x - z`.
pub proof fn lemma_division_coef(c: Seq<int>, z: int, p: int, k: int)
    requires
        p > 0,
        k >= 0,
    ensures
        coef(c, k) % p == (coef(poly_mul(quotient(c, z, p), linear_factor(z), p), k) + (if k == 0 {
            eval(c, z) % p
        } else {
            0
        })) % p,
{
    let q = quotient(c, z, p);
    lemma_linear_coef(q, z, p, k);
    let d = coef(q, k - 1) - z * coef(q, k);
    lemma_mod_mod(d, p);
    lemma_small_mod(0, p as nat);
    if k < c.len() {
        let u = c.skip(k);
        let e = eval(u, z);
        let f = eval(c.skip(k + 1), z);
        lemma_eval_first(u, z);
        assert(u.skip(1) =~= c.skip(k + 1));
        assert(c.skip(0) =~= c);
        lemma_mod_mod(e, p);
        lemma_mod_mod(f, p);
        // the coefficients of the quotient are congruent to e and f
        assert(coef(q, k) % p == f % p);
        lemma_mul_congr(z, z, coef(q, k), f, p);
        if k > 0 {
            lemma_sub_congr(coef(q, k - 1), e, z * coef(q, k), z * f, p);
        } else {
            lemma_sub_congr(0, 0, z * coef(q, k), z * f, p);
            lemma_add_congr(d % p, -(z * f), e % p, e, p);
        }
    } else {
        assert(z * 0 == 0);
        if k == 0 {
            lemma_eval_empty(c, z);
        }
    }
}

} // verus!
