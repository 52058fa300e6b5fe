//! What holds of the operations on polynomials together.
use crate::algebra::{
    coef, degree_bound, eval, lemma_degree_bound, lemma_eval_add, lemma_eval_same, lemma_eval_scale,
    lemma_resized_same, lemma_same_trim, lemma_trim, lemma_trim_fixed, max_len, poly_add, poly_mul,
    poly_neg, poly_scale, poly_sub, reduced, resized, same_poly, trim,
};
use crate::convolution::lemma_product_trim;
use crate::digits::{ceil_log, lemma_next_power, lemma_next_power_least, next_power};
use crate::division::{lemma_eval_vanishing, lemma_quotient_unique, vanishing};
use crate::domains::all_zero;
use crate::field::{lemma_vals, vals, PrimeField};
use crate::interpolation::{abscissas, passes_through};
use crate::modular::{is_prime, lemma_add_congr, lemma_congr_iff, lemma_mod_mod, lemma_mul_congr};
use crate::multiply::{
    all_products_fit, lemma_mul_constant, lemma_trim_factor, product_fits, product_of,
};
use crate::operators::lemma_poly_sub_swap;
use crate::polynomial::{lemma_view, Polynomial};
use crate::products::{
    lemma_eval_poly_mul, lemma_poly_mul_assoc, lemma_poly_mul_commutes, lemma_poly_mul_reduced,
    lemma_poly_mul_trimmed,
};
use crate::roots::{
    lemma_differences_nonzero, lemma_differences_zero, lemma_division_coef,
    lemma_eval_roots_product, lemma_linear_coef, lemma_roots_product, lemma_roots_product_remove,
    lemma_too_many_roots, linear_factor, quotient, roots_product,
};
use vstd::arithmetic::div_mod::lemma_small_mod;
use vstd::arithmetic::power::{lemma_pow_increases, lemma_pow_positive, pow};
use vstd::prelude::*;
use vstd::seq_lib::{to_multiset_contains, to_multiset_len, to_multiset_remove};

verus! {

/// Trimming keeps the values, and after it the length is the degree bound.
pub proof fn law_trim(c: Seq<int>, x: int)
    ensures
        eval(trim(c), x) == eval(c, x),
        trim(c).len() == degree_bound(trim(c)),
        degree_bound(trim(c)) == degree_bound(c),
        trim(trim(c)) == trim(c),
{
    lemma_trim(c);
    lemma_eval_same(trim(c), c, x);
    lemma_same_trim(trim(c), c);
}

/// Padding keeps the values and the degree bound.
pub proof fn law_pad(c: Seq<int>, n: nat, x: int)
    requires
        c.len() <= n,
    ensures
        eval(resized(c, n), x) == eval(c, x),
        degree_bound(resized(c, n)) == degree_bound(c),
        trim(resized(c, n)) == trim(c),
{
    lemma_degree_bound(c);
    lemma_resized_same(c, n);
    lemma_eval_same(resized(c, n), c, x);
    lemma_same_trim(resized(c, n), c);
}

/// Addition is commutative.
pub proof fn law_add_commutes(a: Seq<int>, b: Seq<int>, p: int)
    ensures
        poly_add(a, b, p) == poly_add(b, a, p),
{
    assert(poly_add(a, b, p) =~= poly_add(b, a, p));
}

/// The values of a sum are the sums of the values.
pub proof fn law_add_values(a: Seq<int>, b: Seq<int>, x: int, p: int)
    requires
        p > 0,
    ensures
        eval(poly_add(a, b, p), x) % p == (eval(a, x) + eval(b, x)) % p,
{
    lemma_eval_add(a, b, x, p);
}

/// Subtraction is anticommutative.
pub proof fn law_sub_anticommutes(a: Seq<int>, b: Seq<int>, p: int)
    requires
        p > 0,
    ensures
        poly_sub(a, b, p) == poly_neg(poly_sub(b, a, p), p),
{
    lemma_poly_sub_swap(a, b, p);
}

/// Adding back what was subtracted gives the polynomial back, up to trailing zeros.
pub proof fn law_add_undoes_sub(a: Seq<int>, b: Seq<int>, p: int)
    requires
        p > 0,
        reduced(a, p),
    ensures
        same_poly(poly_add(poly_sub(a, b, p), b, p), a),
{
    let d = poly_sub(a, b, p);
    let s = poly_add(d, b, p);
    assert forall|i: int| #[trigger] coef(s, i) == coef(a, i) by {
        if 0 <= i < max_len(a, b) {
            let x = coef(a, i) - coef(b, i);
            lemma_mod_mod(x, p);
            lemma_add_congr(x % p, x, coef(b, i), coef(b, i), p);
            lemma_small_mod(coef(a, i) as nat, p as nat);
        }
    }
}

/// Negation is subtraction from zero.
pub proof fn law_neg_is_sub(a: Seq<int>, p: int)
    ensures
        poly_neg(a, p) == poly_sub(Seq::empty(), a, p),
{
    assert(poly_neg(a, p) =~= poly_sub(Seq::empty(), a, p));
}

/// The values of a scaled polynomial are the scaled values.
pub proof fn law_scale_values(c: Seq<int>, k: int, x: int, p: int)
    requires
        p > 0,
    ensures
        eval(poly_scale(c, k, p), x) % p == (eval(c, x) * k) % p,
{
    lemma_eval_scale(c, k, x, p);
}

/// Multiplication is commutative.
pub proof fn law_multiply_commutes(a: Seq<int>, b: Seq<int>, p: int)
    ensures
        trim(poly_mul(a, b, p)) == trim(poly_mul(b, a, p)),
{
    lemma_poly_mul_commutes(a, b, p);
}

/// Multiplication is associative.
pub proof fn law_multiply_associates(a: Seq<int>, b: Seq<int>, c: Seq<int>, p: int)
    requires
        p > 0,
    ensures
        trim(poly_mul(trim(poly_mul(a, b, p)), c, p)) == trim(
            poly_mul(a, trim(poly_mul(b, c, p)), p),
        ),
{
    lemma_trim_factor(poly_mul(a, b, p), c, p);
    lemma_trim_factor(a, poly_mul(b, c, p), p);
    lemma_poly_mul_assoc(a, b, c, p);
}

/// The values of a product are the products of the values.
pub proof fn law_multiply_values(a: Seq<int>, b: Seq<int>, x: int, p: int)
    requires
        p > 0,
    ensures
        eval(trim(poly_mul(a, b, p)), x) % p == (eval(a, x) * eval(b, x)) % p,
{
    law_trim(poly_mul(a, b, p), x);
    lemma_eval_poly_mul(a, b, x, p);
}

/// The degrees of the factors add up, and a product is zero only if one of the factors is.
pub proof fn law_multiply_degree(a: Seq<int>, b: Seq<int>, p: int)
    requires
        is_prime(p),
        reduced(a, p),
        reduced(b, p),
    ensures
        trim(poly_mul(a, b, p)).len() == if degree_bound(a) == 0 || degree_bound(b) == 0 {
            0
        } else {
            degree_bound(a) + degree_bound(b) - 1
        },
{
    let ta = trim(a);
    let tb = trim(b);
    lemma_product_trim(a, b, p);
    lemma_trim(a);
    lemma_trim(b);
    lemma_trim(poly_mul(a, b, p));
    lemma_degree_bound(a);
    lemma_degree_bound(b);
    if ta.len() > 0 && tb.len() > 0 {
        lemma_degree_bound(ta);
        lemma_degree_bound(tb);
        lemma_poly_mul_trimmed(ta, tb, p);
        lemma_same_trim(poly_mul(ta, tb, p), poly_mul(a, b, p));
    }
}

/// A product of two polynomials can be computed exactly when its degree is less than the order of
/// the two-adic subgroup, machine limits aside. The degree of the zero polynomial counts as `-1`.
pub proof fn law_multiply_fits<F: PrimeField>(a: Seq<int>, b: Seq<int>)
    requires
        reduced(a, F::modulus()),
        reduced(b, F::modulus()),
        next_power(2, degree_bound(a) + degree_bound(b) - 1) <= usize::MAX,
    ensures
        product_fits::<F>(a, b) <==> trim(poly_mul(a, b, F::modulus())).len() - 1 < pow(
            2,
            F::two_adicity(),
        ),
{
    F::lemma_modulus();
    law_multiply_degree(a, b, F::modulus());
    lemma_pow_positive(2, F::two_adicity());
}

/// Multiplying by a constant polynomial scales, up to trailing zeros.
pub proof fn law_multiply_constant(k: int, c: Seq<int>, p: int)
    requires
        p > 0,
    ensures
        trim(poly_mul(seq![k], c, p)) == trim(poly_scale(c, k, p)),
{
    if c.len() > 0 {
        lemma_mul_constant(seq![k], c, p);
    } else {
        assert(poly_mul(seq![k], c, p) =~= poly_scale(c, k, p));
    }
}

/// One polynomial can be taken out of a product.
proof fn lemma_product_of_remove(s: Seq<Seq<int>>, i: int, p: int)
    requires
        p > 0,
        0 <= i < s.len(),
        s.len() >= 2,
    ensures
        product_of(s, p) == trim(poly_mul(product_of(s.remove(i), p), s[i], p)),
    decreases s.len(),
{
    let init = s.drop_last();
    let last = s.last();
    if i == s.len() - 1 {
        assert(s.remove(i) =~= init);
    } else if s.len() == 2 {
        assert(s.remove(i) =~= seq![last]);
        assert(init =~= seq![s[0]]);
        assert(product_of(init, p) == s[0]);
        assert(product_of(s.remove(i), p) == last);
        lemma_poly_mul_commutes(s[0], last, p);
    } else {
        lemma_product_of_remove(init, i, p);
        let r = product_of(init.remove(i), p);
        assert(s.remove(i).drop_last() =~= init.remove(i));
        assert(s.remove(i).last() == last);
        assert(init[i] == s[i]);
        let x = s[i];
        assert(product_of(s.remove(i), p) == trim(poly_mul(r, last, p)));
        // trim(trim(r x) last) is trim(trim(r last) x)
        lemma_trim_factor(poly_mul(r, x, p), last, p);
        lemma_trim_factor(poly_mul(r, last, p), x, p);
        lemma_poly_mul_assoc(r, x, last, p);
        lemma_poly_mul_assoc(r, last, x, p);
        lemma_poly_mul_commutes(x, last, p);
    }
}

/// The order of the polynomials does not matter for their product.
pub proof fn law_multiply_many_order(s: Seq<Seq<int>>, t: Seq<Seq<int>>, p: int)
    requires
        p > 0,
        s.to_multiset() == t.to_multiset(),
    ensures
        product_of(s, p) == product_of(t, p),
    decreases s.len(),
{
    to_multiset_len(s);
    to_multiset_len(t);
    if s.len() == 0 {
        assert(s =~= t);
    } else {
        let k = s.len() - 1;
        let x = s[k];
        to_multiset_contains(s, x);
        to_multiset_contains(t, x);
        assert(s.contains(x));
        let i = choose|i: int| 0 <= i < t.len() && t[i] == x;
        to_multiset_remove(s, k);
        to_multiset_remove(t, i);
        if s.len() >= 2 {
            law_multiply_many_order(s.remove(k), t.remove(i), p);
            lemma_product_of_remove(s, k, p);
            lemma_product_of_remove(t, i, p);
        }
    }
}

/// The product of numbers.
pub open spec fn product_of_values(s: Seq<Seq<int>>, x: int) -> int
    decreases s.len(),
{
    if s.len() == 0 {
        1
    } else {
        product_of_values(s.drop_last(), x) * eval(s.last(), x)
    }
}

/// The values of a product of many polynomials are the products of the values.
pub proof fn law_multiply_many_values(s: Seq<Seq<int>>, x: int, p: int)
    requires
        p > 0,
        s.len() > 0,
    ensures
        eval(product_of(s, p), x) % p == product_of_values(s, x) % p,
    decreases s.len(),
{
    let init = s.drop_last();
    if s.len() == 1 {
        assert(product_of_values(init, x) == 1);
        assert(1 * eval(s.last(), x) == eval(s.last(), x));
    } else {
        law_multiply_many_values(init, x, p);
        law_multiply_values(product_of(init, p), s.last(), x, p);
        lemma_mul_congr(
            eval(product_of(init, p), x),
            product_of_values(init, x),
            eval(s.last(), x),
            eval(s.last(), x),
            p,
        );
    }
}

/// The sum of the degrees of the polynomials that are not zero.
pub open spec fn degree_sum(s: Seq<Seq<int>>) -> nat
    decreases s.len(),
{
    if s.len() == 0 {
        0
    } else {
        degree_sum(s.drop_last()) + (if degree_bound(s.last()) > 0 {
            (degree_bound(s.last()) - 1) as nat
        } else {
            0
        })
    }
}

/// The degrees of the parts of a list add up.
proof fn lemma_degree_sum_parts(s: Seq<Seq<int>>, k: int)
    requires
        0 <= k <= s.len(),
    ensures
        degree_sum(s) == degree_sum(s.take(k)) + degree_sum(s.skip(k)),
    decreases s.len(),
{
    if k == s.len() {
        assert(s.take(k) =~= s);
        assert(degree_sum(s.skip(k)) == 0);
    } else {
        let init = s.drop_last();
        lemma_degree_sum_parts(init, k);
        assert(init.take(k) =~= s.take(k));
        assert(s.skip(k).drop_last() =~= init.skip(k));
        assert(s.skip(k).last() == s.last());
    }
}

/// The degree of a product is at most the sum of the degrees.
proof fn lemma_product_of_bound(s: Seq<Seq<int>>, p: int)
    requires
        p > 0,
    ensures
        degree_bound(product_of(s, p)) <= degree_sum(s) + 1,
    decreases s.len(),
{
    if s.len() == 1 {
        assert(degree_sum(s.drop_last()) == 0);
    } else if s.len() > 1 {
        let init = s.drop_last();
        let a = product_of(init, p);
        let b = s.last();
        lemma_product_of_bound(init, p);
        lemma_product_trim(a, b, p);
        lemma_trim(a);
        lemma_trim(b);
        lemma_trim(poly_mul(a, b, p));
    }
}

/// The degrees of polynomials that are not zero add up in their product.
pub proof fn law_multiply_many_degree(s: Seq<Seq<int>>, p: int)
    requires
        is_prime(p),
        s.len() > 0,
        forall|i: int| 0 <= i < s.len() ==> reduced(#[trigger] s[i], p) && degree_bound(s[i]) > 0,
    ensures
        reduced(product_of(s, p), p),
        degree_bound(product_of(s, p)) == degree_sum(s) + 1,
    decreases s.len(),
{
    let b = s[s.len() - 1];
    if s.len() == 1 {
        assert(degree_sum(s.drop_last()) == 0);
    } else {
        let init = s.drop_last();
        law_multiply_many_degree(init, p);
        let a = product_of(init, p);
        let m = poly_mul(a, b, p);
        law_multiply_degree(a, b, p);
        lemma_trim(m);
        lemma_poly_mul_reduced(a, b, p);
        lemma_degree_bound(m);
        assert forall|i: int| 0 <= i < trim(m).len() implies 0 <= #[trigger] trim(m)[i] < p by {
            assert(trim(m)[i] == m[i]);
        }
    }
}

/// A product of many polynomials can be computed if the sum of their degrees is less than the order
/// of the two-adic subgroup, machine limits aside.
pub proof fn law_multiply_many_fits<F: PrimeField>(s: Seq<Seq<int>>, k: nat)
    requires
        degree_sum(s) < pow(2, k),
        k <= F::two_adicity(),
        pow(2, k) <= usize::MAX,
    ensures
        all_products_fit::<F>(s),
    decreases s.len(),
{
    let p = F::modulus();
    F::lemma_modulus();
    if s.len() > 1 {
        let h = s.len() as int / 2;
        let l = s.take(h);
        let r = s.skip(h);
        lemma_degree_sum_parts(s, h);
        law_multiply_many_fits::<F>(l, k);
        law_multiply_many_fits::<F>(r, k);
        lemma_product_of_bound(l, p);
        lemma_product_of_bound(r, p);
        let n = degree_bound(product_of(l, p)) + degree_bound(product_of(r, p)) - 1;
        lemma_next_power_least(2, n, k);
        lemma_pow_increases(2, k, F::two_adicity());
    }
}

/// A product of two or more polynomials, none of them zero, can be computed exactly when its
/// degree, which is the sum of theirs, is less than the order of the two-adic subgroup, machine
/// limits aside.
pub proof fn law_multiply_many_capacity<F: PrimeField>(s: Seq<Seq<int>>)
    requires
        s.len() >= 2,
        forall|i: int|
            0 <= i < s.len() ==> reduced(#[trigger] s[i], F::modulus()) && degree_bound(s[i]) > 0,
    ensures
        degree_bound(product_of(s, F::modulus())) == degree_sum(s) + 1,
        degree_sum(s) >= pow(2, F::two_adicity()) ==> !all_products_fit::<F>(s),
        degree_sum(s) < pow(2, F::two_adicity()) && next_power(2, (degree_sum(s) + 1) as int)
            <= usize::MAX ==> all_products_fit::<F>(s),
{
    let p = F::modulus();
    F::lemma_modulus();
    law_multiply_many_degree(s, p);
    let h = s.len() as int / 2;
    let l = s.take(h);
    let r = s.skip(h);
    assert forall|i: int| 0 <= i < l.len() implies reduced(#[trigger] l[i], p) && degree_bound(
        l[i],
    ) > 0 by {
        assert(l[i] == s[i]);
    }
    assert forall|i: int| 0 <= i < r.len() implies reduced(#[trigger] r[i], p) && degree_bound(
        r[i],
    ) > 0 by {
        assert(r[i] == s[h + i]);
    }
    law_multiply_many_degree(l, p);
    law_multiply_many_degree(r, p);
    lemma_degree_sum_parts(s, h);
    let n = degree_sum(s) + 1;
    if n <= pow(2, F::two_adicity()) && next_power(2, n as int) <= usize::MAX {
        lemma_next_power(2, n as int);
        lemma_next_power_least(2, n as int, F::two_adicity());
        law_multiply_many_fits::<F>(s, ceil_log(2, n as int));
    }
}

/// Division by `x - z`: the polynomial is the quotient times `x - z`, plus the value at `z`.
pub proof fn law_horner(c: Seq<int>, z: int, p: int)
    requires
        p > 0,
        reduced(c, p),
    ensures
        same_poly(
            poly_add(
                poly_mul(quotient(c, z, p), linear_factor(z), p),
                seq![eval(c, z) % p],
                p,
            ),
            c,
        ),
{
    let m = poly_mul(quotient(c, z, p), linear_factor(z), p);
    let r = seq![eval(c, z) % p];
    let s = poly_add(m, r, p);
    assert forall|k: int| #[trigger] coef(s, k) == coef(c, k) by {
        if k >= 0 {
            lemma_division_coef(c, z, p, k);
            lemma_small_mod(0, p as nat);
            if k < c.len() {
                lemma_small_mod(c[k] as nat, p as nat);
            }
        }
    }
}

/// A polynomial from roots has no other roots, if the blinding factor is not zero.
pub proof fn law_from_roots(roots: Seq<int>, b: int, x: int, p: int)
    requires
        is_prime(p),
        reduced(roots, p),
        0 < b < p,
        0 <= x < p,
    ensures
        eval(roots_product(roots, b, p), x) % p == 0 <==> roots.contains(x),
        degree_bound(roots_product(roots, b, p)) == roots.len() + 1,
{
    lemma_eval_roots_product(roots, b, x, p);
    lemma_small_mod(0, p as nat);
    lemma_small_mod(b as nat, p as nat);
    if roots.contains(x) {
        let i = choose|i: int| 0 <= i < roots.len() && roots[i] == x;
        lemma_differences_zero(roots, b, x, i);
    } else {
        lemma_differences_nonzero(roots, b, x, p);
    }
    lemma_roots_product(roots, b, p);
    lemma_trim_fixed(roots_product(roots, b, p));
}

/// Lists of the same elements stand for the same residues.
proof fn lemma_vals_order<F: PrimeField>(s: Seq<F>, t: Seq<F>)
    requires
        s.to_multiset() == t.to_multiset(),
    ensures
        vals(s).to_multiset() == vals(t).to_multiset(),
    decreases s.len(),
{
    to_multiset_len(s);
    to_multiset_len(t);
    if s.len() == 0 {
        assert(vals(s) =~= vals(t));
    } else {
        let k = s.len() - 1;
        let i = lemma_same_points(t, s, k);
        let x = s[k].val();
        to_multiset_remove(s, k);
        to_multiset_remove(t, i);
        lemma_vals_order(s.remove(k), t.remove(i));
        assert(vals(s).remove(k) =~= vals(s.remove(k)));
        assert(vals(t).remove(i) =~= vals(t.remove(i)));
        to_multiset_remove(vals(s), k);
        to_multiset_remove(vals(t), i);
        to_multiset_contains(vals(s), x);
        to_multiset_contains(vals(t), x);
        assert(vals(s)[k] == x && vals(s).contains(x));
        assert(vals(t)[i] == x && vals(t).contains(x));
        let a = vals(s).to_multiset();
        let b = vals(t).to_multiset();
        assert(a =~= a.remove(x).insert(x));
        assert(b =~= b.remove(x).insert(x));
    }
}

/// A polynomial from distinct roots, with a blinding factor that is not zero, has those roots and
/// no others, its degree is their number, and every order of the roots gives the same polynomial.
pub proof fn law_from_roots_any_order<F: PrimeField>(roots: Seq<F>, others: Seq<F>, b: F, x: F)
    requires
        vals(roots).no_duplicates(),
        roots.to_multiset() == others.to_multiset(),
        b.val() != 0,
    ensures
        vals(others).no_duplicates(),
        roots_product(vals(others), b.val(), F::modulus()) == roots_product(
            vals(roots),
            b.val(),
            F::modulus(),
        ),
        degree_bound(roots_product(vals(roots), b.val(), F::modulus())) == roots.len() + 1,
        eval(roots_product(vals(roots), b.val(), F::modulus()), x.val()) % F::modulus() == 0
            <==> vals(roots).contains(x.val()),
{
    F::lemma_modulus();
    b.lemma_val();
    x.lemma_val();
    lemma_vals(roots);
    lemma_vals_order(roots, others);
    law_from_roots(vals(roots), b.val(), x.val(), F::modulus());
    law_from_roots_order(vals(roots), vals(others), b.val(), F::modulus());
}

/// A blinding factor of zero makes the polynomial zero.
pub proof fn law_from_roots_unblinded(roots: Seq<int>, p: int)
    requires
        p > 1,
    ensures
        all_zero(roots_product(roots, 0, p)),
    decreases roots.len(),
{
    if roots.len() > 0 {
        let r = roots.drop_last();
        let c = roots_product(r, 0, p);
        law_from_roots_unblinded(r, p);
        let m = roots_product(roots, 0, p);
        assert forall|k: int| 0 <= k < m.len() implies #[trigger] m[k] == 0 by {
            lemma_linear_coef(c, roots.last(), p, k);
            assert(coef(c, k - 1) == 0);
            assert(coef(c, k) == 0);
            assert(roots.last() * 0 == 0);
            lemma_small_mod(0, p as nat);
            assert(coef(m, k) == m[k]);
        }
    }
}

/// The order of the roots does not matter: whichever it is, there are duplicates or not, and the
/// polynomial is the same.
pub proof fn law_from_roots_order(s: Seq<int>, t: Seq<int>, b: int, p: int)
    requires
        p > 0,
        s.to_multiset() == t.to_multiset(),
    ensures
        s.no_duplicates() <==> t.no_duplicates(),
        roots_product(s, b, p) == roots_product(t, b, p),
{
    if s.no_duplicates() {
        s.lemma_multiset_has_no_duplicates();
        t.lemma_multiset_has_no_duplicates_conv();
    }
    if t.no_duplicates() {
        t.lemma_multiset_has_no_duplicates();
        s.lemma_multiset_has_no_duplicates_conv();
    }
    lemma_roots_product_order(s, t, b, p);
}

/// A product of linear factors does not depend on the order of the roots.
proof fn lemma_roots_product_order(s: Seq<int>, t: Seq<int>, b: int, p: int)
    requires
        p > 0,
        s.to_multiset() == t.to_multiset(),
    ensures
        roots_product(s, b, p) == roots_product(t, b, p),
    decreases s.len(),
{
    to_multiset_len(s);
    to_multiset_len(t);
    if s.len() > 0 {
        let k = s.len() - 1;
        let x = s[k];
        to_multiset_contains(s, x);
        to_multiset_contains(t, x);
        assert(s.contains(x));
        let i = choose|i: int| 0 <= i < t.len() && t[i] == x;
        to_multiset_remove(s, k);
        to_multiset_remove(t, i);
        lemma_roots_product_order(s.remove(k), t.remove(i), b, p);
        lemma_roots_product_remove(s, b, p, k);
        lemma_roots_product_remove(t, b, p, i);
    }
}

/// Two polynomials with at most as many coefficients as there are points, which pass through the
/// points, are the same.
pub proof fn law_interpolation_unique<F: PrimeField>(
    a: Seq<int>,
    b: Seq<int>,
    points: Seq<(F, F)>,
)
    requires
        abscissas(points).no_duplicates(),
        reduced(a, F::modulus()),
        reduced(b, F::modulus()),
        a.len() <= points.len(),
        b.len() <= points.len(),
        passes_through(a, points),
        passes_through(b, points),
    ensures
        same_poly(a, b),
{
    let p = F::modulus();
    F::lemma_modulus();
    let v = abscissas(points);
    let n = max_len(a, b);
    let d = poly_sub(a, b, p);
    assert forall|i: int| 0 <= i < v.len() implies 0 <= #[trigger] v[i] < p by {
        points[i].0.lemma_val();
    }
    assert forall|i: int| 0 <= i < v.len() implies eval(d, #[trigger] v[i]) % p == 0 by {
        assert(v[i] == points[i].0.val());
        law_sub_values(a, b, v[i], p);
        lemma_congr_iff(eval(a, v[i]), eval(b, v[i]), p);
    }
    lemma_too_many_roots(d, v, p);
    assert forall|i: int| #[trigger] coef(a, i) == coef(b, i) by {
        if 0 <= i < n {
            let x = coef(a, i) - coef(b, i);
            assert(d[i] % p == 0);
            lemma_mod_mod(x, p);
            lemma_congr_iff(coef(a, i), coef(b, i), p);
            lemma_small_mod(coef(a, i) as nat, p as nat);
            lemma_small_mod(coef(b, i) as nat, p as nat);
        }
    }
}

/// Interpolating the values of a polynomial, at as many points as it has coefficients, gives the
/// polynomial back, whichever the points are and in whatever order.
pub proof fn law_interpolation_gives_back<F: PrimeField>(
    c: Polynomial<F>,
    result: Polynomial<F>,
    points: Seq<(F, F)>,
)
    requires
        points.len() == c@.len(),
        abscissas(points).no_duplicates(),
        passes_through(c@, points),
        result@.len() == points.len(),
        passes_through(result@, points),
    ensures
        result@ == c@,
{
    lemma_view(c);
    lemma_view(result);
    law_interpolation_unique(result@, c@, points);
    assert forall|i: int| 0 <= i < c@.len() implies result@[i] == c@[i] by {
        assert(coef(result@, i) == coef(c@, i));
    }
    assert(result@ =~= c@);
}

/// The order of the points to interpolate does not matter: whichever it is, there are duplicate
/// coordinates or not, and the same polynomials pass through the points.
pub proof fn law_interpolation_order<F: PrimeField>(
    c: Seq<int>,
    s: Seq<(F, F)>,
    t: Seq<(F, F)>,
)
    requires
        s.to_multiset() == t.to_multiset(),
    ensures
        s.len() == t.len(),
        abscissas(s).no_duplicates() <==> abscissas(t).no_duplicates(),
        passes_through(c, s) <==> passes_through(c, t),
{
    to_multiset_len(s);
    to_multiset_len(t);
    if passes_through(c, s) {
        lemma_passes_through_order(c, s, t);
    }
    if passes_through(c, t) {
        lemma_passes_through_order(c, t, s);
    }
    if abscissas(s).no_duplicates() {
        lemma_abscissas_order(s, t);
    }
    if abscissas(t).no_duplicates() {
        lemma_abscissas_order(t, s);
    }
}

/// A point of one list is a point of every list with the same points.
proof fn lemma_same_points<A>(s: Seq<A>, t: Seq<A>, i: int) -> (j: int)
    requires
        s.to_multiset() == t.to_multiset(),
        0 <= i < t.len(),
    ensures
        0 <= j < s.len(),
        s[j] == t[i],
{
    to_multiset_contains(s, t[i]);
    to_multiset_contains(t, t[i]);
    assert(t.contains(t[i]));
    choose|j: int| 0 <= j < s.len() && s[j] == t[i]
}

/// A polynomial passes through the points in every order.
proof fn lemma_passes_through_order<F: PrimeField>(
    c: Seq<int>,
    s: Seq<(F, F)>,
    t: Seq<(F, F)>,
)
    requires
        s.to_multiset() == t.to_multiset(),
        passes_through(c, s),
    ensures
        passes_through(c, t),
{
    assert forall|i: int| 0 <= i < t.len() implies eval(c, (#[trigger] t[i]).0.val())
        % F::modulus() == t[i].1.val() by {
        let j = lemma_same_points(s, t, i);
        assert(eval(c, s[j].0.val()) % F::modulus() == s[j].1.val());
    }
}

/// Points with distinct coordinates have them in every order.
proof fn lemma_abscissas_order<F: PrimeField>(s: Seq<(F, F)>, t: Seq<(F, F)>)
    requires
        s.to_multiset() == t.to_multiset(),
        abscissas(s).no_duplicates(),
    ensures
        abscissas(t).no_duplicates(),
{
    let u = abscissas(s);
    let v = abscissas(t);
    assert forall|i: int, j: int| 0 <= i < s.len() && 0 <= j < s.len() && i != j implies s[i]
        != s[j] by {
        assert(u[i] != u[j]);
    }
    s.lemma_multiset_has_no_duplicates();
    t.lemma_multiset_has_no_duplicates_conv();
    assert forall|i: int, j: int| 0 <= i < v.len() && 0 <= j < v.len() && i != j implies v[i]
        != v[j] by {
        let k = lemma_same_points(s, t, i);
        let l = lemma_same_points(s, t, j);
        assert(t[i] != t[j]);
        assert(k != l);
        assert(u[k] != u[l]);
    }
}

/// The values of a difference are the differences of the values.
pub proof fn law_sub_values(a: Seq<int>, b: Seq<int>, x: int, p: int)
    requires
        p > 0,
    ensures
        eval(poly_sub(a, b, p), x) % p == (eval(a, x) - eval(b, x)) % p,
{
    let m = poly_scale(b, -1, p);
    let d = poly_sub(a, b, p);
    let s = poly_add(a, m, p);
    assert(d =~= s) by {
        assert forall|i: int| 0 <= i < d.len() implies d[i] == s[i] by {
            let y = coef(b, i);
            assert(y * (-1) == -y);
            lemma_mod_mod(-y, p);
            lemma_small_mod(0, p as nat);
            assert(coef(m, i) % p == (-y) % p);
            lemma_add_congr(coef(a, i), coef(a, i), coef(m, i), -y, p);
        }
    }
    lemma_eval_add(a, m, x, p);
    lemma_eval_scale(b, -1, x, p);
    let t = eval(b, x);
    assert(t * (-1) == -t);
    lemma_add_congr(eval(a, x), eval(a, x), eval(m, x), -t, p);
}

/// `x^n - 1` is zero at the `n`-th roots of unity, and nowhere else.
pub proof fn law_vanishing(n: nat, x: int, p: int)
    requires
        p > 1,
    ensures
        eval(vanishing(n), x) % p == 0 <==> pow(x, n) % p == 1,
{
    lemma_eval_vanishing(n, x);
    lemma_congr_iff(pow(x, n), 1, p);
    lemma_small_mod(1, p as nat);
}

/// A multiple of `x^n - 1` is zero at the `n`-th roots of unity.
pub proof fn law_multiple_vanishes(q: Seq<int>, c: Seq<int>, n: nat, x: int, p: int)
    requires
        p > 1,
        same_poly(poly_mul(q, vanishing(n), p), c),
        pow(x, n) % p == 1,
    ensures
        eval(c, x) % p == 0,
{
    lemma_eval_same(poly_mul(q, vanishing(n), p), c, x);
    lemma_eval_poly_mul(q, vanishing(n), x, p);
    law_vanishing(n, x, p);
    lemma_small_mod(0, p as nat);
    lemma_mul_congr(eval(q, x), eval(q, x), eval(vanishing(n), x), 0, p);
    assert(eval(q, x) * 0 == 0);
}

/// Dividing by `x^n - 1` undoes multiplying by it: there is no other quotient.
pub proof fn law_division_undoes_multiplication(
    q: Seq<int>,
    r: Seq<int>,
    n: nat,
    p: int,
)
    requires
        p > 0,
        n > 0,
        reduced(q, p),
        reduced(r, p),
        same_poly(poly_mul(r, vanishing(n), p), poly_mul(q, vanishing(n), p)),
    ensures
        same_poly(r, q),
{
    lemma_quotient_unique(poly_mul(q, vanishing(n), p), r, q, n, p);
}

} // verus!
