//! Values of polynomials on the subgroups of roots of unity and their cosets.
use crate::algebra::{
    coef, degree_bound, eval, lemma_degree_bound, lemma_degree_bound_unique, lemma_eval_congr,
    lemma_eval_same, lemma_resized_same, lemma_same_trim, lemma_trim, poly_mul, reduced, resized,
    trim,
};
use crate::convolution::{lemma_dft_product, lemma_dft_product_zero, lemma_product_trim, pointwise};
use crate::field::{vals, PrimeField};
use crate::modular::{inverse, is_prime, lemma_mod_mod, lemma_mul_congr};
use crate::sums::{lemma_sum_ext, lemma_sum_zero};
use crate::transform::{dft, idft, lemma_dft_idft, primitive_root};
use vstd::arithmetic::div_mod::lemma_small_mod;
use vstd::arithmetic::power::{lemma_pow0, lemma_pow1, lemma_pow_adds, lemma_pow_distributes, pow};
use vstd::prelude::*;

verus! {

/// The polynomial whose values are those of `c` at `g` times the point.
pub open spec fn dilated(c: Seq<int>, g: int, p: int) -> Seq<int> {
    Seq::new(c.len(), |i: int| (c[i] * pow(g, i as nat)) % p)
}

/// The values of a dilated polynomial.
pub proof fn lemma_eval_dilated(c: Seq<int>, g: int, x: int, p: int)
    requires
        p > 0,
    ensures
        eval(dilated(c, g, p), x) % p == eval(c, g * x) % p,
{
    let d = dilated(c, g, p);
    let raw = Seq::new(c.len(), |i: int| c[i] * pow(g, i as nat));
    assert forall|i: int| 0 <= i implies #[trigger] coef(d, i) % p == coef(raw, i) % p by {
        if i < c.len() {
            lemma_mod_mod(c[i] * pow(g, i as nat), p);
        }
    }
    lemma_eval_congr(d, raw, x, x, p);
    let f = |i: int| raw[i] * pow(x, i as nat);
    let h = |i: int| c[i] * pow(g * x, i as nat);
    assert forall|i: int| 0 <= i < c.len() implies #[trigger] f(i) == h(i) by {
        lemma_pow_distributes(g, x, i as nat);
        let a = c[i];
        let b = pow(g, i as nat);
        let e = pow(x, i as nat);
        assert((a * b) * e == a * (b * e)) by (nonlinear_arith);
    }
    lemma_sum_ext(c.len(), f, h);
}

/// Multiplies each coefficient by the power of `g` of its degree.
pub fn dilate<F: PrimeField>(data: &mut Vec<F>, g: F)
    ensures
        vals(final(data)@) == dilated(vals(old(data)@), g.val(), F::modulus()),
        final(data)@.len() == old(data)@.len(),
{
    let n: usize = data.len();
    let ghost c = vals(data@);
    let ghost p = F::modulus();
    let ghost y = g.val();
    let mut shift = F::one();
    let mut i: usize = 0;
    proof {
        F::lemma_modulus();
        lemma_pow0(y);
        lemma_small_mod(1, p as nat);
    }
    while i < n
        invariant
            i <= n,
            n == c.len(),
            data@.len() == n,
            p == F::modulus(),
            p > 1,
            y == g.val(),
            shift.val() == pow(y, i as nat) % p,
            forall|j: int|
                0 <= j < n ==> #[trigger] vals(data@)[j] == if j < i {
                    dilated(c, y, p)[j]
                } else {
                    c[j]
                },
        decreases n - i,
    {
        let ghost before = vals(data@);
        assert(before[i as int] == c[i as int]);
        let x = data[i].times(shift);
        data.set(i, x);
        proof {
            let e = pow(y, i as nat);
            lemma_mod_mod(e, p);
            lemma_mul_congr(c[i as int], c[i as int], shift.val(), e, p);
            assert forall|j: int| 0 <= j < n implies #[trigger] vals(data@)[j] == if j < i + 1 {
                dilated(c, y, p)[j]
            } else {
                c[j]
            } by {
                assert(before[j] == if j < i {
                    dilated(c, y, p)[j]
                } else {
                    c[j]
                });
            }
            lemma_mul_congr(shift.val(), e, y, y, p);
            lemma_pow_adds(y, i as nat, 1);
            lemma_pow1(y);
        }
        shift = shift.times(g);
        i = i + 1;
    }
    assert(vals(data@) =~= dilated(c, y, p));
}

/// The trimmed inverse transform has the given values at the powers of the root of unity.
pub proof fn lemma_encoded(v: Seq<int>, w: int, p: int, i: int)
    requires
        is_prime(p),
        primitive_root(w, v.len() as int, p),
        reduced(v, p),
        v.len() < p,
        0 <= i < v.len(),
    ensures
        eval(trim(idft(v, w, p)), pow(w, i as nat) % p) % p == v[i],
        trim(idft(v, w, p)).len() <= v.len(),
        trim(trim(idft(v, w, p))) == trim(idft(v, w, p)),
{
    let c = idft(v, w, p);
    let x = pow(w, i as nat);
    lemma_small_mod(v.len(), p as nat);
    lemma_dft_idft(v, w, p);
    assert(dft(c, w, p)[i] == v[i]);
    lemma_trim(c);
    lemma_degree_bound(c);
    lemma_same_trim(trim(c), c);
    lemma_mod_mod(x, p);
    lemma_eval_congr(trim(c), trim(c), x % p, x, p);
    lemma_eval_same(trim(c), c, x);
}

/// A resized polynomial has the same values, at congruent points too.
pub proof fn lemma_dft_resized(c: Seq<int>, n: nat, w: int, p: int, i: int)
    requires
        p > 0,
        c.len() <= n,
        0 <= i < n,
    ensures
        dft(resized(c, n), w, p)[i] == eval(c, pow(w, i as nat) % p) % p,
{
    let x = pow(w, i as nat);
    lemma_degree_bound(c);
    lemma_resized_same(c, n);
    lemma_eval_same(resized(c, n), c, x);
    lemma_mod_mod(x, p);
    lemma_eval_congr(c, c, x % p, x, p);
}

/// The values of a dilated polynomial on a subgroup are those of the polynomial on its coset.
pub proof fn lemma_dft_dilated(c: Seq<int>, n: nat, g: int, w: int, p: int, i: int)
    requires
        p > 0,
        c.len() <= n,
        0 <= i < n,
    ensures
        dft(dilated(resized(c, n), g, p), w, p)[i] == eval(c, (g * (pow(w, i as nat) % p)) % p)
            % p,
{
    let r = resized(c, n);
    let x = pow(w, i as nat);
    lemma_degree_bound(c);
    lemma_resized_same(c, n);
    lemma_eval_dilated(r, g, x, p);
    lemma_eval_same(r, c, g * x);
    lemma_mod_mod(x, p);
    lemma_mul_congr(g, g, x % p, x, p);
    lemma_mod_mod(g * (x % p), p);
    lemma_eval_congr(c, c, (g * (x % p)) % p, g * x, p);
}

/// Whether every element is zero.
pub open spec fn all_zero(v: Seq<int>) -> bool {
    forall|i: int| 0 <= i < v.len() ==> #[trigger] v[i] == 0
}

/// The polynomial whose values are all zero is zero.
pub proof fn lemma_zero_values(v: Seq<int>, w: int, p: int)
    requires
        p > 0,
        all_zero(v),
    ensures
        degree_bound(idft(v, w, p)) == 0,
{
    let u = inverse(w, p);
    let d = dft(v, u, p);
    let c = idft(v, w, p);
    lemma_small_mod(0, p as nat);
    assert forall|i: int| 0 <= i implies #[trigger] coef(c, i) == 0 by {
        if i < v.len() {
            let x = pow(u, i as nat);
            let f = |j: int| v[j] * pow(x, j as nat);
            assert forall|j: int| 0 <= j < v.len() implies #[trigger] f(j) == 0 by {
                assert(v[j] == 0);
                assert(0 * pow(x, j as nat) == 0);
            }
            lemma_sum_zero(v.len(), f);
            assert(d[i] == 0);
            assert(0 * inverse(v.len() as int, p) == 0);
        }
    }
    lemma_degree_bound_unique(c, 0);
}

/// The length that the product of two polynomials needs. It is negative when both are zero.
pub open spec fn product_length(a: Seq<int>, b: Seq<int>) -> int {
    degree_bound(a) + degree_bound(b) - 1
}

/// The products of the values of two polynomials, at enough points, are the values of their
/// product.
pub proof fn lemma_product_values(a: Seq<int>, b: Seq<int>, m: nat, w: int, p: int)
    requires
        p > 0,
        product_length(a, b) <= m,
    ensures
        pointwise(dft(resized(a, m), w, p), dft(resized(b, m), w, p), p) == dft(
            resized(poly_mul(a, b, p), m),
            w,
            p,
        ),
{
    if degree_bound(a) == 0 || degree_bound(b) == 0 {
        lemma_dft_product_zero(a, b, m, w, p);
    } else {
        lemma_product_trim(a, b, p);
        lemma_trim(a);
        lemma_trim(b);
        lemma_dft_product(a, b, m, w, p);
    }
}

} // verus!
