//! Products of polynomials through their values.
use crate::algebra::{
    coef, degree_bound, eval, lemma_degree_bound, lemma_eval_same, lemma_resized_same,
    lemma_same_trim, lemma_trim, mul_len, poly_mul, resized, same_poly, trim,
};
use crate::modular::{is_prime, lemma_mod_mod, lemma_mul_congr};
use crate::products::{lemma_eval_poly_mul, lemma_poly_mul_reduced, lemma_poly_mul_same};
use crate::transform::{dft, idft, lemma_idft_dft, primitive_root};
use vstd::arithmetic::div_mod::lemma_small_mod;
use vstd::arithmetic::power::pow;
use vstd::prelude::*;

verus! {

/// The products of the elements of two sequences.
pub open spec fn pointwise(a: Seq<int>, b: Seq<int>, p: int) -> Seq<int> {
    Seq::new(a.len(), |i: int| (a[i] * b[i]) % p)
}

/// A product depends on its trimmed factors alone, and its degree is bounded by theirs.
pub proof fn lemma_product_trim(a: Seq<int>, b: Seq<int>, p: int)
    requires
        p > 0,
    ensures
        same_poly(poly_mul(trim(a), trim(b), p), poly_mul(a, b, p)),
        trim(poly_mul(trim(a), trim(b), p)) == trim(poly_mul(a, b, p)),
        degree_bound(poly_mul(a, b, p)) <= mul_len(trim(a), trim(b)),
{
    lemma_trim(a);
    lemma_trim(b);
    lemma_poly_mul_same(trim(a), a, trim(b), b, p);
    lemma_same_trim(poly_mul(trim(a), trim(b), p), poly_mul(a, b, p));
    lemma_degree_bound(poly_mul(trim(a), trim(b), p));
}

/// The values of a product are the products of the values.
pub proof fn lemma_dft_product(a: Seq<int>, b: Seq<int>, n: nat, w: int, p: int)
    requires
        p > 0,
        degree_bound(a) <= n,
        degree_bound(b) <= n,
        degree_bound(poly_mul(a, b, p)) <= n,
    ensures
        pointwise(dft(resized(a, n), w, p), dft(resized(b, n), w, p), p) == dft(
            resized(poly_mul(a, b, p), n),
            w,
            p,
        ),
{
    let c = poly_mul(a, b, p);
    let da = dft(resized(a, n), w, p);
    let db = dft(resized(b, n), w, p);
    let dc = dft(resized(c, n), w, p);
    lemma_resized_same(a, n);
    lemma_resized_same(b, n);
    lemma_resized_same(c, n);
    assert forall|i: int| 0 <= i < n implies pointwise(da, db, p)[i] == dc[i] by {
        let x = pow(w, i as nat);
        lemma_eval_same(resized(a, n), a, x);
        lemma_eval_same(resized(b, n), b, x);
        lemma_eval_same(resized(c, n), c, x);
        lemma_eval_poly_mul(a, b, x, p);
        lemma_mod_mod(eval(a, x), p);
        lemma_mod_mod(eval(b, x), p);
        lemma_mul_congr(da[i], eval(a, x), db[i], eval(b, x), p);
    }
    assert(pointwise(da, db, p) =~= dc);
}

/// Transforming the products of the values back gives the product.
pub proof fn lemma_idft_product(a: Seq<int>, b: Seq<int>, n: nat, w: int, p: int)
    requires
        is_prime(p),
        primitive_root(w, n as int, p),
        n < p,
        degree_bound(a) <= n,
        degree_bound(b) <= n,
        degree_bound(poly_mul(a, b, p)) <= n,
    ensures
        trim(idft(pointwise(dft(resized(a, n), w, p), dft(resized(b, n), w, p), p), w, p)) == trim(
            poly_mul(a, b, p),
        ),
{
    let c = poly_mul(a, b, p);
    let r = resized(c, n);
    lemma_dft_product(a, b, n, w, p);
    lemma_poly_mul_reduced(a, b, p);
    assert forall|i: int| 0 <= i < r.len() implies 0 <= #[trigger] r[i] < p by {
        assert(r[i] == coef(c, i));
    }
    lemma_small_mod(n, p as nat);
    lemma_idft_dft(r, w, p);
    lemma_resized_same(c, n);
    lemma_same_trim(r, c);
}

/// Where one factor is zero, so are the products of the values, and the product.
pub proof fn lemma_dft_product_zero(a: Seq<int>, b: Seq<int>, n: nat, w: int, p: int)
    requires
        p > 0,
        degree_bound(a) == 0 || degree_bound(b) == 0,
    ensures
        pointwise(dft(resized(a, n), w, p), dft(resized(b, n), w, p), p) == dft(
            resized(poly_mul(a, b, p), n),
            w,
            p,
        ),
{
    let c = poly_mul(a, b, p);
    let da = dft(resized(a, n), w, p);
    let db = dft(resized(b, n), w, p);
    let dc = dft(resized(c, n), w, p);
    lemma_product_trim(a, b, p);
    lemma_degree_bound(c);
    lemma_small_mod(0, p as nat);
    assert forall|i: int| 0 <= i < n implies pointwise(da, db, p)[i] == dc[i] by {
        let x = pow(w, i as nat);
        lemma_eval_zero(c, n, x);
        if degree_bound(a) == 0 {
            lemma_eval_zero(a, n, x);
            assert(0 * db[i] == 0);
        } else {
            lemma_eval_zero(b, n, x);
            assert(da[i] * 0 == 0);
        }
    }
    assert(pointwise(da, db, p) =~= dc);
}

/// The zero polynomial is zero everywhere.
pub proof fn lemma_eval_zero(c: Seq<int>, n: nat, x: int)
    requires
        degree_bound(c) == 0,
    ensures
        eval(resized(c, n), x) == 0,
{
    lemma_resized_same(c, n);
    lemma_trim(c);
    assert(same_poly(resized(c, n), trim(c))) by {
        assert forall|i: int| #[trigger] coef(resized(c, n), i) == coef(trim(c), i) by {
            assert(coef(resized(c, n), i) == coef(c, i));
            assert(coef(trim(c), i) == coef(c, i));
        }
    }
    lemma_eval_same(resized(c, n), trim(c), x);
}

} // verus!
