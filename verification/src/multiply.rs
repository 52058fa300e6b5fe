//! Products of polynomials.
use crate::algebra::{
    coef, degree_bound, lemma_degree_bound, lemma_same_trim, lemma_trim, lemma_trim_fixed, poly_mul,
    poly_scale, trim,
};
use crate::convolution::{lemma_idft_product, lemma_product_trim, pointwise};
use crate::digits::{
    lemma_next_power, lemma_next_power_least, next_power, next_power_of, next_power_of_two_fits,
};
use crate::error::Error;
use crate::fft::{fft2, ifft2, power_of_two, two_adic_root_of_unity};
use crate::field::{lemma_vals, vals, PrimeField};
use crate::polynomial::{resize, Polynomial};
use crate::products::{
    lemma_poly_mul_assoc, lemma_poly_mul_commutes, lemma_poly_mul_same, lemma_poly_mul_trimmed,
};
use crate::sums::lemma_sum_single;
use vstd::arithmetic::power::pow;
use vstd::prelude::*;

verus! {

/// Whether two polynomials with the given degree bounds can be multiplied in a field whose two-adic
/// subgroup has order `2^s`: unless one of them is zero, the degree of the product must be less
/// than that order. If neither is constant, the length of the transform must be a machine word too.
pub open spec fn bounds_fit(a: nat, b: nat, s: nat) -> bool {
    let n = a + b - 1;
    ||| a == 0
    ||| b == 0
    ||| n <= pow(2, s) && (a == 1 || b == 1 || next_power(2, n) <= usize::MAX)
}

/// Whether the product of two polynomials can be computed.
pub open spec fn product_fits<F: PrimeField>(a: Seq<int>, b: Seq<int>) -> bool {
    bounds_fit(degree_bound(a), degree_bound(b), F::two_adicity())
}

/// The product of a list of polynomials, without trailing zeros if there are two or more.
pub open spec fn product_of(s: Seq<Seq<int>>, p: int) -> Seq<int>
    decreases s.len(),
{
    if s.len() == 0 {
        Seq::empty()
    } else if s.len() == 1 {
        s[0]
    } else {
        trim(poly_mul(product_of(s.drop_last(), p), s.last(), p))
    }
}

/// Whether the product of a list of polynomials can be computed: the list is halved again and
/// again, and the product of each two halves must fit.
pub open spec fn all_products_fit<F: PrimeField>(s: Seq<Seq<int>>) -> bool
    decreases s.len(),
{
    if s.len() <= 1 {
        true
    } else {
        let left = s.take(s.len() as int / 2);
        let right = s.skip(s.len() as int / 2);
        &&& all_products_fit::<F>(left)
        &&& all_products_fit::<F>(right)
        &&& product_fits::<F>(product_of(left, F::modulus()), product_of(right, F::modulus()))
    }
}

/// The coefficients of each polynomial of a list.
pub open spec fn views<F: PrimeField>(s: Seq<Polynomial<F>>) -> Seq<Seq<int>> {
    Seq::new(s.len(), |i: int| s[i]@)
}

/// A product with a constant polynomial is a scaled polynomial.
pub proof fn lemma_mul_constant(k: Seq<int>, c: Seq<int>, p: int)
    requires
        p > 0,
        k.len() == 1,
        c.len() > 0,
    ensures
        poly_mul(k, c, p) == poly_scale(c, k[0], p),
{
    let m = poly_mul(k, c, p);
    let s = poly_scale(c, k[0], p);
    assert forall|i: int| 0 <= i < c.len() implies m[i] == s[i] by {
        let f = |j: int| coef(k, j) * coef(c, i - j);
        assert forall|j: int| 0 <= j < i + 1 && j != 0 implies #[trigger] f(j) == 0 by {
            assert(0 * coef(c, i - j) == 0);
        }
        lemma_sum_single((i + 1) as nat, 0, f);
        let a = k[0];
        let b = c[i];
        assert(a * b == b * a) by (nonlinear_arith);
    }
    assert(m =~= s);
}

/// Whether two polynomials with the given degree bounds can be multiplied in a field whose two-adic
/// subgroup has order `2^s`.
pub fn capacity_allows(a: usize, b: usize, s: u32) -> (r: bool)
    requires
        s < 64,
    ensures
        r == bounds_fit(a as nat, b as nat, s as nat),
{
    if a == 0 || b == 0 {
        return true;
    }
    proof {
        lemma_next_power(2, a + b - 1);
    }
    if b > usize::MAX - (a - 1) {
        return false;
    }
    let n: usize = a - 1 + b;
    if n as u64 > power_of_two(s) {
        return false;
    }
    a == 1 || b == 1 || next_power_of_two_fits(n)
}

/// Multiplies the elements of the first list by those of the second.
pub fn multiply_pointwise<F: PrimeField>(data: &mut Vec<F>, rhs: &Vec<F>)
    requires
        old(data)@.len() == rhs@.len(),
    ensures
        vals(final(data)@) == pointwise(vals(old(data)@), vals(rhs@), F::modulus()),
        final(data)@.len() == old(data)@.len(),
{
    let ghost a = vals(data@);
    let ghost b = vals(rhs@);
    let ghost p = F::modulus();
    let mut i: usize = 0;
    while i < rhs.len()
        invariant
            i <= rhs@.len(),
            rhs@.len() == data@.len(),
            a.len() == data@.len(),
            b == vals(rhs@),
            p == F::modulus(),
            forall|j: int|
                0 <= j < a.len() ==> #[trigger] vals(data@)[j] == if j < i {
                    (a[j] * b[j]) % p
                } else {
                    a[j]
                },
        decreases rhs@.len() - i,
    {
        let ghost before = vals(data@);
        let x = data[i].times(rhs[i]);
        assert(before[i as int] == a[i as int]);
        data.set(i, x);
        assert forall|j: int| 0 <= j < a.len() implies #[trigger] vals(data@)[j] == if j < i + 1 {
            (a[j] * b[j]) % p
        } else {
            a[j]
        } by {
            assert(before[j] == if j < i {
                (a[j] * b[j]) % p
            } else {
                a[j]
            });
        }
        i = i + 1;
    }
    assert(vals(data@) =~= pointwise(a, b, p));
}

impl<F: PrimeField> Polynomial<F> {
    /// Multiplies two polynomials. The product has no trailing zeros.
    pub fn multiply(self, other: Self) -> (r: Self)
        requires
            product_fits::<F>(self@, other@),
        ensures
            r@ == trim(poly_mul(self@, other@, F::modulus())),
    {
        let ghost p = F::modulus();
        let ghost a = trim(self@);
        let ghost b = trim(other@);
        let mut left = self;
        let mut right = other;
        left.trim();
        right.trim();
        let mut lhs = left.take();
        let mut rhs = right.take();
        proof {
            F::lemma_modulus();
            lemma_vals(lhs@);
            lemma_vals(rhs@);
            lemma_trim(self@);
            lemma_trim(other@);
            lemma_degree_bound(a);
            lemma_degree_bound(b);
            lemma_product_trim(self@, other@, p);
            if a.len() > 0 && b.len() > 0 {
                lemma_poly_mul_trimmed(a, b, p);
                lemma_trim_fixed(poly_mul(a, b, p));
            } else {
                lemma_trim_fixed(poly_mul(a, b, p));
            }
        }
        if lhs.len() == 0 || rhs.len() == 0 {
            assert(poly_mul(a, b, p) =~= Seq::<int>::empty());
            return Polynomial::default();
        }
        if lhs.len() == 1 {
            proof {
                lemma_mul_constant(a, b, p);
            }
            return Polynomial::with_coefficients(rhs) * lhs[0];
        }
        if rhs.len() == 1 {
            proof {
                lemma_poly_mul_commutes(a, b, p);
                lemma_mul_constant(b, a, p);
            }
            return Polynomial::with_coefficients(lhs) * rhs[0];
        }
        proof {
            lemma_next_power(2, a.len() + b.len() - 1);
            lemma_next_power_least(2, a.len() + b.len() - 1, F::two_adicity());
        }
        let n: usize = next_power_of(2, lhs.len() - 1 + rhs.len());
        resize(&mut lhs, n);
        resize(&mut rhs, n);
        let omega = two_adic_root_of_unity::<F>(n);
        fft2(&mut lhs, omega);
        fft2(&mut rhs, omega);
        multiply_pointwise(&mut lhs, &rhs);
        ifft2(&mut lhs, omega);
        proof {
            lemma_idft_product(a, b, n as nat, omega.val(), p);
        }
        let mut result = Polynomial::with_coefficients(lhs);
        result.trim();
        result
    }
}

/// Trimming a factor does not change the trimmed product.
pub proof fn lemma_trim_factor(a: Seq<int>, b: Seq<int>, p: int)
    requires
        p > 0,
    ensures
        trim(poly_mul(trim(a), b, p)) == trim(poly_mul(a, b, p)),
        trim(poly_mul(a, trim(b), p)) == trim(poly_mul(a, b, p)),
{
    lemma_trim(a);
    lemma_trim(b);
    lemma_poly_mul_same(trim(a), a, b, b, p);
    lemma_same_trim(poly_mul(trim(a), b, p), poly_mul(a, b, p));
    lemma_poly_mul_same(a, a, trim(b), b, p);
    lemma_same_trim(poly_mul(a, trim(b), p), poly_mul(a, b, p));
}

/// The product of a list is the product of those of its two parts.
pub proof fn lemma_product_of_parts(s: Seq<Seq<int>>, k: int, p: int)
    requires
        p > 0,
        0 < k < s.len(),
    ensures
        product_of(s, p) == trim(
            poly_mul(product_of(s.take(k), p), product_of(s.skip(k), p), p),
        ),
    decreases s.len(),
{
    let init = s.drop_last();
    let last = s.last();
    if k == s.len() - 1 {
        assert(s.take(k) =~= init);
        assert(s.skip(k) =~= seq![last]);
    } else {
        lemma_product_of_parts(init, k, p);
        let l = product_of(s.take(k), p);
        let r = product_of(init.skip(k), p);
        assert(init.take(k) =~= s.take(k));
        assert(s.skip(k).drop_last() =~= init.skip(k));
        assert(s.skip(k).last() == last);
        let lr = poly_mul(l, r, p);
        let rl = poly_mul(r, last, p);
        lemma_trim_factor(lr, last, p);
        lemma_trim_factor(l, rl, p);
        lemma_poly_mul_assoc(l, r, last, p);
    }
}

impl<F: PrimeField> Polynomial<F> {
    /// Multiplies the polynomials of a list by halves, and takes them out of it: what is left in
    /// their places is the polynomial without coefficients.
    fn multiply_many_impl(polynomials: &mut [Self]) -> (r: Self)
        requires
            all_products_fit::<F>(views(old(polynomials)@)),
        ensures
            r@ == product_of(views(old(polynomials)@), F::modulus()),
            final(polynomials)@.len() == old(polynomials)@.len(),
            forall|i: int|
                0 <= i < final(polynomials)@.len() ==> (#[trigger] final(polynomials)@[i])@
                    == Seq::<int>::empty(),
        decreases old(polynomials)@.len(),
    {
        let n: usize = polynomials.len();
        let ghost v = views(polynomials@);
        if n == 0 {
            return Polynomial::default();
        }
        if n == 1 {
            let mut first = Polynomial::default();
            std::mem::swap(&mut polynomials[0], &mut first);
            return first;
        }
        proof {
            F::lemma_modulus();
            lemma_product_of_parts(v, n as int / 2, F::modulus());
        }
        let (left, right) = polynomials.split_at_mut(n / 2);
        assert(views(left@) =~= v.take(n as int / 2));
        assert(views(right@) =~= v.skip(n as int / 2));
        let l = Self::multiply_many_impl(left);
        let r = Self::multiply_many_impl(right);
        l.multiply(r)
    }

    /// Multiplies one or more polynomials, whose product must be within the capacity of the
    /// transform. See `try_multiply_many` for polynomials of which that is not known.
    pub fn multiply_many<const N: usize>(polynomials: [Self; N]) -> (r: Self)
        requires
            N > 0,
            all_products_fit::<F>(views(polynomials@)),
        ensures
            r@ == product_of(views(polynomials@), F::modulus()),
    {
        let mut list = polynomials;
        Self::multiply_many_impl(&mut list)
    }

    /// Multiplies the polynomials of a list by halves, as far as they can be multiplied, and takes
    /// them out of it.
    fn try_multiply_many_impl(polynomials: &mut [Self]) -> (r: Result<Self, Error>)
        ensures
            match r {
                Ok(q) => {
                    &&& all_products_fit::<F>(views(old(polynomials)@))
                    &&& q@ == product_of(views(old(polynomials)@), F::modulus())
                },
                Err(e) => {
                    &&& !all_products_fit::<F>(views(old(polynomials)@))
                    &&& e == Error::CapacityExceeded
                },
            },
            final(polynomials)@.len() == old(polynomials)@.len(),
            forall|i: int|
                0 <= i < final(polynomials)@.len() ==> (#[trigger] final(polynomials)@[i])@
                    == Seq::<int>::empty(),
        decreases old(polynomials)@.len(),
    {
        let n: usize = polynomials.len();
        let ghost v = views(polynomials@);
        if n == 0 {
            return Ok(Polynomial::default());
        }
        if n == 1 {
            let mut first = Polynomial::default();
            std::mem::swap(&mut polynomials[0], &mut first);
            return Ok(first);
        }
        proof {
            F::lemma_modulus();
            F::lemma_two_adic();
            lemma_product_of_parts(v, n as int / 2, F::modulus());
        }
        let (left, right) = polynomials.split_at_mut(n / 2);
        assert(views(left@) =~= v.take(n as int / 2));
        assert(views(right@) =~= v.skip(n as int / 2));
        let l = Self::try_multiply_many_impl(left);
        let r = Self::try_multiply_many_impl(right);
        match (l, r) {
            (Ok(l), Ok(r)) => {
                if capacity_allows(l.degree_bound(), r.degree_bound(), F::s()) {
                    Ok(l.multiply(r))
                } else {
                    Err(Error::CapacityExceeded)
                }
            },
            _ => Err(Error::CapacityExceeded),
        }
    }

    /// Multiplies one or more polynomials, or reports that the capacity of the transform is
    /// exceeded.
    pub fn try_multiply_many<const N: usize>(polynomials: [Self; N]) -> (r: Result<Self, Error>)
        requires
            N > 0,
        ensures
            match r {
                Ok(q) => {
                    &&& all_products_fit::<F>(views(polynomials@))
                    &&& q@ == product_of(views(polynomials@), F::modulus())
                },
                Err(e) => {
                    &&& !all_products_fit::<F>(views(polynomials@))
                    &&& e == Error::CapacityExceeded
                },
            },
    {
        let mut list = polynomials;
        Self::try_multiply_many_impl(&mut list)
    }
}

} // verus!
