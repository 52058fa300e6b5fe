//! Polynomials and their values on the two-adic domains.
use crate::algebra::{coef, eval, lemma_degree_bound, poly_mul, resized, trim};
use crate::digits::{
    is_power, lemma_next_power, lemma_next_power_fixed, lemma_next_power_least,
    lemma_next_power_small, lemma_pow_step, next_power, next_power_of,
};
use crate::domains::{
    dilate, lemma_dft_dilated, lemma_dft_resized, lemma_encoded, lemma_product_values,
    product_length,
};
use crate::fft::{fft2, ifft2, two_adic_root_of_unity};
use crate::field::{coset2, domain2, domain_fits2, lemma_vals, root2, vals, PrimeField};
use crate::multiply::multiply_pointwise;
use crate::point_laws::{law_coset_points2, law_domain_points2, law_extension_points2};
use crate::polynomial::{degree_bound_of, resize, Polynomial};
use crate::transform::{dft, idft};
use vstd::arithmetic::power::pow;
use vstd::prelude::*;

verus! {

/// The polynomial that has the given values, padded with zeros, on the two-adic domain.
pub open spec fn encoded2<F: PrimeField>(values: Seq<int>) -> Seq<int> {
    let n = next_power(2, values.len() as int);
    trim(idft(resized(values, n as nat), root2::<F>(n), F::modulus()))
}

/// The values of a polynomial on the smallest two-adic domain that is as long as it.
pub open spec fn decoded2<F: PrimeField>(c: Seq<int>) -> Seq<int> {
    let n = next_power(2, c.len() as int);
    dft(resized(c, n as nat), root2::<F>(n), F::modulus())
}

/// The values of the product of the polynomials that have the given values, on a two-adic domain
/// that is large enough for the product.
pub open spec fn product_values2<F: PrimeField>(lhs: Seq<int>, rhs: Seq<int>) -> Seq<int> {
    let w = root2::<F>(lhs.len() as int);
    let a = idft(lhs, w, F::modulus());
    let b = idft(rhs, w, F::modulus());
    let m = next_power(2, product_length(a, b));
    dft(resized(poly_mul(a, b, F::modulus()), m as nat), root2::<F>(m), F::modulus())
}

impl<F: PrimeField> Polynomial<F> {
    /// Constructs the polynomial that encodes a list of values: it has them on a two-adic domain.
    ///
    /// The list is padded with zeros to the next power of two. The coordinates where the polynomial
    /// has the values are given by `domain_element2`.
    pub fn encode2(values: Vec<F>) -> (r: Self)
        requires
            values@.len() > 0,
            domain_fits2::<F>(values@.len() as int),
        ensures
            r@ == encoded2::<F>(vals(values@)),
            r@ == trim(r@),
            r@.len() <= next_power(2, values@.len() as int),
            forall|i: int|
                0 <= i < next_power(2, values@.len() as int) ==> eval(
                    r@,
                    #[trigger] domain2::<F>(i, values@.len() as int),
                ) % F::modulus() == coef(vals(values@), i),
    {
        let ghost v = vals(values@);
        let ghost size = values@.len() as int;
        proof {
            lemma_next_power(2, size);
        }
        let n: usize = next_power_of(2, values.len());
        let mut data = values;
        resize(&mut data, n);
        let ghost padded = vals(data@);
        let omega = two_adic_root_of_unity::<F>(n);
        proof {
            F::lemma_modulus();
            lemma_vals(data@);
            assert forall|i: int| 0 <= i < n implies eval(
                encoded2::<F>(v),
                #[trigger] domain2::<F>(i, size),
            ) % F::modulus() == coef(v, i) by {
                lemma_encoded(padded, omega.val(), F::modulus(), i);
                assert(padded[i] == coef(v, i));
            }
            lemma_encoded(padded, omega.val(), F::modulus(), 0);
        }
        ifft2(&mut data, omega);
        let mut polynomial = Polynomial::with_coefficients(data);
        polynomial.trim();
        polynomial
    }

    /// Returns the values of the polynomial on the two-adic domain whose size is the next power of
    /// two of the number of coefficients.
    pub fn decode2(self) -> (r: Vec<F>)
        requires
            domain_fits2::<F>(self@.len() as int),
        ensures
            vals(r@) == decoded2::<F>(self@),
            r@.len() == next_power(2, self@.len() as int),
            forall|i: int|
                0 <= i < r@.len() ==> (#[trigger] r@[i]).val() == eval(
                    self@,
                    domain2::<F>(i, self@.len() as int),
                ) % F::modulus(),
    {
        let ghost c = self@;
        let mut data = self.take();
        proof {
            lemma_next_power(2, c.len() as int);
        }
        assert(data@.len() == vals(data@).len());
        let n: usize = next_power_of(2, data.len());
        resize(&mut data, n);
        let omega = two_adic_root_of_unity::<F>(n);
        fft2(&mut data, omega);
        proof {
            F::lemma_modulus();
            assert forall|i: int| 0 <= i < data@.len() implies (#[trigger] data@[i]).val() == eval(
                c,
                domain2::<F>(i, c.len() as int),
            ) % F::modulus() by {
                lemma_dft_resized(c, n as nat, omega.val(), F::modulus(), i);
                assert(vals(data@)[i] == data@[i].val());
            }
        }
        data
    }

    /// Multiplies two polynomials that are given by their values on a two-adic domain.
    ///
    /// The result holds the values of the product, on a domain that may be larger.
    pub fn multiply_values2(lhs: Vec<F>, rhs: Vec<F>) -> (r: Vec<F>)
        requires
            is_power(2, lhs@.len() as int),
            rhs@.len() == lhs@.len(),
            2 * lhs@.len() <= pow(2, F::two_adicity()),
            2 * lhs@.len() <= usize::MAX,
        ensures
            vals(r@) == product_values2::<F>(vals(lhs@), vals(rhs@)),
    {
        let ghost p = F::modulus();
        let n: usize = lhs.len();
        let mut lhs = lhs;
        let mut rhs = rhs;
        proof {
            F::lemma_modulus();
            lemma_vals(lhs@);
            lemma_vals(rhs@);
        }
        let omega = two_adic_root_of_unity::<F>(n);
        ifft2(&mut lhs, omega);
        ifft2(&mut rhs, omega);
        let ghost a = vals(lhs@);
        let ghost b = vals(rhs@);
        let lhs_len: usize = degree_bound_of(lhs.as_slice());
        let rhs_len: usize = degree_bound_of(rhs.as_slice());
        proof {
            lemma_degree_bound(a);
            lemma_degree_bound(b);
            let k = choose|k: nat| n as int == #[trigger] pow(2, k);
            lemma_pow_step(2, k);
            lemma_next_power(2, product_length(a, b));
            lemma_next_power_least(2, product_length(a, b), k + 1);
            lemma_next_power_small(2, -1);
            lemma_next_power_small(2, 0);
        }
        // two zero polynomials have the value zero at a single point
        let len: usize = if lhs_len + rhs_len == 0 {
            0
        } else {
            lhs_len + rhs_len - 1
        };
        let m: usize = next_power_of(2, len);
        resize(&mut lhs, m);
        resize(&mut rhs, m);
        let omega = two_adic_root_of_unity::<F>(m);
        fft2(&mut lhs, omega);
        fft2(&mut rhs, omega);
        multiply_pointwise(&mut lhs, &rhs);
        proof {
            lemma_product_values(a, b, m as nat, omega.val(), p);
        }
        lhs
    }

    /// Returns the X coordinate at which a list of `domain_size` values, encoded with `encode2`,
    /// has the value with the given index.
    pub fn domain_element2(index: usize, domain_size: usize) -> (r: F)
        requires
            domain_fits2::<F>(domain_size as int),
        ensures
            r.val() == domain2::<F>(index as int, domain_size as int),
            r.val() == pow(
                F::two_adic_root(),
                ((pow(2, F::two_adicity()) / next_power(2, domain_size as int)) * index) as nat,
            ) % F::modulus(),
    {
        proof {
            law_domain_points2::<F>(domain_size as int, index as int);
            lemma_next_power(2, domain_size as int);
        }
        let omega = two_adic_root_of_unity::<F>(next_power_of(2, domain_size));
        omega.power(index as u64)
    }

    /// Returns the X coordinate of a point of the domain that `shifted_lde2` uses.
    pub fn coset_element2(index: usize, domain_size: usize) -> (r: F)
        requires
            domain_fits2::<F>(domain_size as int),
        ensures
            r.val() == coset2::<F>(index as int, domain_size as int),
            r.val() == (F::coset_shift() * pow(
                F::two_adic_root(),
                ((pow(2, F::two_adicity()) / next_power(2, domain_size as int)) * index) as nat,
            )) % F::modulus(),
    {
        proof {
            law_coset_points2::<F>(domain_size as int, index as int);
        }
        F::multiplicative_generator().times(Self::domain_element2(index, domain_size))
    }

    /// Evaluates the polynomial at `domain_element2(index, domain_size)`.
    pub fn evaluate_on_two_adic_domain(&self, index: usize, domain_size: usize) -> (r: F)
        requires
            domain_fits2::<F>(domain_size as int),
        ensures
            r.val() == eval(self@, domain2::<F>(index as int, domain_size as int)) % F::modulus(),
    {
        self.evaluate(Self::domain_element2(index, domain_size))
    }

    /// Evaluates the polynomial at `coset_element2(index, domain_size)`.
    pub fn evaluate_on_two_adic_coset(&self, index: usize, domain_size: usize) -> (r: F)
        requires
            domain_fits2::<F>(domain_size as int),
        ensures
            r.val() == eval(self@, coset2::<F>(index as int, domain_size as int)) % F::modulus(),
    {
        self.evaluate(Self::coset_element2(index, domain_size))
    }

    /// Computes a low-degree extension: the values of the polynomial at the `m` points
    /// `coset_element2(i, m)`.
    ///
    /// The coefficients are multiplied by the powers of the shift, which makes the values on the
    /// domain those on the shifted domain.
    pub fn shifted_lde2(self, m: usize) -> (r: Vec<F>)
        requires
            is_power(2, m as int),
            m <= pow(2, F::two_adicity()),
            self@.len() <= m,
        ensures
            r@.len() == m,
            forall|i: int|
                0 <= i < m ==> (#[trigger] r@[i]).val() == eval(
                    self@,
                    coset2::<F>(i, m as int),
                ) % F::modulus(),
            forall|i: int|
                0 <= i < m ==> (#[trigger] r@[i]).val() == eval(
                    self@,
                    F::coset_shift() * pow(
                        F::two_adic_root(),
                        ((pow(2, F::two_adicity()) / m as int) * i) as nat,
                    ),
                ) % F::modulus(),
    {
        let ghost c = self@;
        let mut data = self.take();
        resize(&mut data, m);
        dilate(&mut data, F::multiplicative_generator());
        let omega = two_adic_root_of_unity::<F>(m);
        fft2(&mut data, omega);
        proof {
            F::lemma_modulus();
            let k = choose|k: nat| m as int == #[trigger] pow(2, k);
            lemma_next_power_fixed(2, k);
            assert forall|i: int| 0 <= i < m implies (#[trigger] data@[i]).val() == eval(
                c,
                coset2::<F>(i, m as int),
            ) % F::modulus() && data@[i].val() == eval(
                c,
                F::coset_shift() * pow(
                    F::two_adic_root(),
                    ((pow(2, F::two_adicity()) / m as int) * i) as nat,
                ),
            ) % F::modulus() by {
                law_extension_points2::<F>(c, m as int, i);
                lemma_dft_dilated(c, m as nat, F::coset_shift(), omega.val(), F::modulus(), i);
                assert(vals(data@)[i] == data@[i].val());
            }
        }
        data
    }
}

} // verus!
