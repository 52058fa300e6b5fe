//! Polynomials and their values on the three-adic domains.
use crate::algebra::{coef, eval, lemma_degree_bound, poly_mul, resized, trim};
use crate::digits::{
    is_power, lemma_next_power, lemma_next_power_fixed, lemma_next_power_least,
    lemma_next_power_small, lemma_pow_step, next_power, next_power_of,
};
use crate::domains::{
    dilate, lemma_dft_dilated, lemma_dft_resized, lemma_encoded, lemma_product_values,
    product_length,
};
use crate::fft::{fft3, ifft3, three_adic_root_of_unity};
use crate::field::{coset3, domain3, domain_fits3, lemma_vals, root3, vals, ThreeAdicField};
use crate::multiply::multiply_pointwise;
use crate::point_laws::{law_coset_points3, law_domain_points3, law_extension_points3};
use crate::polynomial::{degree_bound_of, resize, Polynomial};
use crate::transform::{dft, idft};
use vstd::arithmetic::power::pow;
use vstd::prelude::*;

verus! {

/// The polynomial that has the given values, padded with zeros, on the three-adic domain.
pub open spec fn encoded3<F: ThreeAdicField>(values: Seq<int>) -> Seq<int> {
    let n = next_power(3, values.len() as int);
    trim(idft(resized(values, n as nat), root3::<F>(n), F::modulus()))
}

/// The values of a polynomial on the smallest three-adic domain that is as long as it.
pub open spec fn decoded3<F: ThreeAdicField>(c: Seq<int>) -> Seq<int> {
    let n = next_power(3, c.len() as int);
    dft(resized(c, n as nat), root3::<F>(n), F::modulus())
}

/// The values of the product of the polynomials that have the given values, on a three-adic domain
/// that is large enough for the product.
pub open spec fn product_values3<F: ThreeAdicField>(lhs: Seq<int>, rhs: Seq<int>) -> Seq<int> {
    let w = root3::<F>(lhs.len() as int);
    let a = idft(lhs, w, F::modulus());
    let b = idft(rhs, w, F::modulus());
    let m = next_power(3, product_length(a, b));
    dft(resized(poly_mul(a, b, F::modulus()), m as nat), root3::<F>(m), F::modulus())
}

impl<F: ThreeAdicField> Polynomial<F> {
    /// Constructs the polynomial that encodes a list of values: it has them on a three-adic domain.
    ///
    /// The list is padded with zeros to the next power of three. The coordinates where the
    /// polynomial has the values are given by `domain_element3`.
    pub fn encode3(values: Vec<F>) -> (r: Self)
        requires
            values@.len() > 0,
            domain_fits3::<F>(values@.len() as int),
        ensures
            r@ == encoded3::<F>(vals(values@)),
            r@ == trim(r@),
            r@.len() <= next_power(3, values@.len() as int),
            forall|i: int|
                0 <= i < next_power(3, values@.len() as int) ==> eval(
                    r@,
                    #[trigger] domain3::<F>(i, values@.len() as int),
                ) % F::modulus() == coef(vals(values@), i),
    {
        let ghost v = vals(values@);
        let ghost size = values@.len() as int;
        proof {
            lemma_next_power(3, size);
        }
        let n: usize = next_power_of(3, values.len());
        let mut data = values;
        resize(&mut data, n);
        let ghost padded = vals(data@);
        let omega = three_adic_root_of_unity::<F>(n);
        proof {
            F::lemma_modulus();
            lemma_vals(data@);
            assert forall|i: int| 0 <= i < n implies eval(
                encoded3::<F>(v),
                #[trigger] domain3::<F>(i, size),
            ) % F::modulus() == coef(v, i) by {
                lemma_encoded(padded, omega.val(), F::modulus(), i);
                assert(padded[i] == coef(v, i));
            }
            lemma_encoded(padded, omega.val(), F::modulus(), 0);
        }
        ifft3(&mut data, omega);
        let mut polynomial = Polynomial::with_coefficients(data);
        polynomial.trim();
        polynomial
    }

    /// Returns the values of the polynomial on the three-adic domain whose size is the next power
    /// of three of the number of coefficients.
    pub fn decode3(self) -> (r: Vec<F>)
        requires
            domain_fits3::<F>(self@.len() as int),
        ensures
            vals(r@) == decoded3::<F>(self@),
            r@.len() == next_power(3, self@.len() as int),
            forall|i: int|
                0 <= i < r@.len() ==> (#[trigger] r@[i]).val() == eval(
                    self@,
                    domain3::<F>(i, self@.len() as int),
                ) % F::modulus(),
    {
        let ghost c = self@;
        let mut data = self.take();
        proof {
            lemma_next_power(3, c.len() as int);
        }
        assert(data@.len() == vals(data@).len());
        let n: usize = next_power_of(3, data.len());
        resize(&mut data, n);
        let omega = three_adic_root_of_unity::<F>(n);
        fft3(&mut data, omega);
        proof {
            F::lemma_modulus();
            assert forall|i: int| 0 <= i < data@.len() implies (#[trigger] data@[i]).val() == eval(
                c,
                domain3::<F>(i, c.len() as int),
            ) % F::modulus() by {
                lemma_dft_resized(c, n as nat, omega.val(), F::modulus(), i);
                assert(vals(data@)[i] == data@[i].val());
            }
        }
        data
    }

    /// Multiplies two polynomials that are given by their values on a three-adic domain.
    ///
    /// The result holds the values of the product, on a domain that may be larger.
    pub fn multiply_values3(lhs: Vec<F>, rhs: Vec<F>) -> (r: Vec<F>)
        requires
            is_power(3, lhs@.len() as int),
            rhs@.len() == lhs@.len(),
            3 * lhs@.len() <= pow(3, F::three_adicity()),
            3 * lhs@.len() <= usize::MAX,
        ensures
            vals(r@) == product_values3::<F>(vals(lhs@), vals(rhs@)),
    {
        let ghost p = F::modulus();
        let n: usize = lhs.len();
        let mut lhs = lhs;
        let mut rhs = rhs;
        proof {
            F::lemma_modulus();
            lemma_vals(lhs@);
            lemma_vals(rhs@);
        }
        let omega = three_adic_root_of_unity::<F>(n);
        ifft3(&mut lhs, omega);
        ifft3(&mut rhs, omega);
        let ghost a = vals(lhs@);
        let ghost b = vals(rhs@);
        let lhs_len: usize = degree_bound_of(lhs.as_slice());
        let rhs_len: usize = degree_bound_of(rhs.as_slice());
        proof {
            lemma_degree_bound(a);
            lemma_degree_bound(b);
            let k = choose|k: nat| n as int == #[trigger] pow(3, k);
            lemma_pow_step(3, k);
            lemma_next_power(3, product_length(a, b));
            lemma_next_power_least(3, product_length(a, b), k + 1);
            lemma_next_power_small(3, -1);
            lemma_next_power_small(3, 0);
        }
        // two zero polynomials have the value zero at a single point
        let len: usize = if lhs_len + rhs_len == 0 {
            0
        } else {
            lhs_len + rhs_len - 1
        };
        let m: usize = next_power_of(3, len);
        resize(&mut lhs, m);
        resize(&mut rhs, m);
        let omega = three_adic_root_of_unity::<F>(m);
        fft3(&mut lhs, omega);
        fft3(&mut rhs, omega);
        multiply_pointwise(&mut lhs, &rhs);
        proof {
            lemma_product_values(a, b, m as nat, omega.val(), p);
        }
        lhs
    }

    /// Returns the X coordinate at which a list of `domain_size` values, encoded with `encode3`,
    /// has the value with the given index.
    pub fn domain_element3(index: usize, domain_size: usize) -> (r: F)
        requires
            domain_fits3::<F>(domain_size as int),
        ensures
            r.val() == domain3::<F>(index as int, domain_size as int),
            r.val() == pow(
                F::three_adic_root(),
                ((pow(3, F::three_adicity()) / next_power(3, domain_size as int)) * index) as nat,
            ) % F::modulus(),
    {
        proof {
            law_domain_points3::<F>(domain_size as int, index as int);
            lemma_next_power(3, domain_size as int);
        }
        let omega = three_adic_root_of_unity::<F>(next_power_of(3, domain_size));
        omega.power(index as u64)
    }

    /// Returns the X coordinate of a point of the domain that `shifted_lde3` uses.
    pub fn coset_element3(index: usize, domain_size: usize) -> (r: F)
        requires
            domain_fits3::<F>(domain_size as int),
        ensures
            r.val() == coset3::<F>(index as int, domain_size as int),
            r.val() == (F::coset_shift() * pow(
                F::three_adic_root(),
                ((pow(3, F::three_adicity()) / next_power(3, domain_size as int)) * index) as nat,
            )) % F::modulus(),
    {
        proof {
            law_coset_points3::<F>(domain_size as int, index as int);
        }
        F::multiplicative_generator().times(Self::domain_element3(index, domain_size))
    }

    /// Evaluates the polynomial at `domain_element3(index, domain_size)`.
    pub fn evaluate_on_three_adic_domain(&self, index: usize, domain_size: usize) -> (r: F)
        requires
            domain_fits3::<F>(domain_size as int),
        ensures
            r.val() == eval(self@, domain3::<F>(index as int, domain_size as int)) % F::modulus(),
    {
        self.evaluate(Self::domain_element3(index, domain_size))
    }

    /// Evaluates the polynomial at `coset_element3(index, domain_size)`.
    pub fn evaluate_on_three_adic_coset(&self, index: usize, domain_size: usize) -> (r: F)
        requires
            domain_fits3::<F>(domain_size as int),
        ensures
            r.val() == eval(self@, coset3::<F>(index as int, domain_size as int)) % F::modulus(),
    {
        self.evaluate(Self::coset_element3(index, domain_size))
    }

    /// Computes a low-degree extension: the values of the polynomial at the `m` points
    /// `coset_element3(i, m)`.
    ///
    /// The coefficients are multiplied by the powers of the shift, which makes the values on the
    /// domain those on the shifted domain.
    pub fn shifted_lde3(self, m: usize) -> (r: Vec<F>)
        requires
            is_power(3, m as int),
            m <= pow(3, F::three_adicity()),
            self@.len() <= m,
        ensures
            r@.len() == m,
            forall|i: int|
                0 <= i < m ==> (#[trigger] r@[i]).val() == eval(
                    self@,
                    coset3::<F>(i, m as int),
                ) % F::modulus(),
            forall|i: int|
                0 <= i < m ==> (#[trigger] r@[i]).val() == eval(
                    self@,
                    F::coset_shift() * pow(
                        F::three_adic_root(),
                        ((pow(3, F::three_adicity()) / m as int) * i) as nat,
                    ),
                ) % F::modulus(),
    {
        let ghost c = self@;
        let mut data = self.take();
        resize(&mut data, m);
        dilate(&mut data, F::multiplicative_generator());
        let omega = three_adic_root_of_unity::<F>(m);
        fft3(&mut data, omega);
        proof {
            F::lemma_modulus();
            let k = choose|k: nat| m as int == #[trigger] pow(3, k);
            lemma_next_power_fixed(3, k);
            assert forall|i: int| 0 <= i < m implies (#[trigger] data@[i]).val() == eval(
                c,
                coset3::<F>(i, m as int),
            ) % F::modulus() && data@[i].val() == eval(
                c,
                F::coset_shift() * pow(
                    F::three_adic_root(),
                    ((pow(3, F::three_adicity()) / m as int) * i) as nat,
                ),
            ) % F::modulus() by {
                law_extension_points3::<F>(c, m as int, i);
                lemma_dft_dilated(c, m as nat, F::coset_shift(), omega.val(), F::modulus(), i);
                assert(vals(data@)[i] == data@[i].val());
            }
        }
        data
    }
}

} // verus!
