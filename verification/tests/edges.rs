use poly::digits::{log_of, next_power_of, next_power_of_two_fits, reverse_digits};
use poly::domains::dilate;
use poly::fft::{
    fft2, fft3, ifft2, ifft3, power_of_two, three_adic_root_of_unity, two_adic_root_of_unity,
};
use poly::multiply::{capacity_allows, multiply_pointwise};
use poly::polynomial::{degree_bound_of, resize, scale};
use poly::{Error, PrimeField, Scalar};

type Polynomial = poly::Polynomial<Scalar>;

fn scalars(values: &[u64]) -> Vec<Scalar> {
    values.iter().map(|v| Scalar::from(*v)).collect()
}

fn polynomial(values: &[u64]) -> Polynomial {
    Polynomial::with_coefficients(scalars(values))
}

#[test]
fn errors_say_what_happened() {
    let roots = scalars(&[1, 2, 1]);
    let error = Polynomial::from_roots(&roots, Scalar::from(1)).unwrap_err();
    assert_eq!(error, Error::DuplicateRoots);
    assert_eq!(error.message(), "duplicate roots");
    let points = [
        (Scalar::from(1), Scalar::from(2)),
        (Scalar::from(1), Scalar::from(2)),
    ];
    let error = Polynomial::interpolate(&points).unwrap_err();
    assert_eq!(error, Error::DuplicateCoordinates);
    assert_eq!(error.message(), "duplicate X-coordinates");
    let error = polynomial(&[1, 2, 3]).divide_by_zero(2).unwrap_err();
    assert_eq!(error, Error::NonZeroRemainder);
    assert_eq!(
        error.message(),
        "non-zero remainder in division by (x^n - 1)"
    );
    assert_eq!(
        Error::CapacityExceeded.message(),
        "transform capacity exceeded"
    );
}

#[test]
fn capacity_is_the_order_of_the_subgroup() {
    assert!(capacity_allows(9, 8, 4));
    assert!(!capacity_allows(9, 9, 4));
    assert!(capacity_allows(1, 16, 4));
    assert!(!capacity_allows(1, 17, 4));
    assert!(!capacity_allows(17, 1, 4));
    assert!(capacity_allows(0, 100, 4));
    assert!(capacity_allows(100, 0, 4));
    assert!(capacity_allows(1, 1, 0));
    assert!(!capacity_allows(2, 1, 0));
    assert!(!capacity_allows(usize::MAX, usize::MAX, 63));
    let half = 1usize << 61;
    assert!(capacity_allows(half, half, 62));
    assert!(capacity_allows(half + 1, half, 62));
    assert!(!capacity_allows(half + 1, half + 1, 62));
}

#[test]
fn checked_products_agree_with_the_others() {
    let p = polynomial(&[1, 2]);
    let q = polynomial(&[3, 4, 5]);
    let r = polynomial(&[6, 7, 8, 9]);
    let product = Polynomial::multiply_many([p.clone(), q.clone(), r.clone()]);
    assert_eq!(product.len(), 7);
    assert_eq!(
        Polynomial::try_multiply_many([p.clone(), q.clone(), r]),
        Ok(product)
    );
    assert_eq!(
        Polynomial::try_multiply_many([p, polynomial(&[0]), q]),
        Ok(Polynomial::default())
    );
    let single = polynomial(&[1, 2, 0]);
    assert_eq!(Polynomial::try_multiply_many([single.clone()]), Ok(single));
}

#[test]
fn powers_of_two_and_words() {
    assert_eq!(power_of_two(0), 1);
    assert_eq!(power_of_two(63), 1 << 63);
    assert!(next_power_of_two_fits(0));
    assert!(next_power_of_two_fits(usize::MAX / 2 + 1));
    assert!(!next_power_of_two_fits(usize::MAX / 2 + 2));
    assert!(!next_power_of_two_fits(usize::MAX));
}

#[test]
fn roots_make_the_monic_polynomial() {
    let p = Polynomial::from_roots(&scalars(&[2, 3]), Scalar::from(1)).unwrap();
    assert_eq!(
        p.take(),
        vec![Scalar::from(6), -Scalar::from(5), Scalar::from(1)]
    );
    let p = Polynomial::from_roots(&scalars(&[2, 3]), Scalar::from(7)).unwrap();
    assert_eq!(
        p.take(),
        vec![Scalar::from(42), -Scalar::from(35), Scalar::from(7)]
    );
}

#[test]
fn order_of_roots_does_not_matter() {
    let p = Polynomial::from_roots(&scalars(&[2, 9, 4, 7]), Scalar::from(3)).unwrap();
    let q = Polynomial::from_roots(&scalars(&[7, 4, 2, 9]), Scalar::from(3)).unwrap();
    assert_eq!(p, q);
}

#[test]
fn zero_blinding_factor_nullifies() {
    let p = Polynomial::from_roots(&scalars(&[2, 3]), Scalar::from(0)).unwrap();
    assert_eq!(p.coefficients(), &scalars(&[0, 0, 0])[..]);
    assert_eq!(p.degree_bound(), 0);
}

#[test]
fn interpolation_finds_the_square() {
    let points = [
        (Scalar::from(1), Scalar::from(1)),
        (Scalar::from(2), Scalar::from(4)),
        (Scalar::from(3), Scalar::from(9)),
    ];
    let p = Polynomial::interpolate(&points).unwrap();
    assert_eq!(p.take(), scalars(&[0, 0, 1]));
}

#[test]
fn interpolation_keeps_zero_coefficients() {
    let points = [
        (Scalar::from(1), Scalar::from(5)),
        (Scalar::from(2), Scalar::from(5)),
    ];
    let p = Polynomial::interpolate(&points).unwrap();
    assert_eq!(p.coefficients(), &scalars(&[5, 0])[..]);
    assert_eq!(p.degree_bound(), 1);
}

#[test]
fn interpolation_gives_a_polynomial_back() {
    let p = polynomial(&[3, 1, 4, 0]);
    for x in [[1, 2, 3, 4], [4, 2, 1, 3], [9, 7, 100, 0]] {
        let points: Vec<(Scalar, Scalar)> = scalars(&x)
            .iter()
            .map(|x| (*x, p.evaluate(*x)))
            .collect();
        assert_eq!(Polynomial::interpolate(&points).unwrap(), p);
    }
}

#[test]
fn horner_divides() {
    let p = polynomial(&[1, 2, 3]);
    let (q, remainder) = p.horner(Scalar::from(2));
    assert_eq!(q.coefficients(), &scalars(&[8, 3])[..]);
    assert_eq!(remainder, Scalar::from(17));
    assert_eq!(remainder, p.evaluate(Scalar::from(2)));
    let factor = Polynomial::with_coefficients(vec![-Scalar::from(2), Scalar::from(1)]);
    assert_eq!(q * factor + remainder, p);
}

#[test]
fn horner_of_short_polynomials() {
    let (q, remainder) = Polynomial::default().horner(Scalar::from(7));
    assert_eq!(q, Polynomial::default());
    assert_eq!(remainder, Scalar::from(0));
    let (q, remainder) = polynomial(&[9]).horner(Scalar::from(7));
    assert_eq!(q, Polynomial::default());
    assert_eq!(remainder, Scalar::from(9));
}

#[test]
fn scalars_can_be_added_and_subtracted() {
    let five = Scalar::from(5);
    assert_eq!(Polynomial::default() + five, polynomial(&[5]));
    assert_eq!((Polynomial::default() - five).take(), vec![-five]);
    assert_eq!(polynomial(&[1, 2]) + five, polynomial(&[6, 2]));
    assert_eq!(polynomial(&[9, 2]) - five, polynomial(&[4, 2]));
    let mut p = Polynomial::default();
    p += five;
    assert_eq!(p, polynomial(&[5]));
    p -= Scalar::from(2);
    assert_eq!(p, polynomial(&[3]));
    let mut p = Polynomial::default();
    p -= five;
    assert_eq!(p.take(), vec![-five]);
}

#[test]
fn scalars_can_be_multiplied() {
    assert_eq!(polynomial(&[1, 2, 0]) * Scalar::from(3), polynomial(&[3, 6, 0]));
    let mut p = polynomial(&[1, 2]);
    p *= Scalar::from(4);
    assert_eq!(p, polynomial(&[4, 8]));
    p *= Scalar::from(0);
    assert_eq!(p, polynomial(&[0, 0]));
}

#[test]
fn negation_keeps_the_length() {
    let p = -polynomial(&[1, 0, 2]);
    assert_eq!(
        p.coefficients(),
        &[-Scalar::from(1), Scalar::from(0), -Scalar::from(2)][..]
    );
    assert_eq!(-p, polynomial(&[1, 0, 2]));
}

#[test]
fn sum_undoes_difference() {
    let p = polynomial(&[1, 2]);
    let q = polynomial(&[3, 4, 5]);
    let mut r = (p.clone() - q.clone()) + q;
    r.trim();
    assert_eq!(r, p);
}

#[test]
fn values_of_sums_differences_and_products() {
    let p = polynomial(&[3, 1, 4, 1]);
    let q = polynomial(&[2, 7, 1]);
    let x = Scalar::from(11);
    let (y, z) = (p.evaluate(x), q.evaluate(x));
    assert_eq!((p.clone() + q.clone()).evaluate(x), y.plus(z));
    assert_eq!((p.clone() - q.clone()).evaluate(x), y.minus(z));
    assert_eq!((p.clone() * q.clone()).evaluate(x), y.times(z));
    assert_eq!((p * Scalar::from(6)).evaluate(x), y.times(Scalar::from(6)));
}

#[test]
fn products_are_trimmed_and_degrees_add_up() {
    let p = polynomial(&[1, 2, 0, 0]);
    let q = polynomial(&[3, 0, 4, 0]);
    let r = p.multiply(q);
    assert_eq!(r.coefficients(), &scalars(&[3, 6, 4, 8])[..]);
    assert_eq!(r.len(), 2 + 3 - 1);
    let r = polynomial(&[0, 0]).multiply(polynomial(&[1, 2, 3]));
    assert_eq!(r.len(), 0);
    let r = polynomial(&[2, 0]).multiply(polynomial(&[1, 2, 0]));
    assert_eq!(r.coefficients(), &scalars(&[2, 4])[..]);
}

#[test]
fn products_associate() {
    let p = polynomial(&[1, 2]);
    let q = polynomial(&[3, 4, 5]);
    let r = polynomial(&[6, 7]);
    let left = p.clone().multiply(q.clone()).multiply(r.clone());
    let right = p.multiply(q.multiply(r));
    assert_eq!(left, right);
}

#[test]
fn products_of_many_with_zero() {
    let p = polynomial(&[1, 2]);
    let r = Polynomial::multiply_many([p.clone(), polynomial(&[0, 0]), p]);
    assert_eq!(r, Polynomial::default());
}

#[test]
fn one_polynomial_is_not_trimmed() {
    let p = polynomial(&[1, 2, 0]);
    assert_eq!(Polynomial::multiply_many([p.clone()]), p);
}

#[test]
fn order_of_factors_does_not_matter() {
    let p = polynomial(&[1, 2]);
    let q = polynomial(&[3, 0, 5]);
    let r = polynomial(&[7]);
    let s = polynomial(&[2, 2, 2, 2]);
    let t = polynomial(&[1, 1]);
    let one = Polynomial::multiply_many([p.clone(), q.clone(), r.clone(), s.clone(), t.clone()]);
    let two = Polynomial::multiply_many([t, r, p, s, q]);
    assert_eq!(one, two);
    let x = Scalar::from(3);
    assert_eq!(one.evaluate(x), Scalar::from(7 * 48 * 7 * 80 * 4));
}

#[test]
fn division_undoes_multiplication() {
    let q = polynomial(&[5, 2, 9]);
    let divisor = Polynomial::with_coefficients(vec![
        -Scalar::from(1),
        Scalar::from(0),
        Scalar::from(0),
        Scalar::from(1),
    ]);
    let p = q.clone() * divisor;
    assert_eq!(p.divide_by_zero(3).unwrap(), q);
    assert_eq!(
        (p + Scalar::from(1)).divide_by_zero(3),
        Err(Error::NonZeroRemainder)
    );
}

#[test]
fn division_of_short_polynomials() {
    assert_eq!(
        polynomial(&[1, 2]).divide_by_zero(4),
        Err(Error::NonZeroRemainder)
    );
    assert_eq!(
        polynomial(&[0, 0]).divide_by_zero(4).unwrap(),
        Polynomial::default()
    );
    assert_eq!(
        Polynomial::default().divide_by_zero(1).unwrap(),
        Polynomial::default()
    );
}

#[test]
fn quotient_of_the_zero_polynomial_keeps_its_zeros() {
    let q = polynomial(&[0, 0, 0, 0, 0]).divide_by_zero(2).unwrap();
    assert_eq!(q.coefficients(), &scalars(&[0, 0, 0])[..]);
}

#[test]
fn only_zero_is_a_multiple_of_null() {
    assert_eq!(
        polynomial(&[1]).divide_by_zero(0),
        Err(Error::NonZeroRemainder)
    );
    let q = polynomial(&[0, 0]).divide_by_zero(0).unwrap();
    assert_eq!(q.coefficients(), &scalars(&[0, 0])[..]);
}

#[test]
fn multiples_vanish_on_the_domain() {
    let mut coefficients = scalars(&[0, 0, 0, 0, 1]);
    coefficients[0] = -Scalar::from(1);
    let divisor = Polynomial::with_coefficients(coefficients);
    let p = polynomial(&[3, 1, 4]) * divisor.clone();
    for i in 0..4 {
        assert_eq!(divisor.evaluate_on_two_adic_domain(i, 4), Scalar::from(0));
        assert_eq!(p.evaluate_on_two_adic_domain(i, 4), Scalar::from(0));
    }
    assert!(p.divide_by_zero(4).is_ok());
    assert_ne!(divisor.evaluate_on_two_adic_coset(1, 4), Scalar::from(0));
}

#[test]
fn multiples_vanish_on_the_three_adic_domain() {
    let mut coefficients = scalars(&[0, 0, 0, 1]);
    coefficients[0] = -Scalar::from(1);
    let divisor = Polynomial::with_coefficients(coefficients);
    let p = polynomial(&[3, 1, 4]) * divisor;
    for i in 0..3 {
        assert_eq!(p.evaluate_on_three_adic_domain(i, 3), Scalar::from(0));
    }
    assert_eq!(p.divide_by_zero(3).unwrap(), polynomial(&[3, 1, 4]));
}

#[test]
fn constant_lists_decode_to_one_value() {
    let p = Polynomial::encode2(scalars(&[42, 42]));
    assert_eq!(p.coefficients(), &scalars(&[42])[..]);
    assert_eq!(p.decode2(), scalars(&[42]));
    let p = Polynomial::encode2(scalars(&[0, 0]));
    assert_eq!(p.len(), 0);
    assert_eq!(p.decode2(), scalars(&[0]));
    let p = Polynomial::encode3(scalars(&[42, 42, 42]));
    assert_eq!(p.coefficients(), &scalars(&[42])[..]);
    assert_eq!(p.decode3(), scalars(&[42]));
}

#[test]
fn decoding_gives_every_second_value_of_a_list_of_low_degree() {
    let values = polynomial(&[1, 2]).shifted_lde2(4);
    let p = Polynomial::encode2(values.clone());
    assert_eq!(p.len(), 2);
    assert_eq!(p.decode2(), vec![values[0], values[2]]);
}

#[test]
fn encoding_undoes_decoding() {
    let p = polynomial(&[1, 2, 3, 0, 0]);
    let values = p.clone().decode2();
    assert_eq!(values.len(), 8);
    assert_eq!(Polynomial::encode2(values), polynomial(&[1, 2, 3]));
    let values = p.decode3();
    assert_eq!(values.len(), 9);
    assert_eq!(Polynomial::encode3(values), polynomial(&[1, 2, 3]));
    assert_eq!(Polynomial::default().decode2(), scalars(&[0]));
    assert_eq!(Polynomial::default().decode3(), scalars(&[0]));
}

#[test]
fn encoding_of_two_values() {
    let p = Polynomial::encode2(scalars(&[7, 3]));
    assert_eq!(p.coefficients(), &scalars(&[5, 2])[..]);
}

#[test]
fn domains_are_rounded_up() {
    assert_eq!(Polynomial::domain_element2(0, 0), Scalar::from(1));
    assert_eq!(Polynomial::domain_element2(5, 0), Scalar::from(1));
    assert_eq!(Polynomial::domain_element2(1, 2), -Scalar::from(1));
    assert_eq!(
        Polynomial::domain_element2(3, 5),
        Polynomial::domain_element2(3, 8)
    );
    assert_eq!(
        Polynomial::domain_element2(11, 8),
        Polynomial::domain_element2(3, 8)
    );
    assert_eq!(Polynomial::domain_element3(0, 0), Scalar::from(1));
    assert_eq!(
        Polynomial::domain_element3(4, 5),
        Polynomial::domain_element3(4, 9)
    );
    let cube = Polynomial::domain_element3(1, 3);
    assert_ne!(cube, Scalar::from(1));
    assert_eq!(cube.power(3), Scalar::from(1));
}

#[test]
fn elements_of_domains_and_cosets_differ() {
    let mut points = Vec::new();
    for i in 0..8 {
        points.push(Polynomial::domain_element2(i, 8));
        points.push(Polynomial::coset_element2(i, 8));
        assert_eq!(
            Polynomial::coset_element2(i, 8),
            Scalar::from(5).times(Polynomial::domain_element2(i, 8))
        );
    }
    for i in 0..points.len() {
        for j in 0..i {
            assert_ne!(points[i], points[j]);
        }
    }
}

#[test]
fn elements_of_three_adic_domains_and_cosets_differ() {
    let mut points = Vec::new();
    for i in 0..9 {
        points.push(Polynomial::domain_element3(i, 9));
        points.push(Polynomial::coset_element3(i, 9));
        assert_eq!(
            Polynomial::coset_element3(i, 9),
            Scalar::from(5).times(Polynomial::domain_element3(i, 9))
        );
    }
    for i in 0..points.len() {
        for j in 0..i {
            assert_ne!(points[i], points[j]);
        }
    }
}

#[test]
fn extension_of_a_line() {
    let p = polynomial(&[1, 2]);
    assert_eq!(
        p.clone().shifted_lde2(2),
        vec![Scalar::from(11), -Scalar::from(9)]
    );
    let values = p.clone().shifted_lde3(9);
    for i in 0..9 {
        assert_eq!(values[i], p.evaluate(Polynomial::coset_element3(i, 9)));
        assert_eq!(values[i], p.evaluate_on_three_adic_coset(i, 9));
    }
    assert_eq!(Polynomial::default().shifted_lde2(4), scalars(&[0, 0, 0, 0]));
}

#[test]
fn values_times_zero() {
    let zeros = scalars(&[0, 0]);
    let line = scalars(&[7, 3]);
    assert_eq!(
        Polynomial::multiply_values2(zeros.clone(), line.clone()),
        scalars(&[0])
    );
    assert_eq!(
        Polynomial::multiply_values2(line, zeros.clone()),
        scalars(&[0])
    );
    assert_eq!(
        Polynomial::multiply_values2(zeros.clone(), zeros),
        scalars(&[0])
    );
    let zeros = scalars(&[0, 0, 0]);
    let values = polynomial(&[1, 2, 3]).decode3();
    assert_eq!(
        Polynomial::multiply_values3(zeros.clone(), values.clone()),
        scalars(&[0, 0, 0])
    );
    assert_eq!(
        Polynomial::multiply_values3(values, zeros.clone()),
        scalars(&[0, 0, 0])
    );
    assert_eq!(
        Polynomial::multiply_values3(zeros.clone(), zeros),
        scalars(&[0])
    );
}

#[test]
fn transforms_have_inverses() {
    let values = scalars(&[3, 1, 4, 1, 5, 9, 2, 6]);
    let omega = two_adic_root_of_unity::<Scalar>(8);
    let p = Polynomial::with_coefficients(values.clone());
    let mut data = values.clone();
    fft2(&mut data, omega);
    for i in 0..8 {
        assert_eq!(data[i], p.evaluate(omega.power(i as u64)));
    }
    ifft2(&mut data, omega);
    assert_eq!(data, values);
    let values = scalars(&[3, 1, 4, 1, 5, 9, 2, 6, 5]);
    let omega = three_adic_root_of_unity::<Scalar>(9);
    let p = Polynomial::with_coefficients(values.clone());
    let mut data = values.clone();
    fft3(&mut data, omega);
    for i in 0..9 {
        assert_eq!(data[i], p.evaluate(omega.power(i as u64)));
    }
    ifft3(&mut data, omega);
    assert_eq!(data, values);
}

#[test]
fn transforms_of_one_value() {
    let one = two_adic_root_of_unity::<Scalar>(1);
    assert_eq!(one, Scalar::from(1));
    let mut data = scalars(&[7]);
    fft2(&mut data, one);
    assert_eq!(data, scalars(&[7]));
    let one = three_adic_root_of_unity::<Scalar>(1);
    ifft3(&mut data, one);
    assert_eq!(data, scalars(&[7]));
}

#[test]
fn powers_of_a_radix() {
    assert_eq!(next_power_of(2, 0), 1);
    assert_eq!(next_power_of(2, 1), 1);
    assert_eq!(next_power_of(2, 5), 8);
    assert_eq!(next_power_of(3, 9), 9);
    assert_eq!(next_power_of(3, 10), 27);
    assert_eq!(log_of(2, 1), 0);
    assert_eq!(log_of(2, 32), 5);
    assert_eq!(log_of(3, 81), 4);
}

#[test]
fn digits_are_reversed() {
    assert_eq!(reverse_digits(2, 4, 0b0010), 0b0100);
    assert_eq!(reverse_digits(2, 3, 0b110), 0b011);
    assert_eq!(reverse_digits(3, 2, 5), 7);
    assert_eq!(reverse_digits(2, 0, 0), 0);
    for i in 0..27 {
        assert_eq!(reverse_digits(3, 3, reverse_digits(3, 3, i)), i);
    }
}

#[test]
fn lists_of_coefficients() {
    assert_eq!(degree_bound_of(&scalars(&[1, 2, 0, 0])), 2);
    assert_eq!(degree_bound_of(&scalars(&[0, 0])), 0);
    let mut data = scalars(&[1, 2, 3]);
    resize(&mut data, 2);
    assert_eq!(data, scalars(&[1, 2]));
    resize(&mut data, 4);
    assert_eq!(data, scalars(&[1, 2, 0, 0]));
    scale(&mut data, Scalar::from(3));
    assert_eq!(data, scalars(&[3, 6, 0, 0]));
    dilate(&mut data, Scalar::from(10));
    assert_eq!(data, scalars(&[3, 60, 0, 0]));
    multiply_pointwise(&mut data, &scalars(&[2, 2, 5, 5]));
    assert_eq!(data, scalars(&[6, 120, 0, 0]));
}

#[test]
fn clones_are_equal() {
    let p = polynomial(&[1, 2, 0]);
    assert_eq!(p.clone(), p);
    assert_eq!(Polynomial::default().len(), 0);
}
