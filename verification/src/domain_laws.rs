//! What holds of the encoding, decoding and extension of lists of values on the domains.
use crate::algebra::{
    coef, degree_bound, eval, lemma_degree_bound, lemma_eval_congr, lemma_eval_same,
    lemma_resized_same, lemma_same_trim, lemma_trim, poly_mul, reduced, resized, same_poly, trim,
};
use crate::bluesky::Scalar;
use crate::certificate::lemma_generator;
use crate::convolution::{lemma_eval_zero, lemma_product_trim};
use crate::digits::{
    ceil_log, is_power, lemma_exponent_order, lemma_next_power, lemma_next_power_fixed,
    lemma_next_power_least, lemma_pow_step, next_power,
};
use crate::division::{lemma_vanishing_divides, vanishing};
use crate::domains::{all_zero, lemma_dft_resized, lemma_encoded, lemma_zero_values, product_length};
use crate::field::{
    coset2, coset3, domain2, domain3, domain_fits2, domain_fits3, lemma_root2, lemma_root3, root2,
    root3, PrimeField, ThreeAdicField,
};
use crate::laws::law_multiple_vanishes;
use crate::modular::{is_prime, lemma_mod_mod, lemma_mul_congr, lemma_pow_congr};
use crate::multiply::product_fits;
use crate::products::{lemma_poly_mul_commutes, lemma_poly_mul_reduced, lemma_poly_mul_same};
use crate::three_adic::{decoded3, encoded3, product_values3};
use crate::transform::{dft, idft, lemma_idft_dft, lemma_root_powers_distinct, primitive_root};
use crate::two_adic::{decoded2, encoded2, product_values2};
use vstd::arithmetic::div_mod::{lemma_fundamental_div_mod_converse, lemma_small_mod};
use vstd::arithmetic::power::{
    lemma1_pow, lemma_pow_adds, lemma_pow_distributes, lemma_pow_multiplies, lemma_pow_positive,
    pow,
};
use vstd::prelude::*;

verus! {

/// A power of a power of an `n`-th root of unity, raised to `n`, is one.
proof fn lemma_root_of_unity_power(w: int, n: int, i: nat, p: int)
    requires
        p > 1,
        n > 0,
        pow(w, n as nat) % p == 1,
    ensures
        pow(pow(w, i) % p, n as nat) % p == 1,
{
    lemma_mod_mod(pow(w, i), p);
    lemma_pow_congr(pow(w, i) % p, pow(w, i), n as nat, p);
    lemma_pow_multiplies(w, i, n as nat);
    lemma_pow_multiplies(w, n as nat, i);
    assert(i * (n as nat) == (n as nat) * i) by (nonlinear_arith);
    lemma_small_mod(1, p as nat);
    lemma_pow_congr(pow(w, n as nat), 1, i, p);
    lemma1_pow(i);
}

/// Values at a subgroup of the domain are among the values at the domain.
proof fn lemma_decode_subgroup(v: Seq<int>, w: int, u: int, m: int, q: int, p: int, i: int)
    requires
        is_prime(p),
        primitive_root(w, v.len() as int, p),
        reduced(v, p),
        v.len() < p,
        m > 0,
        q > 0,
        v.len() == m * q,
        trim(idft(v, w, p)).len() <= m,
        u % p == pow(w, q as nat) % p,
        0 <= i < m,
    ensures
        0 <= i * q < v.len(),
        dft(resized(trim(idft(v, w, p)), m as nat), u, p)[i] == v[i * q],
{
    let c = trim(idft(v, w, p));
    assert(0 <= i * q < m * q) by (nonlinear_arith)
        requires
            0 <= i < m,
            q > 0,
    ;
    lemma_encoded(v, w, p, i * q);
    lemma_dft_resized(c, m as nat, u, p, i);
    lemma_pow_congr(u, pow(w, q as nat), i as nat, p);
    lemma_pow_multiplies(w, q as nat, i as nat);
    assert((q as nat) * (i as nat) == i * q) by (nonlinear_arith)
        requires
            q > 0,
            i >= 0,
    ;
}

/// Encoding the values of a polynomial gives the polynomial back.
proof fn lemma_encode_decode(c: Seq<int>, n: nat, w: int, p: int)
    requires
        is_prime(p),
        primitive_root(w, n as int, p),
        reduced(c, p),
        n < p,
        degree_bound(c) <= n,
    ensures
        trim(idft(dft(resized(c, n), w, p), w, p)) == trim(c),
{
    let r = resized(c, n);
    assert forall|i: int| 0 <= i < r.len() implies 0 <= #[trigger] r[i] < p by {
        assert(r[i] == coef(c, i));
    }
    lemma_small_mod(n, p as nat);
    lemma_idft_dft(r, w, p);
    lemma_resized_same(c, n);
    lemma_same_trim(r, c);
}

/// A polynomial of low degree is determined by its values on the domain.
proof fn lemma_values_determine(c: Seq<int>, v: Seq<int>, w: int, p: int)
    requires
        is_prime(p),
        primitive_root(w, v.len() as int, p),
        reduced(c, p),
        v.len() < p,
        c.len() <= v.len(),
        forall|i: int|
            0 <= i < v.len() ==> eval(c, #[trigger] pow(w, i as nat) % p) % p == v[i],
    ensures
        trim(c) == trim(idft(v, w, p)),
{
    let n = v.len();
    let d = dft(resized(c, n), w, p);
    assert forall|i: int| 0 <= i < n implies d[i] == v[i] by {
        lemma_dft_resized(c, n, w, p, i);
        assert(eval(c, pow(w, i as nat) % p) % p == v[i]);
    }
    assert(d =~= v);
    lemma_degree_bound(c);
    lemma_encode_decode(c, n, w, p);
}

/// A polynomial is a multiple of `x^n - 1` exactly when it is zero on the domain.
proof fn lemma_divisible_iff(c: Seq<int>, n: nat, w: int, p: int)
    requires
        is_prime(p),
        reduced(c, p),
        primitive_root(w, n as int, p),
    ensures
        (exists|q: Seq<int>| same_poly(#[trigger] poly_mul(q, vanishing(n), p), c)) <==> (forall|
            i: int,
        |
            0 <= i < n ==> eval(c, #[trigger] pow(w, i as nat) % p) % p == 0),
{
    if exists|q: Seq<int>| same_poly(#[trigger] poly_mul(q, vanishing(n), p), c) {
        let q = choose|q: Seq<int>| same_poly(#[trigger] poly_mul(q, vanishing(n), p), c);
        assert forall|i: int| 0 <= i < n implies eval(c, #[trigger] pow(w, i as nat) % p) % p
            == 0 by {
            lemma_root_of_unity_power(w, n as int, i as nat, p);
            law_multiple_vanishes(q, c, n, pow(w, i as nat) % p, p);
        }
    }
    if forall|i: int| 0 <= i < n ==> eval(c, #[trigger] pow(w, i as nat) % p) % p == 0 {
        assert forall|i: int| 0 <= i < n implies eval(c, #[trigger] pow(w, i as nat)) % p == 0 by {
            let x = pow(w, i as nat);
            assert(eval(c, pow(w, i as nat) % p) % p == 0);
            lemma_mod_mod(x, p);
            lemma_eval_congr(c, c, x % p, x, p);
        }
        let q = lemma_vanishing_divides(c, n, w, p);
        assert(same_poly(poly_mul(q, vanishing(n), p), c));
    }
}

/// The product of the values, encoded, is the product of the encoded polynomials.
proof fn lemma_product_round_trip(a: Seq<int>, b: Seq<int>, m: nat, w: int, p: int)
    requires
        is_prime(p),
        primitive_root(w, m as int, p),
        m < p,
        product_length(a, b) <= m,
    ensures
        trim(idft(dft(resized(poly_mul(a, b, p), m), w, p), w, p)) == trim(
            poly_mul(trim(a), trim(b), p),
        ),
{
    lemma_product_trim(a, b, p);
    lemma_trim(a);
    lemma_trim(b);
    lemma_poly_mul_reduced(a, b, p);
    lemma_encode_decode(poly_mul(a, b, p), m, w, p);
}

/// Transforming a padded polynomial back and forth changes nothing.
proof fn lemma_idft_dft_resized(c: Seq<int>, n: nat, w: int, p: int)
    requires
        is_prime(p),
        primitive_root(w, n as int, p),
        reduced(c, p),
        n < p,
        c.len() <= n,
    ensures
        idft(dft(resized(c, n), w, p), w, p) == resized(c, n),
        degree_bound(resized(c, n)) == degree_bound(c),
{
    let r = resized(c, n);
    assert forall|i: int| 0 <= i < r.len() implies 0 <= #[trigger] r[i] < p by {
        assert(r[i] == coef(c, i));
    }
    lemma_small_mod(n, p as nat);
    lemma_idft_dft(r, w, p);
    lemma_degree_bound(c);
    lemma_resized_same(c, n);
    lemma_same_trim(r, c);
}

/// A value of a product, from the padded factors.
proof fn lemma_product_value(
    a: Seq<int>,
    b: Seq<int>,
    n: nat,
    m: nat,
    w: int,
    p: int,
    i: int,
)
    requires
        p > 1,
        a.len() <= n,
        b.len() <= n,
        product_length(a, b) <= m,
        0 <= i < m,
    ensures
        dft(resized(poly_mul(resized(a, n), resized(b, n), p), m), w, p)[i] == eval(
            poly_mul(a, b, p),
            pow(w, i as nat) % p,
        ) % p,
{
    let c = poly_mul(a, b, p);
    let d = poly_mul(resized(a, n), resized(b, n), p);
    let x = pow(w, i as nat);
    lemma_degree_bound(a);
    lemma_degree_bound(b);
    lemma_resized_same(a, n);
    lemma_resized_same(b, n);
    lemma_poly_mul_same(resized(a, n), a, resized(b, n), b, p);
    lemma_same_trim(d, c);
    lemma_product_trim(a, b, p);
    lemma_trim(a);
    lemma_trim(b);
    lemma_resized_same(d, m);
    lemma_eval_same(resized(d, m), d, x);
    lemma_eval_same(d, c, x);
    lemma_mod_mod(x, p);
    lemma_eval_congr(c, c, x % p, x, p);
}

/// The values of a product with the zero polynomial are zero.
proof fn lemma_zero_product_values(a: Seq<int>, b: Seq<int>, m: nat, w: int, p: int)
    requires
        p > 0,
        degree_bound(a) == 0 || degree_bound(b) == 0,
    ensures
        all_zero(dft(resized(poly_mul(a, b, p), m), w, p)),
{
    let c = poly_mul(a, b, p);
    let d = dft(resized(c, m), w, p);
    lemma_product_trim(a, b, p);
    lemma_trim(a);
    lemma_trim(b);
    lemma_small_mod(0, p as nat);
    assert forall|i: int| 0 <= i < d.len() implies #[trigger] d[i] == 0 by {
        lemma_eval_zero(c, m, pow(w, i as nat));
    }
}

/// A shifted root of unity whose shift has another order is no root of unity.
proof fn lemma_shift_leaves(g: int, x: int, y: int, n: nat, p: int)
    requires
        p > 1,
        pow(g, n) % p != 1,
        pow(x, n) % p == 1,
        pow(y, n) % p == 1,
    ensures
        (g * x) % p != y % p,
{
    if (g * x) % p == y % p {
        lemma_pow_congr(g * x, y, n, p);
        lemma_pow_distributes(g, x, n);
        lemma_small_mod(1, p as nat);
        lemma_mul_congr(pow(g, n), pow(g, n), pow(x, n), 1, p);
    }
}

/// The two-adic domain for a size, from an exponent.
proof fn lemma_domain2<F: PrimeField>(size: int)
    requires
        domain_fits2::<F>(size),
    ensures
        is_prime(F::modulus()),
        next_power(2, size) > 0,
        next_power(2, size) >= size,
        next_power(2, size) < F::modulus(),
        primitive_root(root2::<F>(next_power(2, size)), next_power(2, size), F::modulus()),
        next_power(2, next_power(2, size)) == next_power(2, size),
{
    let k = ceil_log(2, size);
    F::lemma_modulus();
    lemma_next_power(2, size);
    lemma_exponent_order(2, k, F::two_adicity());
    lemma_root2::<F>(k);
    lemma_next_power_fixed(2, k);
}

/// The root of unity of a subgroup is a power of that of the group.
pub proof fn lemma_root2_subgroup<F: PrimeField>(j: nat, k: nat)
    requires
        j <= k <= F::two_adicity(),
    ensures
        pow(2, k) == pow(2, j) * pow(2, (k - j) as nat),
        pow(2, (k - j) as nat) > 0,
        root2::<F>(pow(2, j)) % F::modulus() == pow(
            root2::<F>(pow(2, k)),
            pow(2, (k - j) as nat) as nat,
        ) % F::modulus(),
{
    let p = F::modulus();
    let s = F::two_adicity();
    let r = F::two_adic_root();
    F::lemma_modulus();
    lemma_root2::<F>(j);
    lemma_root2::<F>(k);
    lemma_pow_positive(2, (k - j) as nat);
    lemma_pow_positive(2, (s - k) as nat);
    let a = pow(2, (s - k) as nat) as nat;
    let b = pow(2, (k - j) as nat) as nat;
    lemma_pow_adds(2, j, (k - j) as nat);
    lemma_pow_adds(2, (s - k) as nat, (k - j) as nat);
    assert((s - k) as nat + (k - j) as nat == (s - j) as nat);
    lemma_pow_multiplies(r, a, b);
    lemma_mod_mod(pow(r, a), p);
    lemma_pow_congr(pow(r, a), pow(r, a) % p, b, p);
    lemma_mod_mod(pow(r, a * b), p);
}

/// Decoding an encoded list gives every value of the list, padded with zeros, whose index is a
/// multiple of the ratio of the two domains.
pub proof fn law_decode_encode2<F: PrimeField>(values: Seq<int>, i: int)
    requires
        values.len() > 0,
        reduced(values, F::modulus()),
        domain_fits2::<F>(values.len() as int),
        0 <= i < decoded2::<F>(encoded2::<F>(values)).len(),
    ensures
        decoded2::<F>(encoded2::<F>(values)).len() == next_power(
            2,
            encoded2::<F>(values).len() as int,
        ),
        next_power(2, values.len() as int) % next_power(2, encoded2::<F>(values).len() as int) == 0,
        decoded2::<F>(encoded2::<F>(values))[i] == coef(
            values,
            i * (next_power(2, values.len() as int) / next_power(
                2,
                encoded2::<F>(values).len() as int,
            )),
        ),
{
    let p = F::modulus();
    let size = values.len() as int;
    let n = next_power(2, size);
    let v = resized(values, n as nat);
    let w = root2::<F>(n);
    let c = encoded2::<F>(values);
    let m = next_power(2, c.len() as int);
    let k = ceil_log(2, size);
    let j = ceil_log(2, c.len() as int);
    lemma_domain2::<F>(size);
    assert forall|l: int| 0 <= l < v.len() implies 0 <= #[trigger] v[l] < p by {
        assert(v[l] == coef(values, l));
    }
    lemma_encoded(v, w, p, 0);
    lemma_next_power(2, c.len() as int);
    lemma_next_power_least(2, c.len() as int, k);
    lemma_exponent_order(2, k, F::two_adicity());
    lemma_root2_subgroup::<F>(j, k);
    let q = pow(2, (k - j) as nat);
    assert(m * q == q * m) by (nonlinear_arith);
    lemma_fundamental_div_mod_converse(n, m, q, 0);
    lemma_decode_subgroup(v, w, root2::<F>(m), m, q, p, i);
}

/// Decoding undoes encoding: it gives the list back, padded with zeros to a power of two, if the
/// degree of the encoding polynomial is not below half of that.
pub proof fn law_decode_undoes_encode2<F: PrimeField>(values: Seq<int>)
    requires
        values.len() > 0,
        reduced(values, F::modulus()),
        domain_fits2::<F>(values.len() as int),
        next_power(2, encoded2::<F>(values).len() as int) == next_power(2, values.len() as int),
    ensures
        decoded2::<F>(encoded2::<F>(values)) == resized(
            values,
            next_power(2, values.len() as int) as nat,
        ),
{
    let n = next_power(2, values.len() as int);
    let d = decoded2::<F>(encoded2::<F>(values));
    lemma_domain2::<F>(values.len() as int);
    assert forall|i: int| 0 <= i < n implies d[i] == resized(values, n as nat)[i] by {
        law_decode_encode2::<F>(values, i);
        lemma_fundamental_div_mod_converse(n, n, 1, 0);
        assert(i * 1 == i);
    }
    assert(d =~= resized(values, n as nat));
}

/// Encoding undoes decoding: it gives the polynomial back, without trailing zeros.
pub proof fn law_encode_undoes_decode2<F: PrimeField>(c: Seq<int>)
    requires
        reduced(c, F::modulus()),
        domain_fits2::<F>(c.len() as int),
    ensures
        encoded2::<F>(decoded2::<F>(c)) == trim(c),
{
    let n = next_power(2, c.len() as int);
    let d = decoded2::<F>(c);
    lemma_domain2::<F>(c.len() as int);
    lemma_degree_bound(c);
    assert(resized(d, n as nat) =~= d);
    lemma_encode_decode(c, n as nat, root2::<F>(n), F::modulus());
}

/// The encoding polynomial is the only one of its degree that has the values on the domain.
pub proof fn law_encode_unique2<F: PrimeField>(values: Seq<int>, c: Seq<int>)
    requires
        values.len() > 0,
        domain_fits2::<F>(values.len() as int),
        reduced(c, F::modulus()),
        c.len() <= next_power(2, values.len() as int),
        forall|i: int|
            0 <= i < next_power(2, values.len() as int) ==> eval(
                c,
                #[trigger] domain2::<F>(i, values.len() as int),
            ) % F::modulus() == coef(values, i),
    ensures
        trim(c) == encoded2::<F>(values),
{
    let size = values.len() as int;
    let n = next_power(2, size);
    let v = resized(values, n as nat);
    let w = root2::<F>(n);
    lemma_domain2::<F>(size);
    assert forall|i: int| 0 <= i < v.len() implies eval(
        c,
        #[trigger] pow(w, i as nat) % F::modulus(),
    ) % F::modulus() == v[i] by {
        assert(domain2::<F>(i, size) == pow(w, i as nat) % F::modulus());
    }
    lemma_values_determine(c, v, w, F::modulus());
}

/// The elements of a domain are distinct roots of unity, and the size of the domain is rounded up
/// to a power of two.
pub proof fn law_domain2<F: PrimeField>(size: int, i: int, j: int)
    requires
        domain_fits2::<F>(size),
        0 <= i < next_power(2, size),
        0 <= j < next_power(2, size),
        i != j,
    ensures
        domain2::<F>(i, size) != domain2::<F>(j, size),
        pow(domain2::<F>(i, size), next_power(2, size) as nat) % F::modulus() == 1,
        domain2::<F>(i, size) == domain2::<F>(i, next_power(2, size)),
{
    let n = next_power(2, size);
    let w = root2::<F>(n);
    lemma_domain2::<F>(size);
    lemma_root_of_unity_power(w, n, i as nat, F::modulus());
    if i < j {
        lemma_root_powers_distinct(w, n, i as nat, j as nat, F::modulus());
    } else {
        lemma_root_powers_distinct(w, n, j as nat, i as nat, F::modulus());
    }
}

/// An element of a domain, raised to the order of the two-adic subgroup, is one.
proof fn lemma_domain2_order<F: PrimeField>(i: int, size: int)
    requires
        domain_fits2::<F>(size),
        i >= 0,
    ensures
        pow(domain2::<F>(i, size), pow(2, F::two_adicity()) as nat) % F::modulus() == 1,
{
    let p = F::modulus();
    let k = ceil_log(2, size);
    let n = next_power(2, size);
    let s = F::two_adicity();
    lemma_domain2::<F>(size);
    lemma_exponent_order(2, k, s);
    lemma_root_of_unity_power(root2::<F>(n), n, i as nat, p);
    lemma_pow_adds(2, k, (s - k) as nat);
    lemma_pow_positive(2, (s - k) as nat);
    lemma_pow_positive(2, s);
    let x = domain2::<F>(i, size);
    let q = pow(2, (s - k) as nat) as nat;
    lemma_pow_multiplies(x, n as nat, q);
    assert((n as nat) * q == pow(2, s) as nat);
    lemma_small_mod(1, p as nat);
    lemma_pow_congr(pow(x, n as nat), 1, q, p);
    lemma1_pow(q);
}

/// If the shift lies outside the two-adic subgroup, the shifted domain of an extension has no
/// element in common with any of the domains: an extension shows none of the values that a
/// polynomial encodes.
pub proof fn law_coset_disjoint2<F: PrimeField>(i: int, m: int, j: int, n: int)
    requires
        domain_fits2::<F>(m),
        domain_fits2::<F>(n),
        i >= 0,
        j >= 0,
        pow(F::coset_shift(), pow(2, F::two_adicity()) as nat) % F::modulus() != 1,
    ensures
        coset2::<F>(i, m) != domain2::<F>(j, n),
{
    let p = F::modulus();
    F::lemma_modulus();
    lemma_domain2_order::<F>(i, m);
    lemma_domain2_order::<F>(j, n);
    let y = domain2::<F>(j, n);
    lemma_shift_leaves(
        F::coset_shift(),
        domain2::<F>(i, m),
        y,
        pow(2, F::two_adicity()) as nat,
        p,
    );
    lemma_mod_mod(pow(root2::<F>(next_power(2, n)), j as nat), p);
}

/// A polynomial is a multiple of `x^n - 1` exactly when it is zero on the domain of size `n`.
pub proof fn law_divisible2<F: PrimeField>(c: Seq<int>, n: nat)
    requires
        is_power(2, n as int),
        domain_fits2::<F>(n as int),
        reduced(c, F::modulus()),
    ensures
        (exists|q: Seq<int>|
            same_poly(#[trigger] poly_mul(q, vanishing(n), F::modulus()), c)) <==> (forall|i: int|
            0 <= i < n ==> eval(c, #[trigger] domain2::<F>(i, n as int)) % F::modulus() == 0),
{
    let p = F::modulus();
    let k = choose|k: nat| n as int == #[trigger] pow(2, k);
    lemma_next_power_fixed(2, k);
    lemma_domain2::<F>(n as int);
    let w = root2::<F>(n as int);
    lemma_divisible_iff(c, n, w, p);
    if forall|i: int| 0 <= i < n ==> eval(c, #[trigger] domain2::<F>(i, n as int)) % p == 0 {
        assert forall|i: int| 0 <= i < n implies eval(c, #[trigger] pow(w, i as nat) % p) % p
            == 0 by {
            assert(domain2::<F>(i, n as int) == pow(w, i as nat) % p);
        }
    }
    if forall|i: int| 0 <= i < n ==> eval(c, #[trigger] pow(w, i as nat) % p) % p == 0 {
        assert forall|i: int| 0 <= i < n implies eval(c, #[trigger] domain2::<F>(i, n as int)) % p
            == 0 by {
            assert(eval(c, pow(w, i as nat) % p) % p == 0);
        }
    }
}

/// Multiplying the values of two polynomials gives the values of their product, on the domain that
/// is large enough for it.
pub proof fn law_product_values2<F: PrimeField>(a: Seq<int>, b: Seq<int>, k: nat, i: int)
    requires
        reduced(a, F::modulus()),
        reduced(b, F::modulus()),
        a.len() <= pow(2, k),
        b.len() <= pow(2, k),
        k < F::two_adicity(),
        0 <= i < next_power(2, product_length(a, b)),
    ensures
        ({
            let n = pow(2, k);
            let m = next_power(2, product_length(a, b));
            let lhs = dft(resized(a, n as nat), root2::<F>(n), F::modulus());
            let rhs = dft(resized(b, n as nat), root2::<F>(n), F::modulus());
            &&& product_values2::<F>(lhs, rhs).len() == m
            &&& product_values2::<F>(lhs, rhs)[i] == eval(
                poly_mul(a, b, F::modulus()),
                domain2::<F>(i, m),
            ) % F::modulus()
        }),
{
    let p = F::modulus();
    let n = pow(2, k);
    F::lemma_modulus();
    lemma_root2::<F>(k);
    let w = root2::<F>(n);
    lemma_idft_dft_resized(a, n as nat, w, p);
    lemma_idft_dft_resized(b, n as nat, w, p);
    let m = next_power(2, product_length(a, b));
    lemma_next_power(2, product_length(a, b));
    lemma_next_power_fixed(2, ceil_log(2, product_length(a, b)));
    lemma_product_value(a, b, n as nat, m as nat, root2::<F>(m), p, i);
}

/// Multiplication of polynomials by their values is commutative.
pub proof fn law_product_values_commutes2<F: PrimeField>(lhs: Seq<int>, rhs: Seq<int>)
    requires
        lhs.len() == rhs.len(),
    ensures
        product_values2::<F>(lhs, rhs) == product_values2::<F>(rhs, lhs),
{
    let w = root2::<F>(lhs.len() as int);
    lemma_poly_mul_commutes(idft(lhs, w, F::modulus()), idft(rhs, w, F::modulus()), F::modulus());
}

/// Encoding the product of two lists of values gives the product of the encoded lists, and the
/// order of the lists does not matter. The product has a two-adic domain, and so do the lists.
pub proof fn law_product_values_round_trip2<F: PrimeField>(lhs: Seq<int>, rhs: Seq<int>)
    requires
        is_power(2, lhs.len() as int),
        rhs.len() == lhs.len(),
        2 * lhs.len() <= pow(2, F::two_adicity()),
        reduced(lhs, F::modulus()),
        reduced(rhs, F::modulus()),
    ensures
        encoded2::<F>(product_values2::<F>(lhs, rhs)) == trim(
            poly_mul(encoded2::<F>(lhs), encoded2::<F>(rhs), F::modulus()),
        ),
        product_values2::<F>(rhs, lhs) == product_values2::<F>(lhs, rhs),
        is_power(2, product_values2::<F>(lhs, rhs).len() as int),
        2 * lhs.len() <= usize::MAX ==> {
            &&& domain_fits2::<F>(lhs.len() as int)
            &&& domain_fits2::<F>(product_values2::<F>(lhs, rhs).len() as int)
            &&& product_fits::<F>(encoded2::<F>(lhs), encoded2::<F>(rhs))
        },
{
    let p = F::modulus();
    let n = lhs.len() as int;
    let k = choose|k: nat| n == #[trigger] pow(2, k);
    let w = root2::<F>(n);
    let a = idft(lhs, w, p);
    let b = idft(rhs, w, p);
    let l = product_length(a, b);
    let m = next_power(2, l);
    F::lemma_modulus();
    lemma_pow_step(2, k);
    lemma_exponent_order(2, k, F::two_adicity());
    lemma_root2::<F>(k);
    lemma_next_power_fixed(2, k);
    lemma_degree_bound(a);
    lemma_degree_bound(b);
    lemma_trim(a);
    lemma_trim(b);
    lemma_next_power(2, l);
    lemma_next_power_least(2, l, k + 1);
    lemma_exponent_order(2, ceil_log(2, l), F::two_adicity());
    lemma_root2::<F>(ceil_log(2, l));
    lemma_next_power_fixed(2, ceil_log(2, l));
    assert(resized(lhs, n as nat) =~= lhs);
    assert(resized(rhs, n as nat) =~= rhs);
    let v = product_values2::<F>(lhs, rhs);
    assert(v.len() == m);
    assert(resized(v, m as nat) =~= v);
    lemma_product_round_trip(a, b, m as nat, root2::<F>(m), p);
    law_product_values_commutes2::<F>(lhs, rhs);
}

/// If all the values of one list are zero, so are those of the product.
pub proof fn law_product_values_zero2<F: PrimeField>(lhs: Seq<int>, rhs: Seq<int>)
    requires
        lhs.len() == rhs.len(),
        all_zero(lhs) || all_zero(rhs),
    ensures
        all_zero(product_values2::<F>(lhs, rhs)),
{
    let p = F::modulus();
    let w = root2::<F>(lhs.len() as int);
    let a = idft(lhs, w, p);
    let b = idft(rhs, w, p);
    let m = next_power(2, product_length(a, b));
    F::lemma_modulus();
    if all_zero(lhs) {
        lemma_zero_values(lhs, w, p);
    } else {
        lemma_zero_values(rhs, w, p);
    }
    lemma_zero_product_values(a, b, m as nat, root2::<F>(m), p);
}

/// The three-adic domain for a size, from an exponent.
proof fn lemma_domain3<F: ThreeAdicField>(size: int)
    requires
        domain_fits3::<F>(size),
    ensures
        is_prime(F::modulus()),
        next_power(3, size) > 0,
        next_power(3, size) >= size,
        next_power(3, size) < F::modulus(),
        primitive_root(root3::<F>(next_power(3, size)), next_power(3, size), F::modulus()),
        next_power(3, next_power(3, size)) == next_power(3, size),
{
    let k = ceil_log(3, size);
    F::lemma_modulus();
    lemma_next_power(3, size);
    lemma_exponent_order(3, k, F::three_adicity());
    lemma_root3::<F>(k);
    lemma_next_power_fixed(3, k);
}

/// The root of unity of a subgroup is a power of that of the group.
pub proof fn lemma_root3_subgroup<F: ThreeAdicField>(j: nat, k: nat)
    requires
        j <= k <= F::three_adicity(),
    ensures
        pow(3, k) == pow(3, j) * pow(3, (k - j) as nat),
        pow(3, (k - j) as nat) > 0,
        root3::<F>(pow(3, j)) % F::modulus() == pow(
            root3::<F>(pow(3, k)),
            pow(3, (k - j) as nat) as nat,
        ) % F::modulus(),
{
    let p = F::modulus();
    let s = F::three_adicity();
    let r = F::three_adic_root();
    F::lemma_modulus();
    lemma_root3::<F>(j);
    lemma_root3::<F>(k);
    lemma_pow_positive(3, (k - j) as nat);
    lemma_pow_positive(3, (s - k) as nat);
    let a = pow(3, (s - k) as nat) as nat;
    let b = pow(3, (k - j) as nat) as nat;
    lemma_pow_adds(3, j, (k - j) as nat);
    lemma_pow_adds(3, (s - k) as nat, (k - j) as nat);
    assert((s - k) as nat + (k - j) as nat == (s - j) as nat);
    lemma_pow_multiplies(r, a, b);
    lemma_mod_mod(pow(r, a), p);
    lemma_pow_congr(pow(r, a), pow(r, a) % p, b, p);
    lemma_mod_mod(pow(r, a * b), p);
}

/// Decoding an encoded list gives every value of the list, padded with zeros, whose index is a
/// multiple of the ratio of the two domains.
pub proof fn law_decode_encode3<F: ThreeAdicField>(values: Seq<int>, i: int)
    requires
        values.len() > 0,
        reduced(values, F::modulus()),
        domain_fits3::<F>(values.len() as int),
        0 <= i < decoded3::<F>(encoded3::<F>(values)).len(),
    ensures
        decoded3::<F>(encoded3::<F>(values)).len() == next_power(
            3,
            encoded3::<F>(values).len() as int,
        ),
        next_power(3, values.len() as int) % next_power(3, encoded3::<F>(values).len() as int) == 0,
        decoded3::<F>(encoded3::<F>(values))[i] == coef(
            values,
            i * (next_power(3, values.len() as int) / next_power(
                3,
                encoded3::<F>(values).len() as int,
            )),
        ),
{
    let p = F::modulus();
    let size = values.len() as int;
    let n = next_power(3, size);
    let v = resized(values, n as nat);
    let w = root3::<F>(n);
    let c = encoded3::<F>(values);
    let m = next_power(3, c.len() as int);
    let k = ceil_log(3, size);
    let j = ceil_log(3, c.len() as int);
    lemma_domain3::<F>(size);
    assert forall|l: int| 0 <= l < v.len() implies 0 <= #[trigger] v[l] < p by {
        assert(v[l] == coef(values, l));
    }
    lemma_encoded(v, w, p, 0);
    lemma_next_power(3, c.len() as int);
    lemma_next_power_least(3, c.len() as int, k);
    lemma_exponent_order(3, k, F::three_adicity());
    lemma_root3_subgroup::<F>(j, k);
    let q = pow(3, (k - j) as nat);
    assert(m * q == q * m) by (nonlinear_arith);
    lemma_fundamental_div_mod_converse(n, m, q, 0);
    lemma_decode_subgroup(v, w, root3::<F>(m), m, q, p, i);
}

/// Decoding undoes encoding: it gives the list back, padded with zeros to a power of three, if the
/// degree of the encoding polynomial is not below a third of that.
pub proof fn law_decode_undoes_encode3<F: ThreeAdicField>(values: Seq<int>)
    requires
        values.len() > 0,
        reduced(values, F::modulus()),
        domain_fits3::<F>(values.len() as int),
        next_power(3, encoded3::<F>(values).len() as int) == next_power(3, values.len() as int),
    ensures
        decoded3::<F>(encoded3::<F>(values)) == resized(
            values,
            next_power(3, values.len() as int) as nat,
        ),
{
    let n = next_power(3, values.len() as int);
    let d = decoded3::<F>(encoded3::<F>(values));
    lemma_domain3::<F>(values.len() as int);
    assert forall|i: int| 0 <= i < n implies d[i] == resized(values, n as nat)[i] by {
        law_decode_encode3::<F>(values, i);
        lemma_fundamental_div_mod_converse(n, n, 1, 0);
        assert(i * 1 == i);
    }
    assert(d =~= resized(values, n as nat));
}

/// Encoding undoes decoding: it gives the polynomial back, without trailing zeros.
pub proof fn law_encode_undoes_decode3<F: ThreeAdicField>(c: Seq<int>)
    requires
        reduced(c, F::modulus()),
        domain_fits3::<F>(c.len() as int),
    ensures
        encoded3::<F>(decoded3::<F>(c)) == trim(c),
{
    let n = next_power(3, c.len() as int);
    let d = decoded3::<F>(c);
    lemma_domain3::<F>(c.len() as int);
    lemma_degree_bound(c);
    assert(resized(d, n as nat) =~= d);
    lemma_encode_decode(c, n as nat, root3::<F>(n), F::modulus());
}

/// The encoding polynomial is the only one of its degree that has the values on the domain.
pub proof fn law_encode_unique3<F: ThreeAdicField>(values: Seq<int>, c: Seq<int>)
    requires
        values.len() > 0,
        domain_fits3::<F>(values.len() as int),
        reduced(c, F::modulus()),
        c.len() <= next_power(3, values.len() as int),
        forall|i: int|
            0 <= i < next_power(3, values.len() as int) ==> eval(
                c,
                #[trigger] domain3::<F>(i, values.len() as int),
            ) % F::modulus() == coef(values, i),
    ensures
        trim(c) == encoded3::<F>(values),
{
    let size = values.len() as int;
    let n = next_power(3, size);
    let v = resized(values, n as nat);
    let w = root3::<F>(n);
    lemma_domain3::<F>(size);
    assert forall|i: int| 0 <= i < v.len() implies eval(
        c,
        #[trigger] pow(w, i as nat) % F::modulus(),
    ) % F::modulus() == v[i] by {
        assert(domain3::<F>(i, size) == pow(w, i as nat) % F::modulus());
    }
    lemma_values_determine(c, v, w, F::modulus());
}

/// The elements of a domain are distinct roots of unity, and the size of the domain is rounded up
/// to a power of three.
pub proof fn law_domain3<F: ThreeAdicField>(size: int, i: int, j: int)
    requires
        domain_fits3::<F>(size),
        0 <= i < next_power(3, size),
        0 <= j < next_power(3, size),
        i != j,
    ensures
        domain3::<F>(i, size) != domain3::<F>(j, size),
        pow(domain3::<F>(i, size), next_power(3, size) as nat) % F::modulus() == 1,
        domain3::<F>(i, size) == domain3::<F>(i, next_power(3, size)),
{
    let n = next_power(3, size);
    let w = root3::<F>(n);
    lemma_domain3::<F>(size);
    lemma_root_of_unity_power(w, n, i as nat, F::modulus());
    if i < j {
        lemma_root_powers_distinct(w, n, i as nat, j as nat, F::modulus());
    } else {
        lemma_root_powers_distinct(w, n, j as nat, i as nat, F::modulus());
    }
}

/// An element of a domain, raised to the order of the three-adic subgroup, is one.
proof fn lemma_domain3_order<F: ThreeAdicField>(i: int, size: int)
    requires
        domain_fits3::<F>(size),
        i >= 0,
    ensures
        pow(domain3::<F>(i, size), pow(3, F::three_adicity()) as nat) % F::modulus() == 1,
{
    let p = F::modulus();
    let k = ceil_log(3, size);
    let n = next_power(3, size);
    let s = F::three_adicity();
    lemma_domain3::<F>(size);
    lemma_exponent_order(3, k, s);
    lemma_root_of_unity_power(root3::<F>(n), n, i as nat, p);
    lemma_pow_adds(3, k, (s - k) as nat);
    lemma_pow_positive(3, (s - k) as nat);
    lemma_pow_positive(3, s);
    let x = domain3::<F>(i, size);
    let q = pow(3, (s - k) as nat) as nat;
    lemma_pow_multiplies(x, n as nat, q);
    assert((n as nat) * q == pow(3, s) as nat);
    lemma_small_mod(1, p as nat);
    lemma_pow_congr(pow(x, n as nat), 1, q, p);
    lemma1_pow(q);
}

/// If the shift lies outside the three-adic subgroup, the shifted domain of an extension has no
/// element in common with any of the domains: an extension shows none of the values that a
/// polynomial encodes.
pub proof fn law_coset_disjoint3<F: ThreeAdicField>(i: int, m: int, j: int, n: int)
    requires
        domain_fits3::<F>(m),
        domain_fits3::<F>(n),
        i >= 0,
        j >= 0,
        pow(F::coset_shift(), pow(3, F::three_adicity()) as nat) % F::modulus() != 1,
    ensures
        coset3::<F>(i, m) != domain3::<F>(j, n),
{
    let p = F::modulus();
    F::lemma_modulus();
    lemma_domain3_order::<F>(i, m);
    lemma_domain3_order::<F>(j, n);
    let y = domain3::<F>(j, n);
    lemma_shift_leaves(
        F::coset_shift(),
        domain3::<F>(i, m),
        y,
        pow(3, F::three_adicity()) as nat,
        p,
    );
    lemma_mod_mod(pow(root3::<F>(next_power(3, n)), j as nat), p);
}

/// A polynomial is a multiple of `x^n - 1` exactly when it is zero on the domain of size `n`.
pub proof fn law_divisible3<F: ThreeAdicField>(c: Seq<int>, n: nat)
    requires
        is_power(3, n as int),
        domain_fits3::<F>(n as int),
        reduced(c, F::modulus()),
    ensures
        (exists|q: Seq<int>|
            same_poly(#[trigger] poly_mul(q, vanishing(n), F::modulus()), c)) <==> (forall|i: int|
            0 <= i < n ==> eval(c, #[trigger] domain3::<F>(i, n as int)) % F::modulus() == 0),
{
    let p = F::modulus();
    let k = choose|k: nat| n as int == #[trigger] pow(3, k);
    lemma_next_power_fixed(3, k);
    lemma_domain3::<F>(n as int);
    let w = root3::<F>(n as int);
    lemma_divisible_iff(c, n, w, p);
    if forall|i: int| 0 <= i < n ==> eval(c, #[trigger] domain3::<F>(i, n as int)) % p == 0 {
        assert forall|i: int| 0 <= i < n implies eval(c, #[trigger] pow(w, i as nat) % p) % p
            == 0 by {
            assert(domain3::<F>(i, n as int) == pow(w, i as nat) % p);
        }
    }
    if forall|i: int| 0 <= i < n ==> eval(c, #[trigger] pow(w, i as nat) % p) % p == 0 {
        assert forall|i: int| 0 <= i < n implies eval(c, #[trigger] domain3::<F>(i, n as int)) % p
            == 0 by {
            assert(eval(c, pow(w, i as nat) % p) % p == 0);
        }
    }
}

/// Multiplying the values of two polynomials gives the values of their product, on the domain that
/// is large enough for it.
pub proof fn law_product_values3<F: ThreeAdicField>(a: Seq<int>, b: Seq<int>, k: nat, i: int)
    requires
        reduced(a, F::modulus()),
        reduced(b, F::modulus()),
        a.len() <= pow(3, k),
        b.len() <= pow(3, k),
        k < F::three_adicity(),
        0 <= i < next_power(3, product_length(a, b)),
    ensures
        ({
            let n = pow(3, k);
            let m = next_power(3, product_length(a, b));
            let lhs = dft(resized(a, n as nat), root3::<F>(n), F::modulus());
            let rhs = dft(resized(b, n as nat), root3::<F>(n), F::modulus());
            &&& product_values3::<F>(lhs, rhs).len() == m
            &&& product_values3::<F>(lhs, rhs)[i] == eval(
                poly_mul(a, b, F::modulus()),
                domain3::<F>(i, m),
            ) % F::modulus()
        }),
{
    let p = F::modulus();
    let n = pow(3, k);
    F::lemma_modulus();
    lemma_root3::<F>(k);
    let w = root3::<F>(n);
    lemma_idft_dft_resized(a, n as nat, w, p);
    lemma_idft_dft_resized(b, n as nat, w, p);
    let m = next_power(3, product_length(a, b));
    lemma_next_power(3, product_length(a, b));
    lemma_next_power_fixed(3, ceil_log(3, product_length(a, b)));
    lemma_product_value(a, b, n as nat, m as nat, root3::<F>(m), p, i);
}

/// Multiplication of polynomials by their values is commutative.
pub proof fn law_product_values_commutes3<F: ThreeAdicField>(lhs: Seq<int>, rhs: Seq<int>)
    requires
        lhs.len() == rhs.len(),
    ensures
        product_values3::<F>(lhs, rhs) == product_values3::<F>(rhs, lhs),
{
    let w = root3::<F>(lhs.len() as int);
    lemma_poly_mul_commutes(idft(lhs, w, F::modulus()), idft(rhs, w, F::modulus()), F::modulus());
}

/// Encoding the product of two lists of values gives the product of the encoded lists, and the
/// order of the lists does not matter. The product has a three-adic domain, and so do the lists.
pub proof fn law_product_values_round_trip3<F: ThreeAdicField>(lhs: Seq<int>, rhs: Seq<int>)
    requires
        is_power(3, lhs.len() as int),
        rhs.len() == lhs.len(),
        3 * lhs.len() <= pow(3, F::three_adicity()),
        reduced(lhs, F::modulus()),
        reduced(rhs, F::modulus()),
    ensures
        encoded3::<F>(product_values3::<F>(lhs, rhs)) == trim(
            poly_mul(encoded3::<F>(lhs), encoded3::<F>(rhs), F::modulus()),
        ),
        product_values3::<F>(rhs, lhs) == product_values3::<F>(lhs, rhs),
        is_power(3, product_values3::<F>(lhs, rhs).len() as int),
        3 * lhs.len() <= usize::MAX ==> {
            &&& domain_fits3::<F>(lhs.len() as int)
            &&& domain_fits3::<F>(product_values3::<F>(lhs, rhs).len() as int)
        },
{
    let p = F::modulus();
    let n = lhs.len() as int;
    let k = choose|k: nat| n == #[trigger] pow(3, k);
    let w = root3::<F>(n);
    let a = idft(lhs, w, p);
    let b = idft(rhs, w, p);
    let l = product_length(a, b);
    let m = next_power(3, l);
    F::lemma_modulus();
    lemma_pow_step(3, k);
    lemma_exponent_order(3, k, F::three_adicity());
    lemma_root3::<F>(k);
    lemma_next_power_fixed(3, k);
    lemma_degree_bound(a);
    lemma_degree_bound(b);
    lemma_trim(a);
    lemma_trim(b);
    lemma_next_power(3, l);
    lemma_next_power_least(3, l, k + 1);
    lemma_exponent_order(3, ceil_log(3, l), F::three_adicity());
    lemma_root3::<F>(ceil_log(3, l));
    lemma_next_power_fixed(3, ceil_log(3, l));
    assert(resized(lhs, n as nat) =~= lhs);
    assert(resized(rhs, n as nat) =~= rhs);
    let v = product_values3::<F>(lhs, rhs);
    assert(v.len() == m);
    assert(resized(v, m as nat) =~= v);
    lemma_product_round_trip(a, b, m as nat, root3::<F>(m), p);
    law_product_values_commutes3::<F>(lhs, rhs);
}

/// If all the values of one list are zero, so are those of the product.
pub proof fn law_product_values_zero3<F: ThreeAdicField>(lhs: Seq<int>, rhs: Seq<int>)
    requires
        lhs.len() == rhs.len(),
        all_zero(lhs) || all_zero(rhs),
    ensures
        all_zero(product_values3::<F>(lhs, rhs)),
{
    let p = F::modulus();
    let w = root3::<F>(lhs.len() as int);
    let a = idft(lhs, w, p);
    let b = idft(rhs, w, p);
    let m = next_power(3, product_length(a, b));
    F::lemma_modulus();
    if all_zero(lhs) {
        lemma_zero_values(lhs, w, p);
    } else {
        lemma_zero_values(rhs, w, p);
    }
    lemma_zero_product_values(a, b, m as nat, root3::<F>(m), p);
}

/// The shifted two-adic domains of the BlueSky field have no element in common with the domains.
pub proof fn law_bluesky_coset_disjoint2(i: int, m: int, j: int, n: int)
    requires
        domain_fits2::<Scalar>(m),
        domain_fits2::<Scalar>(n),
        i >= 0,
        j >= 0,
    ensures
        coset2::<Scalar>(i, m) != domain2::<Scalar>(j, n),
{
    lemma_generator();
    law_coset_disjoint2::<Scalar>(i, m, j, n);
}

/// The shifted three-adic domains of the BlueSky field have no element in common with the domains.
pub proof fn law_bluesky_coset_disjoint3(i: int, m: int, j: int, n: int)
    requires
        domain_fits3::<Scalar>(m),
        domain_fits3::<Scalar>(n),
        i >= 0,
        j >= 0,
    ensures
        coset3::<Scalar>(i, m) != domain3::<Scalar>(j, n),
{
    lemma_generator();
    law_coset_disjoint3::<Scalar>(i, m, j, n);
}

} // verus!
