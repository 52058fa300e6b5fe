//! Where the points of the domains and cosets lie, in terms of the field's own roots of unity and
//! shift, and which values the operations give or take there.
use crate::algebra::{
    coef, degree_bound, eval, lemma_degree_bound, lemma_eval_congr, lemma_eval_constant,
    lemma_eval_same, lemma_resized_same, lemma_trim, lemma_trim_fixed, poly_mul, reduced, resized,
    trim,
};
use crate::convolution::lemma_product_trim;
use crate::digits::{
    ceil_log, is_power, lemma_exponent_order, lemma_next_power, lemma_next_power_fixed,
    lemma_next_power_least, lemma_pow_step, next_power,
};
use crate::domain_laws::{
    law_domain2, law_domain3, law_encode_unique2, law_encode_unique3, law_product_values2,
    law_product_values3, lemma_root2_subgroup, lemma_root3_subgroup,
};
use crate::domains::{lemma_dft_resized, lemma_encoded, product_length};
use crate::field::{
    coset2, coset3, domain2, domain3, domain_fits2, domain_fits3, lemma_root2, lemma_root3, root2,
    root3, PrimeField, ThreeAdicField,
};
use crate::laws::law_multiply_degree;
use crate::modular::{
    inverse, is_prime, lemma_cancel, lemma_mod_mod, lemma_mul_congr, lemma_pow_congr,
};
use crate::products::lemma_eval_poly_mul;
use crate::three_adic::{decoded3, encoded3, product_values3};
use crate::transform::{dft, idft, lemma_dft_idft, primitive_root};
use crate::two_adic::{decoded2, encoded2, product_values2};
use vstd::arithmetic::div_mod::{lemma_fundamental_div_mod_converse, lemma_small_mod};
use vstd::arithmetic::power::{
    lemma_pow0, lemma_pow1, lemma_pow_adds, lemma_pow_increases, lemma_pow_multiplies,
    lemma_pow_positive, pow,
};
use vstd::prelude::*;

verus! {

/// A power of a reduced power.
proof fn lemma_reduced_power(r: int, q: nat, i: nat, p: int)
    requires
        p > 0,
    ensures
        pow(pow(r, q) % p, i) % p == pow(r, q * i) % p,
{
    lemma_mod_mod(pow(r, q), p);
    lemma_pow_congr(pow(r, q) % p, pow(r, q), i, p);
    lemma_pow_multiplies(r, q, i);
}

/// The values of a product at the points of a domain that is long enough, from the values of the
/// factors there.
proof fn lemma_product_at(a: Seq<int>, b: Seq<int>, m: nat, w: int, p: int, i: int)
    requires
        p > 1,
        degree_bound(a) + degree_bound(b) - 1 <= m,
        0 <= i < m,
    ensures
        dft(resized(poly_mul(a, b, p), m), w, p)[i] == (eval(a, pow(w, i as nat)) * eval(
            b,
            pow(w, i as nat),
        )) % p,
{
    let c = poly_mul(a, b, p);
    let x = pow(w, i as nat);
    lemma_product_trim(a, b, p);
    lemma_trim(a);
    lemma_trim(b);
    lemma_resized_same(c, m);
    lemma_eval_same(resized(c, m), c, x);
    lemma_eval_poly_mul(a, b, x, p);
}

/// The coefficients of an inverse transform are residues.
proof fn lemma_idft_reduced(v: Seq<int>, w: int, p: int)
    requires
        p > 0,
    ensures
        reduced(idft(v, w, p), p),
{
    let c = idft(v, w, p);
    let d = dft(v, inverse(w, p), p);
    assert forall|i: int| 0 <= i < c.len() implies 0 <= #[trigger] c[i] < p by {
        lemma_mod_mod(d[i] * inverse(v.len() as int, p), p);
    }
}

/// The products of the values that two polynomials have at a point.
proof fn lemma_products_of_values(
    l: Seq<int>,
    r: Seq<int>,
    w: int,
    u: int,
    e: nat,
    j: int,
    p: int,
)
    requires
        is_prime(p),
        l.len() == r.len(),
        primitive_root(w, l.len() as int, p),
        reduced(l, p),
        reduced(r, p),
        l.len() < p,
        0 <= j < l.len(),
        pow(u, e) % p == pow(w, j as nat) % p,
    ensures
        (eval(idft(l, w, p), pow(u, e)) * eval(idft(r, w, p), pow(u, e))) % p == (l[j] * r[j]) % p,
{
    let a = idft(l, w, p);
    let b = idft(r, w, p);
    let x = pow(u, e);
    let y = pow(w, j as nat);
    lemma_small_mod(l.len(), p as nat);
    lemma_dft_idft(l, w, p);
    lemma_dft_idft(r, w, p);
    assert(dft(a, w, p)[j] == l[j]);
    assert(dft(b, w, p)[j] == r[j]);
    lemma_eval_congr(a, a, x, y, p);
    lemma_eval_congr(b, b, x, y, p);
    lemma_mod_mod(eval(a, x), p);
    lemma_mod_mod(eval(b, x), p);
    lemma_mul_congr(eval(a, x), l[j], eval(b, x), r[j], p);
}

/// A domain for a list exists exactly when some power of two is at least as large as the list, no
/// larger than the two-adic subgroup, and a machine word.
pub proof fn law_domain_exists2<F: PrimeField>(size: int)
    ensures
        domain_fits2::<F>(size) <==> exists|k: nat|
            k <= F::two_adicity() && size <= #[trigger] pow(2, k) && pow(2, k) <= usize::MAX,
{
    lemma_next_power(2, size);
    let j = ceil_log(2, size);
    if domain_fits2::<F>(size) {
        lemma_exponent_order(2, j, F::two_adicity());
        assert(size <= pow(2, j) && pow(2, j) <= usize::MAX);
    }
    if exists|k: nat|
        k <= F::two_adicity() && size <= #[trigger] pow(2, k) && pow(2, k) <= usize::MAX {
        let k = choose|k: nat|
            k <= F::two_adicity() && size <= #[trigger] pow(2, k) && pow(2, k) <= usize::MAX;
        lemma_next_power_least(2, size, k);
        lemma_pow_increases(2, k, F::two_adicity());
    }
}

/// The size of a domain divides the order of the two-adic subgroup.
proof fn lemma_ratio2<F: PrimeField>(size: int)
    requires
        domain_fits2::<F>(size),
    ensures
        ({
            let n = next_power(2, size);
            let q = pow(2, F::two_adicity()) / n;
            &&& is_prime(F::modulus())
            &&& 0 < n < F::modulus()
            &&& q > 0
            &&& pow(2, F::two_adicity()) == n * q
            &&& root2::<F>(n) == pow(F::two_adic_root(), q as nat) % F::modulus()
            &&& primitive_root(root2::<F>(n), n, F::modulus())
            &&& next_power(2, n) == n
        }),
{
    let k = ceil_log(2, size);
    F::lemma_modulus();
    lemma_next_power(2, size);
    lemma_exponent_order(2, k, F::two_adicity());
    lemma_root2::<F>(k);
    lemma_next_power_fixed(2, k);
    lemma_pow_positive(2, (F::two_adicity() - k) as nat);
    lemma_pow_adds(2, k, (F::two_adicity() - k) as nat);
}

/// The elements of a domain are the powers of the field's two-adic root of unity whose exponents
/// are the multiples of the ratio of the subgroup and the domain: the first is one, and each is the
/// one before it times the same root of unity.
pub proof fn law_domain_points2<F: PrimeField>(size: int, i: int)
    requires
        domain_fits2::<F>(size),
        i >= 0,
    ensures
        ({
            let q = pow(2, F::two_adicity()) / next_power(2, size);
            &&& domain2::<F>(i, size) == pow(F::two_adic_root(), (q * i) as nat) % F::modulus()
            &&& domain2::<F>(0, size) == 1
            &&& domain2::<F>(i + 1, size) == (domain2::<F>(i, size) * pow(
                F::two_adic_root(),
                q as nat,
            )) % F::modulus()
        }),
{
    let p = F::modulus();
    let n = next_power(2, size);
    let q = pow(2, F::two_adicity()) / n;
    let r = F::two_adic_root();
    lemma_ratio2::<F>(size);
    let w = root2::<F>(n);
    lemma_reduced_power(r, q as nat, i as nat, p);
    assert((q as nat) * (i as nat) == q * i) by (nonlinear_arith)
        requires
            q > 0,
            i >= 0,
    ;
    lemma_pow0(w);
    lemma_small_mod(1, p as nat);
    lemma_pow_adds(w, i as nat, 1);
    lemma_pow1(w);
    lemma_mod_mod(pow(w, i as nat), p);
    lemma_mod_mod(pow(r, q as nat), p);
    lemma_mul_congr(
        pow(w, i as nat) % p,
        pow(w, i as nat),
        pow(r, q as nat),
        w,
        p,
    );
}

/// The elements of a coset are the field's shift times the elements of the domain: the first is the
/// shift, and each is the one before it times the root of unity of the domain.
pub proof fn law_coset_points2<F: PrimeField>(size: int, i: int)
    requires
        domain_fits2::<F>(size),
        i >= 0,
    ensures
        ({
            let q = pow(2, F::two_adicity()) / next_power(2, size);
            &&& coset2::<F>(i, size) == (F::coset_shift() * domain2::<F>(i, size)) % F::modulus()
            &&& coset2::<F>(i, size) == (F::coset_shift() * pow(
                F::two_adic_root(),
                (q * i) as nat,
            )) % F::modulus()
            &&& coset2::<F>(0, size) == F::coset_shift()
            &&& coset2::<F>(i + 1, size) == (coset2::<F>(i, size) * pow(
                F::two_adic_root(),
                q as nat,
            )) % F::modulus()
        }),
{
    let p = F::modulus();
    let q = pow(2, F::two_adicity()) / next_power(2, size);
    let g = F::coset_shift();
    let z = pow(F::two_adic_root(), q as nat);
    let x = domain2::<F>(i, size);
    lemma_ratio2::<F>(size);
    law_domain_points2::<F>(size, i);
    F::lemma_coset_shift();
    lemma_small_mod(g as nat, p as nat);
    let y = pow(F::two_adic_root(), (q * i) as nat);
    lemma_mod_mod(y, p);
    lemma_mul_congr(g, g, x, y, p);
    lemma_mod_mod(x * z, p);
    lemma_mul_congr(g, g, (x * z) % p, x * z, p);
    lemma_mod_mod(g * x, p);
    lemma_mul_congr((g * x) % p, g * x, z, z, p);
    assert(g * (x * z) == (g * x) * z) by (nonlinear_arith);
}

/// The elements of a coset are distinct.
pub proof fn law_coset_distinct2<F: PrimeField>(size: int, i: int, j: int)
    requires
        domain_fits2::<F>(size),
        0 <= i < next_power(2, size),
        0 <= j < next_power(2, size),
        i != j,
    ensures
        coset2::<F>(i, size) != coset2::<F>(j, size),
{
    let p = F::modulus();
    let g = F::coset_shift();
    let x = domain2::<F>(i, size);
    let y = domain2::<F>(j, size);
    lemma_ratio2::<F>(size);
    law_coset_points2::<F>(size, i);
    law_coset_points2::<F>(size, j);
    law_domain2::<F>(size, i, j);
    law_domain_points2::<F>(size, i);
    law_domain_points2::<F>(size, j);
    F::lemma_coset_shift();
    lemma_small_mod(g as nat, p as nat);
    if coset2::<F>(i, size) == coset2::<F>(j, size) {
        lemma_cancel(g, x, y, p);
        lemma_mod_mod(pow(root2::<F>(next_power(2, size)), i as nat), p);
        lemma_mod_mod(pow(root2::<F>(next_power(2, size)), j as nat), p);
        law_points_reduced2::<F>(size, i);
        law_points_reduced2::<F>(size, j);
        lemma_small_mod(x as nat, p as nat);
        lemma_small_mod(y as nat, p as nat);
    }
}

/// The elements of domains and cosets are residues.
pub proof fn law_points_reduced2<F: PrimeField>(size: int, i: int)
    requires
        domain_fits2::<F>(size),
        i >= 0,
    ensures
        0 <= domain2::<F>(i, size) < F::modulus(),
        0 <= coset2::<F>(i, size) < F::modulus(),
{
    let q = pow(2, F::two_adicity()) / next_power(2, size);
    F::lemma_modulus();
    law_domain_points2::<F>(size, i);
    law_coset_points2::<F>(size, i);
    lemma_mod_mod(pow(F::two_adic_root(), (q * i) as nat), F::modulus());
    lemma_mod_mod(F::coset_shift() * domain2::<F>(i, size), F::modulus());
}

/// A larger domain, or its coset, has the elements of the smaller one at the multiples of the
/// ratio.
pub proof fn law_domains_nest2<F: PrimeField>(k: nat, i: int)
    requires
        k < F::two_adicity(),
        2 * pow(2, k) <= usize::MAX,
        i >= 0,
    ensures
        domain2::<F>(2 * i, 2 * pow(2, k)) == domain2::<F>(i, pow(2, k)),
        coset2::<F>(2 * i, 2 * pow(2, k)) == coset2::<F>(i, pow(2, k)),
{
    let n = pow(2, k);
    lemma_pow_step(2, k);
    lemma_next_power_fixed(2, k);
    lemma_next_power_fixed(2, k + 1);
    lemma_pow_increases(2, k, F::two_adicity());
    lemma_pow_increases(2, k + 1, F::two_adicity());
    lemma_ratio2::<F>(n);
    lemma_ratio2::<F>(2 * n);
    let q = pow(2, F::two_adicity()) / n;
    let s = pow(2, F::two_adicity()) / (2 * n);
    assert(q == 2 * s) by (nonlinear_arith)
        requires
            n * q == (2 * n) * s,
            n > 0,
    ;
    assert(q * i == s * (2 * i)) by (nonlinear_arith)
        requires
            q == 2 * s,
    ;
    law_domain_points2::<F>(n, i);
    law_domain_points2::<F>(2 * n, 2 * i);
    law_coset_points2::<F>(n, i);
    law_coset_points2::<F>(2 * n, 2 * i);
}

/// The encoding polynomial has the value with index `i`, or zero past the end of the list, at the
/// `i`-th power of the root of unity.
pub proof fn law_encode_points2<F: PrimeField>(values: Seq<int>, i: int)
    requires
        values.len() > 0,
        reduced(values, F::modulus()),
        domain_fits2::<F>(values.len() as int),
        0 <= i < next_power(2, values.len() as int),
    ensures
        ({
            let n = next_power(2, values.len() as int);
            let q = pow(2, F::two_adicity()) / n;
            &&& encoded2::<F>(values).len() <= n
            &&& encoded2::<F>(values).len() > 0 ==> encoded2::<F>(values).last() != 0
            &&& eval(encoded2::<F>(values), pow(F::two_adic_root(), (q * i) as nat))
                % F::modulus() == (if i < values.len() {
                values[i]
            } else {
                0
            })
        }),
{
    let p = F::modulus();
    let n = next_power(2, values.len() as int);
    let q = pow(2, F::two_adicity()) / n;
    let v = resized(values, n as nat);
    let c = encoded2::<F>(values);
    lemma_ratio2::<F>(values.len() as int);
    assert forall|l: int| 0 <= l < v.len() implies 0 <= #[trigger] v[l] < p by {
        assert(v[l] == coef(values, l));
    }
    let w = root2::<F>(n);
    lemma_encoded(v, w, p, i);
    law_domain_points2::<F>(values.len() as int, i);
    let x = pow(F::two_adic_root(), (q * i) as nat);
    lemma_mod_mod(x, p);
    lemma_eval_congr(c, c, x, pow(w, i as nat) % p, p);
    let full = idft(v, w, p);
    lemma_trim(full);
    lemma_degree_bound(trim(full));
}

/// The decoded list is as long as the domain of the polynomial's length, and holds its values at
/// the powers of the root of unity.
pub proof fn law_decode_points2<F: PrimeField>(c: Seq<int>, i: int)
    requires
        domain_fits2::<F>(c.len() as int),
        0 <= i < next_power(2, c.len() as int),
    ensures
        ({
            let n = next_power(2, c.len() as int);
            let q = pow(2, F::two_adicity()) / n;
            &&& decoded2::<F>(c).len() == n
            &&& decoded2::<F>(c)[i] == eval(c, pow(F::two_adic_root(), (q * i) as nat))
                % F::modulus()
        }),
{
    let p = F::modulus();
    let n = next_power(2, c.len() as int);
    let q = pow(2, F::two_adicity()) / n;
    lemma_next_power(2, c.len() as int);
    lemma_ratio2::<F>(c.len() as int);
    lemma_dft_resized(c, n as nat, root2::<F>(n), p, i);
    law_domain_points2::<F>(c.len() as int, i);
    let x = pow(F::two_adic_root(), (q * i) as nat);
    lemma_mod_mod(x, p);
    lemma_eval_congr(c, c, pow(root2::<F>(n), i as nat) % p, x, p);
}

/// The `i`-th value of a low-degree extension to `m` points is the value of the polynomial at the
/// shift times the `i`-th power of the root of unity.
pub proof fn law_extension_points2<F: PrimeField>(c: Seq<int>, m: int, i: int)
    requires
        is_power(2, m),
        domain_fits2::<F>(m),
        i >= 0,
    ensures
        eval(c, coset2::<F>(i, m)) % F::modulus() == eval(
            c,
            F::coset_shift() * pow(
                F::two_adic_root(),
                ((pow(2, F::two_adicity()) / m) * i) as nat,
            ),
        ) % F::modulus(),
{
    let p = F::modulus();
    let k = choose|k: nat| m == #[trigger] pow(2, k);
    lemma_next_power_fixed(2, k);
    F::lemma_modulus();
    law_coset_points2::<F>(m, i);
    let x = F::coset_shift() * pow(
        F::two_adic_root(),
        ((pow(2, F::two_adicity()) / m) * i) as nat,
    );
    lemma_mod_mod(x, p);
    lemma_eval_congr(c, c, x % p, x, p);
}

/// Multiplying the values of two polynomials gives the products of their values at the points of
/// another domain: the smallest one with at least as many points as the product has coefficients,
/// or as many as one factor's degree if the other factor is zero.
pub proof fn law_product_points2<F: PrimeField>(
    a: Seq<int>,
    b: Seq<int>,
    lhs: Seq<int>,
    rhs: Seq<int>,
    k: nat,
    i: int,
)
    requires
        reduced(a, F::modulus()),
        reduced(b, F::modulus()),
        a.len() <= pow(2, k),
        b.len() <= pow(2, k),
        k < F::two_adicity(),
        lhs.len() == pow(2, k),
        rhs.len() == pow(2, k),
        forall|j: int|
            0 <= j < lhs.len() ==> #[trigger] lhs[j] == eval(
                a,
                pow(F::two_adic_root(), ((pow(2, F::two_adicity()) / pow(2, k)) * j) as nat),
            ) % F::modulus(),
        forall|j: int|
            0 <= j < rhs.len() ==> #[trigger] rhs[j] == eval(
                b,
                pow(F::two_adic_root(), ((pow(2, F::two_adicity()) / pow(2, k)) * j) as nat),
            ) % F::modulus(),
        0 <= i < product_values2::<F>(lhs, rhs).len(),
    ensures
        ({
            let v = product_values2::<F>(lhs, rhs);
            let m = v.len() as int;
            let x = pow(F::two_adic_root(), ((pow(2, F::two_adicity()) / m) * i) as nat);
            &&& m == next_power(2, degree_bound(a) + degree_bound(b) - 1)
            &&& degree_bound(a) > 0 && degree_bound(b) > 0 ==> m == next_power(
                2,
                trim(poly_mul(a, b, F::modulus())).len() as int,
            )
            &&& v[i] == (eval(a, x) * eval(b, x)) % F::modulus()
        }),
{
    let p = F::modulus();
    let n = pow(2, k);
    let r = F::two_adic_root();
    let d = degree_bound(a) + degree_bound(b) - 1;
    F::lemma_modulus();
    lemma_root2::<F>(k);
    lemma_pow_positive(2, (F::two_adicity() - k) as nat);
    let q = pow(2, F::two_adicity()) / n;
    let w = root2::<F>(n);
    let da = dft(resized(a, n as nat), w, p);
    let db = dft(resized(b, n as nat), w, p);
    assert forall|j: int| 0 <= j < n implies da[j] == lhs[j] && db[j] == rhs[j] by {
        let x = pow(w, j as nat);
        let y = pow(r, (q * j) as nat);
        lemma_reduced_power(r, q as nat, j as nat, p);
        assert((q as nat) * (j as nat) == q * j) by (nonlinear_arith)
            requires
                q > 0,
                j >= 0,
        ;
        lemma_mod_mod(x, p);
        lemma_dft_resized(a, n as nat, w, p, j);
        lemma_dft_resized(b, n as nat, w, p, j);
        lemma_eval_congr(a, a, x % p, y, p);
        lemma_eval_congr(b, b, x % p, y, p);
    }
    assert(da =~= lhs);
    assert(db =~= rhs);
    lemma_next_power(2, d);
    assert(d == product_length(a, b));
    let m = next_power(2, d);
    law_product_values2::<F>(a, b, k, 0);
    law_product_values2::<F>(a, b, k, i);
    law_multiply_degree(a, b, p);
    lemma_degree_bound(a);
    lemma_degree_bound(b);
    lemma_pow_step(2, k);
    lemma_next_power_least(2, d, k + 1);
    lemma_pow_increases(2, k + 1, F::two_adicity());
    let j = ceil_log(2, d);
    lemma_exponent_order(2, j, F::two_adicity());
    lemma_root2::<F>(j);
    lemma_next_power_fixed(2, j);
    lemma_pow_positive(2, (F::two_adicity() - j) as nat);
    let s = pow(2, F::two_adicity()) / m;
    let x = pow(r, (s * i) as nat);
    lemma_reduced_power(r, s as nat, i as nat, p);
    assert((s as nat) * (i as nat) == s * i) by (nonlinear_arith)
        requires
            s > 0,
            i >= 0,
    ;
    let c = poly_mul(a, b, p);
    lemma_mod_mod(x, p);
    lemma_eval_congr(c, c, domain2::<F>(i, m), x, p);
    lemma_eval_poly_mul(a, b, x, p);
}

/// The number of values of a product, from the polynomials that encode the operands.
pub proof fn law_product_length2<F: PrimeField>(lhs: Seq<int>, rhs: Seq<int>)
    requires
        is_power(2, lhs.len() as int),
        rhs.len() == lhs.len(),
        2 * lhs.len() <= pow(2, F::two_adicity()),
        reduced(lhs, F::modulus()),
        reduced(rhs, F::modulus()),
    ensures
        ({
            let a = encoded2::<F>(lhs);
            let b = encoded2::<F>(rhs);
            &&& product_values2::<F>(lhs, rhs).len() == next_power(
                2,
                degree_bound(a) + degree_bound(b) - 1,
            )
            &&& degree_bound(a) > 0 && degree_bound(b) > 0 ==> product_values2::<F>(
                lhs,
                rhs,
            ).len() == next_power(2, trim(poly_mul(a, b, F::modulus())).len() as int)
        }),
{
    let p = F::modulus();
    let n = lhs.len() as int;
    let k = choose|k: nat| n == #[trigger] pow(2, k);
    let w = root2::<F>(n);
    F::lemma_modulus();
    lemma_next_power_fixed(2, k);
    assert(resized(lhs, n as nat) =~= lhs);
    assert(resized(rhs, n as nat) =~= rhs);
    let a = idft(lhs, w, p);
    let b = idft(rhs, w, p);
    lemma_trim(a);
    lemma_trim(b);
    lemma_idft_reduced(lhs, w, p);
    lemma_idft_reduced(rhs, w, p);
    law_multiply_degree(a, b, p);
    lemma_product_trim(a, b, p);
    let d = degree_bound(a) + degree_bound(b) - 1;
    lemma_next_power(2, d);
    assert(d == product_length(a, b));
}

/// Where the domains of the operands and of the product have points in common, the values of the
/// product are the products of the values.
pub proof fn law_product_entries2<F: PrimeField>(lhs: Seq<int>, rhs: Seq<int>, i: int)
    requires
        is_power(2, lhs.len() as int),
        rhs.len() == lhs.len(),
        2 * lhs.len() <= pow(2, F::two_adicity()),
        reduced(lhs, F::modulus()),
        reduced(rhs, F::modulus()),
        i >= 0,
    ensures
        ({
            let v = product_values2::<F>(lhs, rhs);
            let n = lhs.len() as int;
            let m = v.len() as int;
            &&& m >= n && i < n ==> {
                &&& m % n == 0
                &&& 0 <= i * (m / n) < m
                &&& v[i * (m / n)] == (lhs[i] * rhs[i]) % F::modulus()
            }
            &&& m <= n && i < m ==> {
                &&& n % m == 0
                &&& 0 <= i * (n / m) < n
                &&& v[i] == (lhs[i * (n / m)] * rhs[i * (n / m)]) % F::modulus()
            }
        }),
{
    let p = F::modulus();
    let n = lhs.len() as int;
    let k = choose|k: nat| n == #[trigger] pow(2, k);
    F::lemma_modulus();
    lemma_pow_step(2, k);
    lemma_exponent_order(2, k, F::two_adicity());
    lemma_root2::<F>(k);
    let w = root2::<F>(n);
    let a = idft(lhs, w, p);
    let b = idft(rhs, w, p);
    let d = degree_bound(a) + degree_bound(b) - 1;
    lemma_next_power(2, d);
    assert(d == product_length(a, b));
    let m = next_power(2, d);
    let j = ceil_log(2, d);
    let v = product_values2::<F>(lhs, rhs);
    assert(v.len() == m);
    lemma_degree_bound(a);
    lemma_degree_bound(b);
    lemma_next_power_least(2, d, k + 1);
    lemma_exponent_order(2, j, F::two_adicity());
    let u = root2::<F>(m);
    if m >= n && i < n {
        lemma_exponent_order(2, k, j);
        lemma_root2_subgroup::<F>(k, j);
        let q = pow(2, (j - k) as nat);
        assert(n * q == q * n) by (nonlinear_arith);
        lemma_fundamental_div_mod_converse(m, n, q, 0);
        let e = i * q;
        assert(0 <= e < m) by (nonlinear_arith)
            requires
                e == i * q,
                0 <= i < n,
                q > 0,
                m == n * q,
        ;
        lemma_pow_multiplies(u, q as nat, i as nat);
        assert((q as nat) * (i as nat) == e) by (nonlinear_arith)
            requires
                e == i * q,
                q > 0,
                i >= 0,
        ;
        lemma_pow_congr(pow(u, q as nat), w, i as nat, p);
        lemma_product_at(a, b, m as nat, u, p, e);
        lemma_products_of_values(lhs, rhs, w, u, e as nat, i, p);
    }
    if m <= n && i < m {
        lemma_exponent_order(2, j, k);
        lemma_root2_subgroup::<F>(j, k);
        let q = pow(2, (k - j) as nat);
        assert(m * q == q * m) by (nonlinear_arith);
        lemma_fundamental_div_mod_converse(n, m, q, 0);
        let e = i * q;
        assert(0 <= e < n) by (nonlinear_arith)
            requires
                e == i * q,
                0 <= i < m,
                q > 0,
                n == m * q,
        ;
        lemma_pow_multiplies(w, q as nat, i as nat);
        assert((q as nat) * (i as nat) == e) by (nonlinear_arith)
            requires
                e == i * q,
                q > 0,
                i >= 0,
        ;
        lemma_pow_congr(u, pow(w, q as nat), i as nat, p);
        lemma_product_at(a, b, m as nat, u, p, i);
        lemma_products_of_values(lhs, rhs, w, u, i as nat, e, p);
    }
}

/// Multiplying a list of values by a constant list, other than zero, multiplies each value, if no
/// shorter domain holds the list.
pub proof fn law_product_by_constant2<F: PrimeField>(c: int, lhs: Seq<int>, rhs: Seq<int>, i: int)
    requires
        is_power(2, rhs.len() as int),
        lhs.len() == rhs.len(),
        2 * rhs.len() <= pow(2, F::two_adicity()),
        2 * rhs.len() <= usize::MAX,
        reduced(rhs, F::modulus()),
        0 < c < F::modulus(),
        forall|j: int| 0 <= j < lhs.len() ==> #[trigger] lhs[j] == c,
        next_power(2, encoded2::<F>(rhs).len() as int) == rhs.len(),
        0 <= i < rhs.len(),
    ensures
        product_values2::<F>(lhs, rhs).len() == rhs.len(),
        product_values2::<F>(lhs, rhs)[i] == (c * rhs[i]) % F::modulus(),
{
    let p = F::modulus();
    let n = rhs.len() as int;
    let k = choose|k: nat| n == #[trigger] pow(2, k);
    F::lemma_modulus();
    lemma_next_power_fixed(2, k);
    let one = seq![c];
    assert forall|j: int| 0 <= j < next_power(2, n) implies eval(
        one,
        #[trigger] domain2::<F>(j, n),
    ) % p == coef(lhs, j) by {
        lemma_eval_constant(one, domain2::<F>(j, n));
        lemma_small_mod(c as nat, p as nat);
    }
    law_encode_unique2::<F>(lhs, one);
    lemma_trim_fixed(one);
    law_product_length2::<F>(lhs, rhs);
    law_encode_points2::<F>(rhs, 0);
    lemma_trim_fixed(encoded2::<F>(rhs));
    law_product_entries2::<F>(lhs, rhs, i);
    lemma_fundamental_div_mod_converse(n, n, 1, 0);
    assert(i * 1 == i);
}

/// A domain for a list exists exactly when some power of three is at least as large as the list, no
/// larger than the three-adic subgroup, and a machine word.
pub proof fn law_domain_exists3<F: ThreeAdicField>(size: int)
    ensures
        domain_fits3::<F>(size) <==> exists|k: nat|
            k <= F::three_adicity() && size <= #[trigger] pow(3, k) && pow(3, k) <= usize::MAX,
{
    lemma_next_power(3, size);
    let j = ceil_log(3, size);
    if domain_fits3::<F>(size) {
        lemma_exponent_order(3, j, F::three_adicity());
        assert(size <= pow(3, j) && pow(3, j) <= usize::MAX);
    }
    if exists|k: nat|
        k <= F::three_adicity() && size <= #[trigger] pow(3, k) && pow(3, k) <= usize::MAX {
        let k = choose|k: nat|
            k <= F::three_adicity() && size <= #[trigger] pow(3, k) && pow(3, k) <= usize::MAX;
        lemma_next_power_least(3, size, k);
        lemma_pow_increases(3, k, F::three_adicity());
    }
}

/// The size of a domain divides the order of the three-adic subgroup.
proof fn lemma_ratio3<F: ThreeAdicField>(size: int)
    requires
        domain_fits3::<F>(size),
    ensures
        ({
            let n = next_power(3, size);
            let q = pow(3, F::three_adicity()) / n;
            &&& is_prime(F::modulus())
            &&& 0 < n < F::modulus()
            &&& q > 0
            &&& pow(3, F::three_adicity()) == n * q
            &&& root3::<F>(n) == pow(F::three_adic_root(), q as nat) % F::modulus()
            &&& primitive_root(root3::<F>(n), n, F::modulus())
            &&& next_power(3, n) == n
        }),
{
    let k = ceil_log(3, size);
    F::lemma_modulus();
    lemma_next_power(3, size);
    lemma_exponent_order(3, k, F::three_adicity());
    lemma_root3::<F>(k);
    lemma_next_power_fixed(3, k);
    lemma_pow_positive(3, (F::three_adicity() - k) as nat);
    lemma_pow_adds(3, k, (F::three_adicity() - k) as nat);
}

/// The elements of a domain are the powers of the field's three-adic root of unity whose exponents
/// are the multiples of the ratio of the subgroup and the domain: the first is one, and each is the
/// one before it times the same root of unity.
pub proof fn law_domain_points3<F: ThreeAdicField>(size: int, i: int)
    requires
        domain_fits3::<F>(size),
        i >= 0,
    ensures
        ({
            let q = pow(3, F::three_adicity()) / next_power(3, size);
            &&& domain3::<F>(i, size) == pow(F::three_adic_root(), (q * i) as nat) % F::modulus()
            &&& domain3::<F>(0, size) == 1
            &&& domain3::<F>(i + 1, size) == (domain3::<F>(i, size) * pow(
                F::three_adic_root(),
                q as nat,
            )) % F::modulus()
        }),
{
    let p = F::modulus();
    let n = next_power(3, size);
    let q = pow(3, F::three_adicity()) / n;
    let r = F::three_adic_root();
    lemma_ratio3::<F>(size);
    let w = root3::<F>(n);
    lemma_reduced_power(r, q as nat, i as nat, p);
    assert((q as nat) * (i as nat) == q * i) by (nonlinear_arith)
        requires
            q > 0,
            i >= 0,
    ;
    lemma_pow0(w);
    lemma_small_mod(1, p as nat);
    lemma_pow_adds(w, i as nat, 1);
    lemma_pow1(w);
    lemma_mod_mod(pow(w, i as nat), p);
    lemma_mod_mod(pow(r, q as nat), p);
    lemma_mul_congr(
        pow(w, i as nat) % p,
        pow(w, i as nat),
        pow(r, q as nat),
        w,
        p,
    );
}

/// The elements of a coset are the field's shift times the elements of the domain: the first is the
/// shift, and each is the one before it times the root of unity of the domain.
pub proof fn law_coset_points3<F: ThreeAdicField>(size: int, i: int)
    requires
        domain_fits3::<F>(size),
        i >= 0,
    ensures
        ({
            let q = pow(3, F::three_adicity()) / next_power(3, size);
            &&& coset3::<F>(i, size) == (F::coset_shift() * domain3::<F>(i, size)) % F::modulus()
            &&& coset3::<F>(i, size) == (F::coset_shift() * pow(
                F::three_adic_root(),
                (q * i) as nat,
            )) % F::modulus()
            &&& coset3::<F>(0, size) == F::coset_shift()
            &&& coset3::<F>(i + 1, size) == (coset3::<F>(i, size) * pow(
                F::three_adic_root(),
                q as nat,
            )) % F::modulus()
        }),
{
    let p = F::modulus();
    let q = pow(3, F::three_adicity()) / next_power(3, size);
    let g = F::coset_shift();
    let z = pow(F::three_adic_root(), q as nat);
    let x = domain3::<F>(i, size);
    lemma_ratio3::<F>(size);
    law_domain_points3::<F>(size, i);
    F::lemma_coset_shift();
    lemma_small_mod(g as nat, p as nat);
    let y = pow(F::three_adic_root(), (q * i) as nat);
    lemma_mod_mod(y, p);
    lemma_mul_congr(g, g, x, y, p);
    lemma_mod_mod(x * z, p);
    lemma_mul_congr(g, g, (x * z) % p, x * z, p);
    lemma_mod_mod(g * x, p);
    lemma_mul_congr((g * x) % p, g * x, z, z, p);
    assert(g * (x * z) == (g * x) * z) by (nonlinear_arith);
}

/// The elements of a coset are distinct.
pub proof fn law_coset_distinct3<F: ThreeAdicField>(size: int, i: int, j: int)
    requires
        domain_fits3::<F>(size),
        0 <= i < next_power(3, size),
        0 <= j < next_power(3, size),
        i != j,
    ensures
        coset3::<F>(i, size) != coset3::<F>(j, size),
{
    let p = F::modulus();
    let g = F::coset_shift();
    let x = domain3::<F>(i, size);
    let y = domain3::<F>(j, size);
    lemma_ratio3::<F>(size);
    law_coset_points3::<F>(size, i);
    law_coset_points3::<F>(size, j);
    law_domain3::<F>(size, i, j);
    law_domain_points3::<F>(size, i);
    law_domain_points3::<F>(size, j);
    F::lemma_coset_shift();
    lemma_small_mod(g as nat, p as nat);
    if coset3::<F>(i, size) == coset3::<F>(j, size) {
        lemma_cancel(g, x, y, p);
        lemma_mod_mod(pow(root3::<F>(next_power(3, size)), i as nat), p);
        lemma_mod_mod(pow(root3::<F>(next_power(3, size)), j as nat), p);
        law_points_reduced3::<F>(size, i);
        law_points_reduced3::<F>(size, j);
        lemma_small_mod(x as nat, p as nat);
        lemma_small_mod(y as nat, p as nat);
    }
}

/// The elements of domains and cosets are residues.
pub proof fn law_points_reduced3<F: ThreeAdicField>(size: int, i: int)
    requires
        domain_fits3::<F>(size),
        i >= 0,
    ensures
        0 <= domain3::<F>(i, size) < F::modulus(),
        0 <= coset3::<F>(i, size) < F::modulus(),
{
    let q = pow(3, F::three_adicity()) / next_power(3, size);
    F::lemma_modulus();
    law_domain_points3::<F>(size, i);
    law_coset_points3::<F>(size, i);
    lemma_mod_mod(pow(F::three_adic_root(), (q * i) as nat), F::modulus());
    lemma_mod_mod(F::coset_shift() * domain3::<F>(i, size), F::modulus());
}

/// A larger domain, or its coset, has the elements of the smaller one at the multiples of the
/// ratio.
pub proof fn law_domains_nest3<F: ThreeAdicField>(k: nat, i: int)
    requires
        k < F::three_adicity(),
        3 * pow(3, k) <= usize::MAX,
        i >= 0,
    ensures
        domain3::<F>(3 * i, 3 * pow(3, k)) == domain3::<F>(i, pow(3, k)),
        coset3::<F>(3 * i, 3 * pow(3, k)) == coset3::<F>(i, pow(3, k)),
{
    let n = pow(3, k);
    lemma_pow_step(3, k);
    lemma_next_power_fixed(3, k);
    lemma_next_power_fixed(3, k + 1);
    lemma_pow_increases(3, k, F::three_adicity());
    lemma_pow_increases(3, k + 1, F::three_adicity());
    lemma_ratio3::<F>(n);
    lemma_ratio3::<F>(3 * n);
    let q = pow(3, F::three_adicity()) / n;
    let s = pow(3, F::three_adicity()) / (3 * n);
    assert(q == 3 * s) by (nonlinear_arith)
        requires
            n * q == (3 * n) * s,
            n > 0,
    ;
    assert(q * i == s * (3 * i)) by (nonlinear_arith)
        requires
            q == 3 * s,
    ;
    law_domain_points3::<F>(n, i);
    law_domain_points3::<F>(3 * n, 3 * i);
    law_coset_points3::<F>(n, i);
    law_coset_points3::<F>(3 * n, 3 * i);
}

/// The encoding polynomial has the value with index `i`, or zero past the end of the list, at the
/// `i`-th power of the root of unity.
pub proof fn law_encode_points3<F: ThreeAdicField>(values: Seq<int>, i: int)
    requires
        values.len() > 0,
        reduced(values, F::modulus()),
        domain_fits3::<F>(values.len() as int),
        0 <= i < next_power(3, values.len() as int),
    ensures
        ({
            let n = next_power(3, values.len() as int);
            let q = pow(3, F::three_adicity()) / n;
            &&& encoded3::<F>(values).len() <= n
            &&& encoded3::<F>(values).len() > 0 ==> encoded3::<F>(values).last() != 0
            &&& eval(encoded3::<F>(values), pow(F::three_adic_root(), (q * i) as nat))
                % F::modulus() == (if i < values.len() {
                values[i]
            } else {
                0
            })
        }),
{
    let p = F::modulus();
    let n = next_power(3, values.len() as int);
    let q = pow(3, F::three_adicity()) / n;
    let v = resized(values, n as nat);
    let c = encoded3::<F>(values);
    lemma_ratio3::<F>(values.len() as int);
    assert forall|l: int| 0 <= l < v.len() implies 0 <= #[trigger] v[l] < p by {
        assert(v[l] == coef(values, l));
    }
    let w = root3::<F>(n);
    lemma_encoded(v, w, p, i);
    law_domain_points3::<F>(values.len() as int, i);
    let x = pow(F::three_adic_root(), (q * i) as nat);
    lemma_mod_mod(x, p);
    lemma_eval_congr(c, c, x, pow(w, i as nat) % p, p);
    let full = idft(v, w, p);
    lemma_trim(full);
    lemma_degree_bound(trim(full));
}

/// The decoded list is as long as the domain of the polynomial's length, and holds its values at
/// the powers of the root of unity.
pub proof fn law_decode_points3<F: ThreeAdicField>(c: Seq<int>, i: int)
    requires
        domain_fits3::<F>(c.len() as int),
        0 <= i < next_power(3, c.len() as int),
    ensures
        ({
            let n = next_power(3, c.len() as int);
            let q = pow(3, F::three_adicity()) / n;
            &&& decoded3::<F>(c).len() == n
            &&& decoded3::<F>(c)[i] == eval(c, pow(F::three_adic_root(), (q * i) as nat))
                % F::modulus()
        }),
{
    let p = F::modulus();
    let n = next_power(3, c.len() as int);
    let q = pow(3, F::three_adicity()) / n;
    lemma_next_power(3, c.len() as int);
    lemma_ratio3::<F>(c.len() as int);
    lemma_dft_resized(c, n as nat, root3::<F>(n), p, i);
    law_domain_points3::<F>(c.len() as int, i);
    let x = pow(F::three_adic_root(), (q * i) as nat);
    lemma_mod_mod(x, p);
    lemma_eval_congr(c, c, pow(root3::<F>(n), i as nat) % p, x, p);
}

/// The `i`-th value of a low-degree extension to `m` points is the value of the polynomial at the
/// shift times the `i`-th power of the root of unity.
pub proof fn law_extension_points3<F: ThreeAdicField>(c: Seq<int>, m: int, i: int)
    requires
        is_power(3, m),
        domain_fits3::<F>(m),
        i >= 0,
    ensures
        eval(c, coset3::<F>(i, m)) % F::modulus() == eval(
            c,
            F::coset_shift() * pow(
                F::three_adic_root(),
                ((pow(3, F::three_adicity()) / m) * i) as nat,
            ),
        ) % F::modulus(),
{
    let p = F::modulus();
    let k = choose|k: nat| m == #[trigger] pow(3, k);
    lemma_next_power_fixed(3, k);
    F::lemma_modulus();
    law_coset_points3::<F>(m, i);
    let x = F::coset_shift() * pow(
        F::three_adic_root(),
        ((pow(3, F::three_adicity()) / m) * i) as nat,
    );
    lemma_mod_mod(x, p);
    lemma_eval_congr(c, c, x % p, x, p);
}

/// Multiplying the values of two polynomials gives the products of their values at the points of
/// another domain: the smallest one with at least as many points as the product has coefficients,
/// or as many as one factor's degree if the other factor is zero.
pub proof fn law_product_points3<F: ThreeAdicField>(
    a: Seq<int>,
    b: Seq<int>,
    lhs: Seq<int>,
    rhs: Seq<int>,
    k: nat,
    i: int,
)
    requires
        reduced(a, F::modulus()),
        reduced(b, F::modulus()),
        a.len() <= pow(3, k),
        b.len() <= pow(3, k),
        k < F::three_adicity(),
        lhs.len() == pow(3, k),
        rhs.len() == pow(3, k),
        forall|j: int|
            0 <= j < lhs.len() ==> #[trigger] lhs[j] == eval(
                a,
                pow(F::three_adic_root(), ((pow(3, F::three_adicity()) / pow(3, k)) * j) as nat),
            ) % F::modulus(),
        forall|j: int|
            0 <= j < rhs.len() ==> #[trigger] rhs[j] == eval(
                b,
                pow(F::three_adic_root(), ((pow(3, F::three_adicity()) / pow(3, k)) * j) as nat),
            ) % F::modulus(),
        0 <= i < product_values3::<F>(lhs, rhs).len(),
    ensures
        ({
            let v = product_values3::<F>(lhs, rhs);
            let m = v.len() as int;
            let x = pow(F::three_adic_root(), ((pow(3, F::three_adicity()) / m) * i) as nat);
            &&& m == next_power(3, degree_bound(a) + degree_bound(b) - 1)
            &&& degree_bound(a) > 0 && degree_bound(b) > 0 ==> m == next_power(
                3,
                trim(poly_mul(a, b, F::modulus())).len() as int,
            )
            &&& v[i] == (eval(a, x) * eval(b, x)) % F::modulus()
        }),
{
    let p = F::modulus();
    let n = pow(3, k);
    let r = F::three_adic_root();
    let d = degree_bound(a) + degree_bound(b) - 1;
    F::lemma_modulus();
    lemma_root3::<F>(k);
    lemma_pow_positive(3, (F::three_adicity() - k) as nat);
    let q = pow(3, F::three_adicity()) / n;
    let w = root3::<F>(n);
    let da = dft(resized(a, n as nat), w, p);
    let db = dft(resized(b, n as nat), w, p);
    assert forall|j: int| 0 <= j < n implies da[j] == lhs[j] && db[j] == rhs[j] by {
        let x = pow(w, j as nat);
        let y = pow(r, (q * j) as nat);
        lemma_reduced_power(r, q as nat, j as nat, p);
        assert((q as nat) * (j as nat) == q * j) by (nonlinear_arith)
            requires
                q > 0,
                j >= 0,
        ;
        lemma_mod_mod(x, p);
        lemma_dft_resized(a, n as nat, w, p, j);
        lemma_dft_resized(b, n as nat, w, p, j);
        lemma_eval_congr(a, a, x % p, y, p);
        lemma_eval_congr(b, b, x % p, y, p);
    }
    assert(da =~= lhs);
    assert(db =~= rhs);
    lemma_next_power(3, d);
    assert(d == product_length(a, b));
    let m = next_power(3, d);
    law_product_values3::<F>(a, b, k, 0);
    law_product_values3::<F>(a, b, k, i);
    law_multiply_degree(a, b, p);
    lemma_degree_bound(a);
    lemma_degree_bound(b);
    lemma_pow_step(3, k);
    lemma_next_power_least(3, d, k + 1);
    lemma_pow_increases(3, k + 1, F::three_adicity());
    let j = ceil_log(3, d);
    lemma_exponent_order(3, j, F::three_adicity());
    lemma_root3::<F>(j);
    lemma_next_power_fixed(3, j);
    lemma_pow_positive(3, (F::three_adicity() - j) as nat);
    let s = pow(3, F::three_adicity()) / m;
    let x = pow(r, (s * i) as nat);
    lemma_reduced_power(r, s as nat, i as nat, p);
    assert((s as nat) * (i as nat) == s * i) by (nonlinear_arith)
        requires
            s > 0,
            i >= 0,
    ;
    let c = poly_mul(a, b, p);
    lemma_mod_mod(x, p);
    lemma_eval_congr(c, c, domain3::<F>(i, m), x, p);
    lemma_eval_poly_mul(a, b, x, p);
}

/// The number of values of a product, from the polynomials that encode the operands.
pub proof fn law_product_length3<F: ThreeAdicField>(lhs: Seq<int>, rhs: Seq<int>)
    requires
        is_power(3, lhs.len() as int),
        rhs.len() == lhs.len(),
        3 * lhs.len() <= pow(3, F::three_adicity()),
        reduced(lhs, F::modulus()),
        reduced(rhs, F::modulus()),
    ensures
        ({
            let a = encoded3::<F>(lhs);
            let b = encoded3::<F>(rhs);
            &&& product_values3::<F>(lhs, rhs).len() == next_power(
                3,
                degree_bound(a) + degree_bound(b) - 1,
            )
            &&& degree_bound(a) > 0 && degree_bound(b) > 0 ==> product_values3::<F>(
                lhs,
                rhs,
            ).len() == next_power(3, trim(poly_mul(a, b, F::modulus())).len() as int)
        }),
{
    let p = F::modulus();
    let n = lhs.len() as int;
    let k = choose|k: nat| n == #[trigger] pow(3, k);
    let w = root3::<F>(n);
    F::lemma_modulus();
    lemma_next_power_fixed(3, k);
    assert(resized(lhs, n as nat) =~= lhs);
    assert(resized(rhs, n as nat) =~= rhs);
    let a = idft(lhs, w, p);
    let b = idft(rhs, w, p);
    lemma_trim(a);
    lemma_trim(b);
    lemma_idft_reduced(lhs, w, p);
    lemma_idft_reduced(rhs, w, p);
    law_multiply_degree(a, b, p);
    lemma_product_trim(a, b, p);
    let d = degree_bound(a) + degree_bound(b) - 1;
    lemma_next_power(3, d);
    assert(d == product_length(a, b));
}

/// Where the domains of the operands and of the product have points in common, the values of the
/// product are the products of the values.
pub proof fn law_product_entries3<F: ThreeAdicField>(lhs: Seq<int>, rhs: Seq<int>, i: int)
    requires
        is_power(3, lhs.len() as int),
        rhs.len() == lhs.len(),
        3 * lhs.len() <= pow(3, F::three_adicity()),
        reduced(lhs, F::modulus()),
        reduced(rhs, F::modulus()),
        i >= 0,
    ensures
        ({
            let v = product_values3::<F>(lhs, rhs);
            let n = lhs.len() as int;
            let m = v.len() as int;
            &&& m >= n && i < n ==> {
                &&& m % n == 0
                &&& 0 <= i * (m / n) < m
                &&& v[i * (m / n)] == (lhs[i] * rhs[i]) % F::modulus()
            }
            &&& m <= n && i < m ==> {
                &&& n % m == 0
                &&& 0 <= i * (n / m) < n
                &&& v[i] == (lhs[i * (n / m)] * rhs[i * (n / m)]) % F::modulus()
            }
        }),
{
    let p = F::modulus();
    let n = lhs.len() as int;
    let k = choose|k: nat| n == #[trigger] pow(3, k);
    F::lemma_modulus();
    lemma_pow_step(3, k);
    lemma_exponent_order(3, k, F::three_adicity());
    lemma_root3::<F>(k);
    let w = root3::<F>(n);
    let a = idft(lhs, w, p);
    let b = idft(rhs, w, p);
    let d = degree_bound(a) + degree_bound(b) - 1;
    lemma_next_power(3, d);
    assert(d == product_length(a, b));
    let m = next_power(3, d);
    let j = ceil_log(3, d);
    let v = product_values3::<F>(lhs, rhs);
    assert(v.len() == m);
    lemma_degree_bound(a);
    lemma_degree_bound(b);
    lemma_next_power_least(3, d, k + 1);
    lemma_exponent_order(3, j, F::three_adicity());
    let u = root3::<F>(m);
    if m >= n && i < n {
        lemma_exponent_order(3, k, j);
        lemma_root3_subgroup::<F>(k, j);
        let q = pow(3, (j - k) as nat);
        assert(n * q == q * n) by (nonlinear_arith);
        lemma_fundamental_div_mod_converse(m, n, q, 0);
        let e = i * q;
        assert(0 <= e < m) by (nonlinear_arith)
            requires
                e == i * q,
                0 <= i < n,
                q > 0,
                m == n * q,
        ;
        lemma_pow_multiplies(u, q as nat, i as nat);
        assert((q as nat) * (i as nat) == e) by (nonlinear_arith)
            requires
                e == i * q,
                q > 0,
                i >= 0,
        ;
        lemma_pow_congr(pow(u, q as nat), w, i as nat, p);
        lemma_product_at(a, b, m as nat, u, p, e);
        lemma_products_of_values(lhs, rhs, w, u, e as nat, i, p);
    }
    if m <= n && i < m {
        lemma_exponent_order(3, j, k);
        lemma_root3_subgroup::<F>(j, k);
        let q = pow(3, (k - j) as nat);
        assert(m * q == q * m) by (nonlinear_arith);
        lemma_fundamental_div_mod_converse(n, m, q, 0);
        let e = i * q;
        assert(0 <= e < n) by (nonlinear_arith)
            requires
                e == i * q,
                0 <= i < m,
                q > 0,
                n == m * q,
        ;
        lemma_pow_multiplies(w, q as nat, i as nat);
        assert((q as nat) * (i as nat) == e) by (nonlinear_arith)
            requires
                e == i * q,
                q > 0,
                i >= 0,
        ;
        lemma_pow_congr(u, pow(w, q as nat), i as nat, p);
        lemma_product_at(a, b, m as nat, u, p, i);
        lemma_products_of_values(lhs, rhs, w, u, i as nat, e, p);
    }
}

/// Multiplying a list of values by a constant list, other than zero, multiplies each value, if no
/// shorter domain holds the list.
pub proof fn law_product_by_constant3<F: ThreeAdicField>(
    c: int,
    lhs: Seq<int>,
    rhs: Seq<int>,
    i: int,
)
    requires
        is_power(3, rhs.len() as int),
        lhs.len() == rhs.len(),
        3 * rhs.len() <= pow(3, F::three_adicity()),
        3 * rhs.len() <= usize::MAX,
        reduced(rhs, F::modulus()),
        0 < c < F::modulus(),
        forall|j: int| 0 <= j < lhs.len() ==> #[trigger] lhs[j] == c,
        next_power(3, encoded3::<F>(rhs).len() as int) == rhs.len(),
        0 <= i < rhs.len(),
    ensures
        product_values3::<F>(lhs, rhs).len() == rhs.len(),
        product_values3::<F>(lhs, rhs)[i] == (c * rhs[i]) % F::modulus(),
{
    let p = F::modulus();
    let n = rhs.len() as int;
    let k = choose|k: nat| n == #[trigger] pow(3, k);
    F::lemma_modulus();
    lemma_next_power_fixed(3, k);
    let one = seq![c];
    assert forall|j: int| 0 <= j < next_power(3, n) implies eval(
        one,
        #[trigger] domain3::<F>(j, n),
    ) % p == coef(lhs, j) by {
        lemma_eval_constant(one, domain3::<F>(j, n));
        lemma_small_mod(c as nat, p as nat);
    }
    law_encode_unique3::<F>(lhs, one);
    lemma_trim_fixed(one);
    law_product_length3::<F>(lhs, rhs);
    law_encode_points3::<F>(rhs, 0);
    lemma_trim_fixed(encoded3::<F>(rhs));
    law_product_entries3::<F>(lhs, rhs, i);
    lemma_fundamental_div_mod_converse(n, n, 1, 0);
    assert(i * 1 == i);
}

} // verus!
