//! What single operations do to the coefficients and values of polynomials, said of the numbers
//! themselves.
use crate::algebra::{
    coef, degree_bound, eval, lemma_degree_bound, lemma_eval_empty, lemma_eval_first,
    lemma_eval_same, lemma_trim, poly_add, poly_mul, poly_neg, poly_scale, poly_sub, reduced,
    resized, same_poly, trim,
};
use crate::butterfly::lemma_eval_pair;
use crate::convolution::pointwise;
use crate::digits::{
    ceil_log, is_power, lemma_next_power, lemma_next_power_least, lemma_reversed_bound,
    lemma_reversed_involution, lemma_reversed_step, next_power, reversed,
};
use crate::division::{lemma_eval_vanishing, lemma_vanishing_coef, quotient_len, vanishing};
use crate::domains::{all_zero, dilated, lemma_eval_dilated};
use crate::field::{lemma_root2, lemma_root3, root2, root3, vals, PrimeField, ThreeAdicField};
use crate::interpolation::{abscissas, passes_through};
use crate::modular::{is_prime, lemma_add_congr, lemma_mod_mod};
use crate::multiply::{all_products_fit, bounds_fit, product_fits, product_of, views};
use crate::polynomial::Polynomial;
use crate::products::lemma_eval_poly_mul;
use crate::roots::{
    lemma_division_coef, lemma_linear_coef, lemma_roots_product, linear_factor, quotient,
    roots_product,
};
use crate::transform::{dft, idft, lemma_dft_idft, lemma_idft_dft, primitive_root};
use vstd::arithmetic::div_mod::lemma_small_mod;
use vstd::arithmetic::power::pow;
use vstd::prelude::*;

verus! {

/// A list of elements stands for the residues of the elements, in their order.
pub proof fn law_elements<F: PrimeField>(s: Seq<F>, i: int)
    requires
        0 <= i < s.len(),
    ensures
        vals(s).len() == s.len(),
        vals(s)[i] == s[i].val(),
{
}

/// A list of polynomials stands for their coefficients, in their order.
pub proof fn law_lists<F: PrimeField>(s: Seq<Polynomial<F>>, i: int)
    requires
        0 <= i < s.len(),
    ensures
        views(s).len() == s.len(),
        views(s)[i] == s[i]@,
{
}

/// The value of a polynomial is its constant term plus `x` times the value of the rest, and the
/// polynomial without coefficients is zero.
pub proof fn law_evaluation(c: Seq<int>, x: int)
    ensures
        c.len() == 0 ==> eval(c, x) == 0,
        c.len() > 0 ==> eval(c, x) == c[0] + x * eval(c.skip(1), x),
{
    if c.len() > 0 {
        lemma_eval_first(c, x);
    } else {
        lemma_eval_empty(c, x);
    }
}

/// From the degree bound on every coefficient is zero, and the one before it is not.
pub proof fn law_degree_bound(c: Seq<int>, i: int)
    requires
        0 <= i < c.len(),
    ensures
        degree_bound(c) <= c.len(),
        degree_bound(c) <= i ==> c[i] == 0,
        degree_bound(c) == i + 1 ==> c[i] != 0,
{
    lemma_degree_bound(c);
    assert(degree_bound(c) <= i ==> coef(c, i) == 0);
}

/// Trimming keeps the coefficients below the degree bound and no others.
pub proof fn law_trim_coefficients(c: Seq<int>, i: int)
    requires
        0 <= i < degree_bound(c),
    ensures
        trim(c).len() == degree_bound(c),
        trim(c)[i] == c[i],
{
    lemma_degree_bound(c);
}

/// Resizing keeps the coefficients that there is room for and fills the rest with zeros.
pub proof fn law_resize_coefficients(c: Seq<int>, n: nat, i: int)
    requires
        0 <= i < n,
    ensures
        resized(c, n).len() == n,
        i < c.len() ==> resized(c, n)[i] == c[i],
        i >= c.len() ==> resized(c, n)[i] == 0,
{
}

/// A coefficient outside the list is zero.
pub proof fn law_coefficient(c: Seq<int>, i: int)
    ensures
        0 <= i < c.len() ==> coef(c, i) == c[i],
        i < 0 || i >= c.len() ==> coef(c, i) == 0,
{
}

/// A sum is as long as the longer operand. It has the sums of the coefficients as far as both
/// operands have them, and from there on those of the longer one.
pub proof fn law_add_coefficients(a: Seq<int>, b: Seq<int>, p: int, i: int)
    requires
        p > 0,
        reduced(a, p),
        reduced(b, p),
        b.len() <= a.len(),
        0 <= i < a.len(),
    ensures
        poly_add(a, b, p).len() == a.len(),
        poly_add(b, a, p).len() == a.len(),
        i < b.len() ==> poly_add(a, b, p)[i] == (a[i] + b[i]) % p,
        i < b.len() ==> poly_add(b, a, p)[i] == (a[i] + b[i]) % p,
        i >= b.len() ==> poly_add(a, b, p)[i] == a[i],
        i >= b.len() ==> poly_add(b, a, p)[i] == a[i],
{
    lemma_small_mod(a[i] as nat, p as nat);
}

/// A difference is as long as the longer operand. It has the differences of the coefficients as far
/// as both operands have them, and from there on those of the longer one, negated if that is the
/// second.
pub proof fn law_sub_coefficients(a: Seq<int>, b: Seq<int>, p: int, i: int)
    requires
        p > 0,
        reduced(a, p),
        reduced(b, p),
        b.len() <= a.len(),
        0 <= i < a.len(),
    ensures
        poly_sub(a, b, p).len() == a.len(),
        poly_sub(b, a, p).len() == a.len(),
        i < b.len() ==> poly_sub(a, b, p)[i] == (a[i] - b[i]) % p,
        i < b.len() ==> poly_sub(b, a, p)[i] == (b[i] - a[i]) % p,
        i >= b.len() ==> poly_sub(a, b, p)[i] == a[i],
        i >= b.len() ==> poly_sub(b, a, p)[i] == (-a[i]) % p,
{
    lemma_small_mod(a[i] as nat, p as nat);
}

/// Negation and scaling keep the length and act on each coefficient.
pub proof fn law_scale_coefficients(a: Seq<int>, k: int, p: int, i: int)
    requires
        0 <= i < a.len(),
    ensures
        poly_neg(a, p).len() == a.len(),
        poly_neg(a, p)[i] == (-a[i]) % p,
        poly_scale(a, k, p).len() == a.len(),
        poly_scale(a, k, p)[i] == (a[i] * k) % p,
{
}

/// Multiplying by `x - r` shifts the coefficients up by one and subtracts `r` times them.
pub proof fn law_multiply_linear(c: Seq<int>, r: int, p: int, k: int)
    requires
        p > 0,
        k >= 0,
    ensures
        linear_factor(r) == seq![-r, 1int],
        coef(poly_mul(c, seq![-r, 1int], p), k) == (coef(c, k - 1) - r * coef(c, k)) % p,
{
    lemma_linear_coef(c, r, p, k);
}

/// Division by `x - z`: the quotient has one coefficient less than the polynomial, and each
/// coefficient of the polynomial is that of the quotient one place lower, less `z` times that of
/// the quotient at its own place, plus the value at `z` for the constant term.
pub proof fn law_horner_coefficients(c: Seq<int>, z: int, p: int, k: int)
    requires
        p > 0,
        reduced(c, p),
        0 <= k < c.len(),
    ensures
        quotient(c, z, p).len() == c.len() - 1,
        c[k] == (coef(quotient(c, z, p), k - 1) - z * coef(quotient(c, z, p), k) + (if k == 0 {
            eval(c, z)
        } else {
            0
        })) % p,
{
    let q = quotient(c, z, p);
    let d = coef(q, k - 1) - z * coef(q, k);
    let e = if k == 0 {
        eval(c, z)
    } else {
        0
    };
    lemma_division_coef(c, z, p, k);
    lemma_linear_coef(q, z, p, k);
    lemma_small_mod(c[k] as nat, p as nat);
    lemma_mod_mod(d, p);
    lemma_mod_mod(eval(c, z), p);
    lemma_small_mod(0, p as nat);
    lemma_add_congr(d % p, d, e % p, e, p);
}

/// The polynomial from no roots is the blinding factor. Another root multiplies the values by
/// `x - r` and adds a coefficient, and the blinding factor stays the leading one.
pub proof fn law_another_root(roots: Seq<int>, r: int, b: int, x: int, p: int)
    requires
        p > 1,
        0 <= b < p,
    ensures
        roots_product(Seq::empty(), b, p) == seq![b],
        roots_product(roots, b, p).len() == roots.len() + 1,
        roots_product(roots, b, p).last() == b,
        eval(roots_product(roots.push(r), b, p), x) % p == (eval(roots_product(roots, b, p), x) * (x
            - r)) % p,
{
    lemma_roots_product(roots, b, p);
    let s = roots.push(r);
    assert(s.drop_last() =~= roots);
    lemma_eval_poly_mul(roots_product(roots, b, p), linear_factor(r), x, p);
    lemma_eval_pair(linear_factor(r), x);
    assert(1 * x == x);
}

/// The coordinates of points, and what it means to pass through them.
pub proof fn law_points<F: PrimeField>(c: Seq<int>, points: Seq<(F, F)>, i: int)
    requires
        0 <= i < points.len(),
    ensures
        abscissas(points).len() == points.len(),
        abscissas(points)[i] == points[i].0.val(),
        passes_through(c, points) ==> eval(c, points[i].0.val()) % F::modulus()
            == points[i].1.val(),
{
}

/// The divisor has the values `x^n - 1`, and `n + 1` coefficients.
pub proof fn law_divisor(n: nat, x: int)
    ensures
        vanishing(n).len() == n + 1,
        eval(vanishing(n), x) == pow(x, n) - 1,
{
    lemma_eval_vanishing(n, x);
}

/// One polynomial is the quotient of another by `x^n - 1` exactly when each coefficient of the
/// other is the difference of two of its own, `n` places apart.
pub proof fn law_quotient(q: Seq<int>, c: Seq<int>, n: nat, p: int)
    requires
        p > 0,
    ensures
        same_poly(poly_mul(q, vanishing(n), p), c) <==> forall|k: int|
            k >= 0 ==> #[trigger] coef(c, k) == (coef(q, k - n) - coef(q, k)) % p,
{
    let m = poly_mul(q, vanishing(n), p);
    assert forall|k: int| k >= 0 implies #[trigger] coef(m, k) == (coef(q, k - n) - coef(q, k))
        % p by {
        lemma_vanishing_coef(q, n, p, k);
    }
    if same_poly(m, c) {
        assert forall|k: int| k >= 0 implies #[trigger] coef(c, k) == (coef(q, k - n) - coef(q, k))
            % p by {
            assert(coef(m, k) == coef(c, k));
        }
    }
    if forall|k: int| k >= 0 ==> #[trigger] coef(c, k) == (coef(q, k - n) - coef(q, k)) % p {
        assert forall|k: int| #[trigger] coef(m, k) == coef(c, k) by {
            if k >= 0 {
                assert(coef(c, k) == (coef(q, k - n) - coef(q, k)) % p);
            }
        }
    }
}

/// A quotient by `x^n - 1` is at most `n` coefficients shorter than the polynomial, and has none if
/// there are fewer than that.
pub proof fn law_quotient_length(c: Seq<int>, n: nat)
    ensures
        c.len() >= n ==> quotient_len(c, n) + n == c.len(),
        c.len() < n ==> quotient_len(c, n) == 0,
{
}

/// Lists hold the same polynomial exactly when they agree as far as both reach, and the rest is
/// zero.
pub proof fn law_same_polynomial(a: Seq<int>, b: Seq<int>)
    requires
        b.len() <= a.len(),
    ensures
        same_poly(a, b) <==> (forall|i: int| 0 <= i < b.len() ==> #[trigger] a[i] == b[i]) && (
        forall|i: int| b.len() <= i < a.len() ==> #[trigger] a[i] == 0),
        all_zero(a) <==> same_poly(a, Seq::empty()),
{
    if same_poly(a, b) {
        assert forall|i: int| 0 <= i < b.len() implies #[trigger] a[i] == b[i] by {
            assert(coef(a, i) == coef(b, i));
        }
        assert forall|i: int| b.len() <= i < a.len() implies #[trigger] a[i] == 0 by {
            assert(coef(a, i) == coef(b, i));
        }
    }
    let e = Seq::<int>::empty();
    if same_poly(a, e) {
        assert forall|i: int| 0 <= i < a.len() implies #[trigger] a[i] == 0 by {
            assert(coef(a, i) == coef(e, i));
        }
    }
}

/// The product of no polynomials has no coefficients, and that of one is the polynomial. Each
/// further one multiplies the product, which then has no trailing zeros.
pub proof fn law_another_factor(s: Seq<Seq<int>>, c: Seq<int>, x: int, p: int)
    requires
        p > 0,
        s.len() > 0,
    ensures
        product_of(Seq::empty(), p) == Seq::<int>::empty(),
        product_of(seq![c], p) == c,
        same_poly(product_of(s.push(c), p), poly_mul(product_of(s, p), c, p)),
        product_of(s.push(c), p).len() == degree_bound(product_of(s.push(c), p)),
        eval(product_of(s.push(c), p), x) % p == (eval(product_of(s, p), x) * eval(c, x)) % p,
{
    let t = s.push(c);
    assert(t.drop_last() =~= s);
    let m = poly_mul(product_of(s, p), c, p);
    lemma_trim(m);
    lemma_eval_same(trim(m), m, x);
    lemma_eval_poly_mul(product_of(s, p), c, x, p);
}

/// Two polynomials can be multiplied if one of them is zero, or if the degree of the product is
/// less than the order of the two-adic subgroup and either one is constant or the length of the
/// transform is a machine word. Otherwise they cannot.
pub proof fn law_capacity<F: PrimeField>(a: Seq<int>, b: Seq<int>)
    ensures
        degree_bound(a) == 0 || degree_bound(b) == 0 ==> product_fits::<F>(a, b),
        degree_bound(a) > 0 && degree_bound(b) > 0 ==> (product_fits::<F>(a, b) <==> {
            &&& degree_bound(a) + degree_bound(b) - 2 < pow(2, F::two_adicity())
            &&& degree_bound(a) == 1 || degree_bound(b) == 1 || next_power(
                2,
                degree_bound(a) + degree_bound(b) - 1,
            ) <= usize::MAX
        }),
        product_fits::<F>(a, b) <==> bounds_fit(
            degree_bound(a),
            degree_bound(b),
            F::two_adicity(),
        ),
{
}

/// A list can be multiplied if its halves can, and their products too.
pub proof fn law_capacity_of_lists<F: PrimeField>(s: Seq<Seq<int>>)
    ensures
        s.len() < 2 ==> all_products_fit::<F>(s),
        s.len() >= 2 ==> (all_products_fit::<F>(s) <==> {
            let left = s.take(s.len() as int / 2);
            let right = s.skip(s.len() as int / 2);
            &&& all_products_fit::<F>(left)
            &&& all_products_fit::<F>(right)
            &&& product_fits::<F>(product_of(left, F::modulus()), product_of(right, F::modulus()))
        }),
{
}

/// A transform has the values at the powers of the root of unity, in their order.
pub proof fn law_transform(c: Seq<int>, w: int, p: int, i: int)
    requires
        0 <= i < c.len(),
    ensures
        dft(c, w, p).len() == c.len(),
        dft(c, w, p)[i] == eval(c, pow(w, i as nat)) % p,
{
}

/// The transform and the inverse transform undo each other.
pub proof fn law_transforms_undo(c: Seq<int>, w: int, p: int)
    requires
        is_prime(p),
        primitive_root(w, c.len() as int, p),
        reduced(c, p),
        c.len() < p,
    ensures
        idft(dft(c, w, p), w, p) == c,
        dft(idft(c, w, p), w, p) == c,
{
    lemma_small_mod(c.len(), p as nat);
    lemma_idft_dft(c, w, p);
    lemma_dft_idft(c, w, p);
}

/// What a primitive root of unity is.
pub proof fn law_primitive_root(w: int, n: int, p: int)
    ensures
        primitive_root(w, n, p) <==> n > 0 && pow(w, n as nat) % p == 1 && (forall|j: nat|
            0 < j < n ==> #[trigger] pow(w, j) % p != 1),
{
}

/// Lists are multiplied entry by entry.
pub proof fn law_pointwise(a: Seq<int>, b: Seq<int>, p: int, i: int)
    requires
        a.len() == b.len(),
        0 <= i < a.len(),
    ensures
        pointwise(a, b, p).len() == a.len(),
        pointwise(a, b, p)[i] == (a[i] * b[i]) % p,
{
}

/// Multiplying the coefficients by the powers of `g` substitutes `g * x` for `x`.
pub proof fn law_dilation(c: Seq<int>, g: int, x: int, p: int)
    requires
        p > 0,
    ensures
        dilated(c, g, p).len() == c.len(),
        eval(dilated(c, g, p), x) % p == eval(c, g * x) % p,
{
    lemma_eval_dilated(c, g, x, p);
}

/// The next power is a power of the radix, it is at least the number, and no power that is at least
/// the number is smaller.
pub proof fn law_next_power(radix: int, n: int, j: nat)
    requires
        radix >= 2,
    ensures
        exists|k: nat| next_power(radix, n) == #[trigger] pow(radix, k),
        is_power(radix, next_power(radix, n)),
        next_power(radix, n) >= n,
        n <= pow(radix, j) ==> next_power(radix, n) <= pow(radix, j),
{
    lemma_next_power(radix, n);
    if n <= pow(radix, j) {
        lemma_next_power_least(radix, n, j);
    }
    assert(next_power(radix, n) == pow(radix, ceil_log(radix, n)));
}

/// Reversing sends the lowest of `len + 1` digits to the highest place and reverses the others, and
/// reversing twice gives the number back.
pub proof fn law_reversed(radix: int, len: nat, b: int, d: int)
    requires
        radix >= 2,
        0 <= b < pow(radix, len),
        0 <= d < radix,
    ensures
        reversed(radix, 0, b) == 0,
        reversed(radix, len + 1, b * radix + d) == reversed(radix, len, b) + d * pow(radix, len),
        reversed(radix, len, reversed(radix, len, b)) == b,
        0 <= reversed(radix, len, b) < pow(radix, len),
{
    lemma_reversed_step(radix, len, b, d);
    lemma_reversed_involution(radix, len, b);
    lemma_reversed_bound(radix, len, b);
}

/// The root of unity of order `2^k` is a power of the field's two-adic root.
pub proof fn law_root2<F: PrimeField>(k: nat)
    requires
        k <= F::two_adicity(),
    ensures
        root2::<F>(pow(2, k)) == pow(
            F::two_adic_root(),
            pow(2, (F::two_adicity() - k) as nat) as nat,
        ) % F::modulus(),
        primitive_root(root2::<F>(pow(2, k)), pow(2, k), F::modulus()),
{
    lemma_root2::<F>(k);
}

/// The root of unity of order `3^k` is a power of the field's three-adic root.
pub proof fn law_root3<F: ThreeAdicField>(k: nat)
    requires
        k <= F::three_adicity(),
    ensures
        root3::<F>(pow(3, k)) == pow(
            F::three_adic_root(),
            pow(3, (F::three_adicity() - k) as nat) as nat,
        ) % F::modulus(),
        primitive_root(root3::<F>(pow(3, k)), pow(3, k), F::modulus()),
{
    lemma_root3::<F>(k);
}

} // verus!
