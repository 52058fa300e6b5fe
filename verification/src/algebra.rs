//! Polynomials as sequences of integer coefficients in ascending degree order, with arithmetic
//! modulo an integer `p`.
use crate::modular::{lemma_mod_mod, lemma_mul_congr, lemma_pow_congr};
use crate::sums::{
    lemma_sum_add, lemma_sum_congr, lemma_sum_ext, lemma_sum_first, lemma_sum_scale,
    lemma_sum_split, lemma_sum_zero, sum,
};
use vstd::arithmetic::power::{lemma_pow0, lemma_pow1, lemma_pow_adds, pow};
use vstd::prelude::*;

verus! {

/// The coefficient of `x^i`, which is zero outside the sequence.
pub open spec fn coef(c: Seq<int>, i: int) -> int {
    if 0 <= i < c.len() {
        c[i]
    } else {
        0
    }
}

/// The value of the polynomial at `x`, as an integer.
pub open spec fn eval(c: Seq<int>, x: int) -> int {
    sum(c.len(), |i: int| c[i] * pow(x, i as nat))
}

/// Whether every coefficient is a residue modulo `p`.
pub open spec fn reduced(c: Seq<int>, p: int) -> bool {
    forall|i: int| 0 <= i < c.len() ==> 0 <= #[trigger] c[i] < p
}

/// The smallest `d` such that every coefficient from `d` on is zero.
pub open spec fn degree_bound(c: Seq<int>) -> nat
    decreases c.len(),
{
    if c.len() == 0 {
        0
    } else if c.last() != 0 {
        c.len()
    } else {
        degree_bound(c.drop_last())
    }
}

/// The polynomial without its trailing zeros.
pub open spec fn trim(c: Seq<int>) -> Seq<int> {
    c.take(degree_bound(c) as int)
}

/// The first `n` coefficients, with zeros where the sequence is shorter than that.
pub open spec fn resized(c: Seq<int>, n: nat) -> Seq<int> {
    Seq::new(n, |i: int| coef(c, i))
}

/// The larger of two lengths.
pub open spec fn max_len(a: Seq<int>, b: Seq<int>) -> nat {
    if a.len() >= b.len() {
        a.len()
    } else {
        b.len()
    }
}

/// The sum of two polynomials.
pub open spec fn poly_add(a: Seq<int>, b: Seq<int>, p: int) -> Seq<int> {
    Seq::new(max_len(a, b), |i: int| (coef(a, i) + coef(b, i)) % p)
}

/// The difference of two polynomials.
pub open spec fn poly_sub(a: Seq<int>, b: Seq<int>, p: int) -> Seq<int> {
    Seq::new(max_len(a, b), |i: int| (coef(a, i) - coef(b, i)) % p)
}

/// The negation of a polynomial.
pub open spec fn poly_neg(a: Seq<int>, p: int) -> Seq<int> {
    Seq::new(a.len(), |i: int| (-a[i]) % p)
}

/// A polynomial multiplied by a number.
pub open spec fn poly_scale(a: Seq<int>, k: int, p: int) -> Seq<int> {
    Seq::new(a.len(), |i: int| (a[i] * k) % p)
}

/// The coefficient of `x^k` in the product of two polynomials, as an integer.
pub open spec fn mul_coef(a: Seq<int>, b: Seq<int>, k: int) -> int {
    sum((k + 1) as nat, |i: int| coef(a, i) * coef(b, k - i))
}

/// The number of coefficients of a product.
pub open spec fn mul_len(a: Seq<int>, b: Seq<int>) -> nat {
    if a.len() == 0 || b.len() == 0 {
        0
    } else {
        (a.len() + b.len() - 1) as nat
    }
}

/// The product of two polynomials.
pub open spec fn poly_mul(a: Seq<int>, b: Seq<int>, p: int) -> Seq<int> {
    Seq::new(mul_len(a, b), |k: int| mul_coef(a, b, k) % p)
}

/// Whether two sequences hold the same polynomial, whatever trailing zeros they have.
pub open spec fn same_poly(a: Seq<int>, b: Seq<int>) -> bool {
    forall|i: int| #[trigger] coef(a, i) == coef(b, i)
}

/// What `degree_bound` is, without recursion.
pub proof fn lemma_degree_bound(c: Seq<int>)
    ensures
        degree_bound(c) <= c.len(),
        forall|i: int| degree_bound(c) <= i ==> #[trigger] coef(c, i) == 0,
        degree_bound(c) > 0 ==> coef(c, degree_bound(c) - 1) != 0,
    decreases c.len(),
{
    if c.len() > 0 && c.last() == 0 {
        let d = c.drop_last();
        lemma_degree_bound(d);
        assert forall|i: int| degree_bound(c) <= i implies #[trigger] coef(c, i) == 0 by {
            assert(coef(d, i) == 0);
        }
        let e = degree_bound(d) as int;
        assert(e > 0 ==> coef(c, e - 1) == coef(d, e - 1));
    }
}

/// `degree_bound` depends on the polynomial alone, not on trailing zeros.
pub proof fn lemma_degree_bound_unique(c: Seq<int>, d: int)
    requires
        d >= 0,
        forall|i: int| d <= i ==> #[trigger] coef(c, i) == 0,
        d > 0 ==> coef(c, d - 1) != 0,
    ensures
        degree_bound(c) == d,
{
    lemma_degree_bound(c);
    let e = degree_bound(c) as int;
    if e > d {
        assert(coef(c, e - 1) == 0);
    }
    if e < d {
        assert(coef(c, d - 1) == 0);
    }
}

/// Trimming keeps every coefficient and leaves no trailing zero.
pub proof fn lemma_trim(c: Seq<int>)
    ensures
        same_poly(trim(c), c),
        trim(c).len() == degree_bound(c),
        degree_bound(trim(c)) == degree_bound(c),
{
    lemma_degree_bound(c);
    assert forall|i: int| #[trigger] coef(trim(c), i) == coef(c, i) by {
        if i >= degree_bound(c) {
            assert(coef(c, i) == 0);
        }
    }
    assert forall|i: int| degree_bound(c) <= i implies #[trigger] coef(trim(c), i) == 0 by {}
    lemma_degree_bound_unique(trim(c), degree_bound(c) as int);
}

/// Sequences that hold the same polynomial have the same trimmed form.
pub proof fn lemma_same_trim(a: Seq<int>, b: Seq<int>)
    requires
        same_poly(a, b),
    ensures
        degree_bound(a) == degree_bound(b),
        trim(a) == trim(b),
{
    lemma_degree_bound(a);
    lemma_degree_bound(b);
    let d = degree_bound(b) as int;
    assert forall|i: int| d <= i implies #[trigger] coef(a, i) == 0 by {
        assert(coef(b, i) == 0);
    }
    if d > 0 {
        assert(coef(a, d - 1) == coef(b, d - 1));
    }
    lemma_degree_bound_unique(a, d);
    assert forall|i: int| 0 <= i < d implies #[trigger] trim(a)[i] == trim(b)[i] by {
        assert(coef(a, i) == coef(b, i));
    }
    assert(trim(a) =~= trim(b));
}

/// A sequence without a trailing zero is its own trimmed form.
pub proof fn lemma_trim_fixed(c: Seq<int>)
    requires
        c.len() == 0 || c.last() != 0,
    ensures
        trim(c) == c,
        degree_bound(c) == c.len(),
{
    assert(trim(c) =~= c);
}

/// Evaluation as a sum over any number of coefficients that covers the sequence.
pub proof fn lemma_eval_sum(c: Seq<int>, n: nat, x: int)
    requires
        c.len() <= n,
    ensures
        eval(c, x) == sum(n, |i: int| coef(c, i) * pow(x, i as nat)),
{
    let f = |i: int| coef(c, i) * pow(x, i as nat);
    let rest = (n - c.len()) as nat;
    lemma_sum_split(c.len(), rest, f);
    lemma_sum_zero(rest, |i: int| f(c.len() + i));
    lemma_sum_ext(c.len(), |i: int| c[i] * pow(x, i as nat), f);
}

/// Sequences that hold the same polynomial have the same values.
pub proof fn lemma_eval_same(a: Seq<int>, b: Seq<int>, x: int)
    requires
        same_poly(a, b),
    ensures
        eval(a, x) == eval(b, x),
{
    let n = max_len(a, b);
    lemma_eval_sum(a, n, x);
    lemma_eval_sum(b, n, x);
    lemma_sum_ext(
        n,
        |i: int| coef(a, i) * pow(x, i as nat),
        |i: int| coef(b, i) * pow(x, i as nat),
    );
}

/// Resizing to a length that covers the degree keeps the polynomial.
pub proof fn lemma_resized_same(c: Seq<int>, n: nat)
    requires
        degree_bound(c) <= n,
    ensures
        same_poly(resized(c, n), c),
{
    lemma_degree_bound(c);
    assert forall|i: int| #[trigger] coef(resized(c, n), i) == coef(c, i) by {}
}

/// Polynomials with congruent coefficients have congruent values at congruent points.
pub proof fn lemma_eval_congr(a: Seq<int>, b: Seq<int>, x: int, y: int, p: int)
    requires
        p > 0,
        forall|i: int| 0 <= i ==> #[trigger] coef(a, i) % p == coef(b, i) % p,
        x % p == y % p,
    ensures
        eval(a, x) % p == eval(b, y) % p,
{
    let n = max_len(a, b);
    lemma_eval_sum(a, n, x);
    lemma_eval_sum(b, n, y);
    let f = |i: int| coef(a, i) * pow(x, i as nat);
    let g = |i: int| coef(b, i) * pow(y, i as nat);
    assert forall|i: int| 0 <= i < n implies #[trigger] f(i) % p == g(i) % p by {
        lemma_pow_congr(x, y, i as nat, p);
        assert(coef(a, i) % p == coef(b, i) % p);
        lemma_mul_congr(coef(a, i), coef(b, i), pow(x, i as nat), pow(y, i as nat), p);
    }
    lemma_sum_congr(n, f, g, p);
}

/// The value of the empty polynomial.
pub proof fn lemma_eval_empty(c: Seq<int>, x: int)
    requires
        c.len() == 0,
    ensures
        eval(c, x) == 0,
{
}

/// Evaluation, one coefficient at a time from the constant term on.
pub proof fn lemma_eval_first(c: Seq<int>, x: int)
    requires
        c.len() > 0,
    ensures
        eval(c, x) == c[0] + x * eval(c.skip(1), x),
{
    let n = (c.len() - 1) as nat;
    let d = c.skip(1);
    let f = |i: int| c[i] * pow(x, i as nat);
    let g = |i: int| d[i] * pow(x, i as nat);
    lemma_sum_first(n, f);
    lemma_pow0(x);
    let h = |i: int| f(i + 1);
    let k = |i: int| x * g(i);
    assert forall|i: int| 0 <= i < n implies #[trigger] h(i) == k(i) by {
        lemma_pow_adds(x, 1, i as nat);
        lemma_pow1(x);
        let q = pow(x, i as nat);
        assert(c[i + 1] * (x * q) == x * (c[i + 1] * q)) by (nonlinear_arith);
    }
    lemma_sum_ext(n, h, k);
    lemma_sum_scale(n, x, g);
    assert(c[0] * 1 == c[0]);
}

/// The value of a constant polynomial.
pub proof fn lemma_eval_constant(c: Seq<int>, x: int)
    requires
        c.len() == 1,
    ensures
        eval(c, x) == c[0],
{
    lemma_eval_first(c, x);
    lemma_eval_empty(c.skip(1), x);
    assert(x * 0 == 0);
}

/// The values of a scaled polynomial.
pub proof fn lemma_eval_scale(c: Seq<int>, k: int, x: int, p: int)
    requires
        p > 0,
    ensures
        eval(poly_scale(c, k, p), x) % p == (eval(c, x) * k) % p,
{
    let s = poly_scale(c, k, p);
    let raw = Seq::new(c.len(), |i: int| c[i] * k);
    assert forall|i: int| 0 <= i implies #[trigger] coef(s, i) % p == coef(raw, i) % p by {
        if i < c.len() {
            lemma_mod_mod(c[i] * k, p);
        }
    }
    lemma_eval_congr(s, raw, x, x, p);
    let f = |i: int| c[i] * pow(x, i as nat);
    let g = |i: int| raw[i] * pow(x, i as nat);
    let h = |i: int| k * f(i);
    assert forall|i: int| 0 <= i < c.len() implies #[trigger] g(i) == h(i) by {
        let a = c[i];
        let b = pow(x, i as nat);
        assert((a * k) * b == k * (a * b)) by (nonlinear_arith);
    }
    lemma_sum_ext(c.len(), g, h);
    lemma_sum_scale(c.len(), k, f);
    let t = eval(c, x);
    assert(k * t == t * k) by (nonlinear_arith);
}

/// The values of a sum of polynomials.
pub proof fn lemma_eval_add(a: Seq<int>, b: Seq<int>, x: int, p: int)
    requires
        p > 0,
    ensures
        eval(poly_add(a, b, p), x) % p == (eval(a, x) + eval(b, x)) % p,
{
    let n = max_len(a, b);
    let s = poly_add(a, b, p);
    let raw = Seq::new(n, |i: int| coef(a, i) + coef(b, i));
    assert forall|i: int| 0 <= i implies #[trigger] coef(s, i) % p == coef(raw, i) % p by {
        if i < n {
            lemma_mod_mod(coef(a, i) + coef(b, i), p);
        }
    }
    lemma_eval_congr(s, raw, x, x, p);
    lemma_eval_sum(a, n, x);
    lemma_eval_sum(b, n, x);
    let f = |i: int| coef(a, i) * pow(x, i as nat);
    let g = |i: int| coef(b, i) * pow(x, i as nat);
    let h = |i: int| raw[i] * pow(x, i as nat);
    let fg = |i: int| f(i) + g(i);
    assert forall|i: int| 0 <= i < n implies #[trigger] h(i) == fg(i) by {
        let u = coef(a, i);
        let v = coef(b, i);
        let t = pow(x, i as nat);
        assert((u + v) * t == u * t + v * t) by (nonlinear_arith);
    }
    lemma_sum_ext(n, h, fg);
    lemma_sum_add(n, f, g);
}

} // verus!
