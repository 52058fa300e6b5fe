//! Polynomials with coefficients in a prime field.
use crate::algebra::{
    degree_bound, eval, lemma_degree_bound, lemma_eval_empty, lemma_eval_first, lemma_trim,
    poly_scale, reduced, resized, trim,
};
use crate::field::{lemma_vals, vals, PrimeField};
use crate::modular::{lemma_add_congr, lemma_mod_mod, lemma_mul_congr};
use crate::roots::quotient;
use vstd::arithmetic::div_mod::lemma_small_mod;
use vstd::prelude::*;

verus! {

/// A polynomial, given by its coefficients in ascending degree order: the first one is the
/// constant term.
///
/// Its view is the sequence of the residues that the coefficients stand for.
#[derive(Debug, PartialEq, Eq)]
pub struct Polynomial<F: PrimeField> {
    coefficients: Vec<F>,
}

impl<F: PrimeField> View for Polynomial<F> {
    type V = Seq<int>;

    closed spec fn view(&self) -> Seq<int> {
        vals(self.coefficients@)
    }
}

/// The view of a polynomial holds residues.
pub proof fn lemma_view<F: PrimeField>(c: Polynomial<F>)
    ensures
        reduced(c@, F::modulus()),
{
    lemma_vals(c.coefficients@);
}

impl<F: PrimeField> Clone for Polynomial<F> {
    /// Returns a polynomial with the same coefficients.
    fn clone(&self) -> (r: Self)
        ensures
            r@ == self@,
    {
        let mut coefficients: Vec<F> = Vec::new();
        let mut i: usize = 0;
        while i < self.coefficients.len()
            invariant
                i <= self.coefficients@.len(),
                coefficients@.len() == i,
                forall|j: int| 0 <= j < i ==> #[trigger] coefficients@[j] == self.coefficients@[j],
            decreases self.coefficients@.len() - i,
        {
            coefficients.push(self.coefficients[i]);
            i = i + 1;
        }
        let r = Polynomial { coefficients };
        assert(r@ =~= self@);
        r
    }
}

impl<F: PrimeField> Default for Polynomial<F> {
    /// Returns the zero polynomial, without coefficients.
    fn default() -> (r: Self)
        ensures
            r@ == Seq::<int>::empty(),
    {
        let r = Polynomial { coefficients: Vec::new() };
        assert(r@ =~= Seq::<int>::empty());
        r
    }
}

/// Returns the degree plus one of the polynomial that has the given coefficients.
pub fn degree_bound_of<F: PrimeField>(coefficients: &[F]) -> (r: usize)
    ensures
        r == degree_bound(vals(coefficients@)),
{
    let ghost c = vals(coefficients@);
    let zero = F::zero();
    let mut i: usize = coefficients.len();
    assert(c.take(i as int) =~= c);
    while i > 0
        invariant
            i <= coefficients@.len(),
            c == vals(coefficients@),
            zero.val() == 0,
            degree_bound(c) == degree_bound(c.take(i as int)),
        decreases i,
    {
        proof {
            assert(c.take(i as int).last() == c[i - 1]);
            assert(c.take(i as int).drop_last() =~= c.take(i - 1));
        }
        if !coefficients[i - 1].is_equal(zero) {
            return i;
        }
        i = i - 1;
    }
    0
}

/// Makes the number of coefficients `n`, dropping the highest ones or adding zeros.
pub fn resize<F: PrimeField>(data: &mut Vec<F>, n: usize)
    ensures
        vals(final(data)@) == resized(vals(old(data)@), n as nat),
        final(data)@.len() == n,
{
    let ghost c = vals(data@);
    if data.len() > n {
        data.truncate(n);
    }
    while data.len() < n
        invariant
            data@.len() <= n,
            vals(data@) == resized(c, data@.len()),
            data@.len() < n ==> data@.len() >= c.len(),
        decreases n - data@.len(),
    {
        let ghost before = data@;
        data.push(F::zero());
        assert(vals(data@) =~= resized(c, data@.len())) by {
            assert forall|i: int| 0 <= i < before.len() implies vals(data@)[i] == resized(
                c,
                data@.len(),
            )[i] by {
                assert(vals(before)[i] == resized(c, before.len())[i]);
            }
        }
    }
    assert(vals(data@) =~= resized(c, n as nat));
}

/// Multiplies every element by the same factor.
pub fn scale<F: PrimeField>(data: &mut Vec<F>, factor: F)
    ensures
        vals(final(data)@) == poly_scale(vals(old(data)@), factor.val(), F::modulus()),
        final(data)@.len() == old(data)@.len(),
{
    let n: usize = data.len();
    let ghost c = data@;
    let mut i: usize = 0;
    while i < n
        invariant
            i <= n,
            n == c.len(),
            data@.len() == n,
            forall|j: int|
                0 <= j < n ==> #[trigger] data@[j].val() == if j < i {
                    (c[j].val() * factor.val()) % F::modulus()
                } else {
                    c[j].val()
                },
        decreases n - i,
    {
        let ghost before = data@;
        let x = data[i].times(factor);
        proof {
            assert(before[i as int].val() == c[i as int].val());
        }
        data.set(i, x);
        proof {
            assert forall|j: int| 0 <= j < n implies #[trigger] data@[j].val() == if j < i + 1 {
                (c[j].val() * factor.val()) % F::modulus()
            } else {
                c[j].val()
            } by {
                assert(before[j].val() == if j < i {
                    (c[j].val() * factor.val()) % F::modulus()
                } else {
                    c[j].val()
                });
            }
        }
        i = i + 1;
    }
    assert(vals(data@) =~= poly_scale(vals(c), factor.val(), F::modulus()));
}

impl<F: PrimeField> Polynomial<F> {
    /// Constructs a polynomial with the given coefficients, in ascending degree order.
    pub fn with_coefficients(coefficients: Vec<F>) -> (r: Self)
        ensures
            r@ == vals(coefficients@),
    {
        Polynomial { coefficients }
    }

    /// Returns a polynomial that evaluates to `y` everywhere.
    pub fn constant(y: F) -> (r: Self)
        ensures
            r@ == seq![y.val()],
    {
        let mut coefficients: Vec<F> = Vec::new();
        coefficients.push(y);
        let r = Polynomial { coefficients };
        assert(r@ =~= seq![y.val()]);
        r
    }

    /// Returns the number of coefficients.
    pub fn len(&self) -> (r: usize)
        ensures
            r == self@.len(),
    {
        self.coefficients.len()
    }

    /// Returns the coefficients in ascending degree order.
    pub fn coefficients(&self) -> (r: &[F])
        ensures
            vals(r@) == self@,
    {
        self.coefficients.as_slice()
    }

    /// Extracts the coefficients, in ascending degree order.
    pub fn take(self) -> (r: Vec<F>)
        ensures
            vals(r@) == self@,
    {
        self.coefficients
    }

    /// Returns the smallest number that is greater than the degree.
    ///
    /// Trailing coefficients may be zero, so this can be less than `len`.
    pub fn degree_bound(&self) -> (r: usize)
        ensures
            r == degree_bound(self@),
    {
        degree_bound_of(self.coefficients.as_slice())
    }

    /// Removes trailing zero coefficients.
    ///
    /// After this call `len` is the degree bound.
    pub fn trim(&mut self)
        ensures
            final(self)@ == trim(old(self)@),
            final(self)@.len() == degree_bound(final(self)@),
    {
        let ghost c = self@;
        proof {
            lemma_degree_bound(c);
            lemma_trim(c);
        }
        let d: usize = degree_bound_of(self.coefficients.as_slice());
        self.coefficients.truncate(d);
        assert(self@ =~= trim(c));
    }

    /// Pads the polynomial with zero coefficients until there are at least `min_degree_bound`.
    pub fn pad(&mut self, min_degree_bound: usize)
        ensures
            final(self)@ == resized(
                old(self)@,
                if min_degree_bound > old(self)@.len() {
                    min_degree_bound as nat
                } else {
                    old(self)@.len()
                },
            ),
            final(self)@.len() >= min_degree_bound,
            final(self)@.len() == min_degree_bound || final(self)@.len() == old(self)@.len(),
            forall|i: int| 0 <= i < old(self)@.len() ==> final(self)@[i] == old(self)@[i],
            forall|i: int| old(self)@.len() <= i < final(self)@.len() ==> final(self)@[i] == 0,
    {
        let ghost c = self@;
        if min_degree_bound > self.coefficients.len() {
            resize(&mut self.coefficients, min_degree_bound);
        } else {
            assert(self@ =~= resized(c, c.len()));
        }
    }

    /// Evaluates the polynomial at `x`.
    pub fn evaluate(&self, x: F) -> (r: F)
        ensures
            r.val() == eval(self@, x.val()) % F::modulus(),
    {
        let ghost c = self@;
        let ghost p = F::modulus();
        let ghost z = x.val();
        let mut y = F::zero();
        let mut i: usize = self.coefficients.len();
        proof {
            F::lemma_modulus();
            lemma_eval_empty(c.skip(i as int), z);
            lemma_small_mod(0, p as nat);
        }
        while i > 0
            invariant
                i <= c.len(),
                c == self@,
                p == F::modulus(),
                p > 0,
                z == x.val(),
                y.val() == eval(c.skip(i as int), z) % p,
            decreases i,
        {
            i = i - 1;
            let ghost before = y.val();
            y = y.times(x).plus(self.coefficients[i]);
            proof {
                lemma_mod_mod(eval(c.skip(i + 1), z), p);
                lemma_horner_step(c, z, p, i as int, before);
                let t = before * z;
                lemma_mod_mod(t, p);
                lemma_add_congr(t % p, t, c[i as int], c[i as int], p);
            }
        }
        assert(c.skip(0) =~= c);
        y
    }

    /// Divides the polynomial by `x - z`. Returns the quotient and the remainder, which is the
    /// value at `z`.
    pub fn horner(&self, z: F) -> (r: (Self, F))
        ensures
            r.0@ == quotient(self@, z.val(), F::modulus()),
            r.1.val() == eval(self@, z.val()) % F::modulus(),
    {
        let ghost c = self@;
        let ghost p = F::modulus();
        let ghost x = z.val();
        let len: usize = self.coefficients.len();
        proof {
            F::lemma_modulus();
            lemma_small_mod(0, p as nat);
        }
        if len == 0 {
            proof {
                lemma_eval_empty(c, x);
                assert(quotient(c, x, p) =~= Seq::<int>::empty());
            }
            return (Polynomial::default(), F::zero());
        }
        let n: usize = len - 1;
        let mut coefficients: Vec<F> = Vec::new();
        resize(&mut coefficients, n);
        let mut carry = self.coefficients[n];
        let mut i: usize = n;
        proof {
            assert(c.skip(len as int).len() == 0);
            lemma_eval_empty(c.skip(len as int), x);
            lemma_horner_step(c, x, p, n as int, 0);
            lemma_vals(self.coefficients@);
            assert(0 * x == 0);
            assert(c[n as int] == self.coefficients@[n as int].val());
            lemma_small_mod(c[n as int] as nat, p as nat);
        }
        while i > 0
            invariant
                i <= n,
                n + 1 == c.len(),
                c == self@,
                p == F::modulus(),
                p > 0,
                x == z.val(),
                coefficients@.len() == n,
                carry.val() == eval(c.skip(i as int), x) % p,
                forall|j: int|
                    i <= j < n ==> #[trigger] coefficients@[j].val() == eval(c.skip(j + 1), x) % p,
            decreases i,
        {
            coefficients.set(i - 1, carry);
            let ghost before = carry.val();
            i = i - 1;
            carry = self.coefficients[i].plus(z.times(carry));
            proof {
                lemma_mod_mod(eval(c.skip(i + 1), x), p);
                lemma_horner_step(c, x, p, i as int, before);
                let t = x * before;
                lemma_mod_mod(t, p);
                assert(x * before == before * x) by (nonlinear_arith);
                lemma_add_congr(c[i as int], c[i as int], t % p, t, p);
            }
        }
        let q = Polynomial { coefficients };
        proof {
            assert(c.skip(0) =~= c);
            assert(q@ =~= quotient(c, x, p));
        }
        (q, carry)
    }
}

/// One step of an evaluation from the highest coefficient down.
proof fn lemma_horner_step(c: Seq<int>, x: int, p: int, i: int, y: int)
    requires
        p > 0,
        0 <= i < c.len(),
        y % p == eval(c.skip(i + 1), x) % p,
    ensures
        (y * x + c[i]) % p == eval(c.skip(i), x) % p,
        (c[i] + y * x) % p == eval(c.skip(i), x) % p,
{
    let u = c.skip(i);
    let e = eval(c.skip(i + 1), x);
    lemma_eval_first(u, x);
    assert(u.skip(1) =~= c.skip(i + 1));
    lemma_mul_congr(y, e, x, x, p);
    assert(e * x == x * e) by (nonlinear_arith);
    lemma_add_congr(y * x, x * e, c[i], c[i], p);
}

} // verus!
