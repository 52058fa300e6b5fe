//! The operators on polynomials.
//!
//! What an operator returns is stated over the views of the operands, on the function itself.
use crate::algebra::{coef, poly_add, poly_mul, poly_neg, poly_scale, poly_sub, trim};
use crate::field::{lemma_vals, vals, PrimeField};
use crate::modular::{lemma_mod_mod, lemma_sub_congr};
use crate::multiply::product_fits;
use crate::polynomial::{scale, Polynomial};
use std::ops::{Add, AddAssign, Mul, MulAssign, Neg, Sub, SubAssign};
use vstd::arithmetic::div_mod::lemma_small_mod;
use vstd::prelude::*;
use vstd::std_specs::ops::{AddSpecImpl, MulSpecImpl, NegSpecImpl, SubSpecImpl};

verus! {

/// Adds the coefficients of the shorter polynomial to those of the longer one.
fn add_to<F: PrimeField>(data: &mut Vec<F>, rhs: &Vec<F>)
    requires
        rhs@.len() <= old(data)@.len(),
    ensures
        vals(final(data)@) == poly_add(vals(old(data)@), vals(rhs@), F::modulus()),
        vals(final(data)@) == poly_add(vals(rhs@), vals(old(data)@), F::modulus()),
{
    let ghost a = vals(data@);
    let ghost b = vals(rhs@);
    let ghost p = F::modulus();
    let mut i: usize = 0;
    while i < rhs.len()
        invariant
            i <= rhs@.len() <= data@.len(),
            a.len() == data@.len(),
            b == vals(rhs@),
            p == F::modulus(),
            forall|j: int|
                0 <= j < a.len() ==> #[trigger] vals(data@)[j] == if j < i {
                    (a[j] + b[j]) % p
                } else {
                    a[j]
                },
        decreases rhs@.len() - i,
    {
        let ghost before = vals(data@);
        let x = data[i].plus(rhs[i]);
        assert(before[i as int] == a[i as int]);
        data.set(i, x);
        assert forall|j: int| 0 <= j < a.len() implies #[trigger] vals(data@)[j] == if j < i + 1 {
            (a[j] + b[j]) % p
        } else {
            a[j]
        } by {
            assert(before[j] == if j < i {
                (a[j] + b[j]) % p
            } else {
                a[j]
            });
        }
        i = i + 1;
    }
    proof {
        lemma_vals(old(data)@);
        let r = poly_add(a, b, p);
        assert forall|j: int| 0 <= j < a.len() implies vals(data@)[j] == r[j] by {
            lemma_small_mod(a[j] as nat, p as nat);
        }
        assert(vals(data@) =~= r);
        assert(r =~= poly_add(b, a, p));
    }
}

/// Subtracts the coefficients of the shorter polynomial from those of the longer one.
fn subtract_from<F: PrimeField>(data: &mut Vec<F>, rhs: &Vec<F>)
    requires
        rhs@.len() <= old(data)@.len(),
    ensures
        vals(final(data)@) == poly_sub(vals(old(data)@), vals(rhs@), F::modulus()),
{
    let ghost a = vals(data@);
    let ghost b = vals(rhs@);
    let ghost p = F::modulus();
    let mut i: usize = 0;
    while i < rhs.len()
        invariant
            i <= rhs@.len() <= data@.len(),
            a.len() == data@.len(),
            b == vals(rhs@),
            p == F::modulus(),
            forall|j: int|
                0 <= j < a.len() ==> #[trigger] vals(data@)[j] == if j < i {
                    (a[j] - b[j]) % p
                } else {
                    a[j]
                },
        decreases rhs@.len() - i,
    {
        let ghost before = vals(data@);
        let x = data[i].minus(rhs[i]);
        assert(before[i as int] == a[i as int]);
        data.set(i, x);
        assert forall|j: int| 0 <= j < a.len() implies #[trigger] vals(data@)[j] == if j < i + 1 {
            (a[j] - b[j]) % p
        } else {
            a[j]
        } by {
            assert(before[j] == if j < i {
                (a[j] - b[j]) % p
            } else {
                a[j]
            });
        }
        i = i + 1;
    }
    proof {
        lemma_vals(old(data)@);
        let r = poly_sub(a, b, p);
        assert forall|j: int| 0 <= j < a.len() implies vals(data@)[j] == r[j] by {
            lemma_small_mod(a[j] as nat, p as nat);
        }
        assert(vals(data@) =~= r);
    }
}

/// Negates every coefficient.
fn negate_all<F: PrimeField>(data: &mut Vec<F>)
    ensures
        vals(final(data)@) == poly_neg(vals(old(data)@), F::modulus()),
{
    let ghost a = vals(data@);
    let ghost p = F::modulus();
    let mut i: usize = 0;
    while i < data.len()
        invariant
            i <= data@.len(),
            a.len() == data@.len(),
            p == F::modulus(),
            forall|j: int|
                0 <= j < a.len() ==> #[trigger] vals(data@)[j] == if j < i {
                    (-a[j]) % p
                } else {
                    a[j]
                },
        decreases data@.len() - i,
    {
        let ghost before = vals(data@);
        let x = data[i].negate();
        assert(before[i as int] == a[i as int]);
        data.set(i, x);
        assert forall|j: int| 0 <= j < a.len() implies #[trigger] vals(data@)[j] == if j < i + 1 {
            (-a[j]) % p
        } else {
            a[j]
        } by {
            assert(before[j] == if j < i {
                (-a[j]) % p
            } else {
                a[j]
            });
        }
        i = i + 1;
    }
    assert(vals(data@) =~= poly_neg(a, p));
}

/// A difference is the negated difference the other way round.
pub proof fn lemma_poly_sub_swap(a: Seq<int>, b: Seq<int>, p: int)
    requires
        p > 0,
    ensures
        poly_neg(poly_sub(b, a, p), p) == poly_sub(a, b, p),
{
    let d = poly_sub(b, a, p);
    let r = poly_sub(a, b, p);
    assert forall|i: int| 0 <= i < r.len() implies poly_neg(d, p)[i] == r[i] by {
        let x = coef(b, i) - coef(a, i);
        lemma_mod_mod(x, p);
        lemma_sub_congr(0, 0, x % p, x, p);
    }
    assert(poly_neg(d, p) =~= r);
}

impl<F: PrimeField> NegSpecImpl for Polynomial<F> {
    open spec fn obeys_neg_spec() -> bool {
        false
    }

    open spec fn neg_req(self) -> bool {
        true
    }

    open spec fn neg_spec(self) -> Self {
        arbitrary()
    }
}

impl<F: PrimeField> Neg for Polynomial<F> {
    type Output = Self;

    fn neg(self) -> (r: Self)
        ensures
            r@ == poly_neg(self@, F::modulus()),
    {
        let mut data = self.take();
        negate_all(&mut data);
        Polynomial::with_coefficients(data)
    }
}

impl<F: PrimeField> AddAssign<Polynomial<F>> for Polynomial<F> {
    fn add_assign(&mut self, rhs: Self)
        ensures
            final(self)@ == poly_add(old(self)@, rhs@, F::modulus()),
    {
        let mut lhs = Polynomial::default();
        std::mem::swap(self, &mut lhs);
        let mut a = lhs.take();
        let mut b = rhs.take();
        if b.len() > a.len() {
            add_to(&mut b, &a);
            *self = Polynomial::with_coefficients(b);
        } else {
            add_to(&mut a, &b);
            *self = Polynomial::with_coefficients(a);
        }
    }
}

impl<F: PrimeField> AddSpecImpl<Polynomial<F>> for Polynomial<F> {
    open spec fn obeys_add_spec() -> bool {
        false
    }

    open spec fn add_req(self, rhs: Self) -> bool {
        true
    }

    open spec fn add_spec(self, rhs: Self) -> Self {
        arbitrary()
    }
}

impl<F: PrimeField> Add<Polynomial<F>> for Polynomial<F> {
    type Output = Self;

    fn add(self, rhs: Self) -> (r: Self)
        ensures
            r@ == poly_add(self@, rhs@, F::modulus()),
    {
        let mut r = self;
        AddAssign::add_assign(&mut r, rhs);
        r
    }
}

impl<F: PrimeField> AddAssign<F> for Polynomial<F> {
    fn add_assign(&mut self, rhs: F)
        ensures
            final(self)@ == poly_add(old(self)@, seq![rhs.val()], F::modulus()),
    {
        AddAssign::add_assign(self, Polynomial::constant(rhs));
    }
}

impl<F: PrimeField> AddSpecImpl<F> for Polynomial<F> {
    open spec fn obeys_add_spec() -> bool {
        false
    }

    open spec fn add_req(self, rhs: F) -> bool {
        true
    }

    open spec fn add_spec(self, rhs: F) -> Self {
        arbitrary()
    }
}

impl<F: PrimeField> Add<F> for Polynomial<F> {
    type Output = Self;

    fn add(self, rhs: F) -> (r: Self)
        ensures
            r@ == poly_add(self@, seq![rhs.val()], F::modulus()),
    {
        let mut r = self;
        AddAssign::add_assign(&mut r, rhs);
        r
    }
}

impl<F: PrimeField> SubAssign<Polynomial<F>> for Polynomial<F> {
    fn sub_assign(&mut self, rhs: Self)
        ensures
            final(self)@ == poly_sub(old(self)@, rhs@, F::modulus()),
    {
        proof {
            F::lemma_modulus();
            lemma_poly_sub_swap(self@, rhs@, F::modulus());
        }
        let mut lhs = Polynomial::default();
        std::mem::swap(self, &mut lhs);
        let mut a = lhs.take();
        let mut b = rhs.take();
        if b.len() > a.len() {
            subtract_from(&mut b, &a);
            negate_all(&mut b);
            *self = Polynomial::with_coefficients(b);
        } else {
            subtract_from(&mut a, &b);
            *self = Polynomial::with_coefficients(a);
        }
    }
}

impl<F: PrimeField> SubSpecImpl<Polynomial<F>> for Polynomial<F> {
    open spec fn obeys_sub_spec() -> bool {
        false
    }

    open spec fn sub_req(self, rhs: Self) -> bool {
        true
    }

    open spec fn sub_spec(self, rhs: Self) -> Self {
        arbitrary()
    }
}

impl<F: PrimeField> Sub<Polynomial<F>> for Polynomial<F> {
    type Output = Self;

    fn sub(self, rhs: Self) -> (r: Self)
        ensures
            r@ == poly_sub(self@, rhs@, F::modulus()),
    {
        let mut r = self;
        SubAssign::sub_assign(&mut r, rhs);
        r
    }
}

impl<F: PrimeField> SubAssign<F> for Polynomial<F> {
    fn sub_assign(&mut self, rhs: F)
        ensures
            final(self)@ == poly_sub(old(self)@, seq![rhs.val()], F::modulus()),
    {
        SubAssign::sub_assign(self, Polynomial::constant(rhs));
    }
}

impl<F: PrimeField> SubSpecImpl<F> for Polynomial<F> {
    open spec fn obeys_sub_spec() -> bool {
        false
    }

    open spec fn sub_req(self, rhs: F) -> bool {
        true
    }

    open spec fn sub_spec(self, rhs: F) -> Self {
        arbitrary()
    }
}

impl<F: PrimeField> Sub<F> for Polynomial<F> {
    type Output = Self;

    fn sub(self, rhs: F) -> (r: Self)
        ensures
            r@ == poly_sub(self@, seq![rhs.val()], F::modulus()),
    {
        let mut r = self;
        SubAssign::sub_assign(&mut r, rhs);
        r
    }
}

impl<F: PrimeField> MulAssign<F> for Polynomial<F> {
    fn mul_assign(&mut self, rhs: F)
        ensures
            final(self)@ == poly_scale(old(self)@, rhs.val(), F::modulus()),
    {
        let mut lhs = Polynomial::default();
        std::mem::swap(self, &mut lhs);
        let mut a = lhs.take();
        scale(&mut a, rhs);
        *self = Polynomial::with_coefficients(a);
    }
}

impl<F: PrimeField> MulSpecImpl<F> for Polynomial<F> {
    open spec fn obeys_mul_spec() -> bool {
        false
    }

    open spec fn mul_req(self, rhs: F) -> bool {
        true
    }

    open spec fn mul_spec(self, rhs: F) -> Self {
        arbitrary()
    }
}

impl<F: PrimeField> Mul<F> for Polynomial<F> {
    type Output = Self;

    fn mul(self, rhs: F) -> (r: Self)
        ensures
            r@ == poly_scale(self@, rhs.val(), F::modulus()),
    {
        let mut r = self;
        MulAssign::mul_assign(&mut r, rhs);
        r
    }
}

impl<F: PrimeField> MulSpecImpl<Polynomial<F>> for Polynomial<F> {
    open spec fn obeys_mul_spec() -> bool {
        false
    }

    open spec fn mul_req(self, rhs: Self) -> bool {
        product_fits::<F>(self@, rhs@)
    }

    open spec fn mul_spec(self, rhs: Self) -> Self {
        arbitrary()
    }
}

impl<F: PrimeField> Mul<Polynomial<F>> for Polynomial<F> {
    type Output = Self;

    fn mul(self, rhs: Self) -> (r: Self)
        ensures
            r@ == trim(poly_mul(self@, rhs@, F::modulus())),
    {
        self.multiply(rhs)
    }
}

impl<F: PrimeField> MulAssign<Polynomial<F>> for Polynomial<F> {
    fn mul_assign(&mut self, rhs: Self)
        requires
            product_fits::<F>(old(self)@, rhs@),
        ensures
            final(self)@ == trim(poly_mul(old(self)@, rhs@, F::modulus())),
    {
        let mut lhs = Polynomial::default();
        std::mem::swap(self, &mut lhs);
        *self = lhs.multiply(rhs);
    }
}

} // verus!
