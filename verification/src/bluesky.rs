//! The BlueSky scalar field, with the arithmetic of the `starkom_bluesky` crate.
//!
//! A scalar is held here as the limbs of its canonical representation. The functions that call the
//! crate make its own scalar of the limbs with `Scalar::from_le_u64_vartime`, which has one for
//! every number below the order of the field, and take the limbs of the result with
//! `Scalar::to_le_u64`, which gives the canonical representation.
use crate::certificate::{
    field_order, group_generator, lemma_field_order_prime, lemma_orders, lemma_root_orders,
    three_power_root, two_power_root,
};
use crate::field::{PrimeField, ThreeAdicField};
use crate::modular::{is_inverse, lemma_mod_mod};
use std::ops::Neg;
use vstd::arithmetic::div_mod::lemma_small_mod;
use vstd::arithmetic::power::pow;
use vstd::prelude::*;
use vstd::std_specs::convert::FromSpecImpl;
use vstd::std_specs::ops::NegSpecImpl;

verus! {

/// The number that four 64-bit limbs stand for, the least significant limb first.
pub open spec fn number(limbs: Seq<u64>) -> int {
    limbs[0] + 0x1_0000_0000_0000_0000 * limbs[1]
        + 0x1_0000_0000_0000_0000_0000_0000_0000_0000 * limbs[2]
        + 0x1_0000_0000_0000_0000_0000_0000_0000_0000_0000_0000_0000_0000 * limbs[3]
}

/// A scalar of the BlueSky field, stored as the four 64-bit limbs of its canonical representation.
#[derive(Debug, Clone, Copy, PartialEq, Eq, Structural)]
pub struct Scalar {
    l0: u64,
    l1: u64,
    l2: u64,
    l3: u64,
}

/// Adds two scalars with `starkom_bluesky::Scalar`'s `Add`: the result is the sum modulo the order
/// of the field.
#[verifier::external_body]
fn field_sum(a: [u64; 4], b: [u64; 4]) -> (r: [u64; 4])
    requires
        number(a@) < field_order(),
        number(b@) < field_order(),
    ensures
        number(r@) == (number(a@) + number(b@)) % field_order(),
{
    let a = starkom_bluesky::Scalar::from_le_u64_vartime(a).unwrap();
    let b = starkom_bluesky::Scalar::from_le_u64_vartime(b).unwrap();
    (a + b).to_le_u64()
}

/// Subtracts two scalars with `starkom_bluesky::Scalar`'s `Sub`: the result is the difference
/// modulo the order of the field.
#[verifier::external_body]
fn field_difference(a: [u64; 4], b: [u64; 4]) -> (r: [u64; 4])
    requires
        number(a@) < field_order(),
        number(b@) < field_order(),
    ensures
        number(r@) == (number(a@) - number(b@)) % field_order(),
{
    let a = starkom_bluesky::Scalar::from_le_u64_vartime(a).unwrap();
    let b = starkom_bluesky::Scalar::from_le_u64_vartime(b).unwrap();
    (a - b).to_le_u64()
}

/// Multiplies two scalars with `starkom_bluesky::Scalar`'s `Mul`: the result is the product modulo
/// the order of the field.
#[verifier::external_body]
fn field_product(a: [u64; 4], b: [u64; 4]) -> (r: [u64; 4])
    requires
        number(a@) < field_order(),
        number(b@) < field_order(),
    ensures
        number(r@) == (number(a@) * number(b@)) % field_order(),
{
    let a = starkom_bluesky::Scalar::from_le_u64_vartime(a).unwrap();
    let b = starkom_bluesky::Scalar::from_le_u64_vartime(b).unwrap();
    (a * b).to_le_u64()
}

/// Negates a scalar with `starkom_bluesky::Scalar`'s `Neg`: the result is the additive inverse
/// modulo the order of the field.
#[verifier::external_body]
fn field_negation(a: [u64; 4]) -> (r: [u64; 4])
    requires
        number(a@) < field_order(),
    ensures
        number(r@) == (-number(a@)) % field_order(),
{
    let a = starkom_bluesky::Scalar::from_le_u64_vartime(a).unwrap();
    (-a).to_le_u64()
}

/// Inverts a scalar with `ff::Field::invert`: there is no inverse exactly when the scalar is zero,
/// and the inverse times the scalar is one modulo the order of the field.
#[verifier::external_body]
fn field_inverse(a: [u64; 4]) -> (r: Option<[u64; 4]>)
    requires
        number(a@) < field_order(),
    ensures
        r is None <==> number(a@) == 0,
        r matches Some(x) ==> is_inverse(number(a@), number(x@), field_order()),
{
    let a = starkom_bluesky::Scalar::from_le_u64_vartime(a).unwrap();
    match ff::Field::invert(&a).into_option() {
        Some(x) => Some(x.to_le_u64()),
        None => None,
    }
}

/// Raises a scalar to a power with `ff::Field::pow_vartime`: the result is the power modulo the
/// order of the field.
#[verifier::external_body]
fn field_power(a: [u64; 4], exponent: u64) -> (r: [u64; 4])
    requires
        number(a@) < field_order(),
    ensures
        number(r@) == pow(number(a@), exponent as nat) % field_order(),
{
    let a = starkom_bluesky::Scalar::from_le_u64_vartime(a).unwrap();
    ff::Field::pow_vartime(&a, [exponent, 0, 0, 0]).to_le_u64()
}

/// Converts an integer with `starkom_bluesky::Scalar`'s `From<u64>`: the result is the integer,
/// which is less than the order of the field.
#[verifier::external_body]
fn field_from_u64(n: u64) -> (r: [u64; 4])
    ensures
        number(r@) == n,
{
    starkom_bluesky::Scalar::from(n).to_le_u64()
}

/// Reads `ff::PrimeField::S` of `starkom_bluesky::Scalar`, which is 62.
#[verifier::external_body]
fn field_s() -> (r: u32)
    ensures
        r == 62,
{
    <starkom_bluesky::Scalar as ff::PrimeField>::S
}

/// Reads `ff::PrimeField::ROOT_OF_UNITY` of `starkom_bluesky::Scalar`, which is the constant that
/// `two_power_root` gives.
#[verifier::external_body]
fn field_root_of_unity() -> (r: [u64; 4])
    ensures
        number(r@) == two_power_root(),
{
    <starkom_bluesky::Scalar as ff::PrimeField>::ROOT_OF_UNITY.to_le_u64()
}

/// Reads `ff::PrimeField::MULTIPLICATIVE_GENERATOR` of `starkom_bluesky::Scalar`, which is the
/// constant that `group_generator` gives.
#[verifier::external_body]
fn field_multiplicative_generator() -> (r: [u64; 4])
    ensures
        number(r@) == group_generator(),
{
    <starkom_bluesky::Scalar as ff::PrimeField>::MULTIPLICATIVE_GENERATOR.to_le_u64()
}

/// Reads `starkom_bluesky::ThreeAdicField::T` of `starkom_bluesky::Scalar`, which is 39.
#[verifier::external_body]
fn field_t() -> (r: u32)
    ensures
        r == 39,
{
    <starkom_bluesky::Scalar as starkom_bluesky::ThreeAdicField>::T
}

/// Reads `starkom_bluesky::ThreeAdicField::THREE_ADIC_ROOT_OF_UNITY` of `starkom_bluesky::Scalar`,
/// which is the constant that `three_power_root` gives.
#[verifier::external_body]
fn field_three_adic_root_of_unity() -> (r: [u64; 4])
    ensures
        number(r@) == three_power_root(),
{
    <starkom_bluesky::Scalar as starkom_bluesky::ThreeAdicField>::THREE_ADIC_ROOT_OF_UNITY
        .to_le_u64()
}

impl Scalar {
    /// The limbs are those of a residue.
    #[verifier::type_invariant]
    spec fn canonical(self) -> bool {
        self.stored() < field_order()
    }

    /// The number that the limbs stand for.
    spec fn stored(self) -> int {
        number(seq![self.l0, self.l1, self.l2, self.l3])
    }

    /// Constructs a scalar from its limbs, the least significant one first. There is none if they
    /// stand for a number outside the field.
    pub fn from_limbs(limbs: [u64; 4]) -> (r: Option<Self>)
        ensures
            r is Some <==> number(limbs@) < field_order(),
            r matches Some(x) ==> x.val() == number(limbs@),
    {
        let ghost n = number(limbs@);
        proof {
            lemma_limbs_order(limbs@);
            assert(limbs@ =~= seq![limbs@[0], limbs@[1], limbs@[2], limbs@[3]]);
        }
        if Self::in_field(limbs) {
            proof {
                lemma_small_mod(n as nat, field_order() as nat);
            }
            Some(Scalar { l0: limbs[0], l1: limbs[1], l2: limbs[2], l3: limbs[3] })
        } else {
            None
        }
    }

    /// Whether the limbs stand for a number below the order of the field.
    fn in_field(limbs: [u64; 4]) -> (r: bool)
        ensures
            r == (number(limbs@) < field_order()),
    {
        proof {
            lemma_limbs_order(limbs@);
        }
        if limbs[3] != 0x7fff_ffff_ffff_ffff {
            limbs[3] < 0x7fff_ffff_ffff_ffff
        } else if limbs[2] != 0xffff_ffff_ffff_fffe {
            limbs[2] < 0xffff_ffff_ffff_fffe
        } else if limbs[1] != 0x0673_ddf2_9e9b_5547 {
            limbs[1] < 0x0673_ddf2_9e9b_5547
        } else {
            limbs[0] < 0xc000_0000_0000_0001
        }
    }

    /// Returns the limbs of the scalar, the least significant one first.
    pub fn to_limbs(self) -> (r: [u64; 4])
        ensures
            number(r@) == self.val(),
            number(r@) < field_order(),
    {
        proof {
            use_type_invariant(&self);
            lemma_small_mod(self.stored() as nat, field_order() as nat);
        }
        let r: [u64; 4] = [self.l0, self.l1, self.l2, self.l3];
        assert(r@ =~= seq![self.l0, self.l1, self.l2, self.l3]);
        r
    }

    /// Constructs a scalar from limbs that are known to stand for a residue.
    fn of(limbs: [u64; 4]) -> (r: Self)
        requires
            number(limbs@) < field_order(),
        ensures
            r.val() == number(limbs@),
    {
        assert(limbs@ =~= seq![limbs@[0], limbs@[1], limbs@[2], limbs@[3]]);
        proof {
            lemma_small_mod(number(limbs@) as nat, field_order() as nat);
        }
        Scalar { l0: limbs[0], l1: limbs[1], l2: limbs[2], l3: limbs[3] }
    }
}

/// The limbs of the order of the field.
proof fn lemma_limbs_order(limbs: Seq<u64>)
    ensures
        field_order() == 0xc000_0000_0000_0001int + 0x1_0000_0000_0000_0000int
            * 0x0673_ddf2_9e9b_5547int + 0x1_0000_0000_0000_0000_0000_0000_0000_0000int
            * 0xffff_ffff_ffff_fffeint
            + 0x1_0000_0000_0000_0000_0000_0000_0000_0000_0000_0000_0000_0000int
            * 0x7fff_ffff_ffff_ffffint,
        number(limbs) >= 0,
{
}

impl PrimeField for Scalar {
    open spec fn modulus() -> int {
        field_order()
    }

    closed spec fn val(self) -> int {
        self.stored() % field_order()
    }

    open spec fn two_adicity() -> nat {
        62
    }

    open spec fn two_adic_root() -> int {
        two_power_root()
    }

    open spec fn coset_shift() -> int {
        group_generator()
    }

    proof fn lemma_modulus() {
        lemma_field_order_prime();
    }

    proof fn lemma_val(self) {
        lemma_mod_mod(self.stored(), field_order());
    }

    proof fn lemma_two_adic() {
        lemma_orders();
        lemma_root_orders();
    }

    proof fn lemma_coset_shift() {
    }

    fn zero() -> (r: Self) {
        Self::from_u64(0)
    }

    fn one() -> (r: Self) {
        Self::from_u64(1)
    }

    fn from_u64(n: u64) -> (r: Self) {
        proof {
            lemma_small_mod(n as nat, field_order() as nat);
        }
        Self::of(field_from_u64(n))
    }

    fn is_equal(self, rhs: Self) -> (r: bool) {
        proof {
            use_type_invariant(&self);
            use_type_invariant(&rhs);
            lemma_small_mod(self.stored() as nat, field_order() as nat);
            lemma_small_mod(rhs.stored() as nat, field_order() as nat);
            if self.stored() == rhs.stored() {
                let a = seq![self.l0, self.l1, self.l2, self.l3];
                let b = seq![rhs.l0, rhs.l1, rhs.l2, rhs.l3];
                lemma_limbs_unique(a, b);
                assert(a[0] == b[0] && a[1] == b[1] && a[2] == b[2] && a[3] == b[3]);
            }
        }
        self == rhs
    }

    fn plus(self, rhs: Self) -> (r: Self) {
        proof {
            lemma_mod_mod(self.val() + rhs.val(), field_order());
        }
        Self::of(field_sum(self.to_limbs(), rhs.to_limbs()))
    }

    fn minus(self, rhs: Self) -> (r: Self) {
        proof {
            lemma_mod_mod(self.val() - rhs.val(), field_order());
        }
        Self::of(field_difference(self.to_limbs(), rhs.to_limbs()))
    }

    fn times(self, rhs: Self) -> (r: Self) {
        proof {
            lemma_mod_mod(self.val() * rhs.val(), field_order());
        }
        Self::of(field_product(self.to_limbs(), rhs.to_limbs()))
    }

    fn negate(self) -> (r: Self) {
        proof {
            lemma_mod_mod(-self.val(), field_order());
        }
        Self::of(field_negation(self.to_limbs()))
    }

    fn invert(self) -> (r: Option<Self>) {
        match field_inverse(self.to_limbs()) {
            Some(x) => Some(Self::of(x)),
            None => None,
        }
    }

    fn power(self, exponent: u64) -> (r: Self) {
        proof {
            lemma_mod_mod(pow(self.val(), exponent as nat), field_order());
        }
        Self::of(field_power(self.to_limbs(), exponent))
    }

    fn s() -> (r: u32) {
        field_s()
    }

    fn root_of_unity() -> (r: Self) {
        Self::of(field_root_of_unity())
    }

    fn multiplicative_generator() -> (r: Self) {
        Self::of(field_multiplicative_generator())
    }
}

/// Limbs are determined by their number.
proof fn lemma_limbs_unique(a: Seq<u64>, b: Seq<u64>)
    requires
        a.len() == 4,
        b.len() == 4,
        number(a) == number(b),
    ensures
        a == b,
{
    assert(a =~= b);
}

impl ThreeAdicField for Scalar {
    open spec fn three_adicity() -> nat {
        39
    }

    open spec fn three_adic_root() -> int {
        three_power_root()
    }

    proof fn lemma_three_adic() {
        lemma_orders();
        lemma_root_orders();
    }

    fn t() -> (r: u32) {
        field_t()
    }

    fn three_adic_root_of_unity() -> (r: Self) {
        Self::of(field_three_adic_root_of_unity())
    }
}

impl FromSpecImpl<u64> for Scalar {
    open spec fn obeys_from_spec() -> bool {
        false
    }

    open spec fn from_spec(n: u64) -> Self {
        arbitrary()
    }
}

impl From<u64> for Scalar {
    fn from(n: u64) -> (r: Self)
        ensures
            r.val() == n,
    {
        proof {
            lemma_small_mod(n as nat, field_order() as nat);
        }
        Self::from_u64(n)
    }
}

impl NegSpecImpl for Scalar {
    open spec fn obeys_neg_spec() -> bool {
        false
    }

    open spec fn neg_req(self) -> bool {
        true
    }

    open spec fn neg_spec(self) -> Self {
        arbitrary()
    }
}

impl Neg for Scalar {
    type Output = Self;

    fn neg(self) -> (r: Self)
        ensures
            r.val() == (-self.val()) % field_order(),
    {
        self.negate()
    }
}

} // verus!
