//! Prime fields whose multiplicative group has large subgroups of two-power and three-power order.
use crate::algebra::reduced;
use crate::digits::next_power;
use crate::modular::{is_inverse, is_prime, lemma_mod_mod};
use crate::transform::{lemma_root_congr, lemma_root_power, primitive_root};
use vstd::arithmetic::div_mod::lemma_fundamental_div_mod_converse;
use vstd::arithmetic::power::{lemma_pow_adds, lemma_pow_increases, lemma_pow_positive, pow};
use vstd::prelude::*;

verus! {

/// A field of prime order, with a subgroup of order `2^S` in its multiplicative group.
///
/// An element stands for a residue modulo the order of the field.
pub trait PrimeField: Copy {
    /// The order of the field.
    spec fn modulus() -> int;

    /// The residue that the element stands for.
    spec fn val(self) -> int;

    /// The exponent `S` of the two-adic subgroup.
    spec fn two_adicity() -> nat;

    /// The root of unity that generates the two-adic subgroup.
    spec fn two_adic_root() -> int;

    /// The shift that makes cosets of the subgroups.
    spec fn coset_shift() -> int;

    /// The order of the field is prime.
    proof fn lemma_modulus()
        ensures
            is_prime(Self::modulus()),
    ;

    /// An element stands for a least residue.
    proof fn lemma_val(self)
        ensures
            0 <= self.val() < Self::modulus(),
    ;

    /// The two-adic subgroup has order `2^S`, and an exponent up to that order fits in 64 bits.
    proof fn lemma_two_adic()
        ensures
            Self::two_adicity() < 64,
            pow(2, Self::two_adicity()) < Self::modulus(),
            0 <= Self::two_adic_root() < Self::modulus(),
            primitive_root(
                Self::two_adic_root(),
                pow(2, Self::two_adicity()),
                Self::modulus(),
            ),
    ;

    /// The shift is a residue other than zero.
    proof fn lemma_coset_shift()
        ensures
            0 < Self::coset_shift() < Self::modulus(),
    ;

    /// Returns the additive identity.
    fn zero() -> (r: Self)
        ensures
            r.val() == 0,
    ;

    /// Returns the multiplicative identity.
    fn one() -> (r: Self)
        ensures
            r.val() == 1,
    ;

    /// Returns the element that an integer stands for.
    fn from_u64(n: u64) -> (r: Self)
        ensures
            r.val() == n as int % Self::modulus(),
    ;

    /// Whether two elements are equal.
    fn is_equal(self, rhs: Self) -> (r: bool)
        ensures
            r == (self.val() == rhs.val()),
    ;

    /// Returns the sum of two elements.
    fn plus(self, rhs: Self) -> (r: Self)
        ensures
            r.val() == (self.val() + rhs.val()) % Self::modulus(),
    ;

    /// Returns the difference of two elements.
    fn minus(self, rhs: Self) -> (r: Self)
        ensures
            r.val() == (self.val() - rhs.val()) % Self::modulus(),
    ;

    /// Returns the product of two elements.
    fn times(self, rhs: Self) -> (r: Self)
        ensures
            r.val() == (self.val() * rhs.val()) % Self::modulus(),
    ;

    /// Returns the additive inverse.
    fn negate(self) -> (r: Self)
        ensures
            r.val() == (-self.val()) % Self::modulus(),
    ;

    /// Returns the multiplicative inverse, which every element but zero has.
    fn invert(self) -> (r: Option<Self>)
        ensures
            r is None <==> self.val() == 0,
            r matches Some(x) ==> is_inverse(self.val(), x.val(), Self::modulus()),
            r matches Some(x) ==> (self.val() * x.val()) % Self::modulus() == 1,
    ;

    /// Returns the given power of the element.
    fn power(self, exponent: u64) -> (r: Self)
        ensures
            r.val() == pow(self.val(), exponent as nat) % Self::modulus(),
    ;

    /// Returns the exponent `S` of the two-adic subgroup.
    fn s() -> (r: u32)
        ensures
            r == Self::two_adicity(),
    ;

    /// Returns the root of unity that generates the two-adic subgroup.
    fn root_of_unity() -> (r: Self)
        ensures
            r.val() == Self::two_adic_root(),
    ;

    /// Returns the shift that makes cosets, a generator of the multiplicative group.
    fn multiplicative_generator() -> (r: Self)
        ensures
            r.val() == Self::coset_shift(),
    ;
}

/// A prime field with a subgroup of order `3^T` in its multiplicative group.
pub trait ThreeAdicField: PrimeField {
    /// The exponent `T` of the three-adic subgroup.
    spec fn three_adicity() -> nat;

    /// The root of unity that generates the three-adic subgroup.
    spec fn three_adic_root() -> int;

    /// The three-adic subgroup has order `3^T`, which fits in 64 bits.
    proof fn lemma_three_adic()
        ensures
            pow(3, Self::three_adicity()) <= u64::MAX,
            pow(3, Self::three_adicity()) < Self::modulus(),
            0 <= Self::three_adic_root() < Self::modulus(),
            primitive_root(
                Self::three_adic_root(),
                pow(3, Self::three_adicity()),
                Self::modulus(),
            ),
    ;

    /// Returns the exponent `T` of the three-adic subgroup.
    fn t() -> (r: u32)
        ensures
            r == Self::three_adicity(),
    ;

    /// Returns the root of unity that generates the three-adic subgroup.
    fn three_adic_root_of_unity() -> (r: Self)
        ensures
            r.val() == Self::three_adic_root(),
    ;
}

/// The residues that the elements stand for.
pub open spec fn vals<F: PrimeField>(s: Seq<F>) -> Seq<int> {
    Seq::new(s.len(), |i: int| s[i].val())
}

/// The `n`-th root of unity of the two-adic subgroup, where `n` is a power of two.
pub open spec fn root2<F: PrimeField>(n: int) -> int {
    pow(F::two_adic_root(), (pow(2, F::two_adicity()) / n) as nat) % F::modulus()
}

/// The `n`-th root of unity of the three-adic subgroup, where `n` is a power of three.
pub open spec fn root3<F: ThreeAdicField>(n: int) -> int {
    pow(F::three_adic_root(), (pow(3, F::three_adicity()) / n) as nat) % F::modulus()
}

/// The X coordinate of an element of the two-adic domain for a list of `size` values.
pub open spec fn domain2<F: PrimeField>(index: int, size: int) -> int {
    pow(root2::<F>(next_power(2, size)), index as nat) % F::modulus()
}

/// The X coordinate of an element of the shifted two-adic domain.
pub open spec fn coset2<F: PrimeField>(index: int, size: int) -> int {
    (F::coset_shift() * domain2::<F>(index, size)) % F::modulus()
}

/// Whether the two-adic domain for a list of `size` values exists.
pub open spec fn domain_fits2<F: PrimeField>(size: int) -> bool {
    &&& next_power(2, size) <= pow(2, F::two_adicity())
    &&& next_power(2, size) <= usize::MAX
}

/// The X coordinate of an element of the three-adic domain for a list of `size` values.
pub open spec fn domain3<F: ThreeAdicField>(index: int, size: int) -> int {
    pow(root3::<F>(next_power(3, size)), index as nat) % F::modulus()
}

/// The X coordinate of an element of the shifted three-adic domain.
pub open spec fn coset3<F: ThreeAdicField>(index: int, size: int) -> int {
    (F::coset_shift() * domain3::<F>(index, size)) % F::modulus()
}

/// Whether the three-adic domain for a list of `size` values exists.
pub open spec fn domain_fits3<F: ThreeAdicField>(size: int) -> bool {
    &&& next_power(3, size) <= pow(3, F::three_adicity())
    &&& next_power(3, size) <= usize::MAX
}

/// Elements stand for residues.
pub proof fn lemma_vals<F: PrimeField>(s: Seq<F>)
    ensures
        reduced(vals(s), F::modulus()),
        F::modulus() > 1,
{
    assert forall|i: int| 0 <= i < s.len() implies 0 <= #[trigger] vals(s)[i] < F::modulus() by {
        s[i].lemma_val();
    }
    F::lemma_modulus();
}

/// A power of a primitive root of unity whose order is a multiple of `n`.
proof fn lemma_subgroup(root: int, order: int, n: int, q: int, p: int)
    requires
        p > 1,
        n > 0,
        q > 0,
        order == n * q,
        primitive_root(root, order, p),
    ensures
        order / n == q,
        primitive_root(pow(root, q as nat) % p, n, p),
        0 <= pow(root, q as nat) % p < p,
{
    assert(n * q == q * n) by (nonlinear_arith);
    lemma_fundamental_div_mod_converse(order, n, q, 0);
    lemma_root_power(root, n, q, p);
    lemma_mod_mod(pow(root, q as nat), p);
    lemma_root_congr(pow(root, q as nat), pow(root, q as nat) % p, n, p);
}

/// The root of unity of an order `2^k` that divides the order of the two-adic subgroup.
pub proof fn lemma_root2<F: PrimeField>(k: nat)
    requires
        k <= F::two_adicity(),
    ensures
        primitive_root(root2::<F>(pow(2, k)), pow(2, k), F::modulus()),
        0 <= root2::<F>(pow(2, k)) < F::modulus(),
        pow(2, F::two_adicity()) / pow(2, k) == pow(2, (F::two_adicity() - k) as nat),
        0 < pow(2, k) <= pow(2, F::two_adicity()) < F::modulus(),
{
    F::lemma_modulus();
    F::lemma_two_adic();
    lemma_power_divides(2, k, F::two_adicity());
    lemma_subgroup(
        F::two_adic_root(),
        pow(2, F::two_adicity()),
        pow(2, k),
        pow(2, (F::two_adicity() - k) as nat),
        F::modulus(),
    );
}

/// The root of unity of an order `3^k` that divides the order of the three-adic subgroup.
pub proof fn lemma_root3<F: ThreeAdicField>(k: nat)
    requires
        k <= F::three_adicity(),
    ensures
        primitive_root(root3::<F>(pow(3, k)), pow(3, k), F::modulus()),
        0 <= root3::<F>(pow(3, k)) < F::modulus(),
        pow(3, F::three_adicity()) / pow(3, k) == pow(3, (F::three_adicity() - k) as nat),
        0 < pow(3, k) <= pow(3, F::three_adicity()) < F::modulus(),
{
    F::lemma_modulus();
    F::lemma_three_adic();
    lemma_power_divides(3, k, F::three_adicity());
    lemma_subgroup(
        F::three_adic_root(),
        pow(3, F::three_adicity()),
        pow(3, k),
        pow(3, (F::three_adicity() - k) as nat),
        F::modulus(),
    );
}

/// A power of the radix divides every higher power.
proof fn lemma_power_divides(radix: int, k: nat, e: nat)
    requires
        radix >= 2,
        k <= e,
    ensures
        pow(radix, e) == pow(radix, k) * pow(radix, (e - k) as nat),
        pow(radix, (e - k) as nat) > 0,
        0 < pow(radix, k) <= pow(radix, e),
{
    lemma_pow_adds(radix, k, (e - k) as nat);
    lemma_pow_positive(radix, k);
    lemma_pow_positive(radix, (e - k) as nat);
    lemma_pow_increases(radix as nat, k, e);
}

} // verus!
