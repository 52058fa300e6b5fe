use poly::{PrimeField, Scalar, ThreeAdicField};

const ORDER: [u64; 4] = [
    0xc000000000000001,
    0x0673ddf29e9b5547,
    0xfffffffffffffffe,
    0x7fffffffffffffff,
];

fn last() -> Scalar {
    Scalar::from_limbs([ORDER[0] - 1, ORDER[1], ORDER[2], ORDER[3]]).unwrap()
}

#[test]
fn limbs_outside_the_field_make_no_scalar() {
    assert_eq!(Scalar::from_limbs(ORDER), None);
    assert_eq!(Scalar::from_limbs([u64::MAX; 4]), None);
    assert_eq!(Scalar::from_limbs([0, 0, ORDER[2] + 1, ORDER[3]]), None);
    assert_eq!(Scalar::from_limbs([0, ORDER[1] + 1, ORDER[2], ORDER[3]]), None);
    assert!(Scalar::from_limbs([u64::MAX, ORDER[1] - 1, ORDER[2], ORDER[3]]).is_some());
    assert!(Scalar::from_limbs([u64::MAX, u64::MAX, u64::MAX, ORDER[3] - 1]).is_some());
}

#[test]
fn limbs_survive_a_round_trip() {
    let limbs = [1, 2, 3, 4];
    assert_eq!(Scalar::from_limbs(limbs).unwrap().to_limbs(), limbs);
    assert_eq!(last().to_limbs(), [ORDER[0] - 1, ORDER[1], ORDER[2], ORDER[3]]);
    assert_eq!(Scalar::from(u64::MAX).to_limbs(), [u64::MAX, 0, 0, 0]);
}

#[test]
fn sums_wrap_around() {
    assert_eq!(Scalar::from(12).plus(Scalar::from(34)), Scalar::from(46));
    assert_eq!(last().plus(Scalar::from(1)), Scalar::from(0));
    assert_eq!(
        last().plus(last()).to_limbs(),
        [ORDER[0] - 2, ORDER[1], ORDER[2], ORDER[3]]
    );
}

#[test]
fn differences_wrap_around() {
    assert_eq!(Scalar::from(34).minus(Scalar::from(12)), Scalar::from(22));
    assert_eq!(Scalar::from(0).minus(Scalar::from(1)), last());
    assert_eq!(Scalar::from(12).minus(Scalar::from(12)), Scalar::zero());
}

#[test]
fn products_wrap_around() {
    assert_eq!(Scalar::from(12).times(Scalar::from(34)), Scalar::from(408));
    let word = Scalar::from_limbs([0, 1, 0, 0]).unwrap();
    assert_eq!(word.times(word).to_limbs(), [0, 0, 1, 0]);
    assert_eq!(last().times(last()), Scalar::one());
}

#[test]
fn negation_undoes_itself() {
    assert_eq!(-Scalar::from(0), Scalar::from(0));
    assert_eq!(-Scalar::from(1), last());
    assert_eq!(Scalar::from(42).negate().negate(), Scalar::from(42));
    assert_eq!(Scalar::from(42).plus(-Scalar::from(42)), Scalar::zero());
}

#[test]
fn every_scalar_but_zero_has_an_inverse() {
    assert_eq!(Scalar::zero().invert(), None);
    assert_eq!(Scalar::one().invert(), Some(Scalar::one()));
    assert_eq!(
        Scalar::from(2).invert().unwrap().to_limbs(),
        [
            0xe000000000000001,
            0x0339eef94f4daaa3,
            0xffffffffffffffff,
            0x3fffffffffffffff,
        ]
    );
    let x = Scalar::from_limbs([5, 6, 7, 8]).unwrap();
    assert_eq!(x.times(x.invert().unwrap()), Scalar::one());
}

#[test]
fn powers() {
    assert_eq!(Scalar::from(3).power(5), Scalar::from(243));
    assert_eq!(Scalar::from(2).power(200).to_limbs(), [0, 0, 0, 256]);
    assert_eq!(Scalar::from(0).power(0), Scalar::one());
    assert_eq!(Scalar::from(0).power(7), Scalar::zero());
}

#[test]
fn integers_become_scalars() {
    assert_eq!(Scalar::from_u64(42), Scalar::from(42));
    assert_eq!(Scalar::from_u64(0), Scalar::zero());
    assert!(Scalar::from(7).is_equal(Scalar::from(7)));
    assert!(!Scalar::from(7).is_equal(last()));
}

#[test]
fn two_adic_root_has_its_order() {
    assert_eq!(Scalar::s(), 62);
    let root = Scalar::root_of_unity();
    assert_eq!(
        root.to_limbs(),
        [
            0xb3977ca1a5bbfc9c,
            0xf6e0a747a2afe898,
            0xca6891eceba43568,
            0x2772569d549e1249,
        ]
    );
    assert_eq!(root.power(1 << 61), last());
    assert_eq!(root.power(1 << 62), Scalar::one());
}

#[test]
fn three_adic_root_has_its_order() {
    assert_eq!(Scalar::t(), 39);
    let root = Scalar::three_adic_root_of_unity();
    assert_eq!(
        root.to_limbs(),
        [
            0xf1a4ca414adfd9e6,
            0xe35f48642a417a72,
            0xa98705fee2d66e8f,
            0x1b6292b3a6f8a32d,
        ]
    );
    assert_ne!(root.power(3u64.pow(38)), Scalar::one());
    assert_eq!(root.power(3u64.pow(39)), Scalar::one());
}

#[test]
fn generator_is_outside_the_subgroups() {
    let shift = Scalar::multiplicative_generator();
    assert_eq!(shift, Scalar::from(5));
    assert_ne!(shift.power(1 << 62), Scalar::one());
    assert_ne!(shift.power(3u64.pow(39)), Scalar::one());
}
