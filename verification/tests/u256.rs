use polycover2::data::u256::{Us, U512};

#[test]
fn test_set_clear() {
    let mut u = U512::zero();
    u.set(0);
    assert_eq!(u.data()[0], 1);
    u.set(127);
    assert_eq!(u.data()[0], 1 | 1 << 127);
    assert_eq!(u.data()[1], 0);
    u.set(128);
    assert_eq!(u.data()[0], 1 | 1 << 127);
    assert_eq!(u.data()[1], 1);

    u.set(255);
    assert_eq!(u.data()[0], 1 | 1 << 127);
    assert_eq!(u.data()[1], 1 | 1 << 127);

    assert!(u.get(0));
    assert!(u.get(127));
    assert!(u.get(128));
    assert!(u.get(255));
    assert!(!u.get(254));

    u.clear(0);
    assert_eq!(u.data()[0], 1 << 127);
    assert_eq!(u.data()[1], 1 | 1 << 127);
    u.clear(127);
    assert_eq!(u.data()[0], 0);
    assert_eq!(u.data()[1], 1 | 1 << 127);
    u.clear(128);
    assert_eq!(u.data()[0], 0);
    assert_eq!(u.data()[1], 1 << 127);
    u.clear(255);
    assert_eq!(u.data()[0], 0);
    assert_eq!(u.data()[1], 0);
}

#[test]
fn test_shifts() {
    type U = Us<3>;
    let mut u = U::zero();
    u.set(0);
    assert_eq!(u.shl(1), U::new([2, 0, 0]));
    assert_eq!(u.shl(127), U::new([1 << 127, 0, 0]));
    assert_eq!(u.shl(128), U::new([0, 1, 0]));
    assert_eq!(u.shl(129), U::new([0, 2, 0]));
    assert_eq!(u.shl(255), U::new([0, 1 << 127, 0]));
    assert_eq!(u.shl(360), U::new([0, 0, 1 << 104]));

    u.set(128);
    assert_eq!(u.shl(1), U::new([2, 2, 0]));
    assert_eq!(u.shl(128), U::new([0, 1, 1]));
    assert_eq!(u.shl(255), U::new([0, 1 << 127, 1 << 127]));

    u.set(255);
    assert_eq!(u.shr(1), U::new([1 << 127, 1 << 126, 0]));
    assert_eq!(u.shr(128), U::new([1 | 1 << 127, 0, 0]));
}

#[test]
fn order_follows_highest_differing_word() {
    let small: Us<2> = Us::new([u128::MAX, 0]);
    let big: Us<2> = Us::new([0, 1]);
    assert!(small < big);
    assert!(big > small);
    assert_eq!(small.partial_cmp(&big), Some(std::cmp::Ordering::Less));
    assert_eq!(big.partial_cmp(&small), Some(std::cmp::Ordering::Greater));
    assert_eq!(big.partial_cmp(&Us::new([0, 1])), Some(std::cmp::Ordering::Equal));
    assert!(U512::from_u128(1) < U512::from_u128(2));
    assert_eq!(small.compare_words(&big), -1);
}
