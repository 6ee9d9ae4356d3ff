use knapsack::math::bignum::BigNumber;

#[test]
fn test_eq() {
    assert_eq!(BigNumber::new(10), BigNumber::new(10));
    assert_eq!(BigNumber::new(3), BigNumber::new(3));
    assert_eq!(BigNumber::new(u64::MAX as i128), BigNumber::new(u64::MAX as i128));
}

#[test]
fn test_add() {
    assert_eq!(BigNumber::new(1).chunkadd(&BigNumber::new(1)), BigNumber::new(2));
    assert_eq!(
        BigNumber::new(u64::MAX as i128).chunkadd(&BigNumber::new(u64::MAX as i128)),
        BigNumber::new(u64::MAX as i128 * 2)
    );

    let a = BigNumber::new(123);
    let b = &a;

    assert_eq!(b.chunkadd(&BigNumber::one()), BigNumber::new(124));
    assert_eq!(BigNumber::one().chunkadd(b), BigNumber::new(124));
}

#[test]
fn test_zero_one_is_zero() {
    assert!(BigNumber::zero().is_zero());
    assert!(!BigNumber::one().is_zero());
    assert!(BigNumber::new(0).is_zero());
    assert!(!BigNumber::new(-5).is_zero());
}

#[test]
fn test_abs_negative() {
    let n = BigNumber::new(-42);
    assert_eq!(n.abs(), BigNumber::new(42));
    assert_eq!(BigNumber::new(42).abs(), BigNumber::new(42));
}

#[test]
fn test_negative_add() {
    let a = BigNumber::new(-7);
    let b = BigNumber::new(-10);
    assert_eq!(a.chunkadd(&b), BigNumber::new(-17));
}

#[test]
fn test_normalise_clears_zero_chunks() {
    let mut n = BigNumber {
        chunks: vec![5, 0, 0],
        negative: false,
    };
    n.normalise();
    assert_eq!(n, BigNumber::new(5));
}

#[test]
fn test_multi_chunk_carry() {
    // 2^32 - 1 plus 1 carries into a second chunk
    let a = BigNumber::new(0xFFFF_FFFF);
    let sum = a.chunkadd(&BigNumber::one());
    assert_eq!(sum, BigNumber::new(0x1_0000_0000));
    assert_eq!(sum.chunks.len(), 2);
}
