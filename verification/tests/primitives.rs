use knapsack::utils::{binary_gcd, modinv, mulmod};

/// Plain Euclidean GCD, used as the reference the binary algorithm is held
/// against.
fn euclid_gcd(mut a: u64, mut b: u64) -> u64 {
    while b != 0 {
        let t = a % b;
        a = b;
        b = t;
    }
    a
}

#[test]
fn test_binary_gcd_concrete() {
    assert_eq!(binary_gcd(48, 18), 6);
}

#[test]
fn test_binary_gcd_edges() {
    assert_eq!(binary_gcd(7, 0), 7);
    assert_eq!(binary_gcd(0, 9), 9);
    assert_eq!(binary_gcd(13, 13), 13);
    assert_eq!(binary_gcd(1, 1), 1);
    assert_eq!(binary_gcd(u64::MAX, u64::MAX), u64::MAX);
    assert_eq!(binary_gcd(1 << 63, 1 << 62), 1 << 62);
}

#[test]
fn test_binary_gcd_matches_euclid() {
    // a small deterministic pseudo-random walk over varied magnitudes
    let mut x: u64 = 0x1234_5678_9abc_def0;
    for i in 0..500u64 {
        x = x.wrapping_mul(6364136223846793005).wrapping_add(1442695040888963407);
        let a = x >> (i % 40);
        let b = x.rotate_left((i % 63) as u32) >> (i % 23);
        assert_eq!(binary_gcd(a, b), euclid_gcd(a, b));
    }
}

#[test]
fn test_modinv_concrete() {
    assert_eq!(modinv(3, 11), 4);
}

#[test]
fn test_modinv_inverts() {
    // coprime pairs with m > 1: (a * modinv(a, m)) % m == 1
    let cases: [(u64, u64); 6] = [
        (3, 11),
        (7, 40),
        (39, 40),
        (17, 1_000_000_007),
        (1, 2),
        (123_456_789, 1 << 61),
    ];
    for (a, m) in cases {
        assert_eq!(euclid_gcd(a, m), 1);
        let inv = modinv(a, m);
        assert!(inv < m);
        assert_eq!((a as u128 * inv as u128) % m as u128, 1);
    }
}

#[test]
fn test_mulmod_exact() {
    assert_eq!(mulmod(7, 8, 10), 6);
    assert_eq!(mulmod(0, 12345, 7), 0);
    assert_eq!(mulmod(1, u64::MAX, u64::MAX), 0);
}

#[test]
fn test_mulmod_near_overflow() {
    // magnitudes where a single-width product would silently wrap
    let a = u64::MAX - 1;
    let b = u64::MAX - 2;
    let m = (1u64 << 61) - 1;
    let expected = ((a as u128 * b as u128) % m as u128) as u64;
    assert_eq!(mulmod(a, b, m), expected);
    assert_eq!(mulmod(u64::MAX, u64::MAX, u64::MAX), 0);
    assert_eq!(mulmod(1 << 63, 2, 3), ((1u128 << 64) % 3) as u64);
}
