use knapsack::encrypt::{KnapsackError, PrivateKey, PublicKey, generate_key_pair};
use knapsack::random::{fresh_rng, random_range_inclusive};
use knapsack::utils::{binary_gcd, generate_superincreasing_sequence};

/// A fixed, valid private key in the style of the classic example.
fn sample_key() -> PrivateKey {
    PrivateKey {
        w: vec![1, 2, 4, 10, 20, 40, 80, 160],
        q: 400,
        r: 7,
    }
}

#[test]
fn test_concrete_round_trip() {
    let k = sample_key();
    assert_eq!(binary_gcd(k.r, k.q), 1);
    let p = PublicKey::derive(&k);
    let plaintext = [0b0110_0001u8];
    let ciphertext = p.encrypt(&plaintext).expect("buffer covers the block");
    let recovered = k.decrypt(ciphertext).expect("honest ciphertext decodes");
    assert_eq!(recovered, vec![0b0110_0001u8]);
}

#[test]
fn test_round_trip_generated_keys() {
    // all byte values survive a round trip under a freshly generated key
    let kp = generate_key_pair(8).expect("block size is valid");
    for byte in 0..=255u8 {
        let c = kp.public_key.encrypt(&[byte]).expect("buffer covers the block");
        assert_eq!(kp.private_key.decrypt(c).expect("decodes"), vec![byte]);
    }
}

#[test]
fn test_round_trip_various_block_sizes() {
    // zero-padded blocks round-trip for sizes that do not fill whole bytes
    for n in [1usize, 3, 5, 8, 12, 16, 24, 32] {
        let kp = generate_key_pair(n).expect("block size is valid");
        let bytes = n.div_ceil(8);
        // set every in-range bit (most-significant-bit first), pad with zeros
        let mut plaintext = vec![0u8; bytes];
        for j in 0..n {
            plaintext[j / 8] |= 1 << (7 - (j % 8));
        }
        let c = kp.public_key.encrypt(&plaintext).expect("buffer covers the block");
        assert_eq!(kp.private_key.decrypt(c).expect("decodes"), plaintext);

        let zeros = vec![0u8; bytes];
        let c0 = kp.public_key.encrypt(&zeros).expect("buffer covers the block");
        assert_eq!(kp.private_key.decrypt(c0).expect("decodes"), zeros);
    }
}

#[test]
fn test_generated_key_invariants() {
    let kp = generate_key_pair(16).expect("block size is valid");
    let k = &kp.private_key;
    assert_eq!(k.w.len(), 16);
    // superincreasing: every term exceeds the sum of all earlier terms
    let mut sum: u64 = 0;
    for &wi in &k.w {
        assert!(wi > sum);
        sum += wi;
    }
    // modulus exceeds the whole sum
    assert!(k.q > sum);
    // multiplier is coprime with the modulus
    assert_eq!(binary_gcd(k.r, k.q), 1);
}

#[test]
fn test_derivation_deterministic() {
    let kp = generate_key_pair(8).expect("block size is valid");
    let p1 = PublicKey::derive(&kp.private_key);
    let p2 = PublicKey::derive(&kp.private_key);
    assert_eq!(p1.key, p2.key);
    assert_eq!(p1.key, kp.public_key.key);
}

#[test]
fn test_derive_scales_terms() {
    // the public key really is w scaled by r modulo q, not w handed back
    let k = sample_key();
    let p = PublicKey::derive(&k);
    let expected: Vec<u64> = k.w.iter().map(|w| (w * k.r) % k.q).collect();
    assert_eq!(p.key, expected);
    assert_ne!(p.key, k.w);
}

#[test]
fn test_invalid_block_size() {
    match generate_key_pair(0) {
        Ok(_) => panic!("an empty block size must be rejected"),
        Err(e) => assert_eq!(e, KnapsackError::InvalidBlockSize),
    }
}

#[test]
fn test_short_cleartext() {
    let kp = generate_key_pair(16).expect("block size is valid");
    assert_eq!(
        kp.public_key.encrypt(&[0u8]).unwrap_err(),
        KnapsackError::CleartextTooShort
    );
    assert_eq!(
        kp.public_key.encrypt(&[]).unwrap_err(),
        KnapsackError::CleartextTooShort
    );
}

#[test]
fn test_non_decodable_ciphertext() {
    // with r = 1 the scaled sum is the plain subset sum; 1 is not reachable
    // from terms {2, 3, 7}
    let k = PrivateKey {
        w: vec![2, 3, 7],
        q: 20,
        r: 1,
    };
    assert_eq!(k.decrypt(1).unwrap_err(), KnapsackError::NonDecodable);
    // while an honest subset sum decodes: 2 + 7 selects bits 0 and 2
    let m = k.decrypt(9).expect("9 = 2 + 7 decodes");
    assert_eq!(m, vec![0b1010_0000u8]);
}

#[test]
fn test_sequence_generator_invariants() {
    let mut rng = fresh_rng();
    let (seq, sum) = generate_superincreasing_sequence(12, &mut rng);
    assert_eq!(seq.len(), 12);
    let mut acc: u64 = 0;
    for &t in &seq {
        assert!(t > acc);
        acc += t;
    }
    assert_eq!(acc, sum);
}

#[test]
fn test_random_range_stays_in_range() {
    let mut rng = fresh_rng();
    for _ in 0..200 {
        let v = random_range_inclusive(&mut rng, 5, 10);
        assert!((5..=10).contains(&v));
    }
    // a draw over a wide range is within it too
    let v = random_range_inclusive(&mut rng, 0, u64::MAX);
    assert!(v <= u64::MAX);
}
