//! The Merkle–Hellman knapsack cryptosystem: key generation over a
//! superincreasing sequence, subset-sum encryption with the derived public
//! key, and modular-inverse decryption with greedy decomposition.

pub mod encrypt;
pub mod math;
pub mod number_theory;
pub mod random;
pub mod utils;
