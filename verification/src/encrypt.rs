//! Key material and the two transforms of the knapsack cryptosystem.
//!
//! A private key holds a superincreasing sequence `w`, a modulus `q`
//! exceeding its sum, and a multiplier `r` coprime with `q`. The public key
//! is the sequence scaled by `r` modulo `q`. Encryption forms the subset sum
//! of public terms selected by the plaintext bits; decryption undoes the
//! modular scaling with the inverse of `r` and then decomposes the result
//! greedily against `w`, which is unambiguous precisely because `w` is
//! superincreasing.

use crate::number_theory::gcd;
use crate::random::{fresh_rng, random_range_inclusive};
use crate::utils::{
    generate_coprime, generate_superincreasing_sequence, is_superincreasing, lemma_seq_sum_bounded,
    lemma_seq_sum_elem_le, lemma_seq_sum_nonneg, modinv, mulmod, seq_sum,
};
use vstd::arithmetic::div_mod::{
    lemma_fundamental_div_mod, lemma_fundamental_div_mod_converse, lemma_mod_division_less_than_divisor,
    lemma_mul_mod_noop_left, lemma_mul_mod_noop_right, lemma_small_mod,
};
use vstd::arithmetic::mul::{lemma_mul_is_associative, lemma_mul_is_commutative, lemma_mul_is_distributive_add_other_way};
use vstd::prelude::*;

verus! {

/// Bit `i` of a byte buffer: bit indexing starts at the first bit of the
/// first byte, most-significant bit first within each byte.
pub open spec fn bit_at(m: Seq<u8>, i: int) -> bool {
    (m[i / 8] >> (7 - (i % 8)) as u8) & 1 == 1
}

/// The subset sum selected from `b` by the bits of `m`: term `i` contributes
/// exactly when bit `i` of the buffer is set.
pub open spec fn subset_sum(b: Seq<u64>, m: Seq<u8>) -> int
    decreases b.len(),
{
    if b.len() == 0 {
        0
    } else {
        subset_sum(b.drop_last(), m) + if bit_at(m, b.len() - 1) {
            b.last() as int
        } else {
            0
        }
    }
}

/// Bytes needed to carry `n` bits.
pub open spec fn blocks_needed(n: int) -> int {
    (n + 7) / 8
}

/// All bits from position `n` to the end of the buffer are clear.
pub open spec fn zero_padded(m: Seq<u8>, n: int) -> bool {
    forall|j: int| n <= j < 8 * m.len() ==> !bit_at(m, j)
}

#[derive(Clone, Copy, Debug, PartialEq, Eq)]
pub enum KnapsackError {
    /// A key pair cannot be generated over an empty sequence.
    InvalidBlockSize,
    /// The cleartext buffer does not cover one block of bits.
    CleartextTooShort,
    /// The ciphertext is not a subset sum of this key's plaintext space.
    NonDecodable,
}

pub struct PublicKey {
    pub key: Vec<u64>,
}

pub struct PrivateKey {
    pub w: Vec<u64>,
    pub q: u64,
    pub r: u64,
}

pub struct KeyPair {
    pub public_key: PublicKey,
    pub private_key: PrivateKey,
}

impl PrivateKey {
    /// The private-key invariant: `w` is superincreasing, the modulus
    /// exceeds its sum, and the multiplier is invertible modulo `q`. The
    /// numeric bounds are what the generator guarantees; they keep every
    /// later computation inside a machine word.
    pub open spec fn wf(self) -> bool {
        &&& 1 <= self.w@.len() <= 32
        &&& is_superincreasing(self.w@)
        &&& seq_sum(self.w@) < self.q
        &&& self.q <= 0x10_0000_0000_0000
        &&& 1 <= self.r <= 2 * self.q
        &&& gcd(self.r as nat, self.q as nat) == 1
    }
}

impl PublicKey {
    /// The whole sequence sums inside a machine word, so no subset sum can
    /// overflow.
    pub open spec fn wf(self) -> bool {
        seq_sum(self.key@) <= u64::MAX
    }
}

/// The public sequence determined by a private key: each term scaled by the
/// multiplier, modulo the modulus.
pub open spec fn derived_key(k: PrivateKey) -> Seq<u64> {
    Seq::new(k.w@.len(), |i: int| ((k.w@[i] as int * k.r as int) % (k.q as int)) as u64)
}

/// `m` is a block-sized, zero-padded buffer whose selection of private terms
/// explains the ciphertext `c` after the modular scaling by `r`.
pub open spec fn valid_plaintext(k: PrivateKey, m: Seq<u8>, c: u64) -> bool {
    &&& m.len() == blocks_needed(k.w@.len() as int)
    &&& zero_padded(m, k.w@.len() as int)
    &&& (subset_sum(k.w@, m) * k.r) % (k.q as int) == (c as int) % (k.q as int)
}

/// Deriving a public key is deterministic: two keys derived from the same
/// private key are identical.
pub proof fn lemma_derive_deterministic(k: PrivateKey, p1: PublicKey, p2: PublicKey)
    requires
        p1.key@ == derived_key(k),
        p2.key@ == derived_key(k),
    ensures
        p1.key@ == p2.key@,
{
}

proof fn lemma_subset_sum_bounds(b: Seq<u64>, m: Seq<u8>)
    ensures
        0 <= subset_sum(b, m) <= seq_sum(b),
    decreases b.len(),
{
    if b.len() > 0 {
        lemma_subset_sum_bounds(b.drop_last(), m);
    }
}

/// Unfolds one step of the subset sum over a prefix.
proof fn lemma_subset_sum_take_step(b: Seq<u64>, m: Seq<u8>, j: int)
    requires
        0 <= j < b.len(),
    ensures
        subset_sum(b.take(j + 1), m) == subset_sum(b.take(j), m) + if bit_at(m, j) {
            b[j] as int
        } else {
            0
        },
{
    assert(b.take(j + 1).drop_last() =~= b.take(j));
    assert(b.take(j + 1).last() == b[j]);
}

/// The subset sum depends only on the bits the buffer holds at term indices.
proof fn lemma_subset_sum_congruent(b: Seq<u64>, m1: Seq<u8>, m2: Seq<u8>)
    requires
        forall|j: int| 0 <= j < b.len() ==> bit_at(m1, j) == bit_at(m2, j),
    ensures
        subset_sum(b, m1) == subset_sum(b, m2),
    decreases b.len(),
{
    if b.len() > 0 {
        lemma_subset_sum_congruent(b.drop_last(), m1, m2);
    }
}

/// A buffer with no set bit at any term index selects nothing.
proof fn lemma_subset_sum_zero(b: Seq<u64>, m: Seq<u8>)
    requires
        forall|j: int| 0 <= j < b.len() ==> !bit_at(m, j),
    ensures
        subset_sum(b, m) == 0,
    decreases b.len(),
{
    if b.len() > 0 {
        lemma_subset_sum_zero(b.drop_last(), m);
    }
}

/// Setting one clear bit raises the subset sum by exactly that term.
proof fn lemma_subset_sum_set_bit(b: Seq<u64>, m1: Seq<u8>, m2: Seq<u8>, t: int)
    requires
        0 <= t < b.len(),
        forall|j: int| 0 <= j < b.len() && j != t ==> bit_at(m1, j) == bit_at(m2, j),
        !bit_at(m1, t),
        bit_at(m2, t),
    ensures
        subset_sum(b, m2) == subset_sum(b, m1) + b[t],
    decreases b.len(),
{
    if t == b.len() - 1 {
        lemma_subset_sum_congruent(b.drop_last(), m1, m2);
    } else {
        lemma_subset_sum_set_bit(b.drop_last(), m1, m2, t);
    }
}

/// Splits a bit index into its byte index and offset.
proof fn lemma_bit_index(bi: int, t: int)
    requires
        0 <= bi,
        0 <= t < 8,
    ensures
        (8 * bi + t) / 8 == bi,
        (8 * bi + t) % 8 == t,
{
    lemma_fundamental_div_mod_converse(8 * bi + t, 8, bi, t);
}

proof fn lemma_or_bit(b: u8, k: u8)
    requires
        k < 8,
    ensures
        ((b | (1u8 << k)) >> k) & 1 == 1,
        forall|j: u8| j < 8 && j != k ==> ((b | (1u8 << k)) >> j) & 1 == (b >> j) & 1,
{
    assert(((b | (1u8 << k)) >> k) & 1 == 1) by (bit_vector)
        requires
            k < 8,
    ;
    assert(forall|j: u8|
        j < 8 && j != k ==> ((b | (1u8 << k)) >> j) & 1 == (b >> j) & 1) by (bit_vector)
        requires
            k < 8,
    ;
}

proof fn lemma_zero_byte()
    ensures
        forall|j: u8| ((0u8 >> j) & 1) != 1,
{
    assert(forall|j: u8| ((0u8 >> j) & 1) != 1) by (bit_vector);
}

/// Two bytes that agree on all eight bits are equal.
proof fn lemma_byte_eq(b1: u8, b2: u8)
    requires
        forall|j: u8| j < 8 ==> ((b1 >> j) & 1 == 1) == ((b2 >> j) & 1 == 1),
    ensures
        b1 == b2,
{
    assert((b1 >> 0) & 1 == (b2 >> 0) & 1 && (b1 >> 1) & 1 == (b2 >> 1) & 1 && (b1 >> 2) & 1 == (
    b2 >> 2) & 1 && (b1 >> 3) & 1 == (b2 >> 3) & 1 && (b1 >> 4) & 1 == (b2 >> 4) & 1 && (b1 >> 5)
        & 1 == (b2 >> 5) & 1 && (b1 >> 6) & 1 == (b2 >> 6) & 1 && (b1 >> 7) & 1 == (b2 >> 7) & 1)
        by {
        assert forall|j: u8| j < 8 implies (b1 >> j) & 1 == (b2 >> j) & 1 by {
            assert(((b1 >> j) & 1 == 1) == ((b2 >> j) & 1 == 1));
            assert((b1 >> j) & 1 == 0 || (b1 >> j) & 1 == 1) by (bit_vector);
            assert((b2 >> j) & 1 == 0 || (b2 >> j) & 1 == 1) by (bit_vector);
        }
    }
    assert(b1 == b2) by (bit_vector)
        requires
            (b1 >> 0) & 1 == (b2 >> 0) & 1,
            (b1 >> 1) & 1 == (b2 >> 1) & 1,
            (b1 >> 2) & 1 == (b2 >> 2) & 1,
            (b1 >> 3) & 1 == (b2 >> 3) & 1,
            (b1 >> 4) & 1 == (b2 >> 4) & 1,
            (b1 >> 5) & 1 == (b2 >> 5) & 1,
            (b1 >> 6) & 1 == (b2 >> 6) & 1,
            (b1 >> 7) & 1 == (b2 >> 7) & 1,
    ;
}

/// Working modulo `q`, a value below `q` equals `(c * rinv) % q` exactly when
/// scaling it back by `r` matches `c`; this is the trapdoor equivalence.
proof fn lemma_decode_equivalent(c: u64, r: int, rinv: int, q: int, cp: int, s: int)
    requires
        q >= 2,
        (r * rinv) % q == 1,
        cp == (c as int * rinv) % q,
        0 <= s < q,
    ensures
        ((s * r) % q == (c as int) % q) <==> (s == cp),
{
    let ci = c as int;
    lemma_small_mod(s as nat, q as nat);
    // s == (s * (r * rinv)) % q
    lemma_mul_mod_noop_right(s, r * rinv, q);
    assert(s * 1 == s) by (nonlinear_arith);
    assert((s * (r * rinv)) % q == s % q);
    lemma_mul_is_associative(s, r, rinv);
    assert((s * r * rinv) % q == s);
    if (s * r) % q == ci % q {
        lemma_mul_mod_noop_left(s * r, rinv, q);
        lemma_mul_mod_noop_left(ci, rinv, q);
        assert(((s * r) % q * rinv) % q == (s * r * rinv) % q);
        assert((ci % q * rinv) % q == (ci * rinv) % q);
        assert(s == cp);
    }
    if s == cp {
        lemma_mul_mod_noop_left(ci * rinv, r, q);
        assert((cp * r) % q == ((ci * rinv) * r) % q);
        lemma_mul_is_associative(ci, rinv, r);
        lemma_mul_is_commutative(rinv, r);
        lemma_mul_mod_noop_right(ci, rinv * r, q);
        assert((ci * (rinv * r)) % q == (ci * ((rinv * r) % q)) % q);
        assert(rinv * r == r * rinv);
        assert(ci * 1 == ci) by (nonlinear_arith);
        assert((s * r) % q == ci % q);
    }
}

/// Scaling every selected term by `r` modulo `q` scales the selected sum the
/// same way: the subset sum over the derived key matches the subset sum over
/// the private sequence, modulo `q`.
proof fn lemma_derived_subset_sum_mod(k: PrivateKey, m: Seq<u8>, j: int)
    requires
        k.wf(),
        0 <= j <= k.w@.len(),
    ensures
        subset_sum(derived_key(k).take(j), m) % (k.q as int) == (subset_sum(k.w@.take(j), m)
            * k.r) % (k.q as int),
    decreases j,
{
    let q = k.q as int;
    let r = k.r as int;
    let d = derived_key(k);
    let w = k.w@;
    if j == 0 {
        assert(subset_sum(d.take(0), m) == 0);
        assert(subset_sum(w.take(0), m) == 0);
        assert(0 * r == 0) by (nonlinear_arith);
    } else {
        lemma_derived_subset_sum_mod(k, m, j - 1);
        lemma_subset_sum_take_step(d, m, j - 1);
        lemma_subset_sum_take_step(w, m, j - 1);
        let sd = subset_sum(d.take(j - 1), m);
        let sw = subset_sum(w.take(j - 1), m);
        let wj = w[j - 1] as int;
        assert(d[j - 1] == ((wj * r) % q) as u64);
        lemma_mod_division_less_than_divisor(wj * r, q);
        assert(wj * r >= 0) by (nonlinear_arith)
            requires
                wj >= 0,
                r >= 0,
        ;
        assert(d[j - 1] as int == (wj * r) % q);
        if bit_at(m, j - 1) {
            // (sd + (wj * r) % q) % q == (sw * r + wj * r) % q
            assert((sd + (wj * r) % q) % q == ((sd % q) + ((wj * r) % q) % q) % q) by {
                vstd::arithmetic::div_mod::lemma_add_mod_noop(sd, (wj * r) % q, q);
            }
            assert(((wj * r) % q) % q == (wj * r) % q) by {
                vstd::arithmetic::div_mod::lemma_mod_twice(wj * r, q);
            }
            assert((sd + (wj * r) % q) % q == ((sd % q) + (wj * r) % q) % q);
            assert(((sd % q) + (wj * r) % q) % q == ((sd % q) + wj * r) % q) by {
                vstd::arithmetic::div_mod::lemma_add_mod_noop_right(sd % q, wj * r, q);
                vstd::arithmetic::div_mod::lemma_mod_twice(sd, q);
            }
            assert(((sd % q) + wj * r) % q == (sd + wj * r) % q) by {
                vstd::arithmetic::div_mod::lemma_add_mod_noop(sd, wj * r, q);
                vstd::arithmetic::div_mod::lemma_mod_twice(sd, q);
                vstd::arithmetic::div_mod::lemma_add_mod_noop(sd % q, wj * r, q);
                vstd::arithmetic::div_mod::lemma_mod_twice(wj * r, q);
            }
            assert((sd + wj * r) % q == ((sw * r) % q + wj * r) % q);
            assert(((sw * r) % q + wj * r) % q == (sw * r + wj * r) % q) by {
                vstd::arithmetic::div_mod::lemma_add_mod_noop(sw * r, wj * r, q);
                vstd::arithmetic::div_mod::lemma_add_mod_noop((sw * r) % q, wj * r, q);
                vstd::arithmetic::div_mod::lemma_mod_twice(sw * r, q);
                vstd::arithmetic::div_mod::lemma_mod_twice(wj * r, q);
            }
            lemma_mul_is_distributive_add_other_way(r, sw, wj);
            assert((sw + wj) * r == sw * r + wj * r);
        }
    }
}

impl PublicKey {
    /// The public key determined by a private key: every term of `w` scaled
    /// by `r` modulo `q`. Pure and deterministic: the same private key always
    /// derives the same public key.
    pub fn derive(k: &PrivateKey) -> (p: PublicKey)
        requires
            k.wf(),
        ensures
            p.key@ == derived_key(*k),
            p.key@.len() == k.w@.len(),
            p.wf(),
    {
        proof {
            lemma_seq_sum_nonneg(k.w@);
        }
        let mut key: Vec<u64> = Vec::new();
        let mut i: usize = 0;
        while i < k.w.len()
            invariant
                k.wf(),
                i <= k.w@.len(),
                key@.len() == i,
                forall|j: int| 0 <= j < i ==> key@[j] == derived_key(*k)[j],
                forall|j: int| 0 <= j < i ==> key@[j] < k.q,
            decreases k.w@.len() - i,
        {
            let bi = mulmod(k.w[i], k.r, k.q);
            proof {
                lemma_mod_division_less_than_divisor(k.w@[i as int] as int * k.r as int, k.q as int);
                assert(k.w@[i as int] as int * k.r as int >= 0) by (nonlinear_arith);
            }
            key.push(bi);
            i = i + 1;
        }
        proof {
            assert(key@ =~= derived_key(*k));
            lemma_seq_sum_bounded(key@, (k.q - 1) as u64);
            assert(key@.len() * ((k.q - 1) as u64) <= 32 * 0x10_0000_0000_0000) by (nonlinear_arith)
                requires
                    key@.len() <= 32,
                    (k.q - 1) as u64 <= 0x10_0000_0000_0000,
            ;
        }
        PublicKey { key }
    }

    /// Subset-sum encryption: walks the public sequence in reverse index
    /// order and adds every term whose plaintext bit is set. The cleartext
    /// must cover one block of bits; a shorter buffer is reported, never
    /// read out of bounds.
    pub fn encrypt(&self, cleartext: &[u8]) -> (res: Result<u64, KnapsackError>)
        requires
            self.wf(),
        ensures
            8 * cleartext@.len() >= self.key@.len() ==> (res matches Ok(c) && c == subset_sum(
                self.key@,
                cleartext@,
            )),
            8 * cleartext@.len() < self.key@.len() ==> res == Err::<u64, KnapsackError>(
                KnapsackError::CleartextTooShort,
            ),
    {
        let n = self.key.len();
        let needed = n / 8 + if n % 8 == 0 {
            0
        } else {
            1
        };
        proof {
            lemma_fundamental_div_mod(n as int, 8);
        }
        if cleartext.len() < needed {
            return Err(KnapsackError::CleartextTooShort);
        }
        let mut total: u64 = 0;
        let mut ci: usize = 0;
        proof {
            assert(self.key@.take(n as int) =~= self.key@);
        }
        while ci < n
            invariant
                self.wf(),
                n == self.key@.len(),
                8 * cleartext@.len() >= n,
                ci <= n,
                total == subset_sum(self.key@, cleartext@) - subset_sum(
                    self.key@.take(n - ci),
                    cleartext@,
                ),
            decreases n - ci,
        {
            let i = n - 1 - ci;
            let rem = i % 8;
            let idx = i / 8;
            let sh: u8 = (7 - rem) as u8;
            proof {
                lemma_fundamental_div_mod(i as int, 8);
                assert(8 * idx <= i) by (nonlinear_arith)
                    requires
                        i as int == 8 * (idx as int) + rem,
                        rem >= 0,
                ;
                assert((idx as int) < cleartext@.len()) by (nonlinear_arith)
                    requires
                        8 * (idx as int) <= i,
                        (i as int) < 8 * cleartext@.len(),
                ;
                lemma_subset_sum_take_step(self.key@, cleartext@, i as int);
                lemma_subset_sum_bounds(self.key@, cleartext@);
                lemma_subset_sum_bounds(self.key@.take(i as int), cleartext@);
            }
            let byte = cleartext[idx];
            if (byte >> sh) & 1 == 1 {
                proof {
                    assert(bit_at(cleartext@, i as int));
                }
                total = total + self.key[i];
            } else {
                proof {
                    assert(!bit_at(cleartext@, i as int));
                }
            }
            ci = ci + 1;
        }
        proof {
            assert(subset_sum(self.key@.take(0), cleartext@) == 0);
        }
        Ok(total)
    }
}

impl PrivateKey {
    /// Generates a fresh private key: a superincreasing sequence of
    /// `block_size` terms, a modulus strictly beyond its sum, and a
    /// multiplier chosen coprime with the modulus.
    pub fn generate(block_size: usize) -> (k: PrivateKey)
        requires
            1 <= block_size <= 32,
        ensures
            k.wf(),
            k.w@.len() == block_size,
    {
        let mut rng = fresh_rng();
        let (w, w_sum) = generate_superincreasing_sequence(block_size, &mut rng);
        let q = w_sum + random_range_inclusive(&mut rng, 1, 10000);
        let r = generate_coprime(q, &mut rng);
        PrivateKey { w, q, r }
    }

    /// Decryption: multiplies the ciphertext by the inverse of `r` modulo
    /// `q`, then decomposes the result greedily against `w` from the largest
    /// term to the smallest. Because `w` is superincreasing, a term fits the
    /// remainder exactly when its bit was set in the plaintext, so the block
    /// is recovered uniquely; a remainder that does not reach zero means the
    /// ciphertext belongs to no plaintext of this key and is reported.
    #[verifier::rlimit(100)]
    pub fn decrypt(&self, ciphertext: u64) -> (res: Result<Vec<u8>, KnapsackError>)
        requires
            self.wf(),
        ensures
            res matches Ok(m) ==> valid_plaintext(*self, m@, ciphertext),
            forall|m: Seq<u8>|
                valid_plaintext(*self, m, ciphertext) ==> res is Ok && res->Ok_0@ == m,
            res is Err ==> res == Err::<Vec<u8>, KnapsackError>(KnapsackError::NonDecodable),
    {
        let q = self.q;
        let n = self.w.len();
        let ghost w = self.w@;
        let ghost qi = q as int;
        proof {
            // q >= 2: the first term is positive, so the sum is.
            assert(w[0] > seq_sum(w.subrange(0, 0)));
            assert(seq_sum(w.subrange(0, 0)) == 0);
            lemma_seq_sum_elem_le(w, 0);
        }
        let r_inv = modinv(self.r, q);
        let c_prime = mulmod(ciphertext, r_inv, q);
        proof {
            lemma_mod_division_less_than_divisor(ciphertext as int * r_inv as int, qi);
            assert(ciphertext as int * r_inv as int >= 0) by (nonlinear_arith);
        }

        let needed = n / 8 + if n % 8 == 0 {
            0
        } else {
            1
        };
        proof {
            lemma_fundamental_div_mod(n as int, 8);
            assert(needed == blocks_needed(n as int) && 8 * (needed as int) >= n as int)
                by (nonlinear_arith)
                requires
                    n as int == 8 * (n as int / 8) + n as int % 8,
                    0 <= n as int % 8 < 8,
                    needed as int == n as int / 8 + if n as int % 8 == 0 { 0int } else { 1int },
                    blocks_needed(n as int) == (n as int + 7) / 8,
            ;
        }
        let mut message: Vec<u8> = Vec::new();
        let mut t: usize = 0;
        while t < needed
            invariant
                t <= needed,
                message@.len() == t,
                forall|j: int| 0 <= j < t ==> message@[j] == 0,
            decreases needed - t,
        {
            message.push(0u8);
            t = t + 1;
        }
        proof {
            lemma_zero_byte();
            assert forall|j: int| 0 <= j < 8 * message@.len() implies !bit_at(message@, j) by {
                assert(0 <= j / 8 < message@.len()) by (nonlinear_arith)
                    requires
                        0 <= j < 8 * message@.len(),
                ;
                assert(message@[j / 8] == 0);
            }
        }

        let mut remaining = c_prime;
        let mut i = n;
        proof {
            assert(w.take(n as int) =~= w);
            lemma_subset_sum_zero(w, message@);
            // Initially: every valid plaintext's subset sum equals c_prime.
            assert forall|m: Seq<u8>| valid_plaintext(*self, m, ciphertext) implies subset_sum(
                w,
                m,
            ) == c_prime as int by {
                lemma_subset_sum_bounds(w, m);
                lemma_decode_equivalent(
                    ciphertext,
                    self.r as int,
                    r_inv as int,
                    qi,
                    c_prime as int,
                    subset_sum(w, m),
                );
            }
        }
        while i > 0
            invariant
                self.wf(),
                w == self.w@,
                qi == self.q as int,
                n == w.len(),
                i <= n,
                needed == blocks_needed(n as int),
                message@.len() == needed,
                n as int <= 8 * message@.len(),
                remaining <= c_prime,
                c_prime < self.q,
                (c_prime as int) == (ciphertext as int * r_inv as int) % qi,
                (self.r as int * r_inv as int) % qi == 1,
                // what has been written so far explains the spent part
                remaining as int == c_prime as int - subset_sum(w, message@),
                // bits not yet decided, and padding, are clear
                forall|j: int|
                    0 <= j < 8 * message@.len() && (j < i || j >= n) ==> !bit_at(message@, j),
                // every valid plaintext agrees with what has been written
                forall|m: Seq<u8>|
                    valid_plaintext(*self, m, ciphertext) ==> remaining as int == subset_sum(
                        w.take(i as int),
                        m,
                    ) && (forall|j: int| i <= j < n ==> bit_at(message@, j) == bit_at(m, j)),
            decreases i,
        {
            i = i - 1;
            let wi = self.w[i];
            let ghost mprev = message@;
            proof {
                lemma_subset_sum_take_step(w, message@, i as int);
                lemma_subset_sum_bounds(w.take(i as int), message@);
                lemma_seq_sum_elem_le(w, i as int);
                // the superincreasing bound: anything selectable below i
                // stays short of w[i]
                assert(w[i as int] > seq_sum(w.subrange(0, i as int)));
                assert(w.subrange(0, i as int) == w.take(i as int));
            }
            if wi <= remaining {
                let rem = i % 8;
                let idx = i / 8;
                let sh: u8 = (7 - rem) as u8;
                proof {
                    lemma_fundamental_div_mod(i as int, 8);
                    assert(8 * idx <= i) by (nonlinear_arith)
                        requires
                            i as int == 8 * (idx as int) + rem,
                            rem >= 0,
                    ;
                    assert((idx as int) < message@.len()) by (nonlinear_arith)
                        requires
                            8 * (idx as int) <= i,
                            (i as int) < n as int,
                            n as int <= 8 * message@.len(),
                            needed == blocks_needed(n as int),
                            message@.len() == needed,
                    ;
                }
                let byte = message[idx];
                let mask: u8 = 1u8 << sh;
                message[idx] = byte | mask;
                remaining = remaining - wi;
                proof {
                    lemma_or_bit(byte, sh);
                    assert(message@ == mprev.update(idx as int, byte | mask));
                    // bit i is now set; every other bit is untouched
                    assert(bit_at(message@, i as int));
                    assert forall|j: int|
                        0 <= j < 8 * message@.len() && j != i implies bit_at(message@, j) == bit_at(
                        mprev,
                        j,
                    ) by {
                        assert(0 <= j / 8 < message@.len()) by (nonlinear_arith)
                            requires
                                0 <= j < 8 * message@.len(),
                        ;
                        if j / 8 == idx as int {
                            assert(j % 8 != rem as int) by (nonlinear_arith)
                                requires
                                    j != i as int,
                                    j / 8 == i as int / 8,
                                    idx as int == i as int / 8,
                                    j % 8 == j - 8 * (j / 8),
                                    i as int % 8 == i as int - 8 * (i as int / 8),
                                    rem as int == i as int % 8,
                            ;
                            assert((7 - (j % 8)) as u8 != sh);
                            assert(((7 - (j % 8)) as u8) < 8);
                            assert(message@[j / 8] == byte | mask);
                            assert(mprev[j / 8] == byte);
                        } else {
                            assert(message@[j / 8] == mprev[j / 8]);
                        }
                    }
                    // soundness: the recorded subset sum grows by w[i]
                    assert(!bit_at(mprev, i as int));
                    lemma_subset_sum_set_bit(w, mprev, message@, i as int);
                    assert forall|j: int|
                        0 <= j < 8 * message@.len() && (j < i || j >= n) implies !bit_at(
                        message@,
                        j,
                    ) by {
                        assert(bit_at(message@, j) == bit_at(mprev, j));
                        assert(!bit_at(mprev, j));
                    }
                    // completeness: a valid plaintext must have this bit set
                    assert forall|m: Seq<u8>| valid_plaintext(*self, m, ciphertext) implies (
                    remaining as int == subset_sum(w.take(i as int), m) && (forall|j: int|
                        i <= j < n ==> bit_at(message@, j) == bit_at(m, j))) by {
                        lemma_subset_sum_take_step(w, m, i as int);
                        lemma_subset_sum_bounds(w.take(i as int), m);
                        if !bit_at(m, i as int) {
                            assert(subset_sum(w.take(i as int + 1), m) == subset_sum(
                                w.take(i as int),
                                m,
                            ));
                            assert(subset_sum(w.take(i as int), m) <= seq_sum(w.take(i as int)));
                            assert(false);
                        }
                    }
                }
            } else {
                proof {
                    // completeness: a valid plaintext cannot have this bit set
                    assert forall|m: Seq<u8>| valid_plaintext(*self, m, ciphertext) implies (
                    remaining as int == subset_sum(w.take(i as int), m) && (forall|j: int|
                        i <= j < n ==> bit_at(message@, j) == bit_at(m, j))) by {
                        lemma_subset_sum_take_step(w, m, i as int);
                        lemma_subset_sum_bounds(w.take(i as int), m);
                        if bit_at(m, i as int) {
                            assert(false);
                        }
                    }
                }
            }
        }

        proof {
            assert(subset_sum(w.take(0), message@) == 0);
        }
        if remaining != 0 {
            proof {
                assert forall|m: Seq<u8>| !valid_plaintext(*self, m, ciphertext) by {
                    if valid_plaintext(*self, m, ciphertext) {
                        assert(subset_sum(w.take(0), m) == 0);
                    }
                }
            }
            return Err(KnapsackError::NonDecodable);
        }
        proof {
            // the constructed buffer is itself a valid plaintext
            assert(subset_sum(w, message@) == c_prime as int);
            lemma_subset_sum_bounds(w, message@);
            lemma_decode_equivalent(
                ciphertext,
                self.r as int,
                r_inv as int,
                qi,
                c_prime as int,
                subset_sum(w, message@),
            );
            assert(valid_plaintext(*self, message@, ciphertext));
            // and every valid plaintext is byte-for-byte this buffer
            assert forall|m: Seq<u8>| valid_plaintext(*self, m, ciphertext) implies message@
                == m by {
                assert(subset_sum(w.take(0), m) == 0);
                assert forall|bi: int| 0 <= bi < message@.len() implies message@[bi] == m[bi] by {
                    let b1 = message@[bi];
                    let b2 = m[bi];
                    assert forall|u: u8| u < 8 implies ((b1 >> u) & 1 == 1) == ((b2 >> u) & 1
                        == 1) by {
                        let j = 8 * bi + 7 - u;
                        lemma_bit_index(bi, 7 - u as int);
                        assert(j / 8 == bi && j % 8 == 7 - u as int);
                        assert(bit_at(message@, j) == ((b1 >> u) & 1 == 1));
                        assert(bit_at(m, j) == ((b2 >> u) & 1 == 1));
                        if j < n {
                            assert(bit_at(message@, j) == bit_at(m, j));
                        } else {
                            assert(!bit_at(message@, j));
                            assert(!bit_at(m, j));
                        }
                    }
                    lemma_byte_eq(b1, b2);
                }
                assert(message@ =~= m);
            }
        }
        Ok(message)
    }
}

/// The sole construction entry point: a private key and its derived public
/// key, produced together. The one invalid configuration, a block size of
/// zero, is rejected rather than yielding a degenerate key.
pub fn generate_key_pair(block_size: usize) -> (res: Result<KeyPair, KnapsackError>)
    requires
        block_size <= 32,
    ensures
        block_size == 0 ==> res == Err::<KeyPair, KnapsackError>(KnapsackError::InvalidBlockSize),
        block_size >= 1 ==> (res matches Ok(kp) && kp.private_key.wf() && kp.private_key.w@.len()
            == block_size && kp.public_key.key@ == derived_key(kp.private_key)
            && kp.public_key.wf()),
{
    if block_size == 0 {
        return Err(KnapsackError::InvalidBlockSize);
    }
    let k = PrivateKey::generate(block_size);
    let p = PublicKey::derive(&k);
    Ok(KeyPair { public_key: p, private_key: k })
}

/// Round trip: encrypting a zero-padded block with the key derived from `k`
/// yields a ciphertext that `decrypt` maps back to exactly that block. The
/// subset sum over the derived key is the value `encrypt` returns, and this
/// lemma shows it is a valid plaintext witness for `decrypt`'s contract.
pub proof fn lemma_round_trip(k: PrivateKey, m: Seq<u8>)
    requires
        k.wf(),
        m.len() == blocks_needed(k.w@.len() as int),
        zero_padded(m, k.w@.len() as int),
    ensures
        0 <= subset_sum(derived_key(k), m) <= u64::MAX,
        valid_plaintext(k, m, subset_sum(derived_key(k), m) as u64),
{
    let d = derived_key(k);
    let q = k.q as int;
    let n = k.w@.len() as int;
    assert forall|j: int| 0 <= j < d.len() implies d[j] < k.q by {
        lemma_mod_division_less_than_divisor(k.w@[j] as int * k.r as int, q);
        assert(k.w@[j] as int * k.r as int >= 0) by (nonlinear_arith);
    }
    lemma_subset_sum_bounds(d, m);
    lemma_seq_sum_bounded(d, (k.q - 1) as u64);
    assert(d.len() * ((k.q - 1) as u64) <= 32 * 0x10_0000_0000_0000) by (nonlinear_arith)
        requires
            d.len() <= 32,
            (k.q - 1) as u64 <= 0x10_0000_0000_0000,
    ;
    let c = subset_sum(d, m);
    lemma_derived_subset_sum_mod(k, m, n);
    assert(d.take(n) =~= d);
    assert(k.w@.take(n) =~= k.w@);
    assert((subset_sum(k.w@, m) * k.r) % q == c % q);
    assert((c as u64) as int == c);
}

} // verus!
