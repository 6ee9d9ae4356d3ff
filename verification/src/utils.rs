//! Number-theory primitives and the superincreasing-sequence generator.
//!
//! Decryption is only sound if these are exact, so each carries a full
//! contract: the binary GCD equals the Euclidean reference definition, the
//! modular inverse really inverts, and the modular product is computed in a
//! double-width intermediate so it never wraps.

use crate::number_theory::{
    gcd, lemma_gcd_bounds, lemma_gcd_commutes, lemma_gcd_even_even, lemma_gcd_odd_even,
    lemma_gcd_subtract, lemma_gcd_zero_left,
};
use crate::random::random_range_inclusive;
use rand::rngs::ThreadRng;
use vstd::arithmetic::div_mod::{
    lemma_fundamental_div_mod, lemma_mod_multiples_vanish, lemma_mul_mod_noop_right,
    lemma_small_mod,
};
use vstd::arithmetic::power2::{
    lemma2_to64, lemma2_to64_rest, lemma_pow2_strictly_increases, lemma_pow2_unfold, pow2,
};
use vstd::bits::lemma_u64_shl_is_mul;
use vstd::math::abs;
use vstd::prelude::*;

verus! {

/// The largest modulus the key-pair engine will ever produce; small enough
/// that doubling it and converting it to a signed width stays exact.
pub const MODULUS_LIMIT: u64 = 0x2000_0000_0000_0000;

/// `(a * b) % m`, with the product taken in a double-width intermediate so it
/// cannot wrap before the reduction.
pub fn mulmod(a: u64, b: u64, m: u64) -> (r: u64)
    requires
        1 <= m,
    ensures
        r == (a * b) % (m as int),
{
    proof {
        assert((a as int) * (b as int) <= (u64::MAX as int) * (u64::MAX as int)) by (nonlinear_arith)
            requires
                a <= u64::MAX,
                b <= u64::MAX,
        ;
        assert((a as int) * (b as int) % (m as int) < m as int
            && (a as int) * (b as int) % (m as int) >= 0) by (nonlinear_arith)
            requires
                m >= 1,
        ;
    }
    (((a as u128) * (b as u128)) % (m as u128)) as u64
}

/// Stein's binary GCD: strip the common power of two, then repeatedly
/// subtract the smaller value from the larger and discard trailing zero bits,
/// rescaling by the saved power of two at the end.
pub fn binary_gcd(n1: u64, n2: u64) -> (g: u64)
    ensures
        g as nat == gcd(n1 as nat, n2 as nat),
{
    // Base case: gcd(n, 0) = gcd(0, n) = n
    if n2 == 0 {
        return n1;
    } else if n1 == 0 {
        proof {
            lemma_gcd_zero_left(n2 as nat);
        }
        return n2;
    }
    let mut a = n1;
    let mut b = n2;
    let mut k: u64 = 0;
    proof {
        lemma2_to64();
        assert(pow2(0) * gcd(n1 as nat, n2 as nat) == gcd(n1 as nat, n2 as nat))
            by (nonlinear_arith)
            requires
                pow2(0) == 1,
        ;
        assert(n1 as int * pow2(0) == n1 as int) by (nonlinear_arith)
            requires
                pow2(0) == 1,
        ;
    }
    // Remove the common factors of two, remembering how many were removed.
    while a % 2 == 0 && b % 2 == 0
        invariant
            1 <= a,
            1 <= b,
            k < 64,
            pow2(k as nat) * gcd(a as nat, b as nat) == gcd(n1 as nat, n2 as nat),
            a as int * pow2(k as nat) <= n1,
        decreases a,
    {
        proof {
            lemma_fundamental_div_mod(a as int, 2);
            lemma_fundamental_div_mod(b as int, 2);
            lemma_gcd_even_even((a / 2) as nat, (b / 2) as nat);
            lemma_pow2_unfold((k + 1) as nat);
            assert(pow2((k + 1) as nat) * gcd((a / 2) as nat, (b / 2) as nat) == pow2(k as nat)
                * (2 * gcd((a / 2) as nat, (b / 2) as nat))) by (nonlinear_arith)
                requires
                    pow2((k + 1) as nat) == 2 * pow2(k as nat),
            ;
            assert((a / 2) as int * pow2((k + 1) as nat) == a as int * pow2(k as nat))
                by (nonlinear_arith)
                requires
                    a == 2 * (a / 2),
                    pow2((k + 1) as nat) == 2 * pow2(k as nat),
            ;
            if k + 1 == 64 {
                lemma2_to64_rest();
                assert((a / 2) as int * pow2(64) >= pow2(64)) by (nonlinear_arith)
                    requires
                        a / 2 >= 1,
                ;
                assert(false);
            }
        }
        a = a / 2;
        b = b / 2;
        k = k + 1;
    }
    // Strip the remaining factors of two from whichever side still has them;
    // they cannot be shared with the (now odd) other side.
    if a % 2 == 0 {
        while a % 2 == 0
            invariant
                1 <= a,
                1 <= b,
                b % 2 == 1,
                k < 64,
                pow2(k as nat) * gcd(a as nat, b as nat) == gcd(n1 as nat, n2 as nat),
            decreases a,
        {
            proof {
                lemma_fundamental_div_mod(a as int, 2);
                lemma_gcd_commutes(a as nat, b as nat);
                lemma_gcd_odd_even(b as nat, (a / 2) as nat);
                lemma_gcd_commutes((a / 2) as nat, b as nat);
            }
            a = a / 2;
        }
    } else {
        while b % 2 == 0
            invariant
                1 <= a,
                1 <= b,
                a % 2 == 1,
                k < 64,
                pow2(k as nat) * gcd(a as nat, b as nat) == gcd(n1 as nat, n2 as nat),
            decreases b,
        {
            proof {
                lemma_fundamental_div_mod(b as int, 2);
                lemma_gcd_odd_even(a as nat, (b / 2) as nat);
            }
            b = b / 2;
        }
    }
    loop
        invariant
            1 <= a,
            1 <= b,
            a % 2 == 1,
            b % 2 == 1,
            k < 64,
            1 <= n1,
            pow2(k as nat) * gcd(a as nat, b as nat) == gcd(n1 as nat, n2 as nat),
        decreases a + b,
    {
        let ghost pre = a as int + b as int;
        if a > b {
            proof {
                lemma_gcd_commutes(a as nat, b as nat);
            }
            let t = a;
            a = b;
            b = t;
        }
        proof {
            lemma_gcd_subtract(a as nat, b as nat);
        }
        b = b - a;

        if b == 0 {
            proof {
                lemma_gcd_bounds(n1 as nat, n2 as nat);
                assert(pow2(k as nat) * a as nat <= n1) by (nonlinear_arith)
                    requires
                        pow2(k as nat) * gcd(a as nat, 0) == gcd(n1 as nat, n2 as nat),
                        gcd(a as nat, 0) == a as nat,
                        gcd(n1 as nat, n2 as nat) <= n1,
                ;
                assert(a as nat * pow2(k as nat) == pow2(k as nat) * a as nat)
                    by (nonlinear_arith);
                lemma_u64_shl_is_mul(a, k);
            }
            return a << k;
        }

        // The difference of two odd values is even: discard its zero bits.
        while b % 2 == 0
            invariant
                1 <= a,
                1 <= b,
                a % 2 == 1,
                k < 64,
                (a as int) + (b as int) < pre,
                pow2(k as nat) * gcd(a as nat, b as nat) == gcd(n1 as nat, n2 as nat),
            decreases b,
        {
            proof {
                lemma_fundamental_div_mod(b as int, 2);
                lemma_gcd_odd_even(a as nat, (b / 2) as nat);
            }
            b = b / 2;
        }
    }
}

/// Extended Euclidean algorithm: the multiplicative inverse of `a` modulo
/// `b`, for coprime arguments. The Bezout coefficient is tracked in a signed
/// accumulator whose magnitude never exceeds `b`, so the narrow width cannot
/// wrap.
pub fn modinv(a: u64, b: u64) -> (inv: u64)
    requires
        1 <= a <= MODULUS_LIMIT,
        2 <= b <= MODULUS_LIMIT,
        gcd(a as nat, b as nat) == 1,
    ensures
        inv < b,
        (a * inv) % (b as int) == 1,
{
    let mut s: i64 = 0;
    let mut old_s: i64 = 1;
    let mut r: u64 = b;
    let mut old_r: u64 = a;
    let ghost mut k1: int = 0;
    let ghost mut k2: int = -1;

    proof {
        assert(a as int * 1 == a as int + 0 * b);
        assert(a as int * 0 == b as int + -1 * (b as int));
    }
    while r != 0
        invariant
            1 <= a <= MODULUS_LIMIT,
            2 <= b <= MODULUS_LIMIT,
            1 <= old_r,
            old_r <= MODULUS_LIMIT,
            r <= MODULUS_LIMIT,
            -(b as int) <= s as int <= b as int,
            -(b as int) <= old_s as int <= b as int,
            (old_s as int) * (s as int) <= 0,
            (old_r as int) * abs(s as int) + (r as int) * abs(old_s as int) == b as int,
            a as int * old_s == old_r as int + k1 * b,
            a as int * s == r as int + k2 * b,
            gcd(old_r as nat, r as nat) == gcd(a as nat, b as nat),
            gcd(a as nat, b as nat) == 1,
        decreases r,
    {
        let q = old_r / r;
        let new_r = old_r % r;
        proof {
            lemma_fundamental_div_mod(old_r as int, r as int);
            assert(old_r as int == q * r + new_r) by (nonlinear_arith)
                requires
                    old_r as int == (r as int) * (old_r as int / r as int) + old_r as int % r as int,
                    q == old_r as int / r as int,
                    new_r == old_r as int % r as int,
            ;
            // The quotient-remainder step preserves the GCD by definition.
            assert(gcd(old_r as nat, r as nat) == gcd(r as nat, (old_r % r) as nat));
            // Rearranged scale identity, used both for bounds and preservation.
            assert((r as int) * (q * abs(s as int) + abs(old_s as int)) + (new_r as int) * abs(
                s as int,
            ) == b as int) by (nonlinear_arith)
                requires
                    old_r as int == q * r + new_r,
                    (old_r as int) * abs(s as int) + (r as int) * abs(old_s as int) == b as int,
            ;
            assert(q * abs(s as int) + abs(old_s as int) <= b as int) by (nonlinear_arith)
                requires
                    r >= 1,
                    new_r >= 0,
                    abs(s as int) >= 0,
                    abs(old_s as int) >= 0,
                    q >= 0,
                    (r as int) * (q * abs(s as int) + abs(old_s as int)) + (new_r as int) * abs(
                        s as int,
                    ) == b as int,
            ;
            assert(-(b as int) <= q * (s as int) <= b as int) by (nonlinear_arith)
                requires
                    q >= 0,
                    abs(old_s as int) >= 0,
                    q * abs(s as int) + abs(old_s as int) <= b as int,
                    abs(s as int) == if s as int >= 0 {
                        s as int
                    } else {
                        -(s as int)
                    },
            ;
            assert(-(b as int) <= (old_s as int) - q * (s as int) <= b as int) by (nonlinear_arith)
                requires
                    q >= 0,
                    (old_s as int) * (s as int) <= 0,
                    q * abs(s as int) + abs(old_s as int) <= b as int,
                    abs(s as int) == if s as int >= 0 {
                        s as int
                    } else {
                        -(s as int)
                    },
                    abs(old_s as int) == if old_s as int >= 0 {
                        old_s as int
                    } else {
                        -(old_s as int)
                    },
            ;
        }
        let new_s = old_s - (q as i64) * s;
        proof {
            // Sign alternation and the scale identity carry to the new pair.
            assert((s as int) * (new_s as int) <= 0) by (nonlinear_arith)
                requires
                    new_s as int == old_s as int - q * (s as int),
                    (old_s as int) * (s as int) <= 0,
                    q >= 0,
            ;
            assert(abs(new_s as int) == abs(old_s as int) + q * abs(s as int)) by (nonlinear_arith)
                requires
                    new_s as int == old_s as int - q * (s as int),
                    (old_s as int) * (s as int) <= 0,
                    q >= 0,
                    abs(s as int) == if s as int >= 0 {
                        s as int
                    } else {
                        -(s as int)
                    },
                    abs(old_s as int) == if old_s as int >= 0 {
                        old_s as int
                    } else {
                        -(old_s as int)
                    },
                    abs(new_s as int) == if new_s as int >= 0 {
                        new_s as int
                    } else {
                        -(new_s as int)
                    },
            ;
            assert((r as int) * abs(new_s as int) + (new_r as int) * abs(s as int) == b as int)
                by (nonlinear_arith)
                requires
                    abs(new_s as int) == abs(old_s as int) + q * abs(s as int),
                    (r as int) * (q * abs(s as int) + abs(old_s as int)) + (new_r as int) * abs(
                        s as int,
                    ) == b as int,
            ;
            assert(a as int * new_s == new_r as int + (k1 - q * k2) * b) by (nonlinear_arith)
                requires
                    a as int * old_s == old_r as int + k1 * b,
                    a as int * s == r as int + k2 * b,
                    new_s as int == old_s as int - q * (s as int),
                    new_r as int == old_r as int - q * (r as int),
            ;
            let tmp = k1;
            k1 = k2;
            k2 = tmp - q * k2;
        }
        old_r = r;
        r = new_r;
        old_s = s;
        s = new_s;
    }
    proof {
        // gcd(old_r, 0) == old_r, and the GCD invariant pins it to 1.
        assert(old_r == 1);
        lemma_mod_multiples_vanish(1, old_s as int, b as int);
        lemma_mul_mod_noop_right(a as int, old_s as int, b as int);
        lemma_mod_multiples_vanish(k1, 1, b as int);
        lemma_small_mod(1, b as nat);
        assert(a as int * old_s == 1 + k1 * b);
        assert((b as int) * k1 + 1 == 1 + k1 * b) by (nonlinear_arith);
    }
    let result = (old_s + b as i64) % (b as i64);
    proof {
        assert(result == (old_s as int + b as int) % (b as int));
        assert((b as int) * 1 + old_s as int == old_s as int + b as int) by (nonlinear_arith);
        assert(result == (old_s as int) % (b as int));
        assert((a as int * result) % (b as int) == 1) by {
            assert(a as int * ((old_s as int) % (b as int)) % (b as int) == (a as int * old_s)
                % (b as int));
            assert((a as int * old_s) % (b as int) == ((b as int) * k1 + 1) % (b as int));
            assert(((b as int) * k1 + 1) % (b as int) == 1int % (b as int));
        }
    }
    result as u64
}

/// The sum of the elements, as an unbounded integer.
pub open spec fn seq_sum(s: Seq<u64>) -> int
    decreases s.len(),
{
    if s.len() == 0 {
        0
    } else {
        seq_sum(s.drop_last()) + s.last()
    }
}

/// Every element strictly exceeds the sum of all elements before it.
pub open spec fn is_superincreasing(s: Seq<u64>) -> bool {
    forall|i: int| 0 <= i < s.len() ==> s[i] > seq_sum(s.subrange(0, i))
}

pub proof fn lemma_seq_sum_nonneg(s: Seq<u64>)
    ensures
        seq_sum(s) >= 0,
    decreases s.len(),
{
    if s.len() > 0 {
        lemma_seq_sum_nonneg(s.drop_last());
    }
}

pub proof fn lemma_seq_sum_push(s: Seq<u64>, x: u64)
    ensures
        seq_sum(s.push(x)) == seq_sum(s) + x,
{
    assert(s.push(x).drop_last() =~= s);
}

/// Each element is at most the whole sum.
pub proof fn lemma_seq_sum_elem_le(s: Seq<u64>, i: int)
    requires
        0 <= i < s.len(),
    ensures
        s[i] <= seq_sum(s),
    decreases s.len(),
{
    if i == s.len() - 1 {
        lemma_seq_sum_nonneg(s.drop_last());
    } else {
        lemma_seq_sum_elem_le(s.drop_last(), i);
    }
}

/// A pointwise bound on the elements bounds the sum.
pub proof fn lemma_seq_sum_bounded(s: Seq<u64>, c: u64)
    requires
        forall|i: int| 0 <= i < s.len() ==> s[i] <= c,
    ensures
        seq_sum(s) <= s.len() * c,
    decreases s.len(),
{
    if s.len() > 0 {
        lemma_seq_sum_bounded(s.drop_last(), c);
        assert((s.len() - 1) * c + c == s.len() * c) by (nonlinear_arith);
    }
}

/// Appending a value larger than the current sum keeps the sequence
/// superincreasing.
pub proof fn lemma_superincreasing_push(s: Seq<u64>, x: u64)
    requires
        is_superincreasing(s),
        x > seq_sum(s),
    ensures
        is_superincreasing(s.push(x)),
{
    let t = s.push(x);
    assert forall|i: int| 0 <= i < t.len() implies t[i] > seq_sum(t.subrange(0, i)) by {
        if i < s.len() {
            assert(t.subrange(0, i) =~= s.subrange(0, i));
            assert(t[i] == s[i]);
        } else {
            assert(t.subrange(0, i) =~= s);
        }
    }
}

/// Builds `n` terms, each the running sum plus a fresh draw from a small
/// positive range, so the sequence is superincreasing by construction. The
/// per-step growth cap is a small constant (it does not scale with the block
/// size), which keeps every term and the final sum inside a fixed-width
/// machine word; that is a deliberate design choice, not a defect.
pub fn generate_superincreasing_sequence(n: usize, rng: &mut ThreadRng) -> (r: (Vec<u64>, u64))
    requires
        n <= 32,
    ensures
        r.0@.len() == n,
        is_superincreasing(r.0@),
        r.1 == seq_sum(r.0@),
        r.1 <= 0x8_0000_0000_0000,
        n >= 1 ==> r.1 >= 1,
{
    let mut sequence: Vec<u64> = Vec::new();
    let mut sum: u64 = 0;

    let mut target_total: u64 = 500000;
    let min_incr: u64 = 300;

    let mut c: usize = 0;
    proof {
        lemma2_to64();
        assert(499999 * (pow2(0) - 1) == 0) by (nonlinear_arith)
            requires
                pow2(0) == 1,
        ;
    }
    while c < n
        invariant
            c <= n <= 32,
            sequence@.len() == c,
            is_superincreasing(sequence@),
            sum == seq_sum(sequence@),
            sum as int <= 499999 * (pow2(c as nat) - 1),
            target_total <= 500000,
            min_incr == 300,
            c >= 1 ==> sum >= 1,
        decreases n - c,
    {
        proof {
            lemma2_to64();
            if c < 32 {
                lemma_pow2_strictly_increases(c as nat, 32);
            }
            assert(499999 * (pow2(c as nat) - 1) <= 499999 * (pow2(32) - 1)) by (nonlinear_arith)
                requires
                    pow2(c as nat) <= pow2(32),
            ;
        }
        let bound = if target_total > min_incr {
            target_total
        } else {
            min_incr
        };
        let x = random_range_inclusive(rng, 1, bound - 1);
        let next = sum + x;
        let ghost prev = sequence@;
        sequence.push(next);
        proof {
            assert(sequence@ =~= prev.push(next));
            lemma_superincreasing_push(prev, next);
            lemma_seq_sum_push(prev, next);
            lemma_pow2_unfold((c + 1) as nat);
            assert(sum as int + next as int <= 499999 * (pow2((c + 1) as nat) - 1))
                by (nonlinear_arith)
                requires
                    sum as int <= 499999 * (pow2(c as nat) - 1),
                    next as int <= sum as int + 499999,
                    pow2((c + 1) as nat) == 2 * pow2(c as nat),
            ;
        }
        sum = sum + next;
        target_total = if target_total > next {
            target_total - next
        } else {
            0
        };
        c = c + 1;
    }
    proof {
        lemma2_to64();
        if (n as nat) < 32 {
            lemma_pow2_strictly_increases(n as nat, 32);
        }
        assert(499999 * (pow2(n as nat) - 1) <= 499999 * (pow2(32) - 1)) by (nonlinear_arith)
            requires
                pow2(n as nat) <= pow2(32),
        ;
    }
    (sequence, sum)
}

/// Draws candidates from `[n1 / 2, 2 * n1]` until one is coprime with `n1`;
/// coprime residues are dense, so the search terminates almost surely.
pub fn generate_coprime(n1: u64, rng: &mut ThreadRng) -> (r: u64)
    requires
        2 <= n1 <= MODULUS_LIMIT,
    ensures
        n1 / 2 <= r <= 2 * n1,
        1 <= r,
        gcd(n1 as nat, r as nat) == 1,
        gcd(r as nat, n1 as nat) == 1,
{
    let lower_bound = n1 / 2;
    let upper_bound = n1 * 2;
    let mut fuel: u64 = u64::MAX;
    while fuel > 0
        invariant
            2 <= n1 <= MODULUS_LIMIT,
            lower_bound == n1 / 2,
            upper_bound == 2 * n1,
        decreases fuel,
    {
        let i = random_range_inclusive(rng, lower_bound, upper_bound);
        if binary_gcd(n1, i) == 1 {
            proof {
                lemma_gcd_commutes(n1 as nat, i as nat);
            }
            return i;
        }
        fuel = fuel - 1;
    }
    // An astronomically improbable exhaustion of the search: fall back to the
    // right neighbour of the modulus, which is always coprime with it and
    // still lies inside the sampling range.
    proof {
        assert((n1 + 1) as nat % (n1 as nat) == 1) by (nonlinear_arith)
            requires
                n1 >= 2,
        ;
        assert(gcd((n1 + 1) as nat, n1 as nat) == gcd(n1 as nat, 1));
        assert((n1 as nat) % 1 == 0);
        assert(gcd(n1 as nat, 1) == gcd(1, 0));
        lemma_gcd_commutes((n1 + 1) as nat, n1 as nat);
    }
    n1 + 1
}

} // verus!
