//! An arbitrary-precision integer over 32-bit little-endian digit chunks,
//! with a sign flag. Only construction, normalisation and same-sign addition
//! are provided: the type is scaffolding for block sizes beyond a machine
//! word, and the cryptographic engine does not depend on it.

use vstd::arithmetic::power2::{lemma2_to64, lemma_pow2_adds, pow2};
use vstd::math::min;
use vstd::prelude::*;

verus! {

/// Each digit chunk carries 32 bits.
pub const CHUNK_BASE: u64 = 0x1_0000_0000;

/// The magnitude encoded by a little-endian sequence of 32-bit chunks.
pub open spec fn chunks_value(s: Seq<u32>) -> int
    decreases s.len(),
{
    if s.len() == 0 {
        0
    } else {
        s[0] + 0x1_0000_0000 * chunks_value(s.drop_first())
    }
}

pub proof fn lemma_chunks_value_singleton(s: Seq<u32>)
    requires
        s.len() == 1,
    ensures
        chunks_value(s) == s[0],
{
    assert(s.drop_first() =~= Seq::<u32>::empty());
    assert(chunks_value(Seq::<u32>::empty()) == 0);
}

pub proof fn lemma_chunks_value_nonneg(s: Seq<u32>)
    ensures
        chunks_value(s) >= 0,
    decreases s.len(),
{
    if s.len() > 0 {
        lemma_chunks_value_nonneg(s.drop_first());
    }
}

/// Appending a chunk adds its value scaled by the position weight.
pub proof fn lemma_chunks_value_push(s: Seq<u32>, x: u32)
    ensures
        chunks_value(s.push(x)) == chunks_value(s) + x * pow2(32 * s.len()),
    decreases s.len(),
{
    lemma2_to64();
    if s.len() == 0 {
        lemma_chunks_value_singleton(s.push(x));
        assert(chunks_value(s) == 0);
        assert(x * pow2(0) == x) by (nonlinear_arith)
            requires
                pow2(0) == 1,
        ;
    } else {
        lemma_chunks_value_push(s.drop_first(), x);
        assert(s.push(x).drop_first() =~= s.drop_first().push(x));
        lemma_pow2_adds(32 * (s.len() - 1) as nat, 32);
        assert(chunks_value(s.push(x)) == s[0] + 0x1_0000_0000 * (chunks_value(s.drop_first()) + x
            * pow2(32 * (s.len() - 1) as nat)));
        assert(0x1_0000_0000 * (chunks_value(s.drop_first()) + x * pow2(
            32 * (s.len() - 1) as nat,
        )) == 0x1_0000_0000 * chunks_value(s.drop_first()) + x * (pow2(32 * (s.len() - 1) as nat)
            * 0x1_0000_0000)) by (nonlinear_arith);
        assert(pow2(32 * (s.len() - 1) as nat) * 0x1_0000_0000 == pow2(32 * s.len())) by {
            assert(32 * (s.len() - 1) as nat + 32 == 32 * s.len()) by (nonlinear_arith)
                requires
                    s.len() >= 1,
            ;
            assert(pow2(32) == 0x1_0000_0000);
        }
    }
}

/// A canonical chunk sequence (nonzero top chunk) encodes a positive value.
pub proof fn lemma_chunks_value_pos(s: Seq<u32>)
    requires
        s.len() >= 1,
        s.last() != 0,
    ensures
        chunks_value(s) >= 1,
    decreases s.len(),
{
    if s.len() == 1 {
        lemma_chunks_value_singleton(s);
    } else {
        lemma_chunks_value_pos(s.drop_first());
        assert(s.drop_first().last() == s.last());
    }
}

/// A zero top chunk carries no value.
pub proof fn lemma_chunks_value_drop_last_zero(s: Seq<u32>)
    requires
        s.len() >= 1,
        s.last() == 0,
    ensures
        chunks_value(s.drop_last()) == chunks_value(s),
{
    assert(s =~= s.drop_last().push(0));
    lemma_chunks_value_push(s.drop_last(), 0);
    assert(0 * pow2(32 * s.drop_last().len()) == 0) by (nonlinear_arith);
}

#[derive(Clone, Debug, Eq, PartialEq)]
pub struct BigNumber {
    pub chunks: Vec<u32>,
    pub negative: bool,
}

impl BigNumber {
    /// The signed integer this value stands for.
    pub open spec fn value(self) -> int {
        if self.negative {
            -chunks_value(self.chunks@)
        } else {
            chunks_value(self.chunks@)
        }
    }

    /// Well-formed: at least one chunk, no redundant zero top chunk, and
    /// zero is never marked negative.
    pub open spec fn wf(self) -> bool {
        &&& self.chunks@.len() >= 1
        &&& (self.chunks@.len() > 1 ==> self.chunks@.last() != 0)
        &&& (self.negative ==> chunks_value(self.chunks@) > 0)
    }

    /// Builds the canonical representation of a machine integer.
    pub fn new(val: i128) -> (res: BigNumber)
        ensures
            res.wf(),
            res.value() == val as int,
    {
        if val == 0 {
            let mut chunks: Vec<u32> = Vec::new();
            chunks.push(0u32);
            proof {
                lemma_chunks_value_singleton(chunks@);
            }
            return BigNumber { chunks, negative: false };
        }

        let negative = val < 0;
        // The magnitude, computed so that even the most negative value has a
        // representable negation.
        let mut a: u128 = if val >= 0 {
            val as u128
        } else {
            ((-(val + 1)) as u128) + 1
        };
        let ghost total = a as int;
        proof {
            assert(total == if val >= 0 {
                val as int
            } else {
                -(val as int)
            });
        }

        let mut chunks: Vec<u32> = Vec::new();
        proof {
            lemma2_to64();
            assert((a as int) * pow2(0) == a as int) by (nonlinear_arith)
                requires
                    pow2(0) == 1,
            ;
        }
        while a > 0
            invariant
                total >= 1,
                chunks_value(chunks@) + (a as int) * pow2(32 * chunks@.len()) == total,
                a == 0 ==> chunks@.len() >= 1 && chunks@.last() != 0,
            decreases a,
        {
            let c = (a % 0x1_0000_0000u128) as u32;
            let ghost prev = chunks@;
            chunks.push(c);
            proof {
                lemma_chunks_value_push(prev, c);
                lemma2_to64();
                lemma_pow2_adds(32 * prev.len(), 32);
                assert(a as int == 0x1_0000_0000 * ((a as int) / 0x1_0000_0000) + (a as int)
                    % 0x1_0000_0000) by {
                    vstd::arithmetic::div_mod::lemma_fundamental_div_mod(a as int, 0x1_0000_0000);
                }
                assert(c as int == (a as int) % 0x1_0000_0000);
                assert(((a as int) / 0x1_0000_0000) * pow2(32 * prev.len() + 32) + (c as int)
                    * pow2(32 * prev.len()) == (a as int) * pow2(32 * prev.len()))
                    by (nonlinear_arith)
                    requires
                        a as int == 0x1_0000_0000 * ((a as int) / 0x1_0000_0000) + c as int,
                        pow2(32 * prev.len() + 32) == pow2(32 * prev.len()) * pow2(32),
                        pow2(32) == 0x1_0000_0000,
                ;
                assert(32 * chunks@.len() == 32 * prev.len() + 32);
                if a / 0x1_0000_0000u128 == 0 {
                    assert(c as int == a as int);
                    assert(chunks@.last() == c);
                }
            }
            a = a / 0x1_0000_0000u128;
        }
        proof {
            assert((0 as int) * pow2(32 * chunks@.len()) == 0) by (nonlinear_arith);
            assert(chunks_value(chunks@) == total);
        }
        BigNumber { chunks, negative }
    }

    /// Zero has exactly the canonical single-zero-chunk form.
    pub fn is_zero(&self) -> (z: bool)
        requires
            self.chunks@.len() >= 1,
            self.chunks@.len() > 1 ==> self.chunks@.last() != 0,
        ensures
            z <==> self.value() == 0,
    {
        proof {
            if self.chunks@.len() == 1 {
                lemma_chunks_value_singleton(self.chunks@);
            } else {
                lemma_chunks_value_pos(self.chunks@);
            }
        }
        self.chunks.len() == 1 && self.chunks[0] == 0
    }

    /// The magnitude, as a fresh non-negative value.
    pub fn abs(&self) -> (res: BigNumber)
        requires
            self.wf(),
        ensures
            res.wf(),
            res.value() == if self.value() >= 0 {
                self.value()
            } else {
                -self.value()
            },
    {
        let mut chunks: Vec<u32> = Vec::new();
        let mut i: usize = 0;
        while i < self.chunks.len()
            invariant
                i <= self.chunks@.len(),
                chunks@.len() == i,
                forall|j: int| 0 <= j < i ==> chunks@[j] == self.chunks@[j],
            decreases self.chunks@.len() - i,
        {
            chunks.push(self.chunks[i]);
            i = i + 1;
        }
        proof {
            assert(chunks@ =~= self.chunks@);
            lemma_chunks_value_nonneg(self.chunks@);
        }
        BigNumber { chunks, negative: false }
    }

    pub fn one() -> (res: BigNumber)
        ensures
            res.wf(),
            res.value() == 1,
    {
        let mut chunks: Vec<u32> = Vec::new();
        chunks.push(1u32);
        proof {
            lemma_chunks_value_singleton(chunks@);
        }
        BigNumber { chunks, negative: false }
    }

    pub fn zero() -> (res: BigNumber)
        ensures
            res.wf(),
            res.value() == 0,
    {
        let mut chunks: Vec<u32> = Vec::new();
        chunks.push(0u32);
        proof {
            lemma_chunks_value_singleton(chunks@);
        }
        BigNumber { chunks, negative: false }
    }

    /// Pops redundant zero top chunks and clears the sign of a zero value,
    /// re-establishing the canonical form without changing the value.
    pub fn normalise(&mut self)
        requires
            old(self).chunks@.len() >= 1,
        ensures
            final(self).wf(),
            final(self).value() == old(self).value(),
    {
        while self.chunks.len() > 1 && self.chunks[self.chunks.len() - 1] == 0
            invariant
                self.chunks@.len() >= 1,
                chunks_value(self.chunks@) == chunks_value(old(self).chunks@),
                self.negative == old(self).negative,
            decreases self.chunks@.len(),
        {
            proof {
                lemma_chunks_value_drop_last_zero(self.chunks@);
            }
            self.chunks.pop();
        }
        // If the number is zero, ensure it is not marked as negative.
        if self.chunks.len() == 1 && self.chunks[0] == 0 {
            proof {
                lemma_chunks_value_singleton(self.chunks@);
            }
            self.negative = false;
        } else {
            proof {
                if self.chunks@.len() == 1 {
                    lemma_chunks_value_singleton(self.chunks@);
                } else {
                    lemma_chunks_value_pos(self.chunks@);
                }
            }
        }
    }

    /// Chunkwise addition with carry, for values of the same sign; the
    /// differing-sign cases belong to subtraction, which is future work.
    pub fn chunkadd(&self, rhs: &BigNumber) -> (res: BigNumber)
        requires
            self.wf(),
            rhs.wf(),
            self.negative == rhs.negative,
        ensures
            res.wf(),
            res.value() == self.value() + rhs.value(),
    {
        let alen = self.chunks.len();
        let blen = rhs.chunks.len();
        let max_chunk_len = if alen > blen {
            alen
        } else {
            blen
        };
        let ghost av_seq = self.chunks@;
        let ghost bv_seq = rhs.chunks@;
        let mut result: Vec<u32> = Vec::new();
        let mut carry: u64 = 0;
        let mut i: usize = 0;
        proof {
            lemma2_to64();
            assert(av_seq.take(0) =~= Seq::<u32>::empty());
            assert(bv_seq.take(0) =~= Seq::<u32>::empty());
            assert((0 as int) * pow2(0) == 0) by (nonlinear_arith);
        }
        while i < max_chunk_len
            invariant
                alen == av_seq.len(),
                blen == bv_seq.len(),
                av_seq == self.chunks@,
                bv_seq == rhs.chunks@,
                self.wf(),
                rhs.wf(),
                max_chunk_len == if alen > blen {
                    alen
                } else {
                    blen
                },
                i <= max_chunk_len,
                result@.len() == i,
                carry <= 1,
                chunks_value(result@) + (carry as int) * pow2(32 * (i as nat)) == chunks_value(
                    av_seq.take(min(i as int, alen as int)),
                ) + chunks_value(bv_seq.take(min(i as int, blen as int))),
                (i == max_chunk_len && carry == 0 && i > 1) ==> result@.last() != 0,
            decreases max_chunk_len - i,
        {
            let av: u64 = if i < alen {
                self.chunks[i] as u64
            } else {
                0
            };
            let bv: u64 = if i < blen {
                rhs.chunks[i] as u64
            } else {
                0
            };
            let sum = av + bv + carry;
            let low = (sum % CHUNK_BASE) as u32;
            let ghost prev = result@;
            result.push(low);
            proof {
                lemma_chunks_value_push(prev, low);
                lemma2_to64();
                lemma_pow2_adds(32 * prev.len(), 32);
                vstd::arithmetic::div_mod::lemma_fundamental_div_mod(sum as int, 0x1_0000_0000);
                assert(sum as int == 0x1_0000_0000 * ((sum as int) / 0x1_0000_0000) + low as int);
                // each source prefix grows by its digit, scaled into place
                if i < alen {
                    assert(av_seq.take(min((i + 1) as int, alen as int)) =~= av_seq.take(
                        min(i as int, alen as int),
                    ).push(av_seq[i as int]));
                    lemma_chunks_value_push(av_seq.take(min(i as int, alen as int)), av_seq[i as int]);
                } else {
                    assert(av_seq.take(min((i + 1) as int, alen as int)) =~= av_seq.take(
                        min(i as int, alen as int),
                    ));
                    assert((0 as int) * pow2(32 * (i as nat)) == 0) by (nonlinear_arith);
                }
                if i < blen {
                    assert(bv_seq.take(min((i + 1) as int, blen as int)) =~= bv_seq.take(
                        min(i as int, blen as int),
                    ).push(bv_seq[i as int]));
                    lemma_chunks_value_push(bv_seq.take(min(i as int, blen as int)), bv_seq[i as int]);
                } else {
                    assert(bv_seq.take(min((i + 1) as int, blen as int)) =~= bv_seq.take(
                        min(i as int, blen as int),
                    ));
                }
                assert(chunks_value(prev) + (low as int) * pow2(32 * (i as nat)) + ((sum as int)
                    / 0x1_0000_0000) * (pow2(32 * (i as nat)) * pow2(32)) == chunks_value(prev) + (
                carry as int) * pow2(32 * (i as nat)) + (av as int) * pow2(32 * (i as nat)) + (bv as int) * pow2(
                    32 * (i as nat),
                )) by (nonlinear_arith)
                    requires
                        sum as int == 0x1_0000_0000 * ((sum as int) / 0x1_0000_0000) + low as int,
                        sum as int == av as int + bv as int + carry as int,
                        pow2(32) == 0x1_0000_0000,
                ;
                assert(pow2(32 * (i as nat)) * pow2(32) == pow2(32 * ((i + 1) as nat))) by {
                    assert(32 * (i as nat) + 32 == 32 * ((i + 1) as nat)) by (nonlinear_arith);
                }
                // the top chunk of the longer source keeps the result canonical
                if i + 1 == max_chunk_len && max_chunk_len > 1 && sum / CHUNK_BASE == 0 {
                    assert(av >= 1 || bv >= 1) by {
                        if alen == max_chunk_len {
                            assert(av_seq.last() != 0);
                        } else {
                            assert(blen == max_chunk_len);
                            assert(bv_seq.last() != 0);
                        }
                    }
                    assert(low as int == sum as int);
                    assert(result@.last() == low);
                }
            }
            carry = sum / CHUNK_BASE;
            i = i + 1;
        }
        proof {
            assert(av_seq.take(min(max_chunk_len as int, alen as int)) =~= av_seq);
            assert(bv_seq.take(min(max_chunk_len as int, blen as int)) =~= bv_seq);
        }
        if carry > 0 {
            let ghost prev = result@;
            result.push(carry as u32);
            proof {
                lemma_chunks_value_push(prev, carry as u32);
                assert((carry as u32) as int * pow2(32 * prev.len()) == (carry as int) * pow2(
                    32 * prev.len(),
                ));
                assert(result@.last() == 1u32);
            }
        } else {
            proof {
                assert((0 as int) * pow2(32 * (max_chunk_len as nat)) == 0) by (nonlinear_arith);
            }
        }
        proof {
            assert(chunks_value(result@) == chunks_value(av_seq) + chunks_value(bv_seq));
            if self.negative {
                lemma_chunks_value_nonneg(av_seq);
                lemma_chunks_value_nonneg(bv_seq);
            }
        }
        BigNumber { negative: self.negative, chunks: result }
    }
}

} // verus!
