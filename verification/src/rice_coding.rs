//! Rice (Golomb power-of-two) coding: a nonnegative integer `n` is written
//! as the unary quotient `n / 2^k` followed by the `k`-bit remainder.

use crate::bitio::{BitReader, BitSink};
use crate::bits::{
    exp2, lemma_lsb_bits_len, lemma_lsb_bits_of_val, lemma_lsb_val_of_bits, lemma_msb_bits_len,
    lemma_msb_bits_of_val, lemma_msb_val_of_bits, lsb_bits, lsb_val, msb_bits, msb_val, unary_bits,
};
use crate::bitvector::{lemma_iter_bounds, BitVector, Iter};
use crate::error::DecompressionError;
use vstd::arithmetic::div_mod::{lemma_fundamental_div_mod, lemma_mod_bound};
use vstd::arithmetic::power2::{lemma_pow2_pos, pow2};
use vstd::prelude::*;

verus! {

/// The exact bit length of the Rice code of `n` with parameter `k`:
/// `n / 2^k` one bits, the closing zero bit, and `k` remainder bits.
pub open spec fn rice_len(n: nat, k: nat) -> nat {
    n / pow2(k) + 1 + k
}

/// The Rice code word of `n` with parameter `k`, with the remainder written
/// least significant bit first.
pub open spec fn rice_bits_lsb(n: nat, k: nat) -> Seq<bool> {
    unary_bits(n / pow2(k)) + lsb_bits(n % pow2(k), k)
}

/// The Rice code word of `n` with parameter `k`, with the remainder written
/// most significant bit first. This is the codec's wire order.
pub open spec fn rice_bits(n: nat, k: nat) -> Seq<bool> {
    unary_bits(n / pow2(k)) + msb_bits(n % pow2(k), k)
}

/// The number of one bits before the first zero bit at or after `pos`, or
/// `None` when no zero bit follows.
pub open spec fn unary_scan(s: Seq<bool>, pos: nat) -> Option<nat>
    decreases s.len() - pos,
    when pos <= s.len()
{
    if pos >= s.len() {
        None
    } else if !s[pos as int] {
        Some(0)
    } else {
        match unary_scan(s, pos + 1) {
            None => None,
            Some(q) => Some(q + 1),
        }
    }
}

/// What decoding a Rice code word at position `pos` of a bit stream yields:
/// the decoded value and the position just past the code word, or `None` on
/// a truncated stream or a value that does not fit 32 bits. The remainder
/// field is read least significant bit first.
pub open spec fn rice_decode_lsb_spec(s: Seq<bool>, pos: nat, k: nat) -> Option<(u32, nat)> {
    match unary_scan(s, pos) {
        None => None,
        Some(q) => {
            let after = pos + q + 1;
            if after + k > s.len() {
                None
            } else {
                let rem = lsb_val(s.subrange(after as int, after + k as int));
                if q * pow2(k) + rem > u32::MAX {
                    None
                } else {
                    Some(((q * pow2(k) + rem) as u32, (after + k) as nat))
                }
            }
        },
    }
}

/// What decoding a Rice code word at position `pos` of a bit stream yields:
/// the decoded value and the position just past the code word, or the error.
/// The stream is `Truncated` when it ends inside the code word; the value
/// overflows when the quotient and remainder do not fit 32 bits. The
/// remainder field is read most significant bit first.
pub open spec fn rice_decode_spec(s: Seq<bool>, pos: nat, k: nat) -> Result<
    (u32, nat),
    DecompressionError,
> {
    match unary_scan(s, pos) {
        None => Err(DecompressionError::Truncated),
        Some(q) => {
            let after = pos + q + 1;
            if after + k > s.len() {
                Err(DecompressionError::Truncated)
            } else {
                let rem = msb_val(s.subrange(after as int, after + k as int));
                if q * pow2(k) + rem > u32::MAX {
                    Err(DecompressionError::ValueOverflow)
                } else {
                    Ok(((q * pow2(k) + rem) as u32, (after + k) as nat))
                }
            }
        },
    }
}

/// A struct that is used to encode numbers using rice coding.
pub struct RiceCoder {
    k: u8,
    m: u32,
    mask_first_k: u32,
}

impl RiceCoder {
    /// The parameter `k`: code words carry `k` remainder bits.
    pub closed spec fn spec_k(&self) -> nat {
        self.k as nat
    }

    /// The divisor is `2^k` and the mask selects the low `k` bits.
    pub closed spec fn wf(&self) -> bool {
        &&& self.k <= 31
        &&& self.m == pow2(self.k as nat)
        &&& self.mask_first_k == self.m - 1
    }

    /// Creates a new RiceCoder for m = 2^k.
    pub fn new(k: u8) -> (r: RiceCoder)
        requires
            k <= 31,
        ensures
            r.wf(),
            r.spec_k() == k,
    {
        let m = exp2(k as u32);
        proof {
            lemma_pow2_pos(k as nat);
        }
        let mask_first_k = m - 1;
        RiceCoder { k, m, mask_first_k }
    }

    /// Appends the rice encoded number to the given bitvector: the unary
    /// quotient, then the remainder least significant bit first.
    pub fn encode_rice(&self, bitvector: &mut BitVector, number: u32)
        requires
            self.wf(),
            old(bitvector).wf(),
            old(bitvector)@.len() + rice_len(number as nat, self.spec_k()) <= usize::MAX,
        ensures
            final(bitvector).wf(),
            final(bitvector)@ == old(bitvector)@ + rice_bits_lsb(number as nat, self.spec_k()),
    {
        proof {
            lemma_pow2_pos(self.k as nat);
        }
        let quotient = number / self.m;
        let remainder = number % self.m;

        // Encode the quotient in unary.
        bitvector.pushn_toggled(quotient);
        bitvector.push(false);

        // Now encode the remainder using k bits.
        bitvector.pushn(self.k, remainder);
        proof {
            assert(final(bitvector)@ =~= old(bitvector)@ + rice_bits_lsb(
                number as nat,
                self.spec_k(),
            ));
        }
    }

    /// Decodes an encoded rice number by advancing the `BitVector` iterator.
    ///
    /// Returns `None` if the decoding process failed, caused by a truncated
    /// input or by a decoded value that does not fit 32 bits.
    pub fn decode_rice(&self, iter: &mut Iter) -> (r: Option<u32>)
        requires
            self.wf(),
            old(iter).wf(),
        ensures
            final(iter).wf(),
            final(iter).bits() == old(iter).bits(),
            match rice_decode_lsb_spec(old(iter).bits(), old(iter).pos(), self.spec_k()) {
                Some((v, p)) => r == Some(v) && final(iter).pos() == p,
                None => r is None,
            },
    {
        let ghost s = old(iter).bits();
        let ghost p0 = old(iter).pos();
        proof {
            lemma_iter_bounds(iter);
        }
        let mut quotient: u64 = 0;
        // Loop to decode the unary quotient.
        loop
            invariant_except_break
                p0 + quotient == iter.pos(),
                quotient <= s.len(),
                forall|j: int| p0 <= j < iter.pos() ==> s[j],
            invariant
                self.wf(),
                iter.wf(),
                iter.bits() == s,
                s == old(iter).bits(),
                p0 == old(iter).pos(),
                iter.pos() <= s.len(),
                s.len() <= usize::MAX,
            ensures
                iter.wf(),
                iter.bits() == s,
                match unary_scan(s, p0) {
                    Some(q) => quotient == q && iter.pos() == p0 + q + 1,
                    None => false,
                },
            decreases s.len() - iter.pos(),
        {
            let ghost posl = iter.pos();
            let bit = match iter.next() {
                Some(b) => b,
                None => {
                    proof {
                        assert(iter.pos() == s.len());
                        lemma_unary_scan_none(s, p0, iter.pos());
                    }
                    return None;
                },
            };
            if !bit {
                proof {
                    lemma_unary_scan_prefix(s, p0, posl);
                }
                break ;
            }
            proof {
                assert(posl < s.len());
            }
            quotient = quotient + 1;
        }

        let remainder: u32 = match iter.nextn(self.k) {
            Some(r) => r,
            None => {
                return None;
            },
        };
        let ghost after = iter.pos();
        proof {
            if self.k > 0 {
                lemma_lsb_bits_of_val(
                    s.subrange(p0 + quotient + 1, p0 + quotient + 1 + self.spec_k()),
                );
                vstd::arithmetic::power2::lemma_pow2_strictly_increases(self.spec_k(), 32);
                vstd::arithmetic::power2::lemma2_to64();
            } else {
                assert(s.subrange(after as int, after as int) =~= Seq::<bool>::empty());
            }
            assert(remainder == lsb_val(
                s.subrange(p0 + quotient + 1, p0 + quotient + 1 + self.spec_k()),
            ));
        }

        // Reject values that do not fit 32 bits instead of wrapping.
        let qmax: u64 = (u32::MAX as u64) / (self.m as u64);
        proof {
            lemma_fundamental_div_mod(u32::MAX as int, self.m as int);
            lemma_mod_bound(u32::MAX as int, self.m as int);
        }
        if quotient > qmax {
            proof {
                let mi = self.m as int;
                let qi = quotient as int;
                let qm = qmax as int;
                let rr = u32::MAX as int % mi;
                lemma_pow2_pos(self.spec_k());
                lemma_fundamental_div_mod(u32::MAX as int, mi);
                lemma_mod_bound(u32::MAX as int, mi);
                assert(qi * mi > u32::MAX) by (nonlinear_arith)
                    requires
                        qi >= qm + 1,
                        mi > 0,
                        u32::MAX as int == mi * qm + rr,
                        0 <= rr < mi,
                ;
                assert((quotient as nat) * pow2(self.spec_k()) > u32::MAX);
            }
            return None;
        }
        proof {
            vstd::arithmetic::mul::lemma_mul_inequality(
                quotient as int,
                qmax as int,
                self.m as int,
            );
            assert((self.m as int) * (qmax as int) + (u32::MAX as int) % (self.m as int)
                == u32::MAX);
            vstd::arithmetic::mul::lemma_mul_is_commutative(self.m as int, qmax as int);
            assert((quotient as int) * (self.m as int) <= u32::MAX);
        }
        let value: u64 = quotient * (self.m as u64) + (remainder as u64);
        if value > u32::MAX as u64 {
            return None;
        }
        Some(value as u32)
    }

    /// Writes the rice encoded number to the given sink: the unary quotient,
    /// then the remainder as one `k`-bit field in the sink's field order.
    pub fn encode<T: BitSink>(&self, bitwrite: &mut T, number: u32)
        requires
            self.wf(),
            old(bitwrite).bits().len() + rice_len(number as nat, self.spec_k()) <= usize::MAX,
        ensures
            final(bitwrite).bits() == old(bitwrite).bits() + unary_bits(
                (number as nat) / pow2(self.spec_k()),
            ) + T::field(self.spec_k() as u32, ((number as nat) % pow2(self.spec_k())) as u32),
    {
        proof {
            lemma_pow2_pos(self.k as nat);
            crate::bits::lemma_unary_bits_len((number as nat) / pow2(self.spec_k()));
        }
        let quotient = number / self.m;
        let remainder = number % self.m;

        // Encode the quotient in unary.
        bitwrite.write_unary(quotient);
        // Now encode the remainder using k bits.
        bitwrite.write(self.k as u32, remainder);
    }

    /// Decodes an encoded rice number by reading from the provided reader.
    /// Fails with `Truncated` when the stream ends inside the code word and
    /// with `ValueOverflow` when the decoded value does not fit 32 bits.
    pub fn decode(&self, bitread: &mut BitReader) -> (r: Result<u32, DecompressionError>)
        requires
            self.wf(),
            old(bitread).wf(),
        ensures
            final(bitread).wf(),
            final(bitread).bits() == old(bitread).bits(),
            match rice_decode_spec(old(bitread).bits(), old(bitread).pos(), self.spec_k()) {
                Ok((v, p)) => r == Ok::<u32, DecompressionError>(v) && final(bitread).pos() == p,
                Err(e) => r == Err::<u32, DecompressionError>(e),
            },
    {
        let ghost s = old(bitread).bits();
        let ghost p0 = old(bitread).pos();
        proof {
            bitread.lemma_bounds();
        }
        let quotient: u64 = match bitread.read_unary() {
            Some(q) => q,
            None => {
                return Err(DecompressionError::Truncated);
            },
        };
        let remainder: u32 = match bitread.read(self.k as u32) {
            Some(r) => r,
            None => {
                return Err(DecompressionError::Truncated);
            },
        };
        let ghost after = bitread.pos();
        proof {
            if self.k > 0 {
                lemma_msb_bits_of_val(
                    s.subrange(p0 + quotient + 1, p0 + quotient + 1 + self.spec_k()),
                );
                vstd::arithmetic::power2::lemma_pow2_strictly_increases(self.spec_k(), 32);
                vstd::arithmetic::power2::lemma2_to64();
            } else {
                assert(s.subrange(after as int, after as int) =~= Seq::<bool>::empty());
            }
            assert(remainder == msb_val(
                s.subrange(p0 + quotient + 1, p0 + quotient + 1 + self.spec_k()),
            ));
        }

        // Reject values that do not fit 32 bits instead of wrapping.
        let qmax: u64 = (u32::MAX as u64) / (self.m as u64);
        proof {
            lemma_fundamental_div_mod(u32::MAX as int, self.m as int);
            lemma_mod_bound(u32::MAX as int, self.m as int);
        }
        if quotient > qmax {
            proof {
                let mi = self.m as int;
                let qi = quotient as int;
                let qm = qmax as int;
                let rr = u32::MAX as int % mi;
                lemma_pow2_pos(self.spec_k());
                assert(qi * mi > u32::MAX) by (nonlinear_arith)
                    requires
                        qi >= qm + 1,
                        mi > 0,
                        u32::MAX as int == mi * qm + rr,
                        0 <= rr < mi,
                ;
                assert((quotient as nat) * pow2(self.spec_k()) > u32::MAX);
            }
            return Err(DecompressionError::ValueOverflow);
        }
        proof {
            vstd::arithmetic::mul::lemma_mul_inequality(
                quotient as int,
                qmax as int,
                self.m as int,
            );
            assert((self.m as int) * (qmax as int) + (u32::MAX as int) % (self.m as int)
                == u32::MAX);
            vstd::arithmetic::mul::lemma_mul_is_commutative(self.m as int, qmax as int);
            assert((quotient as int) * (self.m as int) <= u32::MAX);
        }
        let value: u64 = quotient * (self.m as u64) + (remainder as u64);
        if value > u32::MAX as u64 {
            return Err(DecompressionError::ValueOverflow);
        }
        Ok(value as u32)
    }

    /// Returns the length of the rice code of the given number.
    /// The method doesn't actually encode the number to count the bitsize,
    /// so it's fast.
    pub fn code_length(&self, number: u32) -> (r: u32)
        requires
            self.wf(),
            rice_len(number as nat, self.spec_k()) <= u32::MAX,
        ensures
            r == rice_len(number as nat, self.spec_k()),
    {
        proof {
            lemma_pow2_pos(self.k as nat);
        }
        (number / self.m) + 1 + (self.k as u32)
    }
}

/// The Rice code word is exactly as long as `code_length` reports.
pub proof fn lemma_rice_lsb_code_length(n: nat, k: nat)
    ensures
        rice_bits_lsb(n, k).len() == rice_len(n, k),
{
    lemma_lsb_bits_len(n % pow2(k), k);
    crate::bits::lemma_unary_bits_len(n / pow2(k));
}

/// A stream that runs out before a zero bit appears scans to `None`.
pub proof fn lemma_unary_scan_none(s: Seq<bool>, p0: nat, p: nat)
    requires
        p0 <= p == s.len(),
        forall|j: int| p0 <= j < p ==> s[j],
    ensures
        unary_scan(s, p0) is None,
    decreases p - p0,
{
    if p0 < p {
        lemma_unary_scan_none(s, p0 + 1, p);
    }
}

/// Scanning from `p0` over one bits up to a zero bit at `p` yields `p - p0`.
pub proof fn lemma_unary_scan_prefix(s: Seq<bool>, p0: nat, p: nat)
    requires
        p0 <= p < s.len(),
        forall|j: int| p0 <= j < p ==> s[j],
        !s[p as int],
    ensures
        unary_scan(s, p0) == Some((p - p0) as nat),
    decreases p - p0,
{
    if p0 < p {
        lemma_unary_scan_prefix(s, p0 + 1, p);
    }
}

/// The wire-order Rice code word is exactly as long as `code_length` reports.
pub proof fn lemma_rice_code_length(n: nat, k: nat)
    ensures
        rice_bits(n, k).len() == rice_len(n, k),
{
    lemma_msb_bits_len(n % pow2(k), k);
    crate::bits::lemma_unary_bits_len(n / pow2(k));
}

/// Decoding a wire-order Rice code word embedded in any surrounding stream
/// recovers exactly the encoded number and stops just past the code word.
pub proof fn lemma_rice_round_trip(prefix: Seq<bool>, n: u32, k: nat, suffix: Seq<bool>)
    ensures
        rice_decode_spec(prefix + rice_bits(n as nat, k) + suffix, prefix.len(), k) == Ok::<
            (u32, nat),
            DecompressionError,
        >((n, (prefix.len() + rice_len(n as nat, k)) as nat)),
{
    lemma_pow2_pos(k);
    let q = (n as nat) / pow2(k);
    let rem = (n as nat) % pow2(k);
    lemma_mod_bound(n as int, pow2(k) as int);
    let s = prefix + rice_bits(n as nat, k) + suffix;
    let p0 = prefix.len();
    lemma_msb_bits_len(rem, k);
    crate::bits::lemma_unary_bits_len(q);
    assert(rice_bits(n as nat, k).len() == q + 1 + k);
    assert forall|j: int| p0 <= j < p0 + q implies s[j] by {
        assert(s[j] == unary_bits(q)[j - p0]);
    }
    assert(!s[p0 + q as int]) by {
        assert(s[p0 + q as int] == unary_bits(q)[q as int]);
    }
    lemma_unary_scan_prefix(s, p0 as nat, (p0 + q) as nat);
    let after = p0 + q + 1;
    assert(s.subrange(after as int, after + k as int) =~= msb_bits(rem, k));
    lemma_msb_val_of_bits(rem, k);
    lemma_fundamental_div_mod(n as int, pow2(k) as int);
    assert(q * pow2(k) + rem == n);
}

/// Decoding a Rice code word embedded in any surrounding stream recovers
/// exactly the encoded number and stops just past the code word.
pub proof fn lemma_rice_lsb_round_trip(prefix: Seq<bool>, n: u32, k: nat, suffix: Seq<bool>)
    ensures
        rice_decode_lsb_spec(
            prefix + rice_bits_lsb(n as nat, k) + suffix,
            prefix.len(),
            k,
        ) == Some((n, (prefix.len() + rice_len(n as nat, k)) as nat)),
{
    lemma_pow2_pos(k);
    let q = (n as nat) / pow2(k);
    let rem = (n as nat) % pow2(k);
    lemma_mod_bound(n as int, pow2(k) as int);
    let s = prefix + rice_bits_lsb(n as nat, k) + suffix;
    let p0 = prefix.len();
    lemma_lsb_bits_len(rem, k);
    assert(rice_bits_lsb(n as nat, k).len() == q + 1 + k);
    assert forall|j: int| p0 <= j < p0 + q implies s[j] by {
        assert(s[j] == unary_bits(q)[j - p0]);
    }
    assert(!s[p0 + q as int]) by {
        assert(s[p0 + q as int] == unary_bits(q)[q as int]);
    }
    lemma_unary_scan_prefix(s, p0 as nat, (p0 + q) as nat);
    let after = p0 + q + 1;
    assert(s.subrange(after as int, after + k as int) =~= lsb_bits(rem, k));
    lemma_lsb_val_of_bits(rem, k);
    lemma_fundamental_div_mod(n as int, pow2(k) as int);
    assert(q * pow2(k) + rem == n);
}

} // verus!
