//! Free-standing unary and Rice encoders that append their code words to a
//! `BitVector`. The Rice remainder field is written most significant bit
//! first here.

use crate::bits::{exp2, lemma_msb_bits_index, lemma_msb_bits_len, msb_bits, unary_bits};
use crate::bitvector::BitVector;
use vstd::arithmetic::power2::{lemma_pow2_pos, pow2};
use vstd::prelude::*;

verus! {

/// Appends the unary encoded number to the given bitvector.
///
/// For example, the unary encoding of `3` is `1110`.
/// The unary encoding of `0` is `0`.
pub fn encode_unary(bitvector: &mut BitVector, number: u32)
    requires
        old(bitvector).wf(),
        old(bitvector)@.len() + number + 1 <= usize::MAX,
    ensures
        final(bitvector).wf(),
        final(bitvector)@ == old(bitvector)@ + unary_bits(number as nat),
{
    bitvector.pushn_toggled(number);
    bitvector.push(false);
    proof {
        assert(old(bitvector)@ + unary_bits(number as nat) =~= (old(bitvector)@ + Seq::new(
            number as nat,
            |i: int| true,
        )).push(false));
    }
}

/// Appends the rice encoded number to the given bitvector: the quotient
/// `number / 2^k` in unary, then the remainder as `k` bits, most significant
/// bit first.
pub fn encode_rice(bitvector: &mut BitVector, number: u32, k: u32)
    requires
        old(bitvector).wf(),
        k <= 31,
        old(bitvector)@.len() + (number as nat) / pow2(k as nat) + 1 + k <= usize::MAX,
    ensures
        final(bitvector).wf(),
        final(bitvector)@ == old(bitvector)@ + unary_bits((number as nat) / pow2(k as nat))
            + msb_bits((number as nat) % pow2(k as nat), k as nat),
{
    let m = exp2(k);
    proof {
        lemma_pow2_pos(k as nat);
    }
    let quotient = number / m;
    let remainder = number % m;
    encode_unary(bitvector, quotient);
    let ghost head = old(bitvector)@ + unary_bits(quotient as nat);
    let ghost rem_bits = msb_bits(remainder as nat, k as nat);
    proof {
        assert(quotient == (number as nat) / pow2(k as nat));
        assert(unary_bits(quotient as nat).len() == quotient + 1);
        lemma_msb_bits_len(remainder as nat, k as nat);
        assert(head + rem_bits.take(0) =~= head);
    }
    // Now encode the remainder using k bits.
    let mut i: u32 = 0;
    while i < k
        invariant
            bitvector.wf(),
            i <= k <= 31,
            remainder < pow2(k as nat),
            rem_bits == msb_bits(remainder as nat, k as nat),
            rem_bits.len() == k,
            head.len() + k <= usize::MAX,
            bitvector@ == head + rem_bits.take(i as int),
        decreases k - i,
    {
        let p = exp2(k - 1 - i);
        proof {
            lemma_pow2_pos((k - 1 - i) as nat);
            lemma_msb_bits_index(remainder as nat, k as nat, i as nat);
        }
        let bit = (remainder / p) % 2 == 1;
        bitvector.push(bit);
        proof {
            assert(rem_bits.take(i + 1) =~= rem_bits.take(i as int).push(rem_bits[i as int]));
            assert((head + rem_bits.take(i as int)).push(bit) =~= head + rem_bits.take(i + 1));
        }
        i = i + 1;
    }
    proof {
        assert(rem_bits.take(k as int) =~= rem_bits);
        assert(head + rem_bits =~= old(bitvector)@ + unary_bits(quotient as nat) + rem_bits);
    }
}

} // verus!
