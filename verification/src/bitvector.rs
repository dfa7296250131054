//! A growable vector of bits packed into bytes, least significant bit of each
//! byte first. Its view is the sequence of bits in insertion order.

use crate::bits::{
    byte_bit, exp2, lemma_high_bit_zero, lemma_lsb_bits_index, lemma_lsb_bits_len,
    lemma_lsb_val_push, lemma_set_bit, lsb_bits, lsb_val, read_byte_bit,
};
use vstd::arithmetic::power2::{lemma2_to64, lemma_pow2_adds, lemma_pow2_pos, pow2};
use vstd::prelude::*;
use vstd::string::StringExecFns;

verus! {

/// A data structure that supports inserting individual bits and iterating
/// over them.
pub struct BitVector {
    data: Vec<u8>,
    len: usize,
}

impl View for BitVector {
    type V = Seq<bool>;

    /// The bits in insertion order.
    closed spec fn view(&self) -> Seq<bool> {
        Seq::new(self.len as nat, |i: int| byte_bit(self.data[i / 8], (i % 8) as nat))
    }
}

impl BitVector {
    /// The bytes hold exactly the stored bits: one byte for every eight bits,
    /// and the unused high bits of a trailing partial byte are zero.
    pub closed spec fn wf(&self) -> bool {
        &&& self.data.len() == (self.len + 7) / 8
        &&& forall|j: int|
            self.len <= j < 8 * self.data.len() ==> !byte_bit(
                #[trigger] self.data[j / 8],
                (j % 8) as nat,
            )
    }

    /// Constructs a new, empty `BitVector`.
    pub fn new() -> (r: BitVector)
        ensures
            r.wf(),
            r@ =~= Seq::<bool>::empty(),
    {
        BitVector { data: Vec::new(), len: 0 }
    }

    /// Returns the number of bytes used.
    pub fn num_bytes(&self) -> (r: usize)
        requires
            self.wf(),
        ensures
            r == (self@.len() + 7) / 8,
    {
        self.data.len()
    }

    /// Returns the number of bits stored in the `BitVector`.
    pub fn len(&self) -> (r: usize)
        ensures
            r == self@.len(),
    {
        self.len
    }

    /// Returns `true` if the `BitVector` contains no bits.
    pub fn is_empty(&self) -> (r: bool)
        ensures
            r == (self@.len() == 0),
    {
        self.len == 0
    }

    /// Pushes a new bit at the end of the `BitVector`.
    pub fn push(&mut self, bit: bool)
        requires
            old(self).wf(),
            old(self)@.len() < usize::MAX,
        ensures
            final(self).wf(),
            final(self)@ =~= old(self)@.push(bit),
    {
        let ghost pre = *self;
        let bit_position: usize = self.len % 8;
        if bit_position == 0 {
            self.data.push(0);
            proof {
                lemma2_to64();
                assert forall|j: int|
                    self.len <= j < 8 * self.data.len() implies !byte_bit(
                    #[trigger] self.data[j / 8],
                    (j % 8) as nat,
                ) by {
                    if j / 8 < pre.data.len() {
                        assert(pre.data[j / 8] == self.data[j / 8]);
                    } else {
                        assert(self.data[j / 8] == 0);
                        lemma_high_bit_zero(0, 0, (j % 8) as nat);
                    }
                }
            }
        }
        proof {
            lemma_pow2_pos(bit_position as nat);
        }
        if bit {
            let last: usize = self.data.len() - 1;
            let ghost oldbyte = self.data[last as int];
            proof {
                // The bits of the last byte at and above `bit_position` are
                // zero, so the byte value is below `2^bit_position`.
                assert(8 * last <= self.len < 8 * self.data.len());
                assert forall|j: nat| bit_position <= j < 8 implies !byte_bit(oldbyte, j) by {
                    let bi = 8 * last + j;
                    assert(bi / 8 == last && bi % 8 == j);
                }
                lemma_partial_byte_bound(oldbyte, bit_position as nat);
                lemma_set_bit(oldbyte, bit_position as nat);
            }
            let add: u8 = exp2(bit_position as u32) as u8;
            let newbyte: u8 = self.data[last] + add;
            self.data[last] = newbyte;
            proof {
                assert forall|j: nat| bit_position + 1 <= j < 8 implies !byte_bit(newbyte, j) by {
                    lemma_high_bit_zero(newbyte, (bit_position + 1) as nat, j);
                }
            }
        }
        self.len = self.len + 1;
        proof {
            assert forall|j: int|
                self.len <= j < 8 * self.data.len() implies !byte_bit(
                #[trigger] self.data[j / 8],
                (j % 8) as nat,
            ) by {
                assert(j / 8 == self.data.len() - 1);
            }
            assert forall|i: int| 0 <= i < self.len implies self@[i] == old(self)@.push(bit)[i] by {
                if i < pre.len {
                    assert(i / 8 <= (pre.len as int - 1) / 8);
                } else {
                    assert(i / 8 == self.data.len() - 1);
                }
            }
        }
    }

    /// Push the last `n` significant bits of the given bitmask at the
    /// end of the bitvector, least significant bit first.
    pub fn pushn(&mut self, n: u8, bitmask: u32)
        requires
            old(self).wf(),
            n <= 32,
            old(self)@.len() + n <= usize::MAX,
        ensures
            final(self).wf(),
            final(self)@ == old(self)@ + lsb_bits(bitmask as nat, n as nat),
    {
        proof {
            lemma_lsb_bits_len(bitmask as nat, n as nat);
        }
        let mut j: u8 = 0;
        while j < n
            invariant
                self.wf(),
                j <= n <= 32,
                old(self)@.len() + n <= usize::MAX,
                self@ =~= old(self)@ + lsb_bits(bitmask as nat, n as nat).take(j as int),
                lsb_bits(bitmask as nat, n as nat).len() == n,
            decreases n - j,
        {
            let p = exp2(j as u32);
            proof {
                lemma_lsb_bits_index(bitmask as nat, n as nat, j as nat);
                lemma_pow2_pos(j as nat);
            }
            let bit = (bitmask / p) % 2 == 1;
            self.push(bit);
            proof {
                let s = lsb_bits(bitmask as nat, n as nat);
                assert(s.take(j + 1) =~= s.take(j as int).push(s[j as int]));
            }
            j = j + 1;
        }
        proof {
            let s = lsb_bits(bitmask as nat, n as nat);
            assert(s.take(n as int) =~= s);
        }
    }

    /// Appends `n` toggled bits at the end of the `BitVector`.
    pub fn pushn_toggled(&mut self, n: u32)
        requires
            old(self).wf(),
            old(self)@.len() + n <= usize::MAX,
        ensures
            final(self).wf(),
            final(self)@ == old(self)@ + Seq::new(n as nat, |i: int| true),
    {
        let mut j: u32 = 0;
        while j < n
            invariant
                self.wf(),
                j <= n,
                old(self)@.len() + n <= usize::MAX,
                self@ =~= old(self)@ + Seq::new(j as nat, |i: int| true),
            decreases n - j,
        {
            self.push(true);
            proof {
                assert(Seq::new((j + 1) as nat, |i: int| true) =~= Seq::new(
                    j as nat,
                    |i: int| true,
                ).push(true));
            }
            j = j + 1;
        }
    }

    /// Constructs a new iterator over the bits in the `BitVector`.
    pub fn iter(&self) -> (r: Iter<'_>)
        requires
            self.wf(),
        ensures
            r.wf(),
            r.bits() == self@,
            r.pos() == 0,
    {
        Iter { v: self, position: 0 }
    }

    /// The bits rendered as a string of `'0'` and `'1'` characters, in
    /// insertion order.
    pub fn to_string(&self) -> (r: String)
        requires
            self.wf(),
        ensures
            r@.len() == self@.len(),
            forall|i: int|
                0 <= i < self@.len() ==> r@[i] == (if self@[i] {
                    '1'
                } else {
                    '0'
                }),
    {
        let mut content = String::from_str("");
        proof {
            reveal_strlit("");
        }
        let mut it = self.iter();
        loop
            invariant
                it.wf(),
                it.bits() == self@,
                it.pos() <= self@.len(),
                content@.len() == it.pos(),
                forall|i: int|
                    0 <= i < it.pos() ==> content@[i] == (if self@[i] {
                        '1'
                    } else {
                        '0'
                    }),
            ensures
                it.pos() == self@.len(),
                content@.len() == it.pos(),
                forall|i: int|
                    0 <= i < it.pos() ==> content@[i] == (if self@[i] {
                        '1'
                    } else {
                        '0'
                    }),
            decreases self@.len() - it.pos(),
        {
            let bit = match it.next() {
                Some(b) => b,
                None => {
                    break ;
                },
            };
            if bit {
                content.append("1");
                proof {
                    reveal_strlit("1");
                }
            } else {
                content.append("0");
                proof {
                    reveal_strlit("0");
                }
            }
        }
        content
    }

    /// Clears the `BitVector`, removing all bits.
    pub fn clear(&mut self)
        ensures
            final(self).wf(),
            final(self)@ =~= Seq::<bool>::empty(),
    {
        self.data.clear();
        self.len = 0;
    }

    /// Returns the underlying raw buffer: bit `i` of the vector is bit
    /// `i % 8` (counted from the least significant end) of byte `i / 8`,
    /// and the unused high bits of a trailing partial byte are zero.
    pub fn as_raw_bytes(&self) -> (r: &Vec<u8>)
        requires
            self.wf(),
        ensures
            r@.len() == (self@.len() + 7) / 8,
            forall|i: int| 0 <= i < self@.len() ==> self@[i] == byte_bit(#[trigger] r@[i / 8], (i % 8) as nat),
            forall|j: int|
                self@.len() <= j < 8 * r@.len() ==> !byte_bit(#[trigger] r@[j / 8], (j % 8) as nat),
    {
        &self.data
    }

    /// Returns the underlying raw buffer; see `as_raw_bytes`.
    pub fn into_raw_bytes(self) -> (r: Vec<u8>)
        requires
            self.wf(),
        ensures
            r@.len() == (self@.len() + 7) / 8,
            forall|i: int| 0 <= i < self@.len() ==> self@[i] == byte_bit(#[trigger] r@[i / 8], (i % 8) as nat),
            forall|j: int|
                self@.len() <= j < 8 * r@.len() ==> !byte_bit(#[trigger] r@[j / 8], (j % 8) as nat),
    {
        self.data
    }
}

/// A byte whose bits at and above `pos` are all zero is below `2^pos`.
proof fn lemma_partial_byte_bound(b: u8, pos: nat)
    requires
        pos < 8,
        forall|j: nat| pos <= j < 8 ==> !byte_bit(b, j),
    ensures
        (b as nat) < pow2(pos),
{
    let s = lsb_bits(b as nat, 8);
    lemma_lsb_bits_len(b as nat, 8);
    assert forall|j: int| pos <= j < s.len() implies !s[j] by {
        lemma_lsb_bits_index(b as nat, 8, j as nat);
        assert(!byte_bit(b, j as nat));
    }
    // Bits at and above `pos` are clear, so the value is below `2^pos`.
    lemma_lsb_val_bound_by_high_zeros(s, pos);
    lemma_lsb_val_of_bits_u8(b);
}

/// The value of an 8-bit little-endian field with zeros at and above `pos`
/// is below `2^pos`.
proof fn lemma_lsb_val_bound_by_high_zeros(s: Seq<bool>, pos: nat)
    requires
        pos <= s.len(),
        forall|j: int| pos <= j < s.len() ==> !s[j],
    ensures
        lsb_val(s) < pow2(pos),
    decreases s.len(),
{
    if s.len() == 0 {
        lemma2_to64();
        lemma_pow2_pos(pos);
    } else if pos == 0 {
        assert(!s[0]);
        lemma_lsb_val_bound_by_high_zeros(s.skip(1), 0);
        lemma2_to64();
    } else {
        lemma_lsb_val_bound_by_high_zeros(s.skip(1), (pos - 1) as nat);
        vstd::arithmetic::power2::lemma_pow2_unfold(pos);
    }
}

/// A byte equals the value of its own 8 little-endian bits.
proof fn lemma_lsb_val_of_bits_u8(b: u8)
    ensures
        lsb_val(lsb_bits(b as nat, 8)) == b,
{
    lemma2_to64();
    crate::bits::lemma_lsb_val_of_bits(b as nat, 8);
}

/// A well-formed iterator never sits past the end of its bits, and the bits
/// of any `BitVector` fit the machine's address space.
pub proof fn lemma_iter_bounds(it: &Iter)
    requires
        it.wf(),
    ensures
        it.pos() <= it.bits().len(),
        it.bits().len() <= usize::MAX,
{
}

/// Iterator over the `BitVector`.
pub struct Iter<'a> {
    v: &'a BitVector,
    position: usize,
}

impl<'a> Iter<'a> {
    /// The underlying bits being iterated over.
    pub closed spec fn bits(&self) -> Seq<bool> {
        self.v@
    }

    /// The position of the next bit to be read.
    pub closed spec fn pos(&self) -> nat {
        self.position as nat
    }

    pub closed spec fn wf(&self) -> bool {
        &&& self.v.wf()
        &&& self.position <= self.v@.len()
    }

    /// Returns the next bit in the `BitVector`, or `None` if the iterator
    /// reached the end of the `BitVector`. Also advances the iterator by
    /// a bit.
    pub fn next(&mut self) -> (r: Option<bool>)
        requires
            old(self).wf(),
        ensures
            final(self).wf(),
            final(self).bits() == old(self).bits(),
            old(self).pos() < old(self).bits().len() ==> {
                &&& r == Some(old(self).bits()[old(self).pos() as int])
                &&& final(self).pos() == old(self).pos() + 1
            },
            old(self).pos() >= old(self).bits().len() ==> {
                &&& r is None
                &&& final(self).pos() == old(self).pos()
            },
    {
        if self.position >= self.v.len {
            return None;
        }
        let byte: usize = self.position / 8;
        let bit_position: usize = self.position % 8;
        let b = self.v.data[byte];
        let bit = read_byte_bit(b, bit_position as u32);
        self.position = self.position + 1;
        Some(bit)
    }

    /// If there are at least `n` bits left to iterate on, reads the next `n`
    /// bits in the bitvector, least significant bit first, and returns a
    /// bitmask containing the `n` bits, while advancing the iterator by `n`
    /// positions. Otherwise, returns `None`.
    pub fn nextn(&mut self, n: u8) -> (r: Option<u32>)
        requires
            old(self).wf(),
            n <= 32,
        ensures
            final(self).wf(),
            final(self).bits() == old(self).bits(),
            n == 0 ==> r == Some(0u32) && final(self).pos() == old(self).pos(),
            n > 0 && old(self).pos() + n > old(self).bits().len() ==> {
                &&& r is None
                &&& final(self).pos() == old(self).pos()
            },
            n > 0 && old(self).pos() + n <= old(self).bits().len() ==> {
                &&& r == Some(
                    lsb_val(
                        old(self).bits().subrange(
                            old(self).pos() as int,
                            old(self).pos() + n as int,
                        ),
                    ) as u32,
                )
                &&& final(self).pos() == old(self).pos() + n
            },
    {
        if n == 0 {
            return Some(0);
        }
        if self.v.len - self.position < n as usize {
            return None;
        }
        let ghost s = old(self).bits().subrange(old(self).pos() as int, old(self).pos() + n as int);
        proof {
            lemma2_to64();
            assert(s.take(0) =~= Seq::<bool>::empty());
        }
        let mut result: u32 = 0;
        let mut j: u8 = 0;
        while j < n
            invariant
                self.wf(),
                self.bits() == old(self).bits(),
                j <= n <= 32,
                old(self).pos() + n <= self.bits().len(),
                self.pos() == old(self).pos() + j,
                s == self.bits().subrange(old(self).pos() as int, old(self).pos() + n as int),
                result == lsb_val(s.take(j as int)),
                result < pow2(j as nat),
            decreases n - j,
        {
            let byte: usize = self.position / 8;
            let bit_position: usize = self.position % 8;
            let b = self.v.data[byte];
            let bit = read_byte_bit(b, bit_position as u32);
            proof {
                assert(bit == s[j as int]);
                lemma_lsb_val_push(s.take(j as int), bit);
                assert(s.take(j + 1) =~= s.take(j as int).push(bit));
                lemma_pow2_adds(j as nat, 1);
                lemma2_to64();
            }
            let p = exp2(j as u32);
            if bit {
                result = result + p;
            }
            self.position = self.position + 1;
            j = j + 1;
        }
        proof {
            assert(s.take(n as int) =~= s);
        }
        Some(result)
    }
}

/// Returns an `u8` bitmask masking bits in the range `start..=end`.
pub fn bitmask_segment(start: u8, end: u8) -> (r: u8)
    requires
        start <= end < 8,
    ensures
        r == (pow2((end - start + 1) as nat) - 1) * pow2(start as nat),
{
    proof {
        lemma2_to64();
        lemma_pow2_adds((end - start + 1) as nat, start as nat);
        lemma_pow2_pos((end - start + 1) as nat);
        lemma_pow2_pos(start as nat);
        vstd::arithmetic::mul::lemma_mul_strict_inequality(
            (pow2((end - start + 1) as nat) - 1) as int,
            (pow2((end - start + 1) as nat)) as int,
            pow2(start as nat) as int,
        );
        if end + 1 < 8 {
            vstd::arithmetic::power2::lemma_pow2_strictly_increases((end + 1) as nat, 8);
        }
    }
    let segment_length: u32 = (end - start + 1) as u32;
    let mask: u32 = exp2(segment_length) - 1;
    let r: u32 = mask * exp2(start as u32);
    r as u8
}

} // verus!
