//! Bit-level output and input over in-memory buffers. `BitWriter` records
//! bits most significant bit first within each byte, which is the codec's
//! wire order; `BitReader` mirrors it. `BitWriterMock` logs bits to a string
//! for inspection in tests, writing multi-bit fields least significant bit
//! first.

use crate::bits::{
    byte_bit, exp2, lemma_lsb_bits_index, lemma_lsb_bits_len, lemma_msb_bits_index,
    lemma_msb_bits_len, lemma_msb_bits_of_val, lemma_msb_val_push, lsb_bits, msb_bits, msb_val,
    read_byte_bit, unary_bits,
};
use vstd::arithmetic::power2::{lemma2_to64, lemma_pow2_pos, pow2};
use vstd::prelude::*;
use vstd::string::StringExecFns;

verus! {

/// A sink of bits. Each implementation fixes, through `field`, the order in
/// which it records the bits of a multi-bit integer field.
pub trait BitSink {
    /// The bits recorded so far, in the order they were written.
    spec fn bits(&self) -> Seq<bool>;

    /// The bit pattern this sink records for an `n`-bit field holding `value`.
    spec fn field(n: u32, value: u32) -> Seq<bool>;

    /// A field of `n` bits is `n` bits long.
    proof fn lemma_field_len(n: u32, value: u32)
        requires
            n <= 32,
        ensures
            Self::field(n, value).len() == n,
    ;

    /// Records a single bit.
    fn write_bit(&mut self, bit: bool)
        requires
            old(self).bits().len() < usize::MAX,
        ensures
            final(self).bits() == old(self).bits().push(bit),
    ;

    /// Records the low `n` bits of `value` as one field.
    fn write(&mut self, n: u32, value: u32)
        requires
            n <= 32,
            value < pow2(n as nat),
            old(self).bits().len() + n <= usize::MAX,
        ensures
            final(self).bits() == old(self).bits() + Self::field(n, value),
    ;

    /// Records `value` one bits followed by a single zero bit.
    fn write_unary(&mut self, value: u32)
        requires
            old(self).bits().len() + value + 1 <= usize::MAX,
        ensures
            final(self).bits() == old(self).bits() + unary_bits(value as nat),
    ;
}

/// The number of zero bits that pad a stream of `n` bits to a byte boundary.
pub open spec fn pad_len(n: nat) -> nat {
    ((8 - n % 8) % 8) as nat
}

/// A bit stream packed into bytes, most significant bit of each byte first.
pub open spec fn pack_msb(s: Seq<bool>) -> Seq<u8> {
    Seq::new(s.len() / 8, |i: int| msb_val(s.subrange(8 * i, 8 * i + 8)) as u8)
}

/// The bits of a byte sequence, most significant bit of each byte first.
pub open spec fn bytes_to_bits(bs: Seq<u8>) -> Seq<bool> {
    Seq::new(8 * bs.len(), |i: int| byte_bit(bs[i / 8], (7 - i % 8) as nat))
}

/// Packing a byte-aligned bit stream and reading the bytes back as bits is
/// the identity.
pub proof fn lemma_pack_unpack(s: Seq<bool>)
    requires
        s.len() % 8 == 0,
    ensures
        bytes_to_bits(pack_msb(s)) == s,
{
    let bs = pack_msb(s);
    assert(8 * (s.len() / 8) == s.len());
    assert forall|i: int| 0 <= i < s.len() implies bytes_to_bits(bs)[i] == s[i] by {
        let bi = i / 8;
        let j = i % 8;
        let chunk = s.subrange(8 * bi, 8 * bi + 8);
        lemma_msb_bits_of_val(chunk);
        lemma2_to64();
        let v = msb_val(chunk);
        assert(bs[bi] == v as u8);
        lemma_msb_bits_index(v, 8, j as nat);
        assert(msb_bits(v, 8)[j] == (v / pow2((7 - j) as nat) % 2 == 1));
        assert(chunk[j] == s[i]);
    }
    assert(bytes_to_bits(bs) =~= s);
}

/// Writes bits into a growing buffer, most significant bit of each multi-bit
/// field first.
pub struct BitWriter {
    bits: Vec<bool>,
}

impl BitSink for BitWriter {
    /// The bits recorded so far.
    closed spec fn bits(&self) -> Seq<bool> {
        self.bits@
    }

    /// Fields are written most significant bit first.
    open spec fn field(n: u32, value: u32) -> Seq<bool> {
        msb_bits(value as nat, n as nat)
    }

    proof fn lemma_field_len(n: u32, value: u32) {
        lemma_msb_bits_len(value as nat, n as nat);
    }

    fn write_bit(&mut self, bit: bool) {
        self.bits.push(bit);
    }

    fn write(&mut self, n: u32, value: u32) {
        let ghost fld = msb_bits(value as nat, n as nat);
        proof {
            lemma_msb_bits_len(value as nat, n as nat);
            assert(old(self).bits() + fld.take(0) =~= old(self).bits());
        }
        let mut i: u32 = 0;
        while i < n
            invariant
                i <= n <= 32,
                fld == msb_bits(value as nat, n as nat),
                fld.len() == n,
                old(self).bits().len() + n <= usize::MAX,
                self.bits@ == old(self).bits() + fld.take(i as int),
            decreases n - i,
        {
            let p = exp2(n - 1 - i);
            proof {
                lemma_pow2_pos((n - 1 - i) as nat);
                lemma_msb_bits_index(value as nat, n as nat, i as nat);
            }
            let bit = (value / p) % 2 == 1;
            self.bits.push(bit);
            proof {
                assert(fld.take(i + 1) =~= fld.take(i as int).push(fld[i as int]));
                assert(old(self).bits() + fld.take(i + 1) =~= (old(self).bits() + fld.take(
                    i as int,
                )).push(bit));
            }
            i = i + 1;
        }
        proof {
            assert(fld.take(n as int) =~= fld);
        }
    }

    fn write_unary(&mut self, value: u32) {
        let mut i: u32 = 0;
        while i < value
            invariant
                i <= value,
                old(self).bits().len() + value + 1 <= usize::MAX,
                self.bits@ == old(self).bits() + Seq::new(i as nat, |j: int| true),
            decreases value - i,
        {
            self.bits.push(true);
            proof {
                assert(Seq::new((i + 1) as nat, |j: int| true) =~= Seq::new(
                    i as nat,
                    |j: int| true,
                ).push(true));
                assert(old(self).bits() + Seq::new((i + 1) as nat, |j: int| true) =~= (old(
                    self,
                ).bits() + Seq::new(i as nat, |j: int| true)).push(true));
            }
            i = i + 1;
        }
        self.bits.push(false);
        proof {
            assert(old(self).bits() + unary_bits(value as nat) =~= (old(self).bits() + Seq::new(
                value as nat,
                |j: int| true,
            )).push(false));
        }
    }
}

impl BitWriter {
    /// Constructs an empty writer.
    pub fn new() -> (r: BitWriter)
        ensures
            r.bits() =~= Seq::<bool>::empty(),
    {
        BitWriter { bits: Vec::new() }
    }

    /// The number of bits written so far.
    pub fn len(&self) -> (r: usize)
        ensures
            r == self.bits().len(),
    {
        self.bits.len()
    }

    /// Records a 32-bit signed value as its two's complement bit pattern,
    /// most significant bit first.
    pub fn write_signed(&mut self, value: i32)
        requires
            old(self).bits().len() + 32 <= usize::MAX,
        ensures
            final(self).bits() == old(self).bits() + msb_bits((value as u32) as nat, 32),
    {
        let unsigned = value as u32;
        proof {
            lemma2_to64();
        }
        self.write(32, unsigned);
    }

    /// Pads the stream with zero bits up to the next byte boundary.
    pub fn byte_align(&mut self)
        requires
            old(self).bits().len() + 7 <= usize::MAX,
        ensures
            final(self).bits() == old(self).bits() + Seq::new(
                pad_len(old(self).bits().len()),
                |j: int| false,
            ),
            final(self).bits().len() % 8 == 0,
    {
        let ghost pad = pad_len(old(self).bits().len());
        let ghost base = old(self).bits().len();
        proof {
            assert((base + pad) % 8 == 0);
            assert(old(self).bits() + Seq::new(0nat, |j: int| false) =~= old(self).bits());
        }
        let mut i: usize = 0;
        while self.bits.len() % 8 != 0
            invariant
                i <= pad,
                pad == pad_len(base),
                base == old(self).bits().len(),
                base + 7 <= usize::MAX,
                (base + pad) % 8 == 0,
                self.bits@ == old(self).bits() + Seq::new(i as nat, |j: int| false),
            decreases pad - i,
        {
            proof {
                assert(self.bits@.len() == base + i);
                assert(i < pad) by {
                    if i == pad {
                        assert((base + i) % 8 == 0);
                    }
                }
            }
            self.bits.push(false);
            proof {
                assert(Seq::new((i + 1) as nat, |j: int| false) =~= Seq::new(
                    i as nat,
                    |j: int| false,
                ).push(false));
                assert(old(self).bits() + Seq::new((i + 1) as nat, |j: int| false) =~= (old(
                    self,
                ).bits() + Seq::new(i as nat, |j: int| false)).push(false));
            }
            i = i + 1;
        }
        proof {
            assert(self.bits@.len() == base + i);
            assert(self.bits@.len() % 8 == 0);
            assert(i == pad) by {
                if i < pad {
                    assert((base + i) % 8 == 0);
                    assert((base + pad) % 8 == 0);
                    assert(pad - i < 8);
                    vstd::arithmetic::div_mod::lemma_mod_adds(
                        base as int + i,
                        pad as int - i,
                        8,
                    );
                }
            }
        }
    }

    /// Packs the byte-aligned stream into bytes, most significant bit of
    /// each byte first.
    pub fn into_bytes(self) -> (r: Vec<u8>)
        requires
            self.bits().len() % 8 == 0,
        ensures
            r@ == pack_msb(self.bits()),
    {
        let ghost target = pack_msb(self.bits());
        proof {
            assert(8 * (self.bits().len() / 8) == self.bits().len());
        }
        let nbits: usize = self.bits.len();
        let total: usize = nbits / 8;
        let mut out: Vec<u8> = Vec::new();
        let mut bi: usize = 0;
        while bi < total
            invariant
                bi <= total,
                nbits == self.bits@.len(),
                8 * total == nbits,
                target == pack_msb(self.bits@),
                target.len() == total,
                out@ == target.take(bi as int),
            decreases total - bi,
        {
            let ghost chunk = self.bits@.subrange(8 * bi as int, 8 * bi + 8);
            let mut acc: u8 = 0;
            let mut j: usize = 0;
            proof {
                assert(chunk.take(0) =~= Seq::<bool>::empty());
                lemma2_to64();
            }
            while j < 8
                invariant
                    j <= 8,
                    bi < total,
                    nbits == self.bits@.len(),
                    8 * total == nbits,
                    chunk == self.bits@.subrange(8 * bi as int, 8 * bi + 8),
                    acc == msb_val(chunk.take(j as int)),
                    acc < pow2(j as nat),
                decreases 8 - j,
            {
                let bit = self.bits[8 * bi + j];
                proof {
                    lemma_msb_val_push(chunk.take(j as int), bit);
                    assert(chunk.take(j + 1) =~= chunk.take(j as int).push(bit));
                    vstd::arithmetic::power2::lemma_pow2_unfold((j + 1) as nat);
                    lemma2_to64();
                }
                acc = acc * 2 + (if bit {
                    1
                } else {
                    0
                });
                j = j + 1;
            }
            proof {
                assert(chunk.take(8) =~= chunk);
                assert(target[bi as int] == msb_val(chunk) as u8);
                assert(target.take(bi + 1) =~= target.take(bi as int).push(acc));
            }
            out.push(acc);
            bi = bi + 1;
        }
        proof {
            assert(target.take(total as int) =~= target);
        }
        out
    }
}

/// Reads bits from a byte buffer, most significant bit of each byte first.
pub struct BitReader {
    bits: Vec<bool>,
    position: usize,
}

impl BitReader {
    /// The whole bit stream being read.
    pub closed spec fn bits(&self) -> Seq<bool> {
        self.bits@
    }

    /// The position of the next bit to be read.
    pub closed spec fn pos(&self) -> nat {
        self.position as nat
    }

    pub closed spec fn wf(&self) -> bool {
        self.position <= self.bits@.len()
    }

    /// The stream never sits past its end, and its length fits the machine.
    pub proof fn lemma_bounds(&self)
        requires
            self.wf(),
        ensures
            self.pos() <= self.bits().len(),
            self.bits().len() <= usize::MAX,
    {
        vstd::std_specs::vec::axiom_spec_len(&self.bits);
    }

    /// Constructs a reader over the bits of the given bytes.
    pub fn from_bytes(bytes: &Vec<u8>) -> (r: BitReader)
        requires
            8 * bytes@.len() <= usize::MAX,
        ensures
            r.wf(),
            r.bits() == bytes_to_bits(bytes@),
            r.pos() == 0,
    {
        let ghost target = bytes_to_bits(bytes@);
        let mut bits: Vec<bool> = Vec::new();
        let mut i: usize = 0;
        let total: usize = 8 * bytes.len();
        proof {
            assert(target.take(0) =~= Seq::<bool>::empty());
        }
        while i < total
            invariant
                i <= total,
                total == 8 * bytes@.len(),
                target == bytes_to_bits(bytes@),
                target.len() == total,
                bits@ == target.take(i as int),
            decreases total - i,
        {
            let byte = bytes[i / 8];
            let j: usize = i % 8;
            let bit = read_byte_bit(byte, (7 - j) as u32);
            proof {
                assert(target[i as int] == byte_bit(bytes@[i as int / 8], (7 - i as int % 8) as nat));
                assert(target.take(i + 1) =~= target.take(i as int).push(bit));
            }
            bits.push(bit);
            i = i + 1;
        }
        proof {
            assert(target.take(total as int) =~= target);
        }
        BitReader { bits, position: 0 }
    }

    /// Reads one bit; `None` when the stream is exhausted.
    pub fn read_bit(&mut self) -> (r: Option<bool>)
        requires
            old(self).wf(),
        ensures
            final(self).wf(),
            final(self).bits() == old(self).bits(),
            old(self).pos() < old(self).bits().len() ==> {
                &&& r == Some(old(self).bits()[old(self).pos() as int])
                &&& final(self).pos() == old(self).pos() + 1
            },
            old(self).pos() >= old(self).bits().len() ==> {
                &&& r is None
                &&& final(self).pos() == old(self).pos()
            },
    {
        if self.position >= self.bits.len() {
            return None;
        }
        let bit = self.bits[self.position];
        self.position = self.position + 1;
        Some(bit)
    }

    /// Reads an `n`-bit field, most significant bit first; `None` when fewer
    /// than `n` bits remain, leaving the position unchanged.
    pub fn read(&mut self, n: u32) -> (r: Option<u32>)
        requires
            old(self).wf(),
            n <= 32,
        ensures
            final(self).wf(),
            final(self).bits() == old(self).bits(),
            old(self).pos() + n <= old(self).bits().len() ==> {
                &&& r == Some(
                    msb_val(
                        old(self).bits().subrange(
                            old(self).pos() as int,
                            old(self).pos() + n as int,
                        ),
                    ) as u32,
                )
                &&& final(self).pos() == old(self).pos() + n
            },
            old(self).pos() + n > old(self).bits().len() ==> {
                &&& r is None
                &&& final(self).pos() == old(self).pos()
            },
    {
        let nbits: usize = self.bits.len();
        if n as usize > nbits - self.position {
            return None;
        }
        let ghost s = self.bits@.subrange(self.position as int, self.position + n as int);
        proof {
            assert(s.take(0) =~= Seq::<bool>::empty());
            lemma2_to64();
        }
        let mut acc: u32 = 0;
        let mut j: u32 = 0;
        while j < n
            invariant
                j <= n <= 32,
                nbits == self.bits@.len(),
                self.position + n <= nbits,
                *self == *old(self),
                s == self.bits@.subrange(self.position as int, self.position + n as int),
                acc == msb_val(s.take(j as int)),
                acc < pow2(j as nat),
            decreases n - j,
        {
            let bit = self.bits[self.position + j as usize];
            proof {
                lemma_msb_val_push(s.take(j as int), bit);
                assert(s.take(j + 1) =~= s.take(j as int).push(bit));
                lemma2_to64();
                vstd::arithmetic::power2::lemma_pow2_unfold((j + 1) as nat);
                if ((j + 1) as nat) < 32 {
                    vstd::arithmetic::power2::lemma_pow2_strictly_increases(
                        (j + 1) as nat,
                        32,
                    );
                }
            }
            acc = acc * 2 + (if bit {
                1
            } else {
                0
            });
            j = j + 1;
        }
        proof {
            assert(s.take(n as int) =~= s);
        }
        self.position = self.position + n as usize;
        Some(acc)
    }

    /// Reads a unary run: the count of one bits before the next zero bit,
    /// consuming the closing zero. `None` when the stream ends first.
    pub fn read_unary(&mut self) -> (r: Option<u64>)
        requires
            old(self).wf(),
        ensures
            final(self).wf(),
            final(self).bits() == old(self).bits(),
            match crate::rice_coding::unary_scan(old(self).bits(), old(self).pos()) {
                Some(q) => {
                    &&& r == Some(q as u64)
                    &&& old(self).pos() + q + 1 <= old(self).bits().len()
                    &&& final(self).pos() == old(self).pos() + q + 1
                },
                None => r is None,
            },
    {
        let ghost s = self.bits@;
        let ghost p0 = self.pos();
        let mut count: u64 = 0;
        loop
            invariant_except_break
                p0 + count == self.pos(),
                count <= s.len(),
                forall|j: int| p0 <= j < self.pos() ==> s[j],
            invariant
                self.wf(),
                self.bits@ == s,
                s == old(self).bits(),
                p0 == old(self).pos(),
                self.pos() <= s.len(),
            ensures
                self.wf(),
                self.bits@ == s,
                match crate::rice_coding::unary_scan(s, p0) {
                    Some(q) => count == q && self.pos() == p0 + q + 1,
                    None => false,
                },
            decreases s.len() - self.pos(),
        {
            let ghost posl = self.pos();
            if self.position >= self.bits.len() {
                proof {
                    crate::rice_coding::lemma_unary_scan_none(s, p0, self.pos());
                }
                return None;
            }
            let bit = self.bits[self.position];
            self.position = self.position + 1;
            if !bit {
                proof {
                    crate::rice_coding::lemma_unary_scan_prefix(s, p0, posl);
                }
                break ;
            }
            count = count + 1;
        }
        Some(count)
    }

    /// Reads a 32-bit two's complement field, most significant bit first;
    /// `None` when fewer than 32 bits remain.
    pub fn read_signed(&mut self) -> (r: Option<i32>)
        requires
            old(self).wf(),
        ensures
            final(self).wf(),
            final(self).bits() == old(self).bits(),
            old(self).pos() + 32 <= old(self).bits().len() ==> {
                &&& r == Some(
                    (msb_val(
                        old(self).bits().subrange(
                            old(self).pos() as int,
                            old(self).pos() as int + 32,
                        ),
                    ) as u32) as i32,
                )
                &&& final(self).pos() == old(self).pos() + 32
            },
            old(self).pos() + 32 > old(self).bits().len() ==> {
                &&& r is None
                &&& final(self).pos() == old(self).pos()
            },
    {
        match self.read(32) {
            Some(v) => Some(v as i32),
            None => None,
        }
    }
}

/// Mock sink used to inspect the coding schemes in tests: logs bits to a
/// string of `'0'` and `'1'` characters rather than writing them to a
/// buffer. Multi-bit fields are logged least significant bit first.
pub struct BitWriterMock {
    content: String,
}

impl BitSink for BitWriterMock {
    /// The logged characters, read as bits: `'1'` is a one bit.
    closed spec fn bits(&self) -> Seq<bool> {
        self.content@.map_values(|c: char| c == '1')
    }

    /// Fields are logged least significant bit first.
    open spec fn field(n: u32, value: u32) -> Seq<bool> {
        lsb_bits(value as nat, n as nat)
    }

    proof fn lemma_field_len(n: u32, value: u32) {
        lemma_lsb_bits_len(value as nat, n as nat);
    }

    fn write_bit(&mut self, bit: bool) {
        if bit {
            self.content.append("1");
            proof {
                reveal_strlit("1");
                assert(final(self).bits() =~= old(self).bits().push(bit));
            }
        } else {
            self.content.append("0");
            proof {
                reveal_strlit("0");
                assert(final(self).bits() =~= old(self).bits().push(bit));
            }
        }
    }

    fn write(&mut self, n: u32, value: u32) {
        let ghost fld = lsb_bits(value as nat, n as nat);
        proof {
            lemma_lsb_bits_len(value as nat, n as nat);
            assert(old(self).bits() + fld.take(0) =~= old(self).bits());
        }
        let mut j: u32 = 0;
        while j < n
            invariant
                j <= n <= 32,
                fld == lsb_bits(value as nat, n as nat),
                fld.len() == n,
                old(self).bits().len() + n <= usize::MAX,
                self.bits() == old(self).bits() + fld.take(j as int),
            decreases n - j,
        {
            let p = exp2(j);
            proof {
                lemma_pow2_pos(j as nat);
                lemma_lsb_bits_index(value as nat, n as nat, j as nat);
            }
            let bit = (value / p) % 2 == 1;
            self.write_bit(bit);
            proof {
                assert(fld.take(j + 1) =~= fld.take(j as int).push(fld[j as int]));
                assert(old(self).bits() + fld.take(j + 1) =~= (old(self).bits() + fld.take(
                    j as int,
                )).push(bit));
            }
            j = j + 1;
        }
        proof {
            assert(fld.take(n as int) =~= fld);
        }
    }

    fn write_unary(&mut self, value: u32) {
        let mut i: u32 = 0;
        while i < value
            invariant
                i <= value,
                old(self).bits().len() + value + 1 <= usize::MAX,
                self.bits() == old(self).bits() + Seq::new(i as nat, |j: int| true),
            decreases value - i,
        {
            self.write_bit(true);
            proof {
                assert(old(self).bits() + Seq::new((i + 1) as nat, |j: int| true) =~= (old(
                    self,
                ).bits() + Seq::new(i as nat, |j: int| true)).push(true));
            }
            i = i + 1;
        }
        self.write_bit(false);
        proof {
            assert(old(self).bits() + unary_bits(value as nat) =~= (old(self).bits() + Seq::new(
                value as nat,
                |j: int| true,
            )).push(false));
        }
    }
}

impl BitWriterMock {
    /// The logged characters.
    pub closed spec fn chars(&self) -> Seq<char> {
        self.content@
    }

    /// Constructs an empty mock writer.
    pub fn new() -> (r: BitWriterMock)
        ensures
            r.chars() =~= Seq::<char>::empty(),
            r.bits() =~= Seq::<bool>::empty(),
    {
        let content = String::from_str("");
        proof {
            reveal_strlit("");
        }
        BitWriterMock { content }
    }

    /// Returns the logged bit string.
    pub fn content(self) -> (r: String)
        ensures
            r@ == self.chars(),
    {
        self.content
    }
}

} // verus!
