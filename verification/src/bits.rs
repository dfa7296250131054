//! The mathematical model of bit streams: sequences of booleans, the
//! big-endian (most-significant-bit-first) and little-endian field encodings
//! of integers, unary runs, and the round-trip lemmas that relate a field's
//! bits back to its value.

use vstd::arithmetic::div_mod::{
    lemma_basic_div, lemma_div_pos_is_pos, lemma_fundamental_div_mod,
    lemma_hoist_over_denominator, lemma_mod_bound, lemma_mod_multiples_vanish,
};
use vstd::arithmetic::power2::{
    lemma2_to64, lemma_pow2_adds, lemma_pow2_pos, lemma_pow2_strictly_increases,
    lemma_pow2_unfold, pow2,
};
use vstd::bits::lemma_u32_shl_is_mul;
use vstd::prelude::*;

verus! {

/// The low `n` bits of `v`, most significant bit first.
pub open spec fn msb_bits(v: nat, n: nat) -> Seq<bool>
    decreases n,
{
    if n == 0 {
        Seq::empty()
    } else {
        msb_bits(v / 2, (n - 1) as nat).push(v % 2 == 1)
    }
}

/// The low `n` bits of `v`, least significant bit first.
pub open spec fn lsb_bits(v: nat, n: nat) -> Seq<bool>
    decreases n,
{
    if n == 0 {
        Seq::empty()
    } else {
        seq![v % 2 == 1] + lsb_bits(v / 2, (n - 1) as nat)
    }
}

/// The value of a bit sequence read most significant bit first.
pub open spec fn msb_val(s: Seq<bool>) -> nat
    decreases s.len(),
{
    if s.len() == 0 {
        0
    } else {
        msb_val(s.drop_last()) * 2 + (if s.last() {
            1nat
        } else {
            0nat
        })
    }
}

/// The value of a bit sequence read least significant bit first.
pub open spec fn lsb_val(s: Seq<bool>) -> nat
    decreases s.len(),
{
    if s.len() == 0 {
        0
    } else {
        (if s[0] {
            1nat
        } else {
            0nat
        }) + 2 * lsb_val(s.skip(1))
    }
}

/// A unary run: `q` one bits closed by a single zero bit.
pub open spec fn unary_bits(q: nat) -> Seq<bool> {
    Seq::new(q, |i: int| true).push(false)
}

pub broadcast proof fn lemma_unary_bits_len(q: nat)
    ensures
        (#[trigger] unary_bits(q)).len() == q + 1,
{
}

pub broadcast proof fn lemma_msb_bits_len(v: nat, n: nat)
    ensures
        (#[trigger] msb_bits(v, n)).len() == n,
    decreases n,
{
    if n > 0 {
        lemma_msb_bits_len(v / 2, (n - 1) as nat);
    }
}

pub broadcast proof fn lemma_lsb_bits_len(v: nat, n: nat)
    ensures
        (#[trigger] lsb_bits(v, n)).len() == n,
    decreases n,
{
    if n > 0 {
        lemma_lsb_bits_len(v / 2, (n - 1) as nat);
    }
}

/// Reading back an `n`-bit big-endian field recovers the value.
pub proof fn lemma_msb_val_of_bits(v: nat, n: nat)
    requires
        v < pow2(n),
    ensures
        msb_val(msb_bits(v, n)) == v,
    decreases n,
{
    if n == 0 {
        assert(pow2(0) == 1) by {
            lemma2_to64();
        }
    } else {
        lemma_pow2_unfold(n);
        lemma_pow2_pos((n - 1) as nat);
        assert(v / 2 < pow2((n - 1) as nat));
        lemma_msb_val_of_bits(v / 2, (n - 1) as nat);
        let s = msb_bits(v / 2, (n - 1) as nat).push(v % 2 == 1);
        assert(s.drop_last() =~= msb_bits(v / 2, (n - 1) as nat));
        lemma_fundamental_div_mod(v as int, 2);
    }
}

/// A bit sequence is the big-endian field of its own value.
pub proof fn lemma_msb_bits_of_val(s: Seq<bool>)
    ensures
        msb_val(s) < pow2(s.len()),
        msb_bits(msb_val(s), s.len()) == s,
    decreases s.len(),
{
    if s.len() == 0 {
        assert(pow2(0) == 1) by {
            lemma2_to64();
        }
        assert(msb_bits(0, 0) =~= s);
    } else {
        let hd = s.drop_last();
        lemma_msb_bits_of_val(hd);
        let b = msb_val(hd);
        let last: nat = if s.last() {
            1
        } else {
            0
        };
        let v = b * 2 + last;
        lemma_pow2_unfold(s.len());
        assert(v < pow2(s.len()));
        assert(v / 2 == b && v % 2 == last) by {
            lemma_fundamental_div_mod(v as int, 2);
        }
        assert(msb_bits(v, s.len()) == msb_bits(b, hd.len()).push(s.last()));
        assert(hd.push(s.last()) =~= s);
    }
}

/// Reading back an `n`-bit little-endian field recovers the value.
pub proof fn lemma_lsb_val_of_bits(v: nat, n: nat)
    requires
        v < pow2(n),
    ensures
        lsb_val(lsb_bits(v, n)) == v,
    decreases n,
{
    if n == 0 {
        assert(pow2(0) == 1) by {
            lemma2_to64();
        }
    } else {
        lemma_pow2_unfold(n);
        lemma_pow2_pos((n - 1) as nat);
        lemma_lsb_val_of_bits(v / 2, (n - 1) as nat);
        let s = seq![v % 2 == 1] + lsb_bits(v / 2, (n - 1) as nat);
        lemma_lsb_bits_len(v / 2, (n - 1) as nat);
        assert(s.skip(1) =~= lsb_bits(v / 2, (n - 1) as nat));
        lemma_fundamental_div_mod(v as int, 2);
    }
}

/// A bit sequence is the little-endian field of its own value.
pub proof fn lemma_lsb_bits_of_val(s: Seq<bool>)
    ensures
        lsb_val(s) < pow2(s.len()),
        lsb_bits(lsb_val(s), s.len()) == s,
    decreases s.len(),
{
    if s.len() == 0 {
        assert(pow2(0) == 1) by {
            lemma2_to64();
        }
        assert(lsb_bits(0, 0) =~= s);
    } else {
        let tl = s.skip(1);
        lemma_lsb_bits_of_val(tl);
        let b = lsb_val(tl);
        let first: nat = if s[0] {
            1
        } else {
            0
        };
        let v = first + 2 * b;
        lemma_pow2_unfold(s.len());
        assert(v < pow2(s.len()));
        assert(v / 2 == b && v % 2 == first) by {
            lemma_fundamental_div_mod(v as int, 2);
        }
        lemma_lsb_bits_len(b, tl.len());
        assert(lsb_bits(v, s.len()) == seq![s[0]] + lsb_bits(b, tl.len()));
        assert(seq![s[0]] + tl =~= s);
    }
}

/// `2^e` as an executable `u32`.
pub fn exp2(e: u32) -> (r: u32)
    requires
        e < 32,
    ensures
        r == pow2(e as nat),
{
    proof {
        lemma2_to64();
        lemma_u32_shl_is_mul(1u32, e);
    }
    1u32 << e
}

/// The bit at little-endian position `j` of a byte, as arithmetic on its value.
pub open spec fn byte_bit(b: u8, j: nat) -> bool {
    (b as nat) / pow2(j) % 2 == 1
}

/// Every bit at or above position `pos` of a byte smaller than `2^pos` is zero.
pub proof fn lemma_high_bit_zero(b: u8, pos: nat, j: nat)
    requires
        b < pow2(pos),
        pos <= j,
    ensures
        !byte_bit(b, j),
{
    if pos < j {
        lemma_pow2_strictly_increases(pos, j);
    }
    lemma_pow2_pos(j);
    lemma_basic_div(b as int, pow2(j) as int);
}

/// Adding `2^pos` to a byte whose bits at and above `pos` are zero sets
/// exactly the bit at `pos` and leaves the lower bits unchanged.
pub proof fn lemma_set_bit(b: u8, pos: nat)
    requires
        pos < 8,
        (b as nat) < pow2(pos),
    ensures
        b + pow2(pos) < pow2(pos + 1),
        pow2(pos + 1) <= 256,
        byte_bit((b + pow2(pos)) as u8, pos),
        forall|j: nat| j < pos ==> byte_bit((b + pow2(pos)) as u8, j) == byte_bit(b, j),
{
    lemma2_to64();
    lemma_pow2_unfold(pos + 1);
    if pos + 1 < 8 {
        lemma_pow2_strictly_increases(pos + 1, 8);
    }
    let nb = (b + pow2(pos)) as u8;
    lemma_pow2_pos(pos);
    assert(byte_bit(nb, pos)) by {
        lemma_hoist_over_denominator(b as int, 1, pow2(pos));
        lemma_basic_div(b as int, pow2(pos) as int);
    }
    assert forall|j: nat| j < pos implies byte_bit(nb, j) == byte_bit(b, j) by {
        lemma_pow2_pos(j);
        lemma_pow2_adds((pos - j) as nat, j);
        lemma_hoist_over_denominator(b as int, pow2((pos - j) as nat) as int, pow2(j));
        assert(nb as nat / pow2(j) == b as nat / pow2(j) + pow2((pos - j) as nat));
        lemma_pow2_unfold((pos - j) as nat);
        lemma_mod_multiples_vanish(
            pow2((pos - j - 1) as nat) as int,
            (b as nat / pow2(j)) as int,
            2,
        );
    }
}

/// The bit at position `j` of a little-endian field is the `j`-th binary
/// digit of its value.
pub proof fn lemma_lsb_bits_index(v: nat, n: nat, j: nat)
    requires
        j < n,
    ensures
        lsb_bits(v, n)[j as int] == (v / pow2(j) % 2 == 1),
    decreases j,
{
    lemma_lsb_bits_len(v / 2, (n - 1) as nat);
    if j == 0 {
        lemma2_to64();
    } else {
        lemma_lsb_bits_index(v / 2, (n - 1) as nat, (j - 1) as nat);
        lemma_pow2_pos((j - 1) as nat);
        lemma_pow2_unfold(j);
        vstd::arithmetic::div_mod::lemma_div_denominator(v as int, 2, pow2((j - 1) as nat) as int);
    }
}

/// The bit at position `i` of a big-endian field is the binary digit of
/// weight `2^(n-1-i)` of its value.
pub proof fn lemma_msb_bits_index(v: nat, n: nat, i: nat)
    requires
        i < n,
    ensures
        msb_bits(v, n)[i as int] == (v / pow2((n - 1 - i) as nat) % 2 == 1),
    decreases n,
{
    lemma_msb_bits_len(v / 2, (n - 1) as nat);
    if i == n - 1 {
        lemma2_to64();
        assert(msb_bits(v, n)[i as int] == (v % 2 == 1));
        assert(v / pow2(0) == v) by {
            lemma_basic_div_by_one(v);
        }
        lemma_fundamental_div_mod(v as int, 2);
    } else {
        lemma_msb_bits_index(v / 2, (n - 1) as nat, i);
        let e = (n - 2 - i) as nat;
        lemma_pow2_pos(e);
        lemma_pow2_unfold((n - 1 - i) as nat);
        vstd::arithmetic::div_mod::lemma_div_denominator(v as int, 2, pow2(e) as int);
    }
}

proof fn lemma_basic_div_by_one(v: nat)
    ensures
        v / 1 == v,
{
}

/// Appending a bit to a little-endian field adds its weighted value.
pub proof fn lemma_lsb_val_push(s: Seq<bool>, b: bool)
    ensures
        lsb_val(s.push(b)) == lsb_val(s) + (if b {
            pow2(s.len())
        } else {
            0nat
        }),
    decreases s.len(),
{
    let t = s.push(b);
    assert(t.len() == s.len() + 1);
    assert(t[0] == if s.len() == 0 {
        b
    } else {
        s[0]
    });
    if s.len() == 0 {
        lemma2_to64();
        assert(t.skip(1) =~= Seq::<bool>::empty());
        assert(lsb_val(t) == (if b {
            1nat
        } else {
            0nat
        }) + 2 * lsb_val(t.skip(1)));
    } else {
        assert(t.skip(1) =~= s.skip(1).push(b));
        lemma_lsb_val_push(s.skip(1), b);
        lemma_pow2_unfold(s.len());
        assert(lsb_val(t) == (if t[0] {
            1nat
        } else {
            0nat
        }) + 2 * lsb_val(t.skip(1)));
        assert(lsb_val(s) == (if s[0] {
            1nat
        } else {
            0nat
        }) + 2 * lsb_val(s.skip(1)));
    }
}

/// Appending a bit to a big-endian field doubles the value and adds the bit.
pub proof fn lemma_msb_val_push(s: Seq<bool>, b: bool)
    ensures
        msb_val(s.push(b)) == msb_val(s) * 2 + (if b {
            1nat
        } else {
            0nat
        }),
{
    assert(s.push(b).drop_last() =~= s);
}

/// Extracts the bit at little-endian position `j` of a byte.
pub fn read_byte_bit(b: u8, j: u32) -> (r: bool)
    requires
        j < 8,
    ensures
        r == byte_bit(b, j as nat),
{
    proof {
        lemma2_to64();
        lemma_pow2_pos(j as nat);
        lemma_div_pos_is_pos(b as int, pow2(j as nat) as int);
        lemma_mod_bound((b as nat / pow2(j as nat)) as int, 2);
    }
    let p = exp2(j);
    (b / (p as u8)) % 2 == 1
}

} // verus!
