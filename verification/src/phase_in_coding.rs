//! Phased-in (truncated binary) codes for the numbers in the range
//! `[0, n-1]`: when `n` is not a power of two, some symbols receive one bit
//! less. Values are rotated before coding so that the short code words
//! cluster near the middle of the range.

use crate::bitio::{BitReader, BitSink};
use crate::bits::{exp2, lemma_msb_bits_len, lemma_msb_bits_of_val, lemma_msb_val_of_bits, msb_bits, msb_val};
use crate::error::DecompressionError;
use vstd::arithmetic::div_mod::{
    lemma_add_mod_noop, lemma_fundamental_div_mod, lemma_mod_bound, lemma_small_mod,
};
use vstd::arithmetic::power2::{
    lemma2_to64, lemma_pow2_pos, lemma_pow2_strictly_increases, lemma_pow2_unfold, pow2,
};
use vstd::prelude::*;

verus! {

/// The floor of the base-two logarithm.
pub open spec fn log2(n: nat) -> nat
    decreases n,
{
    if n < 2 {
        0
    } else {
        1 + log2(n / 2)
    }
}

/// For positive `n`, `2^log2(n) <= n < 2^(log2(n)+1)`.
pub proof fn lemma_log2_bounds(n: nat)
    requires
        n >= 1,
    ensures
        pow2(log2(n)) <= n < pow2(log2(n) + 1),
    decreases n,
{
    if n < 2 {
        lemma2_to64();
    } else {
        lemma_log2_bounds(n / 2);
        lemma_pow2_unfold(log2(n));
        lemma_pow2_unfold(log2(n) + 1);
    }
}

/// The floor logarithm is the unique `m` with `2^m <= n < 2^(m+1)`.
pub proof fn lemma_log2_unique(n: nat, m: nat)
    requires
        pow2(m) <= n < pow2(m + 1),
    ensures
        log2(n) == m,
    decreases m,
{
    lemma_pow2_pos(m);
    if m == 0 {
        lemma2_to64();
    } else {
        lemma_pow2_unfold(m);
        lemma_pow2_unfold(m + 1);
        lemma_log2_unique(n / 2, (m - 1) as nat);
    }
}

/// Ranges below `2^31` have a floor logarithm of at most 30.
pub proof fn lemma_log2_le_30(n: nat)
    requires
        1 <= n < 0x8000_0000,
    ensures
        log2(n) <= 30,
{
    lemma_log2_bounds(n);
    if log2(n) > 30 {
        if log2(n) > 31 {
            lemma_pow2_strictly_increases(31, log2(n));
        }
        lemma2_to64();
        assert(pow2(31) <= pow2(log2(n)));
    }
}

/// The rotation applied before coding: move `x` right by `P_left = n - 2^m`
/// positions, which is the same as adding `2^m` modulo `n`.
pub open spec fn phase_rot(n: nat, x: nat) -> nat {
    (x + pow2(log2(n))) % n
}

/// The inverse rotation applied after decoding.
pub open spec fn phase_unrot(n: nat, x: nat) -> nat {
    ((x + n - pow2(log2(n))) % (n as int)) as nat
}

/// Whether `x` receives a short (`m`-bit) code word under range `n`.
pub open spec fn phase_short(n: nat, x: nat) -> bool {
    phase_rot(n, x) < pow2(log2(n) + 1) - n
}

/// The value of the `m`-bit field of the code word of `x`.
pub open spec fn phase_sym(n: nat, x: nat) -> nat {
    let rp = (pow2(log2(n) + 1) - n) as nat;
    if phase_short(n, x) {
        phase_rot(n, x)
    } else {
        (phase_rot(n, x) - rp) as nat / 2 + rp
    }
}

/// The closing bit of a long code word of `x`.
pub open spec fn phase_last(n: nat, x: nat) -> bool {
    let rp = (pow2(log2(n) + 1) - n) as nat;
    (phase_rot(n, x) - rp) % 2 == 1
}

/// The phased-in code word of `x` under range `n`: an `m`-bit field, and for
/// the long code words one more bit.
pub open spec fn phase_in_bits(n: nat, x: nat) -> Seq<bool> {
    if phase_short(n, x) {
        msb_bits(phase_sym(n, x), log2(n))
    } else {
        msb_bits(phase_sym(n, x), log2(n)).push(phase_last(n, x))
    }
}

/// What decoding a phased-in code word at position `pos` of a bit stream
/// yields: the decoded value and the position just past the code word, or
/// `Truncated` when the stream ends inside it.
pub open spec fn phase_decode_spec(s: Seq<bool>, pos: nat, n: nat) -> Result<
    (u32, nat),
    DecompressionError,
> {
    let m = log2(n);
    let rp = (pow2(m + 1) - n) as nat;
    if pos + m > s.len() {
        Err(DecompressionError::Truncated)
    } else {
        let f = msb_val(s.subrange(pos as int, pos + m as int));
        if f < rp {
            Ok((phase_unrot(n, f) as u32, (pos + m) as nat))
        } else if pos + m + 1 > s.len() {
            Err(DecompressionError::Truncated)
        } else {
            let b: nat = if s[pos + m as int] {
                1
            } else {
                0
            };
            Ok((phase_unrot(n, 2 * ((f - rp) as nat) + rp + b) as u32, (pos + m + 1) as nat))
        }
    }
}

/// A struct that is used to encode and decode phase-in codes for the numbers
/// in the `[0, n-1]` range.
///
/// Phased-in codes are for symbols with equal probabilities.
/// If the size of the set of symbols is not a power of two, we may assign
/// some symbols less bits.
pub struct PhaseInCoder {
    n: u32,
    m: u32,
    left_p: u32,
    right_p: u32,
}

impl PhaseInCoder {
    /// The size of the coded range `[0, n-1]`.
    pub closed spec fn spec_n(&self) -> nat {
        self.n as nat
    }

    /// The range is nonempty, below `2^31`, and the derived fields follow
    /// from it.
    pub closed spec fn wf(&self) -> bool {
        &&& 1 <= self.n < 0x8000_0000u32
        &&& self.m == log2(self.n as nat)
        &&& self.left_p == self.n - pow2(log2(self.n as nat))
        &&& self.right_p == pow2(log2(self.n as nat) + 1) - self.n
    }

    /// Constructs a phase-in coder for the given range: `[0, n-1]`.
    pub fn new(n: u32) -> (r: PhaseInCoder)
        requires
            1 <= n < 0x8000_0000u32,
        ensures
            r.wf(),
            r.spec_n() == n,
    {
        let mut m: u32 = 0;
        proof {
            lemma2_to64();
        }
        while m < 31 && exp2(m + 1) <= n
            invariant
                m <= 31,
                1 <= n < 0x8000_0000u32,
                pow2(m as nat) <= n,
            decreases 31 - m,
        {
            m = m + 1;
        }
        proof {
            if m == 31 {
                lemma2_to64();
                assert(pow2(31) <= n);
                assert(false);
            }
            assert(n < pow2(m as nat + 1));
            lemma_log2_unique(n as nat, m as nat);
            lemma_pow2_pos(m as nat);
        }
        // Compute neighbouring powers of two.
        let lpw: u32 = exp2(m);
        let rpw: u32 = exp2(m + 1);
        PhaseInCoder { n, m, left_p: n - lpw, right_p: rpw - n }
    }

    /// The size of the coded range.
    pub fn n(&self) -> (r: u32)
        requires
            self.wf(),
        ensures
            r == self.spec_n(),
    {
        self.n
    }

    /// The length in bits of the short code words.
    pub fn m(&self) -> (r: u32)
        requires
            self.wf(),
        ensures
            r == log2(self.spec_n()),
    {
        self.m
    }

    /// The number of long code word pairs.
    pub fn left_p(&self) -> (r: u32)
        requires
            self.wf(),
        ensures
            r == self.spec_n() - pow2(log2(self.spec_n())),
    {
        self.left_p
    }

    /// The number of short code words.
    pub fn right_p(&self) -> (r: u32)
        requires
            self.wf(),
        ensures
            r == pow2(log2(self.spec_n()) + 1) - self.spec_n(),
    {
        self.right_p
    }

    /// Rotates all numbers in the domain `[0, n-1]` to the right `P_left`
    /// positions, so that values with shorter codewords end up near the
    /// middle of the range.
    fn rotate_right(&self, number: u32) -> (r: u32)
        requires
            self.wf(),
            number < self.spec_n(),
        ensures
            r == phase_rot(self.spec_n(), number as nat),
            r < self.spec_n(),
    {
        proof {
            lemma_log2_bounds(self.n as nat);
            lemma_mod_bound((number + pow2(log2(self.n as nat))) as int, self.n as int);
        }
        (number + (self.n - self.left_p)) % self.n
    }

    /// Opposite of `rotate_right`.
    fn rotate_left(&self, number: u32) -> (r: u32)
        requires
            self.wf(),
            number <= u32::MAX - self.spec_n(),
        ensures
            r == phase_unrot(self.spec_n(), number as nat),
            r < self.spec_n(),
    {
        proof {
            lemma_log2_bounds(self.n as nat);
            lemma_mod_bound((number + self.left_p) as int, self.n as int);
        }
        (number + self.left_p) % self.n
    }

    /// Writes the phase-in coding of a number in the range `[0, n-1]` to the
    /// given sink: the `m`-bit field in the sink's field order, and for a
    /// long code word the closing bit.
    pub fn encode<T: BitSink>(&self, bitwrite: &mut T, number: u32)
        requires
            self.wf(),
            number < self.spec_n(),
            old(bitwrite).bits().len() + log2(self.spec_n()) + 1 <= usize::MAX,
        ensures
            phase_short(self.spec_n(), number as nat) ==> final(bitwrite).bits() == old(
                bitwrite,
            ).bits() + T::field(
                log2(self.spec_n()) as u32,
                phase_sym(self.spec_n(), number as nat) as u32,
            ),
            !phase_short(self.spec_n(), number as nat) ==> final(bitwrite).bits() == old(
                bitwrite,
            ).bits() + T::field(
                log2(self.spec_n()) as u32,
                phase_sym(self.spec_n(), number as nat) as u32,
            ).push(phase_last(self.spec_n(), number as nat)),
    {
        let number = self.rotate_right(number);
        proof {
            lemma_log2_bounds(self.n as nat);
            lemma_log2_le_30(self.n as nat);
            self.lemma_sym_fits(number as nat);
        }

        // The first P integers: [0, P - 1] receive short codewords (m bits).
        if number < self.right_p {
            bitwrite.write(self.m, number);
        } else {
            // The remaining 2*p integers [P, n-1] are assigned the long
            // codewords (m+1 bits). The long codewords consist of p pairs,
            // where each pair starts with the m-bit value P, P+1, ....,
            // P+p-1, followed by an extra bit (0 or 1) to distinguish
            // between the two codewords of a pair.
            let pair = (number - self.right_p) / 2;
            let last_bit = (number - self.right_p) % 2;
            let to_encode = pair + self.right_p;

            bitwrite.write(self.m, to_encode);
            proof {
                T::lemma_field_len(self.m, to_encode);
            }
            bitwrite.write_bit(if last_bit == 1 {
                true
            } else {
                false
            });
        }
    }

    /// The `m`-bit field of any code word fits in `m` bits.
    proof fn lemma_sym_fits(&self, rot: nat)
        requires
            self.wf(),
            rot < self.spec_n(),
        ensures
            rot >= pow2(log2(self.spec_n()) + 1) - self.spec_n() ==> (rot - (pow2(
                log2(self.spec_n()) + 1,
            ) - self.spec_n())) as nat / 2 + (pow2(log2(self.spec_n()) + 1) - self.spec_n())
                < pow2(log2(self.spec_n())),
            pow2(log2(self.spec_n()) + 1) - self.spec_n() <= pow2(log2(self.spec_n())),
    {
        lemma_sym_fits_free(self.spec_n(), rot);
    }

    /// Decodes the phase-in coding of a number in the range `[0, n-1]` by
    /// reading from the provided reader. Fails with `Truncated` when the
    /// stream ends inside the code word.
    pub fn decode(&self, bitread: &mut BitReader) -> (r: Result<u32, DecompressionError>)
        requires
            self.wf(),
            old(bitread).wf(),
        ensures
            final(bitread).wf(),
            final(bitread).bits() == old(bitread).bits(),
            match phase_decode_spec(old(bitread).bits(), old(bitread).pos(), self.spec_n()) {
                Ok((v, p)) => r == Ok::<u32, DecompressionError>(v) && final(bitread).pos() == p,
                Err(e) => r == Err::<u32, DecompressionError>(e),
            },
    {
        proof {
            lemma_log2_bounds(self.n as nat);
            lemma_log2_le_30(self.n as nat);
            lemma_pow2_strictly_increases(log2(self.n as nat), 32);
            lemma2_to64();
        }
        // Read m bits.
        let first_m: u32 = match bitread.read(self.m) {
            Some(f) => f,
            None => {
                return Err(DecompressionError::Truncated);
            },
        };
        proof {
            lemma_msb_bits_of_val(
                old(bitread).bits().subrange(
                    old(bitread).pos() as int,
                    old(bitread).pos() + log2(self.spec_n()) as int,
                ),
            );
        }

        if first_m < self.right_p {
            return Ok(self.rotate_left(first_m));
        }

        // It then must be a long codeword, get the corresponding pair.
        let pair = first_m - self.right_p;
        proof {
            assert(first_m < pow2(log2(self.spec_n())));
            lemma_pow2_unfold(log2(self.spec_n()) + 1);
        }
        let mut number = pair * 2 + self.right_p;

        // Then read the next bit to get the actual number.
        let bit = match bitread.read_bit() {
            Some(b) => b,
            None => {
                return Err(DecompressionError::Truncated);
            },
        };
        if bit {
            number = number + 1;
        }

        Ok(self.rotate_left(number))
    }
}

} // verus!


verus! {

/// The `m`-bit field of any code word fits in `m` bits, and the count of
/// short code words never exceeds `2^m`.
proof fn lemma_sym_fits_free(n: nat, rot: nat)
    requires
        1 <= n,
        rot < n,
    ensures
        rot >= pow2(log2(n) + 1) - n ==> (rot - (pow2(log2(n) + 1) - n)) as nat / 2 + (pow2(
            log2(n) + 1,
        ) - n) < pow2(log2(n)),
        pow2(log2(n) + 1) - n <= pow2(log2(n)),
{
    let m = log2(n);
    lemma_log2_bounds(n);
    lemma_pow2_unfold(m + 1);
    let rp = (pow2(m + 1) - n) as nat;
    if rot >= rp {
        // rot - rp < n - rp = 2n - 2^(m+1) = 2 * (n - 2^m)
        let d = (rot - rp) as nat;
        let lp = (n - pow2(m)) as nat;
        assert(d / 2 < lp) by {
            assert(d < 2 * lp);
        }
    }
}

/// A short code word is `m` bits long; a long one is `m + 1` bits long,
/// and the `m`-bit field fits in `m` bits.
pub proof fn lemma_phase_in_bits_len(n: nat, x: nat)
    requires
        1 <= n,
        x < n,
    ensures
        phase_short(n, x) ==> phase_in_bits(n, x).len() == log2(n),
        !phase_short(n, x) ==> phase_in_bits(n, x).len() == log2(n) + 1,
        phase_sym(n, x) < pow2(log2(n)),
{
    lemma_msb_bits_len(phase_sym(n, x), log2(n));
    lemma_log2_bounds(n);
    let rot = phase_rot(n, x);
    lemma_mod_bound((x + pow2(log2(n))) as int, n as int);
    lemma_sym_fits_free(n, rot);
}

/// Undoing the rotation recovers the original value.
pub proof fn lemma_rot_unrot(n: nat, x: nat)
    requires
        1 <= n,
        x < n,
    ensures
        phase_unrot(n, phase_rot(n, x)) == x,
{
    let t = pow2(log2(n));
    lemma_log2_bounds(n);
    lemma_pow2_pos(log2(n));
    lemma_small_mod((n - t) as nat, n);
    lemma_add_mod_noop((x + t) as int, (n - t) as int, n as int);
    assert((x + t + (n - t)) % (n as int) == (x as int + n as int) % (n as int));
    vstd::arithmetic::div_mod::lemma_mod_add_multiples_vanish(x as int, n as int);
    lemma_small_mod(x, n);
    assert(phase_rot(n, x) as int % (n as int) == phase_rot(n, x) as int) by {
        lemma_mod_bound((x + t) as int, n as int);
        lemma_small_mod(phase_rot(n, x), n);
    }
}

/// Decoding a phased-in code word embedded in any surrounding stream
/// recovers exactly the encoded value and stops just past the code word.
pub proof fn lemma_phase_in_round_trip(prefix: Seq<bool>, n: u32, x: u32, suffix: Seq<bool>)
    requires
        1 <= n < 0x8000_0000u32,
        x < n,
    ensures
        phase_decode_spec(
            prefix + phase_in_bits(n as nat, x as nat) + suffix,
            prefix.len(),
            n as nat,
        ) == Ok::<(u32, nat), DecompressionError>(
            (x, (prefix.len() + phase_in_bits(n as nat, x as nat).len()) as nat),
        ),
{
    let nn = n as nat;
    let m = log2(nn);
    lemma_log2_bounds(nn);
    lemma_log2_le_30(nn);
    lemma_pow2_unfold(m + 1);
    let rp = (pow2(m + 1) - nn) as nat;
    let rot = phase_rot(nn, x as nat);
    let sym = phase_sym(nn, x as nat);
    lemma_mod_bound((x + pow2(m)) as int, nn as int);
    lemma_sym_fits_free(nn, rot);
    assert(sym < pow2(m));
    let code = phase_in_bits(nn, x as nat);
    lemma_msb_bits_len(sym, m);
    let s = prefix + code + suffix;
    let p0 = prefix.len();
    assert(s.subrange(p0 as int, p0 + m as int) =~= msb_bits(sym, m));
    lemma_msb_val_of_bits(sym, m);
    lemma_rot_unrot(nn, x as nat);
    if phase_short(nn, x as nat) {
        assert(sym == rot < rp);
    } else {
        assert(sym >= rp);
        assert(s[p0 + m as int] == phase_last(nn, x as nat));
        let d = (rot - rp) as nat;
        lemma_fundamental_div_mod(d as int, 2);
        let b: nat = if phase_last(nn, x as nat) {
            1
        } else {
            0
        };
        assert(2 * ((sym - rp) as nat) + rp + b == rot);
    }
}


/// Rotating an undone rotation is the identity: the rotation is a bijection
/// on `[0, n-1]`.
pub proof fn lemma_unrot_rot(n: nat, x: nat)
    requires
        1 <= n,
        x < n,
    ensures
        phase_rot(n, phase_unrot(n, x)) == x,
{
    let t = pow2(log2(n));
    lemma_log2_bounds(n);
    lemma_pow2_pos(log2(n));
    lemma_mod_bound((x + n - t) as int, n as int);
    lemma_add_mod_noop((x + n - t) as int, t as int, n as int);
    if t < n {
        lemma_small_mod(t, n);
    } else {
        vstd::arithmetic::div_mod::lemma_mod_self_0(n as int);
    }
    assert((x + n - t + t) % (n as int) == (x as int + n as int) % (n as int));
    vstd::arithmetic::div_mod::lemma_mod_add_multiples_vanish(x as int, n as int);
    lemma_small_mod(x, n);
    assert(phase_unrot(n, x) as int % (n as int) == phase_unrot(n, x) as int) by {
        lemma_small_mod(phase_unrot(n, x), n);
    }
}

/// Exactly `RPW - n` values receive the short, `m`-bit code words, and the
/// remaining `2 (n - LPW)` values receive the long, `(m+1)`-bit ones, where
/// `LPW = 2^m` and `RPW = 2^(m+1)` are the powers of two around `n`.
pub proof fn lemma_phase_in_code_counts(n: nat)
    requires
        1 <= n < 0x8000_0000,
    ensures
        Set::new(|x: int| 0 <= x < n && phase_short(n, x as nat)).finite(),
        Set::new(|x: int| 0 <= x < n && phase_short(n, x as nat)).len() == pow2(log2(n) + 1) - n,
        Set::new(|x: int| 0 <= x < n && !phase_short(n, x as nat)).finite(),
        Set::new(|x: int| 0 <= x < n && !phase_short(n, x as nat)).len() == 2 * (n - pow2(
            log2(n),
        )),
{
    let m = log2(n);
    lemma_log2_bounds(n);
    lemma_pow2_unfold(m + 1);
    let rp = (pow2(m + 1) - n) as int;
    assert(rp <= n);
    let f = |x: int| phase_rot(n, x as nat) as int;
    let shorts = Set::new(|x: int| 0 <= x < n && phase_short(n, x as nat));
    let longs = Set::new(|x: int| 0 <= x < n && !phase_short(n, x as nat));
    let all = vstd::set_lib::set_int_range(0, n as int);
    vstd::set_lib::lemma_int_range(0, n as int);
    vstd::set_lib::lemma_set_subset_finite(all, shorts);
    vstd::set_lib::lemma_set_subset_finite(all, longs);

    assert(vstd::relations::injective_on(f, shorts)) by {
        assert forall|x1: int, x2: int|
            shorts.contains(x1) && shorts.contains(x2) && #[trigger] f(x1) == #[trigger] f(
                x2,
            ) implies x1 == x2 by {
            lemma_rot_unrot(n, x1 as nat);
            lemma_rot_unrot(n, x2 as nat);
        }
    }
    assert(vstd::relations::injective_on(f, longs)) by {
        assert forall|x1: int, x2: int|
            longs.contains(x1) && longs.contains(x2) && #[trigger] f(x1) == #[trigger] f(
                x2,
            ) implies x1 == x2 by {
            lemma_rot_unrot(n, x1 as nat);
            lemma_rot_unrot(n, x2 as nat);
        }
    }

    // The rotation maps the short values exactly onto `[0, rp)` and the long
    // ones exactly onto `[rp, n)`.
    assert(shorts.map(f) =~= vstd::set_lib::set_int_range(0, rp)) by {
        assert forall|j: int| 0 <= j < rp implies shorts.map(f).contains(j) by {
            let x = phase_unrot(n, j as nat);
            lemma_mod_bound((j + n - pow2(m)) as int, n as int);
            lemma_unrot_rot(n, j as nat);
            assert(shorts.contains(x as int) && f(x as int) == j);
        }
        assert forall|j: int| shorts.map(f).contains(j) implies 0 <= j < rp by {
            let x = choose|x: int| shorts.contains(x) && f(x) == j;
        }
    }
    assert(longs.map(f) =~= vstd::set_lib::set_int_range(rp, n as int)) by {
        assert forall|j: int| rp <= j < n implies longs.map(f).contains(j) by {
            let x = phase_unrot(n, j as nat);
            lemma_mod_bound((j + n - pow2(m)) as int, n as int);
            lemma_unrot_rot(n, j as nat);
            assert(longs.contains(x as int) && f(x as int) == j);
        }
        assert forall|j: int| longs.map(f).contains(j) implies rp <= j < n by {
            let x = choose|x: int| longs.contains(x) && f(x) == j;
            lemma_mod_bound((x + pow2(m)) as int, n as int);
        }
    }
    vstd::set_lib::lemma_int_range(0, rp);
    vstd::set_lib::lemma_int_range(rp, n as int);
    vstd::set_lib::lemma_map_size(shorts, vstd::set_lib::set_int_range(0, rp), f);
    vstd::set_lib::lemma_map_size(longs, vstd::set_lib::set_int_range(rp, n as int), f);
}

} // verus!
