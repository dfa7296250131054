//! The FELICS inner algorithm on one scalar channel: the first two pixels
//! are transmitted verbatim, and every further pixel is coded against the
//! interval of its two nearest already-coded neighbours — a phased-in code
//! inside the interval, a Rice code with an adaptively chosen parameter
//! outside it, behind a one- or two-bit prefix naming the case.

use crate::bitio::{BitReader, BitSink, BitWriter};
use crate::bits::{lemma_msb_bits_len, msb_bits, msb_val};
use crate::error::DecompressionError;
use crate::parameter_selection::{row_argmin, row_step, KEstimator};
use crate::phase_in_coding::{
    lemma_log2_le_30, log2, phase_decode_spec, phase_in_bits, PhaseInCoder,
};
use crate::predictor::{
    lemma_neighbours_bounds, lemma_neighbours_some, nearest_neighbours, neighbours_spec,
};
use crate::rice_coding::{rice_bits, rice_decode_spec, RiceCoder};
use vstd::arithmetic::power2::{lemma2_to64, lemma_pow2_pos, pow2};
use vstd::prelude::*;

verus! {

/// The kind of channel being coded: it fixes the width of the verbatim
/// first-pixel fields and the range that every sample must lie in. Grayscale
/// samples travel as depth-sized unsigned fields; the channels of the
/// YCoCg-transformed RGB paths carry signed values and travel as 32-bit
/// two's complement fields.
#[derive(Debug, PartialEq, Eq, Structural, Clone, Copy)]
pub enum Literal {
    Gray8,
    Gray16,
    Rgb8,
    Rgb16,
}

/// The bit width of a verbatim sample field.
pub open spec fn lit_width(l: Literal) -> nat {
    match l {
        Literal::Gray8 => 8,
        Literal::Gray16 => 16,
        Literal::Rgb8 => 32,
        Literal::Rgb16 => 32,
    }
}

/// The smallest sample value a channel of this kind may hold.
pub open spec fn lit_lo(l: Literal) -> int {
    match l {
        Literal::Gray8 => 0,
        Literal::Gray16 => 0,
        Literal::Rgb8 => -255,
        Literal::Rgb16 => -65535,
    }
}

/// The largest sample value a channel of this kind may hold.
pub open spec fn lit_hi(l: Literal) -> int {
    match l {
        Literal::Gray8 => 255,
        Literal::Gray16 => 65535,
        Literal::Rgb8 => 255,
        Literal::Rgb16 => 65535,
    }
}

/// The bits of one verbatim sample field: the low bits of the sample's
/// two's complement representation, most significant bit first.
pub open spec fn lit_bits(l: Literal, v: i32) -> Seq<bool> {
    msb_bits(((v as u32) as nat) % pow2(lit_width(l)), lit_width(l))
}

/// What reading one verbatim sample field yields: the sample and the
/// position just past the field, or `Truncated`.
pub open spec fn lit_read(l: Literal, s: Seq<bool>, pos: nat) -> Result<
    (i32, nat),
    DecompressionError,
> {
    let w = lit_width(l);
    if pos + w > s.len() {
        Err(DecompressionError::Truncated)
    } else {
        let raw = msb_val(s.subrange(pos as int, pos + w as int));
        let v: i32 = if w == 32 {
            (raw as u32) as i32
        } else {
            raw as i32
        };
        Ok((v, (pos + w) as nat))
    }
}

/// A verbatim sample field is exactly as wide as its kind says.
pub proof fn lemma_lit_bits_len(l: Literal, v: i32)
    ensures
        lit_bits(l, v).len() == lit_width(l),
{
    lemma_msb_bits_len(((v as u32) as nat) % pow2(lit_width(l)), lit_width(l));
}

/// The coding parameters of one channel.
pub struct CodingOptions {
    pub max_context: u32,
    pub k_values: Vec<u8>,
    pub periodic_count_scaling: Option<u32>,
    pub literal: Literal,
}

/// The mathematical content of a channel's coding parameters.
pub struct ChanParams {
    pub max_context: nat,
    pub ks: Seq<u8>,
    pub halve_at: Option<u32>,
    pub lit: Literal,
}

/// The parameters an options value denotes.
pub open spec fn params_of(o: CodingOptions) -> ChanParams {
    ChanParams {
        max_context: o.max_context as nat,
        ks: o.k_values@,
        halve_at: o.periodic_count_scaling,
        lit: o.literal,
    }
}

/// The candidate list is nonempty and valid, and the maximum context is
/// exactly the width of the channel's sample range.
pub open spec fn params_wf(p: ChanParams) -> bool {
    &&& p.ks.len() >= 1
    &&& forall|i: int| 0 <= i < p.ks.len() ==> p.ks[i] <= 31
    &&& p.max_context == lit_hi(p.lit) - lit_lo(p.lit)
}

/// The candidate list is nonempty and valid, and the maximum context is
/// exactly the width of the channel's sample range.
pub open spec fn opts_wf(o: CodingOptions) -> bool {
    params_wf(params_of(o))
}

/// The estimator's starting state: one all-zero row per context.
pub open spec fn est0(p: ChanParams) -> Seq<Seq<u32>> {
    Seq::new(p.max_context + 1, |c: int| Seq::new(p.ks.len(), |i: int| 0u32))
}

/// The estimator rows fit the parameters.
pub open spec fn rows_wf(rows: Seq<Seq<u32>>, p: ChanParams) -> bool {
    &&& rows.len() == p.max_context + 1
    &&& forall|c: int| 0 <= c < rows.len() ==> (#[trigger] rows[c]).len() == p.ks.len()
}

/// The Rice parameter the estimator picks for a context.
pub open spec fn spec_get_k(rows: Seq<Seq<u32>>, p: ChanParams, ctx: nat) -> u8 {
    p.ks[row_argmin(rows[ctx as int])]
}

/// The smaller of the two neighbour samples.
pub open spec fn lo_of(v1: int, v2: int) -> int {
    if v1 < v2 {
        v1
    } else {
        v2
    }
}

/// The larger of the two neighbour samples.
pub open spec fn hi_of(v1: int, v2: int) -> int {
    if v1 < v2 {
        v2
    } else {
        v1
    }
}

/// Whether the pixel lies inside its neighbours' interval.
pub open spec fn in_range(p: int, v1: int, v2: int) -> bool {
    lo_of(v1, v2) <= p <= hi_of(v1, v2)
}

/// The residual coded for an out-of-range pixel.
pub open spec fn residual_of(p: int, v1: int, v2: int) -> nat {
    if p < lo_of(v1, v2) {
        (lo_of(v1, v2) - p - 1) as nat
    } else {
        (p - hi_of(v1, v2) - 1) as nat
    }
}

/// The code emitted for one pixel with context `[L, H]` and Rice parameter
/// `k`: the intensity prefix (`1` in range, `01` above, `00` below), then
/// the phased-in or Rice code of the residual.
pub open spec fn pixel_bits(p: int, v1: int, v2: int, k: u8) -> Seq<bool> {
    let l = lo_of(v1, v2);
    let h = hi_of(v1, v2);
    if l <= p <= h {
        seq![true] + phase_in_bits((h - l + 1) as nat, (p - l) as nat)
    } else if p < l {
        seq![false, false] + rice_bits((l - p - 1) as nat, k as nat)
    } else {
        seq![false, true] + rice_bits((p - h - 1) as nat, k as nat)
    }
}

/// The bits of the channel body from pixel `i` on, given the estimator
/// state reached so far. Out-of-range pixels advance the estimator;
/// in-range pixels do not.
pub open spec fn chan_body_bits(
    chan: Seq<i32>,
    w: nat,
    i: nat,
    rows: Seq<Seq<u32>>,
    p: ChanParams,
) -> Seq<bool>
    decreases chan.len() - i,
    when i <= chan.len()
{
    if i >= chan.len() {
        Seq::empty()
    } else {
        match neighbours_spec(i, w) {
            None => Seq::empty(),
            Some((a, b)) => {
                let v1 = chan[a as int] as int;
                let v2 = chan[b as int] as int;
                let px = chan[i as int] as int;
                let ctx = (hi_of(v1, v2) - lo_of(v1, v2)) as nat;
                let k = spec_get_k(rows, p, ctx);
                let code = pixel_bits(px, v1, v2, k);
                let rows2 = if in_range(px, v1, v2) {
                    rows
                } else {
                    rows.update(
                        ctx as int,
                        row_step(rows[ctx as int], p.ks, residual_of(px, v1, v2), p.halve_at),
                    )
                };
                code + chan_body_bits(chan, w, i + 1, rows2, p)
            },
        }
    }
}

/// The verbatim head of a channel: the first two pixels, or zero sentinels
/// where the channel has fewer than two.
pub open spec fn chan_head_bits(chan: Seq<i32>, w: nat, h: nat, p: ChanParams) -> Seq<bool> {
    if w == 0 || h == 0 {
        lit_bits(p.lit, 0) + lit_bits(p.lit, 0)
    } else if w * h == 1 {
        lit_bits(p.lit, chan[0]) + lit_bits(p.lit, 0)
    } else {
        lit_bits(p.lit, chan[0]) + lit_bits(p.lit, chan[1])
    }
}

/// All the bits a channel compresses to.
pub open spec fn chan_bits(chan: Seq<i32>, w: nat, h: nat, p: ChanParams) -> Seq<bool> {
    if w == 0 || h == 0 || w * h == 1 {
        chan_head_bits(chan, w, h, p)
    } else {
        chan_head_bits(chan, w, h, p) + chan_body_bits(chan, w, 2, est0(p), p)
    }
}

/// Every sample of the channel lies in the range its kind allows.
pub open spec fn chan_vals_ok(chan: Seq<i32>, p: ChanParams) -> bool {
    forall|j: int| 0 <= j < chan.len() ==> lit_lo(p.lit) <= #[trigger] chan[j] <= lit_hi(p.lit)
}

/// Appends one verbatim sample field to the stream.
fn write_literal(bitwrite: &mut BitWriter, l: Literal, v: i32)
    requires
        lit_lo(l) <= v <= lit_hi(l),
        old(bitwrite).bits().len() + lit_width(l) <= usize::MAX,
    ensures
        final(bitwrite).bits() == old(bitwrite).bits() + lit_bits(l, v),
{
    proof {
        lemma2_to64();
    }
    match l {
        Literal::Gray8 => {
            bitwrite.write(8, v as u32);
            proof {
                vstd::arithmetic::div_mod::lemma_small_mod((v as u32) as nat, pow2(8));
            }
        },
        Literal::Gray16 => {
            bitwrite.write(16, v as u32);
            proof {
                vstd::arithmetic::div_mod::lemma_small_mod((v as u32) as nat, pow2(16));
            }
        },
        Literal::Rgb8 => {
            bitwrite.write_signed(v);
            proof {
                vstd::arithmetic::div_mod::lemma_small_mod((v as u32) as nat, pow2(32));
            }
        },
        Literal::Rgb16 => {
            bitwrite.write_signed(v);
            proof {
                vstd::arithmetic::div_mod::lemma_small_mod((v as u32) as nat, pow2(32));
            }
        },
    }
}

/// Reads one verbatim sample field from the stream.
fn read_literal(bitread: &mut BitReader, l: Literal) -> (r: Result<i32, DecompressionError>)
    requires
        old(bitread).wf(),
    ensures
        final(bitread).wf(),
        final(bitread).bits() == old(bitread).bits(),
        match lit_read(l, old(bitread).bits(), old(bitread).pos()) {
            Ok((v, p)) => r == Ok::<i32, DecompressionError>(v) && final(bitread).pos() == p,
            Err(e) => r == Err::<i32, DecompressionError>(e),
        },
{
    proof {
        lemma2_to64();
    }
    match l {
        Literal::Gray8 => {
            match bitread.read(8) {
                Some(v) => {
                    proof {
                        crate::bits::lemma_msb_bits_of_val(
                            old(bitread).bits().subrange(
                                old(bitread).pos() as int,
                                old(bitread).pos() as int + 8,
                            ),
                        );
                    }
                    Ok(v as i32)
                },
                None => Err(DecompressionError::Truncated),
            }
        },
        Literal::Gray16 => {
            match bitread.read(16) {
                Some(v) => {
                    proof {
                        crate::bits::lemma_msb_bits_of_val(
                            old(bitread).bits().subrange(
                                old(bitread).pos() as int,
                                old(bitread).pos() as int + 16,
                            ),
                        );
                    }
                    Ok(v as i32)
                },
                None => Err(DecompressionError::Truncated),
            }
        },
        Literal::Rgb8 => {
            match bitread.read_signed() {
                Some(v) => Ok(v),
                None => Err(DecompressionError::Truncated),
            }
        },
        Literal::Rgb16 => {
            match bitread.read_signed() {
                Some(v) => Ok(v),
                None => Err(DecompressionError::Truncated),
            }
        },
    }
}


/// Unfolds the body of the channel code at one pixel.
proof fn lemma_body_unfold(chan: Seq<i32>, w: nat, i: nat, rows: Seq<Seq<u32>>, o: ChanParams)
    requires
        w >= 1,
        2 <= i < chan.len(),
    ensures
        neighbours_spec(i, w) matches Some((a, b)) && chan_body_bits(chan, w, i, rows, o) == {
            let v1 = chan[a as int] as int;
            let v2 = chan[b as int] as int;
            let px = chan[i as int] as int;
            let ctx = (hi_of(v1, v2) - lo_of(v1, v2)) as nat;
            let k = spec_get_k(rows, o, ctx);
            pixel_bits(px, v1, v2, k) + chan_body_bits(
                chan,
                w,
                i + 1,
                if in_range(px, v1, v2) {
                    rows
                } else {
                    rows.update(
                        ctx as int,
                        row_step(rows[ctx as int], o.ks, residual_of(px, v1, v2), o.halve_at),
                    )
                },
                o,
            )
        },
{
    lemma_neighbours_some(i, w);
}

/// Compresses a channel and writes it to the given writer.
#[verifier::rlimit(100)]
#[verifier::spinoff_prover]
pub fn compress_channel(
    channel: &Vec<i32>,
    width: u32,
    height: u32,
    options: &CodingOptions,
    bitwrite: &mut BitWriter,
)
    requires
        opts_wf(*options),
        chan_vals_ok(channel@, params_of(*options)),
        channel@.len() == width * height,
        width * height <= u32::MAX,
        old(bitwrite).bits().len() + chan_bits(
            channel@,
            width as nat,
            height as nat,
            params_of(*options),
        ).len() + 8 <= usize::MAX,
    ensures
        final(bitwrite).bits() == old(bitwrite).bits() + chan_bits(
            channel@,
            width as nat,
            height as nat,
            params_of(*options),
        ),
{
    let ghost o = params_of(*options);
    let ghost cb = chan_bits(channel@, width as nat, height as nat, o);
    proof {
        lemma_lit_bits_len(o.lit, 0);
        if channel@.len() >= 1 {
            lemma_lit_bits_len(o.lit, channel@[0]);
        }
        if channel@.len() >= 2 {
            lemma_lit_bits_len(o.lit, channel@[1]);
        }
    }

    // Check for edge-case image dimensions.
    if width == 0 || height == 0 {
        write_literal(bitwrite, options.literal, 0);
        write_literal(bitwrite, options.literal, 0);
        return ;
    }
    if width == 1 && height == 1 {
        write_literal(bitwrite, options.literal, channel[0]);
        write_literal(bitwrite, options.literal, 0);
        return ;
    }
    proof {
        // Both dimensions are at least one and not both are one, so there
        // are at least two pixels.
        if width >= 2 {
            vstd::arithmetic::mul::lemma_mul_inequality(1, height as int, width as int);
            vstd::arithmetic::mul::lemma_mul_is_commutative(height as int, width as int);
        } else {
            vstd::arithmetic::mul::lemma_mul_basics(height as int);
        }
        assert(channel@.len() >= 2);
    }
    write_literal(bitwrite, options.literal, channel[0]);
    write_literal(bitwrite, options.literal, channel[1]);

    let mut estimator: KEstimator = KEstimator::new(
        options.max_context,
        options.k_values.as_slice(),
        options.periodic_count_scaling,
    );
    let total: usize = ((width as u64) * (height as u64)) as usize;
    proof {
        assert(total == channel@.len());
        assert(est0(o) =~= estimator.rows());
    }

    // Proceed in raster-scan order.
    let mut i: usize = 2;
    while i < total
        invariant
            params_wf(o),
            o == params_of(*options),
            chan_vals_ok(channel@, o),
            channel@.len() == total,
            total == width * height,
            width >= 1,
            2 <= i <= total,
            estimator.wf(),
            estimator.spec_max_context() == o.max_context,
            estimator.spec_k_values() == o.ks,
            estimator.spec_halve_at() == o.halve_at,
            rows_wf(estimator.rows(), o),
            cb == chan_bits(channel@, width as nat, height as nat, o),
            old(bitwrite).bits() + cb == bitwrite.bits() + chan_body_bits(
                channel@,
                width as nat,
                i as nat,
                estimator.rows(),
                o,
            ),
            old(bitwrite).bits().len() + cb.len() + 8 <= usize::MAX,
        decreases total - i,
    {
        let ghost rows0 = estimator.rows();
        let (a, b) = match nearest_neighbours(i, width as usize) {
            Some(pair) => pair,
            None => {
                proof {
                    lemma_neighbours_some(i as nat, width as nat);
                }
                (0, 0)
            },
        };
        proof {
            lemma_neighbours_bounds(i as nat, width as nat);
            lemma_body_unfold(channel@, width as nat, i as nat, rows0, o);
        }

        let p = channel[i];
        let v1 = channel[a];
        let v2 = channel[b];

        let h = if v1 < v2 {
            v2
        } else {
            v1
        };
        let l = if v1 < v2 {
            v1
        } else {
            v2
        };
        let context: u32 = (h - l) as u32;
        let k = estimator.get_k(context);
        let ghost code = pixel_bits(p as int, v1 as int, v2 as int, k);
        let ghost pre_bits = bitwrite.bits();
        let ghost rest = chan_body_bits(
            channel@,
            width as nat,
            i as nat + 1,
            if in_range(p as int, v1 as int, v2 as int) {
                rows0
            } else {
                rows0.update(
                    context as int,
                    row_step(
                        rows0[context as int],
                        o.ks,
                        residual_of(p as int, v1 as int, v2 as int),
                        o.halve_at,
                    ),
                )
            },
            o,
        );
        proof {
            assert(chan_body_bits(channel@, width as nat, i as nat, rows0, o) == code + rest);
            assert((old(bitwrite).bits() + cb).len() == (bitwrite.bits() + chan_body_bits(
                channel@,
                width as nat,
                i as nat,
                rows0,
                o,
            )).len());
            assert(bitwrite.bits().len() + code.len() + rest.len() + 8 <= usize::MAX);
        }
        let rice_coder = RiceCoder::new(k);

        if p >= l && p <= h {
            bitwrite.write_bit(true);
            let to_encode: u32 = (p - l) as u32;
            let ghost n = (context + 1) as nat;
            let phase_in_coder = PhaseInCoder::new(context + 1);
            proof {
                lemma_log2_le_30(n);
                crate::phase_in_coding::lemma_phase_in_bits_len(n, to_encode as nat);
                lemma2_to64();
                vstd::arithmetic::power2::lemma_pow2_strictly_increases(log2(n), 32);
            }
            phase_in_coder.encode(bitwrite, to_encode);
            proof {
                // The writer laid down exactly the code word of this pixel.
                assert(bitwrite.bits() =~= pre_bits + code);
                assert(old(bitwrite).bits() + cb =~= bitwrite.bits() + rest);
            }
        } else if p < l {
            bitwrite.write_bit(false);
            bitwrite.write_bit(false);
            let to_encode: u32 = (l - p - 1) as u32;
            proof {
                crate::rice_coding::lemma_rice_code_length(to_encode as nat, k as nat);
                lemma_pow2_pos(k as nat);
                vstd::arithmetic::div_mod::lemma_mod_bound(to_encode as int, pow2(k as nat) as int);
                lemma2_to64();
                vstd::arithmetic::power2::lemma_pow2_strictly_increases(k as nat, 32);
            }
            rice_coder.encode(bitwrite, to_encode);
            estimator.update(context, to_encode);
            proof {
                assert(bitwrite.bits() =~= pre_bits + code);
                assert(old(bitwrite).bits() + cb =~= bitwrite.bits() + rest);
            }
        } else {
            bitwrite.write_bit(false);
            bitwrite.write_bit(true);
            let to_encode: u32 = (p - h - 1) as u32;
            proof {
                crate::rice_coding::lemma_rice_code_length(to_encode as nat, k as nat);
                lemma_pow2_pos(k as nat);
                vstd::arithmetic::div_mod::lemma_mod_bound(to_encode as int, pow2(k as nat) as int);
                lemma2_to64();
                vstd::arithmetic::power2::lemma_pow2_strictly_increases(k as nat, 32);
            }
            rice_coder.encode(bitwrite, to_encode);
            estimator.update(context, to_encode);
            proof {
                assert(bitwrite.bits() =~= pre_bits + code);
                assert(old(bitwrite).bits() + cb =~= bitwrite.bits() + rest);
            }
        }
        i = i + 1;
    }
    proof {
        assert(chan_body_bits(channel@, width as nat, total as nat, estimator.rows(), o)
            == Seq::<bool>::empty());
        assert(final(bitwrite).bits() =~= old(bitwrite).bits() + cb);
    }
}

/// What decoding the channel body yields, from pixel `buf.len()` on, given
/// the samples already reconstructed and the estimator state reached: the
/// full sample sequence and the position just past the body, or the error.
/// Reconstructed samples outside the channel's range are rejected as
/// `InvalidValue`; sums that leave 32 bits are `ValueOverflow`.
pub open spec fn chan_dec_body(
    s: Seq<bool>,
    pos: nat,
    buf: Seq<i32>,
    total: nat,
    w: nat,
    rows: Seq<Seq<u32>>,
    p: ChanParams,
) -> Result<(Seq<i32>, nat), DecompressionError>
    decreases total - buf.len(),
    when buf.len() <= total
{
    if buf.len() >= total {
        Ok((buf, pos))
    } else {
        match neighbours_spec(buf.len(), w) {
            None => Err(DecompressionError::InvalidDimensions),
            Some((a, b)) => {
                let v1 = buf[a as int] as int;
                let v2 = buf[b as int] as int;
                let l = lo_of(v1, v2);
                let h = hi_of(v1, v2);
                let ctx = (h - l) as nat;
                let k = spec_get_k(rows, p, ctx);
                if pos >= s.len() {
                    Err(DecompressionError::Truncated)
                } else if s[pos as int] {
                    match phase_decode_spec(s, pos + 1, (ctx + 1) as nat) {
                        Err(e) => Err(e),
                        Ok((val, pos2)) => chan_dec_body(
                            s,
                            pos2,
                            buf.push((l + val) as i32),
                            total,
                            w,
                            rows,
                            p,
                        ),
                    }
                } else if pos + 1 >= s.len() {
                    Err(DecompressionError::Truncated)
                } else {
                    let above = s[pos as int + 1];
                    match rice_decode_spec(s, pos + 2, k as nat) {
                        Err(e) => Err(e),
                        Ok((resid, pos2)) => {
                            let rows2 = rows.update(
                                ctx as int,
                                row_step(rows[ctx as int], p.ks, resid as nat, p.halve_at),
                            );
                            if resid > i32::MAX {
                                Err(DecompressionError::InvalidValue)
                            } else {
                                let pv: int = if above {
                                    h + 1 + resid
                                } else {
                                    l - 1 - resid
                                };
                                if pv > i32::MAX || pv < i32::MIN {
                                    Err(DecompressionError::ValueOverflow)
                                } else if pv < lit_lo(p.lit) || pv > lit_hi(p.lit) {
                                    Err(DecompressionError::InvalidValue)
                                } else {
                                    chan_dec_body(s, pos2, buf.push(pv as i32), total, w, rows2, p)
                                }
                            }
                        },
                    }
                }
            },
        }
    }
}

/// What decompressing one channel yields: the samples and the position just
/// past the channel's bits, or the error.
pub open spec fn chan_dec(s: Seq<bool>, pos: nat, w: nat, h: nat, p: ChanParams) -> Result<
    (Seq<i32>, nat),
    DecompressionError,
> {
    match lit_read(p.lit, s, pos) {
        Err(e) => Err(e),
        Ok((p1, pos1)) => match lit_read(p.lit, s, pos1) {
            Err(e) => Err(e),
            Ok((p2, pos2)) => {
                if w == 0 || h == 0 {
                    Ok((Seq::empty(), pos2))
                } else if w * h == 1 {
                    Ok((seq![p1], pos2))
                } else if w * h > u32::MAX {
                    Err(DecompressionError::InvalidDimensions)
                } else if p1 < lit_lo(p.lit) || p1 > lit_hi(p.lit) || p2 < lit_lo(p.lit) || p2
                    > lit_hi(p.lit) {
                    Err(DecompressionError::InvalidValue)
                } else {
                    chan_dec_body(s, pos2, seq![p1, p2], (w * h) as nat, w, est0(p), p)
                }
            },
        },
    }
}

/// The channel's sample range as executable bounds.
fn lit_range(l: Literal) -> (r: (i32, i32))
    ensures
        r.0 == lit_lo(l),
        r.1 == lit_hi(l),
{
    match l {
        Literal::Gray8 => (0, 255),
        Literal::Gray16 => (0, 65535),
        Literal::Rgb8 => (-255, 255),
        Literal::Rgb16 => (-65535, 65535),
    }
}

/// Decompresses a channel by reading from the given reader.
#[verifier::rlimit(100)]
#[verifier::spinoff_prover]
pub fn decompress_channel(
    width: u32,
    height: u32,
    options: &CodingOptions,
    bitread: &mut BitReader,
) -> (r: Result<Vec<i32>, DecompressionError>)
    requires
        opts_wf(*options),
        old(bitread).wf(),
    ensures
        final(bitread).wf(),
        final(bitread).bits() == old(bitread).bits(),
        match chan_dec(
            old(bitread).bits(),
            old(bitread).pos(),
            width as nat,
            height as nat,
            params_of(*options),
        ) {
            Ok((c, p)) => {
                &&& r is Ok
                &&& r->Ok_0@ == c
                &&& final(bitread).pos() == p
            },
            Err(e) => r == Err::<Vec<i32>, DecompressionError>(e),
        },
{
    let ghost s = old(bitread).bits();
    let ghost p0 = old(bitread).pos();
    let ghost o = params_of(*options);

    // Parse the first two pixels.
    let pixel1: i32 = match read_literal(bitread, options.literal) {
        Ok(v) => v,
        Err(e) => {
            return Err(e);
        },
    };
    let pixel2: i32 = match read_literal(bitread, options.literal) {
        Ok(v) => v,
        Err(e) => {
            return Err(e);
        },
    };

    // Handle edge-case dimensions.
    if width == 0 || height == 0 {
        let empty: Vec<i32> = Vec::new();
        proof {
            assert(empty@ =~= Seq::<i32>::empty());
        }
        return Ok(empty);
    }
    if width == 1 && height == 1 {
        let mut single: Vec<i32> = Vec::new();
        single.push(pixel1);
        proof {
            assert(single@ =~= seq![pixel1]);
        }
        return Ok(single);
    }

    proof {
        vstd::arithmetic::mul::lemma_mul_upper_bound(
            width as int,
            u32::MAX as int,
            height as int,
            u32::MAX as int,
        );
        // More than one pixel in total: one dimension is at least two.
        assert(width as int * height as int >= 2) by (nonlinear_arith)
            requires
                width >= 1,
                height >= 1,
                width >= 2 || height >= 2,
        ;
    }
    let total64: u64 = (width as u64) * (height as u64);
    if total64 > u32::MAX as u64 {
        return Err(DecompressionError::InvalidDimensions);
    }
    let bounds = lit_range(options.literal);
    if pixel1 < bounds.0 || pixel1 > bounds.1 || pixel2 < bounds.0 || pixel2 > bounds.1 {
        return Err(DecompressionError::InvalidValue);
    }

    proof {
        if width >= 2 {
            vstd::arithmetic::mul::lemma_mul_inequality(1, height as int, width as int);
            vstd::arithmetic::mul::lemma_mul_is_commutative(height as int, width as int);
        } else {
            vstd::arithmetic::mul::lemma_mul_basics(height as int);
        }
    }
    let total: usize = total64 as usize;
    let ghost pos2 = bitread.pos();

    let mut buf: Vec<i32> = Vec::new();
    buf.push(pixel1);
    buf.push(pixel2);
    proof {
        assert(buf@ =~= seq![pixel1, pixel2]);
    }

    let mut estimator: KEstimator = KEstimator::new(
        options.max_context,
        options.k_values.as_slice(),
        options.periodic_count_scaling,
    );
    proof {
        assert(est0(o) =~= estimator.rows());
    }

    // Proceed in raster-scan order.
    while buf.len() < total
        invariant
            params_wf(o),
            o == params_of(*options),
            bitread.wf(),
            bitread.bits() == s,
            s == old(bitread).bits(),
            p0 == old(bitread).pos(),
            total == width * height,
            2 <= total <= u32::MAX,
            width >= 1,
            2 <= buf@.len() <= total,
            bounds.0 == lit_lo(o.lit),
            bounds.1 == lit_hi(o.lit),
            forall|j: int| 0 <= j < buf@.len() ==> bounds.0 <= #[trigger] buf@[j] <= bounds.1,
            estimator.wf(),
            estimator.spec_max_context() == o.max_context,
            estimator.spec_k_values() == o.ks,
            estimator.spec_halve_at() == o.halve_at,
            rows_wf(estimator.rows(), o),
            chan_dec_body(s, pos2, seq![buf@[0], buf@[1]], total as nat, width as nat, est0(o), o)
                == chan_dec_body(
                s,
                bitread.pos(),
                buf@,
                total as nat,
                width as nat,
                estimator.rows(),
                o,
            ),
            chan_dec(s, p0, width as nat, height as nat, o) == chan_dec_body(
                s,
                bitread.pos(),
                buf@,
                total as nat,
                width as nat,
                estimator.rows(),
                o,
            ),
        decreases total - buf.len(),
    {
        let ghost rows0 = estimator.rows();
        let ghost buf0 = buf@;
        let ghost posl = bitread.pos();
        let i = buf.len();
        let (a, b) = match nearest_neighbours(i, width as usize) {
            Some(pair) => pair,
            None => {
                proof {
                    lemma_neighbours_some(i as nat, width as nat);
                }
                (0, 0)
            },
        };
        proof {
            lemma_neighbours_bounds(i as nat, width as nat);
        }

        let v1 = buf[a];
        let v2 = buf[b];

        let h = if v1 < v2 {
            v2
        } else {
            v1
        };
        let l = if v1 < v2 {
            v1
        } else {
            v2
        };
        let context: u32 = (h - l) as u32;
        let k = estimator.get_k(context);
        let rice_coder = RiceCoder::new(k);

        let in_range_bit = match bitread.read_bit() {
            Some(bit) => bit,
            None => {
                return Err(DecompressionError::Truncated);
            },
        };

        if in_range_bit {
            let phase_in_coder = PhaseInCoder::new(context + 1);
            let decoded: u32 = match phase_in_coder.decode(bitread) {
                Ok(v) => v,
                Err(e) => {
                    return Err(e);
                },
            };
            proof {
                // The decoded value lies in `[0, ctx]`, so the pixel lies
                // back in `[L, H]`.
                lemma_phase_value_in_range(s, posl + 1, (context + 1) as nat);
            }
            let pixel_value: i32 = l + (decoded as i32);
            buf.push(pixel_value);
        } else {
            let above_bit = match bitread.read_bit() {
                Some(bit) => bit,
                None => {
                    return Err(DecompressionError::Truncated);
                },
            };
            let encoded: u32 = match rice_coder.decode(bitread) {
                Ok(v) => v,
                Err(e) => {
                    return Err(e);
                },
            };
            estimator.update(context, encoded);
            if encoded > i32::MAX as u32 {
                return Err(DecompressionError::InvalidValue);
            }
            let pixel64: i64 = if above_bit {
                (h as i64) + 1 + (encoded as i64)
            } else {
                (l as i64) - 1 - (encoded as i64)
            };
            if pixel64 > i32::MAX as i64 || pixel64 < i32::MIN as i64 {
                return Err(DecompressionError::ValueOverflow);
            }
            let pixel_value: i32 = pixel64 as i32;
            if pixel_value < bounds.0 || pixel_value > bounds.1 {
                return Err(DecompressionError::InvalidValue);
            }
            buf.push(pixel_value);
        }
    }
    Ok(buf)
}

/// A decoded phased-in value is below its range size.
proof fn lemma_phase_value_in_range(s: Seq<bool>, pos: nat, n: nat)
    requires
        1 <= n,
    ensures
        phase_decode_spec(s, pos, n) matches Ok((v, p)) ==> v < n,
{
    let m = log2(n);
    if pos + m <= s.len() {
        let f = msb_val(s.subrange(pos as int, pos + m as int));
        let rp = (pow2(m + 1) - n) as nat;
        vstd::arithmetic::div_mod::lemma_mod_bound((f + (n - pow2(log2(n)))) as int, n as int);
        if !(f < rp) && pos + m + 1 <= s.len() {
            let b: nat = if s[pos + m as int] {
                1
            } else {
                0
            };
            vstd::arithmetic::div_mod::lemma_mod_bound(
                (2 * ((f - rp) as nat) + rp + b + (n - pow2(log2(n)))) as int,
                n as int,
            );
        }
    }
}


/// A successfully decoded channel body has one sample per pixel and every
/// sample within the channel's range.
proof fn lemma_dec_body_ok(
    s: Seq<bool>,
    pos: nat,
    buf: Seq<i32>,
    total: nat,
    w: nat,
    rows: Seq<Seq<u32>>,
    p: ChanParams,
)
    requires
        w >= 1,
        2 <= buf.len() <= total,
        chan_vals_ok(buf, p),
    ensures
        chan_dec_body(s, pos, buf, total, w, rows, p) matches Ok((c, q)) ==> c.len() == total
            && chan_vals_ok(c, p),
    decreases total - buf.len(),
{
    if buf.len() < total {
        let i = buf.len();
        lemma_neighbours_some(i, w);
        match neighbours_spec(i, w) {
            None => {},
            Some((a, b)) => {
                lemma_neighbours_bounds(i, w);
                let v1 = buf[a as int] as int;
                let v2 = buf[b as int] as int;
                let l = lo_of(v1, v2);
                let h = hi_of(v1, v2);
                let ctx = (h - l) as nat;
                let k = spec_get_k(rows, p, ctx);
                if pos < s.len() {
                    if s[pos as int] {
                        lemma_phase_value_in_range(s, pos + 1, (ctx + 1) as nat);
                        match phase_decode_spec(s, pos + 1, (ctx + 1) as nat) {
                            Err(_) => {},
                            Ok((val, pos2)) => {
                                let nb = buf.push((l + val) as i32);
                                assert(chan_vals_ok(nb, p)) by {
                                    assert(forall|j: int|
                                        0 <= j < buf.len() ==> nb[j] == #[trigger] buf[j]);
                                }
                                lemma_dec_body_ok(s, pos2, nb, total, w, rows, p);
                            },
                        }
                    } else if pos + 1 < s.len() {
                        let above = s[pos as int + 1];
                        match rice_decode_spec(s, pos + 2, k as nat) {
                            Err(_) => {},
                            Ok((resid, pos2)) => {
                                let rows2 = rows.update(
                                    ctx as int,
                                    row_step(rows[ctx as int], p.ks, resid as nat, p.halve_at),
                                );
                                if resid <= i32::MAX {
                                    let pv: int = if above {
                                        h + 1 + resid
                                    } else {
                                        l - 1 - resid
                                    };
                                    if !(pv > i32::MAX || pv < i32::MIN) && !(pv < lit_lo(p.lit)
                                        || pv > lit_hi(p.lit)) {
                                        let nb = buf.push(pv as i32);
                                        assert(chan_vals_ok(nb, p)) by {
                                            assert(forall|j: int|
                                                0 <= j < buf.len() ==> nb[j] == #[trigger] buf[j]);
                                        }
                                        lemma_dec_body_ok(s, pos2, nb, total, w, rows2, p);
                                    }
                                }
                            },
                        }
                    }
                }
            },
        }
    }
}

/// A successfully decoded channel has exactly one sample per pixel, the
/// pixel count fits 32 bits, and — except for the unchecked verbatim sample
/// of a single-pixel signed channel — every sample lies in the channel's
/// range.
pub proof fn lemma_chan_dec_ok(s: Seq<bool>, pos: nat, w: nat, h: nat, p: ChanParams)
    requires
        params_wf(p),
    ensures
        chan_dec(s, pos, w, h, p) matches Ok((c, q)) ==> {
            &&& c.len() == w * h
            &&& w * h <= u32::MAX
            &&& (w * h >= 2 ==> chan_vals_ok(c, p))
            &&& (p.lit == Literal::Gray8 || p.lit == Literal::Gray16 ==> chan_vals_ok(c, p))
        },
{
    match lit_read(p.lit, s, pos) {
        Err(_) => {},
        Ok((p1, pos1)) => {
            if p.lit == Literal::Gray8 || p.lit == Literal::Gray16 {
                lemma_lit_read_gray_range(p.lit, s, pos);
            }
            match lit_read(p.lit, s, pos1) {
                Err(_) => {},
                Ok((p2, pos2)) => {
                    if p.lit == Literal::Gray8 || p.lit == Literal::Gray16 {
                        lemma_lit_read_gray_range(p.lit, s, pos1);
                    }
                    if w == 0 || h == 0 {
                        assert(w * h == 0) by {
                            vstd::arithmetic::mul::lemma_mul_basics(w as int);
                            vstd::arithmetic::mul::lemma_mul_basics(h as int);
                        }
                    } else if w * h == 1 {
                        assert(seq![p1].len() == 1);
                    } else if w * h <= u32::MAX && !(p1 < lit_lo(p.lit) || p1 > lit_hi(p.lit)
                        || p2 < lit_lo(p.lit) || p2 > lit_hi(p.lit)) {
                        let buf = seq![p1, p2];
                        assert(chan_vals_ok(buf, p));
                        assert(w * h >= 2) by {
                            vstd::arithmetic::mul::lemma_mul_ordering(w as int, h as int);
                        }
                        lemma_dec_body_ok(s, pos2, buf, (w * h) as nat, w, est0(p), p);
                    }
                },
            }
        },
    }
}

/// A verbatim grayscale sample is nonnegative and bounded by its width.
proof fn lemma_lit_read_gray_range(l: Literal, s: Seq<bool>, pos: nat)
    requires
        l == Literal::Gray8 || l == Literal::Gray16,
    ensures
        lit_read(l, s, pos) matches Ok((v, q)) ==> lit_lo(l) <= v <= lit_hi(l),
{
    let w = lit_width(l);
    if pos + w <= s.len() {
        crate::bits::lemma_msb_bits_of_val(s.subrange(pos as int, pos + w as int));
        vstd::arithmetic::power2::lemma2_to64();
    }
}


/// Reading back a verbatim sample field recovers the sample.
proof fn lemma_lit_round_trip(l: Literal, v: i32, s: Seq<bool>, pos: nat)
    requires
        lit_lo(l) <= v <= lit_hi(l),
        pos + lit_width(l) <= s.len(),
        s.subrange(pos as int, pos + lit_width(l) as int) == lit_bits(l, v),
    ensures
        lit_read(l, s, pos) == Ok::<(i32, nat), DecompressionError>(
            (v, (pos + lit_width(l)) as nat),
        ),
{
    let w = lit_width(l);
    let field = ((v as u32) as nat) % pow2(w);
    lemma2_to64();
    vstd::arithmetic::div_mod::lemma_mod_bound((v as u32) as int, pow2(w) as int);
    crate::bits::lemma_msb_val_of_bits(field, w);
    if w == 32 {
        vstd::arithmetic::div_mod::lemma_small_mod((v as u32) as nat, pow2(32));
        assert(((v as u32) as i32) == v) by (bit_vector);
    } else {
        vstd::arithmetic::div_mod::lemma_small_mod((v as u32) as nat, pow2(w));
    }
}

/// Decoding one pixel's code recovers that pixel: the decoder's next step
/// from a matching stream agrees with the encoder's, and the estimator
/// advances identically on both sides.
#[verifier::rlimit(100)]
#[verifier::spinoff_prover]
proof fn lemma_pixel_round_trip(
    chan: Seq<i32>,
    w: nat,
    rows: Seq<Seq<u32>>,
    p: ChanParams,
    i: nat,
    s: Seq<bool>,
    pos: nat,
)
    requires
        params_wf(p),
        chan_vals_ok(chan, p),
        rows_wf(rows, p),
        w >= 1,
        2 <= i < chan.len(),
        pos + chan_body_bits(chan, w, i, rows, p).len() <= s.len(),
        s.subrange(pos as int, pos + chan_body_bits(chan, w, i, rows, p).len() as int)
            == chan_body_bits(chan, w, i, rows, p),
    ensures
        neighbours_spec(i, w) is Some && ({
            let (a, b) = neighbours_spec(i, w)->Some_0;
            let v1 = chan[a as int] as int;
            let v2 = chan[b as int] as int;
            let px = chan[i as int] as int;
            let ctx = (hi_of(v1, v2) - lo_of(v1, v2)) as nat;
            let k = spec_get_k(rows, p, ctx);
            let code = pixel_bits(px, v1, v2, k);
            let rows2 = if in_range(px, v1, v2) {
                rows
            } else {
                rows.update(
                    ctx as int,
                    row_step(rows[ctx as int], p.ks, residual_of(px, v1, v2), p.halve_at),
                )
            };
            &&& chan_body_bits(chan, w, i, rows, p) == code + chan_body_bits(
                chan,
                w,
                i + 1,
                rows2,
                p,
            )
            &&& rows_wf(rows2, p)
            &&& chan_dec_body(s, pos, chan.take(i as int), chan.len(), w, rows, p)
                == chan_dec_body(
                s,
                (pos + code.len()) as nat,
                chan.take(i as int + 1),
                chan.len(),
                w,
                rows2,
                p,
            )
        }),
{
    let body = chan_body_bits(chan, w, i, rows, p);
    let buf = chan.take(i as int);
    lemma_body_unfold(chan, w, i, rows, p);
    lemma_neighbours_some(i, w);
    lemma_neighbours_bounds(i, w);
    let (a, b) = neighbours_spec(i, w)->Some_0;
    let v1 = chan[a as int] as int;
    let v2 = chan[b as int] as int;
    let px = chan[i as int] as int;
    let l = lo_of(v1, v2);
    let h = hi_of(v1, v2);
    let ctx = (h - l) as nat;
    let k = spec_get_k(rows, p, ctx);
    let code = pixel_bits(px, v1, v2, k);
    let rows2 = if in_range(px, v1, v2) {
        rows
    } else {
        rows.update(
            ctx as int,
            row_step(rows[ctx as int], p.ks, residual_of(px, v1, v2), p.halve_at),
        )
    };
    let rest = chan_body_bits(chan, w, i + 1, rows2, p);
    assert(body == code + rest);
    assert(rows_wf(rows2, p)) by {
        if !in_range(px, v1, v2) {
            assert(row_step(
                rows[ctx as int],
                p.ks,
                residual_of(px, v1, v2),
                p.halve_at,
            ).len() == rows[ctx as int].len());
        }
    }
    assert(buf[a as int] == chan[a as int]);
    assert(buf[b as int] == chan[b as int]);

    // The stream holds this pixel's code at `pos`.
    assert forall|j: int| 0 <= j < body.len() implies s[pos + j] == body[j] by {
        assert(body[j] == s.subrange(pos as int, pos + body.len() as int)[j]);
    }
    assert(forall|j: int| 0 <= j < code.len() ==> s[pos + j] == #[trigger] code[j]) by {
        assert(forall|j: int| 0 <= j < code.len() ==> #[trigger] code[j] == body[j]);
    }

    if in_range(px, v1, v2) {
        let n = (ctx + 1) as nat;
        let x = (px - l) as u32;
        let phase = phase_in_bits(n, x as nat);
        assert(code == seq![true] + phase);
        assert(s[pos as int] == code[0]);
        assert(code[0]);
        crate::phase_in_coding::lemma_phase_in_bits_len(n, x as nat);
        // The phased-in code word sits at `pos + 1`.
        let pre = s.take(pos as int + 1);
        let suf = s.skip(pos + 1 + phase.len() as int);
        assert(s =~= pre + phase + suf) by {
            assert(forall|j: int| 0 <= j < code.len() ==> s[pos + j] == #[trigger] code[j]);
            assert(forall|j: int| 0 <= j < phase.len() ==> code[1 + j] == #[trigger] phase[j]);
        }
        crate::phase_in_coding::lemma_phase_in_round_trip(pre, (ctx + 1) as u32, x, suf);
        assert(phase_decode_spec(s, pos + 1, n) == Ok::<(u32, nat), DecompressionError>(
            (x, (pos + 1 + phase.len()) as nat),
        ));
        assert(buf.push((l + x) as i32) =~= chan.take(i as int + 1));
    } else {
        let resid = residual_of(px, v1, v2);
        let rice = rice_bits(resid, k as nat);
        assert(s[pos as int] == code[0]);
        assert(s[pos as int + 1] == code[1]);
        assert(!code[0]);
        assert(code[1] == (px > h));
        crate::rice_coding::lemma_rice_code_length(resid, k as nat);
        // The Rice code word sits at `pos + 2`.
        let pre = s.take(pos as int + 2);
        let suf = s.skip(pos + 2 + rice.len() as int);
        assert(s =~= pre + rice + suf) by {
            assert(forall|j: int| 0 <= j < code.len() ==> s[pos + j] == #[trigger] code[j]);
            assert(forall|j: int| 0 <= j < rice.len() ==> code[2 + j] == #[trigger] rice[j]);
        }
        crate::rice_coding::lemma_rice_round_trip(pre, resid as u32, k as nat, suf);
        assert(rice_decode_spec(s, pos + 2, k as nat) == Ok::<(u32, nat), DecompressionError>(
            (resid as u32, (pos + 2 + rice.len()) as nat),
        ));
        let pv: int = if px > h {
            h + 1 + resid
        } else {
            l - 1 - resid
        };
        assert(pv == px);
        assert(buf.push(px as i32) =~= chan.take(i as int + 1));
    }
}

/// Decoding the channel body bits laid down by the encoder, pixel by pixel,
/// reconstructs exactly the remaining samples and stops just past them.
#[verifier::rlimit(100)]
#[verifier::spinoff_prover]
proof fn lemma_body_round_trip(
    chan: Seq<i32>,
    w: nat,
    rows: Seq<Seq<u32>>,
    p: ChanParams,
    i: nat,
    s: Seq<bool>,
    pos: nat,
)
    requires
        params_wf(p),
        chan_vals_ok(chan, p),
        rows_wf(rows, p),
        w >= 1,
        2 <= i <= chan.len(),
        pos + chan_body_bits(chan, w, i, rows, p).len() <= s.len(),
        s.subrange(pos as int, pos + chan_body_bits(chan, w, i, rows, p).len() as int)
            == chan_body_bits(chan, w, i, rows, p),
    ensures
        chan_dec_body(s, pos, chan.take(i as int), chan.len(), w, rows, p) == Ok::<
            (Seq<i32>, nat),
            DecompressionError,
        >((chan, (pos + chan_body_bits(chan, w, i, rows, p).len()) as nat)),
    decreases chan.len() - i,
{
    let body = chan_body_bits(chan, w, i, rows, p);
    if i == chan.len() {
        assert(chan.take(i as int) =~= chan);
    } else {
        lemma_pixel_round_trip(chan, w, rows, p, i, s, pos);
        let (a, b) = neighbours_spec(i, w)->Some_0;
        let v1 = chan[a as int] as int;
        let v2 = chan[b as int] as int;
        let px = chan[i as int] as int;
        let ctx = (hi_of(v1, v2) - lo_of(v1, v2)) as nat;
        let k = spec_get_k(rows, p, ctx);
        let code = pixel_bits(px, v1, v2, k);
        let rows2 = if in_range(px, v1, v2) {
            rows
        } else {
            rows.update(
                ctx as int,
                row_step(rows[ctx as int], p.ks, residual_of(px, v1, v2), p.halve_at),
            )
        };
        let rest = chan_body_bits(chan, w, i + 1, rows2, p);
        assert(body == code + rest);
        assert(s.subrange(pos + code.len() as int, pos + code.len() + rest.len() as int)
            =~= rest) by {
            assert(forall|j: int|
                0 <= j < body.len() ==> s[pos + j] == #[trigger] body[j]) by {
                assert(forall|j: int|
                    0 <= j < body.len() ==> #[trigger] body[j] == s.subrange(
                        pos as int,
                        pos + body.len() as int,
                    )[j]);
            }
            assert(forall|j: int|
                0 <= j < rest.len() ==> #[trigger] rest[j] == body[code.len() + j]);
        }
        lemma_body_round_trip(chan, w, rows2, p, i + 1, s, (pos + code.len()) as nat);
    }
}

/// The round trip of a channel with no pixels: the two zero sentinels read
/// back and the decoder returns the empty channel.
#[verifier::rlimit(100)]
#[verifier::spinoff_prover]
proof fn lemma_chan_round_trip_empty(
    chan: Seq<i32>,
    w: nat,
    h: nat,
    p: ChanParams,
    prefix: Seq<bool>,
    suffix: Seq<bool>,
)
    requires
        params_wf(p),
        chan.len() == w * h,
        w == 0 || h == 0,
    ensures
        chan_dec(prefix + chan_bits(chan, w, h, p) + suffix, prefix.len(), w, h, p) == Ok::<
            (Seq<i32>, nat),
            DecompressionError,
        >((chan, prefix.len() + chan_bits(chan, w, h, p).len())),
{
    let cb = chan_bits(chan, w, h, p);
    let s = prefix + cb + suffix;
    let pos = prefix.len();
    let wd = lit_width(p.lit);
    lemma_lit_bits_len(p.lit, 0);
    assert(w * h == 0) by {
        vstd::arithmetic::mul::lemma_mul_basics(w as int);
        vstd::arithmetic::mul::lemma_mul_basics(h as int);
    }
    assert(s.subrange(pos as int, pos + wd as int) =~= lit_bits(p.lit, 0));
    assert(s.subrange(pos + wd as int, pos + 2 * wd as int) =~= lit_bits(p.lit, 0));
    lemma_lit_round_trip(p.lit, 0, s, pos);
    lemma_lit_round_trip(p.lit, 0, s, (pos + wd) as nat);
    assert(chan =~= Seq::<i32>::empty());
}

/// The round trip of a single-pixel channel: the pixel and a zero sentinel
/// read back verbatim.
#[verifier::rlimit(100)]
#[verifier::spinoff_prover]
proof fn lemma_chan_round_trip_single(
    chan: Seq<i32>,
    w: nat,
    h: nat,
    p: ChanParams,
    prefix: Seq<bool>,
    suffix: Seq<bool>,
)
    requires
        params_wf(p),
        chan_vals_ok(chan, p),
        chan.len() == w * h,
        w >= 1,
        h >= 1,
        w * h == 1,
    ensures
        chan_dec(prefix + chan_bits(chan, w, h, p) + suffix, prefix.len(), w, h, p) == Ok::<
            (Seq<i32>, nat),
            DecompressionError,
        >((chan, prefix.len() + chan_bits(chan, w, h, p).len())),
{
    let cb = chan_bits(chan, w, h, p);
    let s = prefix + cb + suffix;
    let pos = prefix.len();
    let wd = lit_width(p.lit);
    lemma_lit_bits_len(p.lit, 0);
    lemma_lit_bits_len(p.lit, chan[0]);
    assert(s.subrange(pos as int, pos + wd as int) =~= lit_bits(p.lit, chan[0]));
    assert(s.subrange(pos + wd as int, pos + 2 * wd as int) =~= lit_bits(p.lit, 0));
    lemma_lit_round_trip(p.lit, chan[0], s, pos);
    lemma_lit_round_trip(p.lit, 0, s, (pos + wd) as nat);
    assert(chan =~= seq![chan[0]]);
}

/// The round trip of a channel with at least two pixels: the two verbatim
/// samples pass the range checks and the body decodes pixel by pixel.
#[verifier::rlimit(100)]
#[verifier::spinoff_prover]
proof fn lemma_chan_round_trip_general(
    chan: Seq<i32>,
    w: nat,
    h: nat,
    p: ChanParams,
    prefix: Seq<bool>,
    suffix: Seq<bool>,
)
    requires
        params_wf(p),
        chan_vals_ok(chan, p),
        chan.len() == w * h,
        w * h <= u32::MAX,
        w >= 1,
        h >= 1,
        w * h != 1,
    ensures
        chan_dec(prefix + chan_bits(chan, w, h, p) + suffix, prefix.len(), w, h, p) == Ok::<
            (Seq<i32>, nat),
            DecompressionError,
        >((chan, prefix.len() + chan_bits(chan, w, h, p).len())),
{
    let cb = chan_bits(chan, w, h, p);
    let s = prefix + cb + suffix;
    let pos = prefix.len();
    let wd = lit_width(p.lit);
    assert(w * h >= 2) by {
        vstd::arithmetic::mul::lemma_mul_ordering(w as int, h as int);
    }
    lemma_lit_bits_len(p.lit, chan[0]);
    lemma_lit_bits_len(p.lit, chan[1]);
    let body = chan_body_bits(chan, w, 2, est0(p), p);
    assert(cb == (lit_bits(p.lit, chan[0]) + lit_bits(p.lit, chan[1])) + body);
    assert(s.subrange(pos as int, pos + wd as int) =~= lit_bits(p.lit, chan[0]));
    assert(s.subrange(pos + wd as int, pos + 2 * wd as int) =~= lit_bits(p.lit, chan[1]));
    lemma_lit_round_trip(p.lit, chan[0], s, pos);
    lemma_lit_round_trip(p.lit, chan[1], s, (pos + wd) as nat);
    assert(s.subrange(pos + 2 * wd as int, pos + 2 * wd + body.len() as int) =~= body);
    assert(seq![chan[0], chan[1]] =~= chan.take(2));
    assert(rows_wf(est0(p), p));
    lemma_body_round_trip(chan, w, est0(p), p, 2, s, (pos + 2 * wd) as nat);
}

/// Decompressing the bits that a channel compresses to, wherever they sit
/// in a larger stream, yields exactly the original samples and stops just
/// past them. This is the channel half of the codec's round-trip law.
pub proof fn lemma_chan_round_trip(
    chan: Seq<i32>,
    w: nat,
    h: nat,
    p: ChanParams,
    prefix: Seq<bool>,
    suffix: Seq<bool>,
)
    requires
        params_wf(p),
        chan_vals_ok(chan, p),
        chan.len() == w * h,
        w * h <= u32::MAX,
    ensures
        chan_dec(prefix + chan_bits(chan, w, h, p) + suffix, prefix.len(), w, h, p) == Ok::<
            (Seq<i32>, nat),
            DecompressionError,
        >((chan, prefix.len() + chan_bits(chan, w, h, p).len())),
{
    if w == 0 || h == 0 {
        lemma_chan_round_trip_empty(chan, w, h, p, prefix, suffix);
    } else if w * h == 1 {
        lemma_chan_round_trip_single(chan, w, h, p, prefix, suffix);
    } else {
        lemma_chan_round_trip_general(chan, w, h, p, prefix, suffix);
    }
}


/// One pixel's code is at most `max_context + 34` bits: the two prefix
/// bits, and either a phased-in code word of at most 31 bits or a Rice code
/// word whose unary part is bounded by the residual.
proof fn lemma_pixel_bits_len(px: int, v1: int, v2: int, k: u8, p: ChanParams)
    requires
        params_wf(p),
        lit_lo(p.lit) <= px <= lit_hi(p.lit),
        lit_lo(p.lit) <= v1 <= lit_hi(p.lit),
        lit_lo(p.lit) <= v2 <= lit_hi(p.lit),
        k <= 31,
    ensures
        pixel_bits(px, v1, v2, k).len() <= p.max_context + 34,
{
    let l = lo_of(v1, v2);
    let h = hi_of(v1, v2);
    if l <= px <= h {
        let n = (h - l + 1) as nat;
        lemma_log2_le_30(n);
        crate::phase_in_coding::lemma_phase_in_bits_len(n, (px - l) as nat);
    } else {
        let resid = residual_of(px, v1, v2);
        crate::rice_coding::lemma_rice_code_length(resid, k as nat);
        lemma_pow2_pos(k as nat);
        vstd::arithmetic::div_mod::lemma_div_is_ordered_by_denominator(
            resid as int,
            1,
            pow2(k as nat) as int,
        );
        assert(resid <= p.max_context);
    }
}

/// The body of a channel code takes at most `max_context + 34` bits per
/// remaining pixel.
proof fn lemma_chan_body_len(chan: Seq<i32>, w: nat, i: nat, rows: Seq<Seq<u32>>, p: ChanParams)
    requires
        params_wf(p),
        chan_vals_ok(chan, p),
        rows_wf(rows, p),
        w >= 1,
        2 <= i <= chan.len(),
    ensures
        chan_body_bits(chan, w, i, rows, p).len() <= (chan.len() - i) * (p.max_context + 34),
    decreases chan.len() - i,
{
    let c = p.max_context as int + 34;
    if i == chan.len() {
    } else {
        lemma_body_unfold(chan, w, i, rows, p);
        lemma_neighbours_some(i, w);
        lemma_neighbours_bounds(i, w);
        let (a, b) = neighbours_spec(i, w)->Some_0;
        let v1 = chan[a as int] as int;
        let v2 = chan[b as int] as int;
        let px = chan[i as int] as int;
        let ctx = (hi_of(v1, v2) - lo_of(v1, v2)) as nat;
        let k = spec_get_k(rows, p, ctx);
        assert(k <= 31) by {
            crate::parameter_selection::lemma_row_argmin(rows[ctx as int]);
        }
        lemma_pixel_bits_len(px, v1, v2, k, p);
        let rows2 = if in_range(px, v1, v2) {
            rows
        } else {
            rows.update(
                ctx as int,
                row_step(rows[ctx as int], p.ks, residual_of(px, v1, v2), p.halve_at),
            )
        };
        assert(rows_wf(rows2, p)) by {
            assert(row_step(
                rows[ctx as int],
                p.ks,
                residual_of(px, v1, v2),
                p.halve_at,
            ).len() == rows[ctx as int].len());
        }
        lemma_chan_body_len(chan, w, i + 1, rows2, p);
        assert((chan.len() - i) * c == c + (chan.len() - (i + 1)) * c) by {
            vstd::arithmetic::mul::lemma_mul_is_distributive_sub_other_way(
                c,
                chan.len() - i as int,
                1,
            );
        }
    }
}

/// A channel's whole code takes at most `64 + len * (max_context + 34)`
/// bits: the two verbatim fields and the bounded per-pixel codes. This lets
/// a caller discharge the compressor's stream-length precondition.
pub proof fn lemma_chan_bits_len(chan: Seq<i32>, w: nat, h: nat, p: ChanParams)
    requires
        params_wf(p),
        chan_vals_ok(chan, p),
        chan.len() == w * h,
    ensures
        chan_bits(chan, w, h, p).len() <= 64 + chan.len() * (p.max_context + 34),
{
    lemma_lit_bits_len(p.lit, 0);
    if chan.len() >= 1 {
        lemma_lit_bits_len(p.lit, chan[0]);
    }
    if chan.len() >= 2 {
        lemma_lit_bits_len(p.lit, chan[1]);
    }
    vstd::arithmetic::mul::lemma_mul_nonnegative(
        chan.len() as int,
        p.max_context as int + 34,
    );
    if !(w == 0 || h == 0 || w * h == 1) {
        assert(w >= 1) by {
            vstd::arithmetic::mul::lemma_mul_basics(h as int);
        }
        assert(chan.len() >= 2) by {
            vstd::arithmetic::mul::lemma_mul_ordering(w as int, h as int);
        }
        lemma_chan_body_len(chan, w, 2, est0(p), p);
        assert((chan.len() - 2) * (p.max_context as int + 34) <= chan.len() * (
        p.max_context as int + 34)) by {
            vstd::arithmetic::mul::lemma_mul_inequality(
                chan.len() - 2,
                chan.len() as int,
                p.max_context as int + 34,
            );
        }
    }
}

} // verus!
