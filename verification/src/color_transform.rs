//! The reversible YCoCg-R color transform: integer lifting steps that
//! decorrelate RGB channels and can be undone exactly. Halving steps are
//! floor divisions, so the spec's `/ 2` (Euclidean division by a positive
//! number) describes them directly.

use vstd::arithmetic::div_mod::{lemma_fundamental_div_mod, lemma_fundamental_div_mod_converse};
use vstd::prelude::*;

verus! {

/// The forward transform: `(R, G, B)` to `(Y, Co, Cg)`.
pub open spec fn ycocg_of(r: int, g: int, b: int) -> (int, int, int) {
    let co = r - b;
    let t = b + co / 2;
    let cg = g - t;
    let y = t + cg / 2;
    (y, co, cg)
}

/// The inverse transform: `(Y, Co, Cg)` to `(R, G, B)`.
pub open spec fn rgb_of(y: int, co: int, cg: int) -> (int, int, int) {
    let t = y - cg / 2;
    let g = cg + t;
    let b = t - co / 2;
    let r = b + co;
    (r, g, b)
}

/// The inverse transform undoes the forward transform exactly, on every
/// integer triple: each lifting step only adds or subtracts a value that is
/// available again when it is undone.
pub proof fn lemma_color_transform_exact(r: int, g: int, b: int)
    ensures
        rgb_of(ycocg_of(r, g, b).0, ycocg_of(r, g, b).1, ycocg_of(r, g, b).2) == (r, g, b),
{
}

/// For inputs within `[0, maxv]`, the luma stays within `[0, maxv]` and the
/// chroma components within `[-maxv, maxv]`.
pub proof fn lemma_ycocg_ranges(r: int, g: int, b: int, maxv: int)
    requires
        0 <= r <= maxv,
        0 <= g <= maxv,
        0 <= b <= maxv,
    ensures
        0 <= ycocg_of(r, g, b).0 <= maxv,
        -maxv <= ycocg_of(r, g, b).1 <= maxv,
        -maxv <= ycocg_of(r, g, b).2 <= maxv,
{
    let co = r - b;
    lemma_fundamental_div_mod(co, 2);
    vstd::arithmetic::div_mod::lemma_mod_bound(co, 2);
    let t = b + co / 2;
    assert(2 * t == r + b - co % 2);
    let cg = g - t;
    lemma_fundamental_div_mod(cg, 2);
    vstd::arithmetic::div_mod::lemma_mod_bound(cg, 2);
    let y = t + cg / 2;
    assert(2 * y == t + g - cg % 2);
}

/// Floor division of a signed value by two (an arithmetic shift right by
/// one).
fn div2_floor(v: i32) -> (r: i32)
    ensures
        r == (v as int) / 2,
{
    if v >= 0 {
        v / 2
    } else {
        let w: i64 = -(v as i64);
        let q: i64 = (w + 1) / 2;
        proof {
            lemma_fundamental_div_mod(w as int + 1, 2);
            let s = (w + 1) % 2;
            // v == 2 * (-q) + (1 - s), and 0 <= 1 - s < 2.
            lemma_fundamental_div_mod_converse(v as int, 2, -(q as int), 1 - s);
        }
        (-q) as i32
    }
}

/// Losslessy convert from the RGB color space to the YCoCg-R color space.
/// This esentially decorrelates the channels and improves compression.
///
/// For RGB signals with depth n, the bit depth of the Y signal will be n and
/// the bit depth of Co and Cg will be n+1. Because we encode images with a
/// bit depth of 8/16, we use i32 as an internal representation so that
/// overflows do not occur during this process.
pub fn rgb_to_ycocg(r: i32, g: i32, b: i32) -> (res: (i32, i32, i32))
    requires
        0 <= r <= 0xFFFF,
        0 <= g <= 0xFFFF,
        0 <= b <= 0xFFFF,
    ensures
        (res.0 as int, res.1 as int, res.2 as int) == ycocg_of(r as int, g as int, b as int),
        0 <= res.0 <= 0xFFFF,
        -0xFFFF <= res.1 <= 0xFFFF,
        -0xFFFF <= res.2 <= 0xFFFF,
        r <= 0xFF && g <= 0xFF && b <= 0xFF ==> {
            &&& 0 <= res.0 <= 0xFF
            &&& -0xFF <= res.1 <= 0xFF
            &&& -0xFF <= res.2 <= 0xFF
        },
{
    let co = r - b;
    proof {
        lemma_fundamental_div_mod(co as int, 2);
    }
    let t = b + div2_floor(co);
    let cg = g - t;
    proof {
        lemma_fundamental_div_mod(cg as int, 2);
    }
    let y = t + div2_floor(cg);
    (y, co, cg)
}

/// The opposite of `rgb_to_ycocg`.
pub fn ycocg_to_rgb(y: i32, co: i32, cg: i32) -> (res: (i32, i32, i32))
    requires
        -0x2000_0000 <= y <= 0x2000_0000,
        -0x2000_0000 <= co <= 0x2000_0000,
        -0x2000_0000 <= cg <= 0x2000_0000,
    ensures
        (res.0 as int, res.1 as int, res.2 as int) == rgb_of(y as int, co as int, cg as int),
{
    proof {
        lemma_fundamental_div_mod(cg as int, 2);
        lemma_fundamental_div_mod(co as int, 2);
    }
    let t = y - div2_floor(cg);
    let g = cg + t;
    let b = t - div2_floor(co);
    let r = b + co;
    (r, g, b)
}

} // verus!
