//! The two nearest already-coded neighbours of a pixel under a raster scan,
//! with the boundary rules along the top and left edges.

use vstd::arithmetic::div_mod::lemma_fundamental_div_mod;
use vstd::prelude::*;

verus! {

/// The two nearest coded neighbours of linear index `i` in a channel of
/// width `w`, or `None` for the first pixels of the scan that have no
/// context.
pub open spec fn neighbours_spec(i: nat, w: nat) -> Option<(nat, nat)>
    recommends
        w >= 1,
{
    let x = i % w;
    let y = i / w;
    if x > 0 && y > 0 {
        Some(((i - 1) as nat, (i - w) as nat))
    } else if y == 0 {
        if x >= 2 {
            Some(((i - 1) as nat, (i - 2) as nat))
        } else {
            None
        }
    } else if y >= 2 {
        Some(((i - w) as nat, (i - 2 * w) as nat))
    } else if x + 1 < w {
        Some(((i - w) as nat, (i - w + 1) as nat))
    } else {
        None
    }
}

/// Every neighbour returned lies strictly before `i` in the raster scan.
pub proof fn lemma_neighbours_bounds(i: nat, w: nat)
    requires
        w >= 1,
    ensures
        neighbours_spec(i, w) matches Some((a, b)) ==> a < i && b < i,
{
    lemma_fundamental_div_mod(i as int, w as int);
    let x = i % w;
    let y = i / w;
    assert(i == w * y + x);
    if y >= 1 {
        assert(w * 1 <= w * y) by {
            vstd::arithmetic::mul::lemma_mul_inequality(1, y as int, w as int);
            vstd::arithmetic::mul::lemma_mul_is_commutative(w as int, y as int);
        }
    }
    if y >= 2 {
        assert(w * 2 <= w * y) by {
            vstd::arithmetic::mul::lemma_mul_inequality(2, y as int, w as int);
            vstd::arithmetic::mul::lemma_mul_is_commutative(w as int, y as int);
        }
    }
}

/// From the third pixel of the scan on, there are always two coded
/// neighbours.
pub proof fn lemma_neighbours_some(i: nat, w: nat)
    requires
        w >= 1,
        i >= 2,
    ensures
        neighbours_spec(i, w) is Some,
{
    lemma_fundamental_div_mod(i as int, w as int);
    let x = i % w;
    let y = i / w;
    assert(i == w * y + x);
    if x == 0 && y == 1 {
        assert(w * 1 == w) by {
            vstd::arithmetic::mul::lemma_mul_basics(w as int);
        }
        assert(i == w);
    }
    if y == 0 {
        assert(w * 0 == 0) by {
            vstd::arithmetic::mul::lemma_mul_basics(w as int);
        }
        assert(x == i);
    }
}

/// Returns the two nearest neighbours of a pixel in a given image, that have
/// already been visited in a raster scan.
///
/// Except along the top and left edges, these are the pixel above and the
/// pixel to the left of the pixel.
pub fn nearest_neighbours(i: usize, width: usize) -> (r: Option<(usize, usize)>)
    requires
        width >= 1,
    ensures
        match neighbours_spec(i as nat, width as nat) {
            Some((a, b)) => r == Some((a as usize, b as usize)),
            None => r is None,
        },
{
    let x = i % width;
    let y = i / width;
    proof {
        lemma_fundamental_div_mod(i as int, width as int);
        lemma_neighbours_bounds(i as nat, width as nat);
        assert(i == width * y + x);
        if y >= 1 {
            assert(width * 1 <= width * y) by {
                vstd::arithmetic::mul::lemma_mul_inequality(1, y as int, width as int);
                vstd::arithmetic::mul::lemma_mul_is_commutative(width as int, y as int);
            }
        }
        if y >= 2 {
            assert(width * 2 <= width * y) by {
                vstd::arithmetic::mul::lemma_mul_inequality(2, y as int, width as int);
                vstd::arithmetic::mul::lemma_mul_is_commutative(width as int, y as int);
            }
        }
    }

    if x > 0 && y > 0 {
        Some((i - 1, i - width))
    } else if y == 0 {
        if x >= 2 {
            Some((i - 1, i - 2))
        } else {
            None
        }
    } else if y >= 2 {
        Some((i - width, i - 2 * width))
    } else if (x + 1) < width {
        Some((i - width, i - width + 1))
    } else {
        None
    }
}

} // verus!
