//! The preview's geometry: how many tiles it shows, and how far a large
//! material is reduced to keep the image under its size cap.

use vstd::prelude::*;
use vstd::arithmetic::power2::{pow2, lemma2_to64, lemma_pow2_pos, lemma_pow2_strictly_increases};
use vstd::arithmetic::div_mod::{lemma_div_is_ordered_by_denominator};

verus! {

/// How many copies of the material appear along each axis.
///
/// Two, so both seams cross the middle of the image.
pub const TILES: u32 = 2;

/// Largest preview edge, in pixels. A bound on cost, not a judgement about
/// detail.
pub const MAX_EDGE: u32 = 256;

/// Renders previews.
#[derive(Debug, Clone, Copy, Default, PartialEq, Eq, Structural)]
pub struct PreviewRenderer;

impl PreviewRenderer {
    /// A renderer.
    pub fn new() -> (r: Self)
        ensures
            r == PreviewRenderer,
    {
        PreviewRenderer
    }
}

/// The whole-number reduction of a tiled edge: the smallest power of two
/// that brings `TILES * edge` under [`MAX_EDGE`].
pub open spec fn is_reduction(edge: u32, factor: u32) -> bool {
    exists|k: nat|
        #![trigger pow2(k)]
        factor == pow2(k) && (edge * TILES) / (factor as int) <= MAX_EDGE && (k == 0 || (edge
            * TILES) / (pow2((k - 1) as nat) as int) > MAX_EDGE)
}

/// The whole-number factor that brings `TILES * edge` under [`MAX_EDGE`].
pub fn reduction(edge: u32) -> (factor: u32)
    requires
        edge * TILES <= u32::MAX,
    ensures
        is_reduction(edge, factor),
{
    let tiled = edge * TILES;
    let mut factor: u32 = 1;
    let ghost mut k: nat = 0;
    proof {
        lemma2_to64();
    }
    while tiled / factor > MAX_EDGE
        invariant
            tiled == edge * TILES,
            tiled <= u32::MAX,
            factor == pow2(k),
            factor >= 1,
            k <= 25,
            k == 0 || (tiled as int) / (pow2((k - 1) as nat) as int) > MAX_EDGE,
        decreases 25 - k,
    {
        proof {
            lemma2_to64();
            if k >= 25 {
                if k > 25 {
                    lemma_pow2_strictly_increases(25, k);
                }
                lemma_div_is_ordered_by_denominator(tiled as int, pow2(25) as int, factor as int);
                assert((tiled as int) / (pow2(25) as int) <= MAX_EDGE);
                assert(false);
            }
            if k < 24 {
                lemma_pow2_strictly_increases(k, 24);
            }
            assert(pow2(k + 1) == 2 * pow2(k)) by {
                vstd::arithmetic::power2::lemma_pow2_unfold(k + 1);
            }
        }
        factor = factor * 2;
        proof {
            k = k + 1;
        }
    }
    proof {
        assert(tiled as int == edge * TILES);
    }
    factor
}

} // verus!
