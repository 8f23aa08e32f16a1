//! Tileable lattice noise.
//!
//! The lattice value of a cell comes from FNV-1a over the seed and the
//! wrapped cell coordinates, so it is a pure function of its inputs: no
//! state, no order dependence, and the same result on every platform.
//! Coordinates wrap at the lattice period, which makes tiling a property of
//! the noise rather than a correction applied afterwards.

use vstd::prelude::*;
use vstd::string::*;

use crate::hashing::{FNV_OFFSET_BASIS, Fnv1a64, fnv_fold, le_bytes_u64};

verus! {

/// Most octaves a single call will accumulate.
pub const MAX_OCTAVES: u32 = 8;

/// A deterministic source of tileable noise.
#[derive(Debug, Clone, Copy, PartialEq, Eq, Structural)]
pub struct Noise {
    seed: u64,
}

/// A coordinate wrapped onto a lattice of `period` cells; a period of zero
/// is read as one.
pub open spec fn wrap_spec(value: i64, period: u32) -> i64 {
    let p = if period == 0 { 1int } else { period as int };
    ((value as int) % p) as i64
}

/// Wrap a coordinate onto a lattice of `period` cells.
pub fn wrap(value: i64, period: u32) -> (r: i64)
    ensures
        r == wrap_spec(value, period),
        0 <= r < if period == 0 { 1int } else { period as int },
{
    let p: i64 = if period == 0 { 1 } else { period as i64 };
    match value.checked_rem_euclid(p) {
        Some(r) => r,
        None => {
            proof {
                assert(false);
            }
            0
        },
    }
}

/// The seed of a named stream derived from `seed`.
pub open spec fn stream_seed(seed: u64, label: Seq<u8>) -> u64 {
    fnv_fold(fnv_fold(FNV_OFFSET_BASIS, le_bytes_u64(seed)), label)
}

/// The lattice value of a cell whose wrapped coordinates are `(x, y)`.
pub open spec fn lattice_spec(seed: u64, x: i64, y: i64) -> u64 {
    fnv_fold(
        fnv_fold(fnv_fold(FNV_OFFSET_BASIS, le_bytes_u64(seed)), le_bytes_u64(x as u64)),
        le_bytes_u64(y as u64),
    )
}

impl Noise {
    /// The field's seed.
    pub closed spec fn spec_seed(self) -> u64 {
        self.seed
    }

    /// A noise field for a seed.
    pub fn new(seed: u64) -> (n: Self)
        ensures
            n.spec_seed() == seed,
    {
        Noise { seed }
    }

    /// A related but independent field, named rather than numbered, so that
    /// removing one field from a recipe leaves the others as they were.
    pub fn stream(self, label: &str) -> (n: Self)
        ensures
            n.spec_seed() == stream_seed(self.spec_seed(), label.spec_bytes()),
    {
        let mut hasher = Fnv1a64::new();
        hasher.write_u64(self.seed);
        hasher.write_str(label);
        Noise { seed: hasher.finish() }
    }

    /// The raw lattice value of one cell. Coordinates wrap, so the cell to
    /// the right of the last one is the first.
    pub fn lattice(self, x: i64, y: i64, period_x: u32, period_y: u32) -> (v: u64)
        ensures
            v == lattice_spec(self.spec_seed(), wrap_spec(x, period_x), wrap_spec(y, period_y)),
    {
        let wrapped_x = wrap(x, period_x);
        let wrapped_y = wrap(y, period_y);
        let mut hasher = Fnv1a64::new();
        hasher.write_u64(self.seed);
        hasher.write_u64(wrapped_x as u64);
        hasher.write_u64(wrapped_y as u64);
        hasher.finish()
    }
}

/// The lattice tiles: a cell one period further along on either axis has
/// the same value, which is what makes a texture drawn from it seamless.
pub proof fn lemma_lattice_tiles(seed: u64, x: i64, y: i64, period_x: u32, period_y: u32)
    requires
        period_x >= 1,
        period_y >= 1,
        x + period_x <= i64::MAX,
        y + period_y <= i64::MAX,
    ensures
        wrap_spec((x + period_x) as i64, period_x) == wrap_spec(x, period_x),
        wrap_spec((y + period_y) as i64, period_y) == wrap_spec(y, period_y),
        lattice_spec(seed, wrap_spec((x + period_x) as i64, period_x), wrap_spec(y, period_y))
            == lattice_spec(seed, wrap_spec(x, period_x), wrap_spec(y, period_y)),
        lattice_spec(seed, wrap_spec(x, period_x), wrap_spec((y + period_y) as i64, period_y))
            == lattice_spec(seed, wrap_spec(x, period_x), wrap_spec(y, period_y)),
{
    vstd::arithmetic::div_mod::lemma_mod_add_multiples_vanish(x as int, period_x as int);
    vstd::arithmetic::div_mod::lemma_mod_add_multiples_vanish(y as int, period_y as int);
}

} // verus!
