//! The procedural generator's identity and the seeds it renders with.
//!
//! A render is reproducible only while the seed it used can be derived
//! again. Every seed here is FNV-1a over the inputs that define the surface,
//! the generator's algorithm version and the seed that was asked for, so two
//! different materials asked for with the same seed do not come out
//! identical, and the same request always renders the same pixels.

use vstd::prelude::*;
use vstd::string::*;

use crate::hashing::{FNV_OFFSET_BASIS, Fnv1a64, fnv_fold, le_bytes_u64};
use crate::ident::{IdentError, Identifier, chars_all, lemma_valid_by_parts};

verus! {

/// The procedural generator's stable identifier.
pub const PROCEDURAL_GENERATOR: &'static str = "nexora:generator/procedural";

/// The procedural generator's algorithm version. Anything that changes a
/// pixel changes this number.
pub const PROCEDURAL_VERSION: u32 = 1;

/// Who authored the content this generator produces.
pub const AUTHOR: &'static str = "NEXORA";

/// The seed a material renders with: FNV-1a over its identifier's text, its
/// appearance hash, the algorithm version and the requested seed.
pub open spec fn effective_seed_spec(id: Seq<char>, appearance: u64, requested: u64) -> u64 {
    fnv_fold(
        fnv_fold(
            fnv_fold(
                fnv_fold(FNV_OFFSET_BASIS, vstd::utf8::encode_utf8(id)),
                le_bytes_u64(appearance),
            ),
            le_bytes_u64(PROCEDURAL_VERSION as u64),
        ),
        le_bytes_u64(requested),
    )
}

/// The seed a variant renders with: FNV-1a over the word `variant`, the
/// source material's identifier, the variant index, the algorithm version
/// and the requested seed.
pub open spec fn variant_seed_spec(of: Seq<char>, index: u32, requested: u64) -> u64 {
    fnv_fold(
        fnv_fold(
            fnv_fold(
                fnv_fold(
                    fnv_fold(FNV_OFFSET_BASIS, vstd::utf8::encode_utf8("variant"@)),
                    vstd::utf8::encode_utf8(of),
                ),
                le_bytes_u64(index as u64),
            ),
            le_bytes_u64(PROCEDURAL_VERSION as u64),
        ),
        le_bytes_u64(requested),
    )
}

/// Turns a material definition into pixels, from numbers alone.
#[derive(Debug)]
pub struct ProceduralGenerator {
    id: Identifier,
}

impl ProceduralGenerator {
    /// The generator's identifier.
    pub closed spec fn spec_id(&self) -> Seq<char> {
        self.id@
    }

    /// Build the generator, named [`PROCEDURAL_GENERATOR`].
    pub fn new() -> (r: Result<Self, IdentError>)
        ensures
            r matches Ok(g) && g.spec_id() == PROCEDURAL_GENERATOR@,
    {
        proof {
            reveal_strlit("nexora:generator/procedural");
            reveal_with_fuel(chars_all, 22);
            lemma_valid_by_parts(PROCEDURAL_GENERATOR@, 6);
        }
        match Identifier::parse(PROCEDURAL_GENERATOR) {
            Ok(id) => Ok(ProceduralGenerator { id }),
            Err(e) => Err(e),
        }
    }

    /// The generator's identifier.
    pub fn id(&self) -> (r: &Identifier)
        ensures
            r@ == self.spec_id(),
    {
        &self.id
    }

    /// The seed a request to generate a material renders with, derived from
    /// the material's identifier and appearance hash as well as the requested
    /// seed, so that two different materials asked for with seed `0` do not
    /// come out identical.
    pub fn effective_seed(id: &Identifier, appearance_hash: u64, requested: u64) -> (r: u64)
        ensures
            r == effective_seed_spec(id@, appearance_hash, requested),
    {
        let mut hasher = Fnv1a64::new();
        hasher.write_str(id.as_str());
        hasher.write_u64(appearance_hash);
        hasher.write_u64(PROCEDURAL_VERSION as u64);
        hasher.write_u64(requested);
        hasher.finish()
    }

    /// The seed a variant renders with. It depends on the material the
    /// variant is varied from and the variant's index, not on the variant's
    /// own identifier: two materials both claiming to be variant 3 of the
    /// same source are the same surface.
    pub fn variant_seed(of: &Identifier, index: u32, requested: u64) -> (r: u64)
        ensures
            r == variant_seed_spec(of@, index, requested),
    {
        let mut hasher = Fnv1a64::new();
        hasher.write_str("variant");
        hasher.write_str(of.as_str());
        hasher.write_u64(index as u64);
        hasher.write_u64(PROCEDURAL_VERSION as u64);
        hasher.write_u64(requested);
        hasher.finish()
    }
}

} // verus!
