//! World serialization.
//!
//! A save stores namespaced identifiers, never runtime ids. Runtime ids
//! depend on which content happened to register first; writing them into a
//! chunk would let installing or removing a mod silently turn every stone
//! block into whatever now occupies that integer. So a save carries a palette
//! of identifiers, chunk data indexes into that palette, and loading remaps
//! those indices onto the current registry, failing loudly when an
//! identifier no longer exists.
//!
//! Chunk data is a count of chunks, then for each its column, a count of
//! sections and each section: its `y`, a storage tag and the storage's parts.

use vstd::prelude::*;
use vstd::utf8::encode_utf8;

use crate::chunk::{Chunk, ChunkState, lookup};
use crate::container::{SaveContainer, section_of};
use crate::error::{Recovery, join};
use crate::codec::{
    CodecError,
    Reader,
    Writer,
    le_bytes_u32,
    rd_i64,
    rd_string,
    rd_u32,
    string_bytes,
    rd_u64,
    rd_u8,
    u32_at,
    lemma_rd_u32,
    lemma_rd_string,
    lemma_rd_u64,
    lemma_split,
};
use crate::hashing::le_bytes_u64;
use crate::ident::{IdentError, Identifier, valid_identifier};
use crate::spatial::{ChunkCoord, ChunkShape, MAX_SECTION_EDGE, SpatialError};
use crate::time::{CalendarConfig, TimeError, WorldTime};
use crate::voxel::{
    BlockStateId,
    PartsView,
    Section,
    SectionParts,
    VoxelError,
    first_uncovered,
    packed_at,
    parts_cell,
    parts_fit,
    parts_problem,
    parts_states,
    remapped_cells,
};
use crate::world::{World, WorldBounds, WorldDescriptor, WorldError, WorldId, WorldPhase, builtin_blocks};

verus! {

/// Section holding world identity, seed, bounds, clock and calendar.
pub const SECTION_WORLD_HEADER: &'static str = "nexora:save/world_header";

/// Section holding the identifier palette that chunk data indexes into.
pub const SECTION_BLOCK_PALETTE: &'static str = "nexora:save/block_palette";

/// Section holding every resident chunk.
pub const SECTION_CHUNKS: &'static str = "nexora:save/chunks";

/// Storage tag for a uniform section.
pub const TAG_UNIFORM: u8 = 0;

/// Storage tag for a paletted section.
pub const TAG_PALETTED: u8 = 1;

/// Storage tag for a direct section.
pub const TAG_DIRECT: u8 = 2;

/// Why a save could not be read.
#[derive(Debug, Clone, PartialEq, Eq)]
pub enum PersistError {
    /// The bytes ran out, held text that is not UTF-8, or held bytes past
    /// the last value.
    Codec(CodecError),
    /// A section's storage tag is not one this build writes.
    UnknownStorageTag { tag: u8 },
    /// A directly stored section does not hold one state per cell.
    ShapeMismatch { expected: usize, found: u32 },
    /// A section's parts are inconsistent.
    Voxel(VoxelError),
    /// Chunk data names a palette entry the save does not contain.
    UnknownPaletteIndex { index: u32, palette_len: usize },
    /// A container has no section of this name.
    MissingSection { name: String },
    /// The save names block content this build does not register.
    MissingContent { name: String },
    /// A saved name is not an identifier.
    Ident(IdentError),
    /// The saved section extent is invalid.
    Spatial(SpatialError),
    /// The saved calendar is invalid.
    Time(TimeError),
    /// The saved world description is invalid.
    World(WorldError),
    /// The container's bytes do not begin with the save format's mark.
    NotASave,
    /// The container was written in a layout this build does not read.
    UnsupportedFormat { version: u32 },
}

/// The text of a codec error.
pub open spec fn codec_error_text(e: CodecError) -> Seq<char> {
    match e {
        CodecError::Truncated { .. } => "the save data ends before the value being read"@,
        CodecError::InvalidText => "the save data holds text that is not UTF-8"@,
        CodecError::TrailingBytes { .. } => "the save data holds bytes past its last value"@,
    }
}

/// The text of a persistence error. A missing section or missing content
/// is named.
pub open spec fn persist_error_text(e: PersistError) -> Seq<char> {
    match e {
        PersistError::Codec(c) => codec_error_text(c),
        PersistError::UnknownStorageTag { .. } => "unknown section storage tag"@,
        PersistError::ShapeMismatch { .. } => "a stored section does not match the world's chunk shape"@,
        PersistError::Voxel(v) => crate::voxel::voxel_error_text(v),
        PersistError::UnknownPaletteIndex { .. } => "chunk data references a palette entry the save does not contain"@,
        PersistError::MissingSection { name } => "the save has no section named "@ + name@,
        PersistError::MissingContent { name } => "the save references block content that is not registered in this build: "@
            + name@,
        PersistError::Ident(_) => "a saved name is not an identifier"@,
        PersistError::Spatial(_) => "the saved section extent is out of range"@,
        PersistError::Time(_) => "the saved calendar has a zero field"@,
        PersistError::World(w) => crate::world::world_error_text(w),
        PersistError::NotASave => "the bytes are not a save"@,
        PersistError::UnsupportedFormat { .. } => "the save was written in a layout this build does not read"@,
    }
}

impl PersistError {
    /// A description of the error, naming the section or block it is about.
    pub fn message(&self) -> (r: String)
        ensures
            r@ == persist_error_text(*self),
    {
        match self {
            PersistError::Codec(CodecError::Truncated { .. }) => "the save data ends before the value being read".to_owned(),
            PersistError::Codec(CodecError::InvalidText) => "the save data holds text that is not UTF-8".to_owned(),
            PersistError::Codec(CodecError::TrailingBytes { .. }) => "the save data holds bytes past its last value".to_owned(),
            PersistError::UnknownStorageTag { .. } => "unknown section storage tag".to_owned(),
            PersistError::ShapeMismatch { .. } => "a stored section does not match the world's chunk shape".to_owned(),
            PersistError::Voxel(v) => v.message(),
            PersistError::UnknownPaletteIndex { .. } => "chunk data references a palette entry the save does not contain".to_owned(),
            PersistError::MissingSection { name } => join("the save has no section named ", name.as_str()),
            PersistError::MissingContent { name } => join(
                "the save references block content that is not registered in this build: ",
                name.as_str(),
            ),
            PersistError::Ident(_) => "a saved name is not an identifier".to_owned(),
            PersistError::Spatial(_) => "the saved section extent is out of range".to_owned(),
            PersistError::Time(_) => "the saved calendar has a zero field".to_owned(),
            PersistError::World(w) => w.message(),
            PersistError::NotASave => "the bytes are not a save".to_owned(),
            PersistError::UnsupportedFormat { .. } => "the save was written in a layout this build does not read".to_owned(),
        }
    }

    /// What a caller can do about this error: every refusal to load is
    /// about the data, which must be set aside rather than repaired.
    pub fn recovery(&self) -> (r: Recovery)
        ensures
            r == Recovery::Quarantine,
    {
        Recovery::Quarantine
    }
}

/// A list of state ids, four bytes each.
pub open spec fn u32s_bytes(states: Seq<BlockStateId>) -> Seq<u8>
    decreases states.len(),
{
    if states.len() == 0 {
        Seq::empty()
    } else {
        u32s_bytes(states.drop_last()) + le_bytes_u32(states.last().0)
    }
}

/// A list of packed words, eight bytes each.
pub open spec fn u64s_bytes(words: Seq<u64>) -> Seq<u8>
    decreases words.len(),
{
    if words.len() == 0 {
        Seq::empty()
    } else {
        u64s_bytes(words.drop_last()) + le_bytes_u64(words.last())
    }
}

/// A section's storage: its tag, then its parts.
pub open spec fn parts_bytes(parts: PartsView) -> Seq<u8> {
    match parts {
        PartsView::Uniform(s) => seq![TAG_UNIFORM] + le_bytes_u32(s.0),
        PartsView::Paletted { palette, bits, words } => seq![TAG_PALETTED] + le_bytes_u32(
            palette.len() as u32,
        ) + u32s_bytes(palette) + seq![bits] + le_bytes_u32(words.len() as u32) + u64s_bytes(words),
        PartsView::Direct(cells) => seq![TAG_DIRECT] + le_bytes_u32(cells.len() as u32) + u32s_bytes(
            cells,
        ),
    }
}

/// What reading `n` state ids at `p` gives.
pub open spec fn rd_states(s: Seq<u8>, p: int, n: nat) -> Result<(Seq<BlockStateId>, int), CodecError>
    decreases n,
{
    if n == 0 {
        Ok((Seq::empty(), p))
    } else {
        match rd_states(s, p, (n - 1) as nat) {
            Err(e) => Err(e),
            Ok((v, q)) => match rd_u32(s, q) {
                Err(e) => Err(e),
                Ok((x, q2)) => Ok((v.push(BlockStateId(x)), q2)),
            },
        }
    }
}

/// What reading `n` packed words at `p` gives.
pub open spec fn rd_words(s: Seq<u8>, p: int, n: nat) -> Result<(Seq<u64>, int), CodecError>
    decreases n,
{
    if n == 0 {
        Ok((Seq::empty(), p))
    } else {
        match rd_words(s, p, (n - 1) as nat) {
            Err(e) => Err(e),
            Ok((v, q)) => match rd_u64(s, q) {
                Err(e) => Err(e),
                Ok((x, q2)) => Ok((v.push(x), q2)),
            },
        }
    }
}

/// What reading a section's storage at `p` gives.
pub open spec fn rd_parts(s: Seq<u8>, p: int, shape: ChunkShape) -> Result<(PartsView, int), PersistError> {
    match rd_u8(s, p) {
        Err(e) => Err(PersistError::Codec(e)),
        Ok((tag, q)) => if tag == TAG_UNIFORM {
            match rd_u32(s, q) {
                Err(e) => Err(PersistError::Codec(e)),
                Ok((v, r)) => Ok((PartsView::Uniform(BlockStateId(v)), r)),
            }
        } else if tag == TAG_PALETTED {
            match rd_u32(s, q) {
                Err(e) => Err(PersistError::Codec(e)),
                Ok((len, q1)) => match rd_states(s, q1, len as nat) {
                    Err(e) => Err(PersistError::Codec(e)),
                    Ok((palette, q2)) => match rd_u8(s, q2) {
                        Err(e) => Err(PersistError::Codec(e)),
                        Ok((bits, q3)) => match rd_u32(s, q3) {
                            Err(e) => Err(PersistError::Codec(e)),
                            Ok((wlen, q4)) => match rd_words(s, q4, wlen as nat) {
                                Err(e) => Err(PersistError::Codec(e)),
                                Ok((words, q5)) => Ok(
                                    (PartsView::Paletted { palette, bits, words }, q5),
                                ),
                            },
                        },
                    },
                },
            }
        } else if tag == TAG_DIRECT {
            match rd_u32(s, q) {
                Err(e) => Err(PersistError::Codec(e)),
                Ok((count, q1)) => if count != shape.spec_volume() {
                    Err(
                        PersistError::ShapeMismatch {
                            expected: shape.spec_volume() as usize,
                            found: count,
                        },
                    )
                } else {
                    match rd_states(s, q1, count as nat) {
                        Err(e) => Err(PersistError::Codec(e)),
                        Ok((cells, q2)) => Ok((PartsView::Direct(cells), q2)),
                    }
                },
            }
        } else {
            Err(PersistError::UnknownStorageTag { tag })
        },
    }
}

/// Write state ids, four bytes each.
fn write_states(out: &mut Writer, states: &Vec<BlockStateId>)
    ensures
        final(out)@ == old(out)@ + u32s_bytes(states@),
{
    let ghost start = out@;
    let mut i: usize = 0;
    while i < states.len()
        invariant
            i <= states@.len(),
            out@ == start + u32s_bytes(states@.take(i as int)),
        decreases states.len() - i,
    {
        proof {
            assert(states@.take(i + 1).drop_last() =~= states@.take(i as int));
        }
        out.u32(states[i].0);
        i += 1;
        proof {
            assert(out@ =~= start + u32s_bytes(states@.take(i as int)));
        }
    }
    proof {
        assert(states@.take(i as int) =~= states@);
    }
}

/// Write packed words, eight bytes each.
fn write_words(out: &mut Writer, words: &Vec<u64>)
    ensures
        final(out)@ == old(out)@ + u64s_bytes(words@),
{
    let ghost start = out@;
    let mut i: usize = 0;
    while i < words.len()
        invariant
            i <= words@.len(),
            out@ == start + u64s_bytes(words@.take(i as int)),
        decreases words.len() - i,
    {
        proof {
            assert(words@.take(i + 1).drop_last() =~= words@.take(i as int));
        }
        out.u64(words[i]);
        i += 1;
        proof {
            assert(out@ =~= start + u64s_bytes(words@.take(i as int)));
        }
    }
    proof {
        assert(words@.take(i as int) =~= words@);
    }
}

/// Write a section's storage: its tag, then its parts.
fn write_parts(out: &mut Writer, parts: &SectionParts)
    ensures
        final(out)@ == old(out)@ + parts_bytes(parts@),
{
    let ghost start = out@;
    match parts {
        SectionParts::Uniform(state) => {
            out.u8(TAG_UNIFORM);
            out.u32(state.0);
        },
        SectionParts::Paletted { palette, bits, words } => {
            out.u8(TAG_PALETTED);
            out.u32(palette.len() as u32);
            write_states(out, palette);
            out.u8(*bits);
            out.u32(words.len() as u32);
            write_words(out, words);
        },
        SectionParts::Direct(cells) => {
            out.u8(TAG_DIRECT);
            out.u32(cells.len() as u32);
            write_states(out, cells);
        },
    }
    proof {
        assert(out@ =~= start + parts_bytes(parts@));
    }
}

/// Read `n` state ids.
fn read_states(reader: &mut Reader, n: u32) -> (r: Result<Vec<BlockStateId>, CodecError>)
    requires
        old(reader).wf(),
    ensures
        final(reader).wf(),
        final(reader).spec_bytes() == old(reader).spec_bytes(),
        match rd_states(old(reader).spec_bytes(), old(reader).spec_pos(), n as nat) {
            Ok((v, q)) => r matches Ok(states) && states@ == v && final(reader).spec_pos() == q,
            Err(e) => r == Err::<Vec<BlockStateId>, CodecError>(e),
        },
{
    let ghost s = reader.spec_bytes();
    let ghost p = reader.spec_pos();
    let mut states: Vec<BlockStateId> = Vec::new();
    let mut i: u32 = 0;
    while i < n
        invariant
            reader.wf(),
            reader.spec_bytes() == s,
            s == old(reader).spec_bytes(),
            p == old(reader).spec_pos(),
            i <= n,
            rd_states(s, p, i as nat) == Ok::<(Seq<BlockStateId>, int), CodecError>(
                (states@, reader.spec_pos()),
            ),
        decreases n - i,
    {
        let x = match reader.u32() {
            Ok(x) => x,
            Err(e) => {
                proof {
                    lemma_rd_states_stops(s, p, (i + 1) as nat, n as nat);
                }
                return Err(e);
            },
        };
        states.push(BlockStateId(x));
        i += 1;
        proof {
            assert(rd_states(s, p, i as nat) == Ok::<(Seq<BlockStateId>, int), CodecError>(
                (states@, reader.spec_pos()),
            ));
        }
    }
    Ok(states)
}

/// A list read that fails partway fails as a whole.
proof fn lemma_rd_states_stops(s: Seq<u8>, p: int, k: nat, n: nat)
    requires
        k <= n,
        rd_states(s, p, k) is Err,
    ensures
        rd_states(s, p, n) == rd_states(s, p, k),
    decreases n - k,
{
    if k < n {
        lemma_rd_states_stops(s, p, k, (n - 1) as nat);
    }
}

/// A list read that fails partway fails as a whole.
proof fn lemma_rd_words_stops(s: Seq<u8>, p: int, k: nat, n: nat)
    requires
        k <= n,
        rd_words(s, p, k) is Err,
    ensures
        rd_words(s, p, n) == rd_words(s, p, k),
    decreases n - k,
{
    if k < n {
        lemma_rd_words_stops(s, p, k, (n - 1) as nat);
    }
}

/// Read `n` packed words.
fn read_words(reader: &mut Reader, n: u32) -> (r: Result<Vec<u64>, CodecError>)
    requires
        old(reader).wf(),
    ensures
        final(reader).wf(),
        final(reader).spec_bytes() == old(reader).spec_bytes(),
        match rd_words(old(reader).spec_bytes(), old(reader).spec_pos(), n as nat) {
            Ok((v, q)) => r matches Ok(words) && words@ == v && final(reader).spec_pos() == q,
            Err(e) => r == Err::<Vec<u64>, CodecError>(e),
        },
{
    let ghost s = reader.spec_bytes();
    let ghost p = reader.spec_pos();
    let mut words: Vec<u64> = Vec::new();
    let mut i: u32 = 0;
    while i < n
        invariant
            reader.wf(),
            reader.spec_bytes() == s,
            s == old(reader).spec_bytes(),
            p == old(reader).spec_pos(),
            i <= n,
            rd_words(s, p, i as nat) == Ok::<(Seq<u64>, int), CodecError>(
                (words@, reader.spec_pos()),
            ),
        decreases n - i,
    {
        let x = match reader.u64() {
            Ok(x) => x,
            Err(e) => {
                proof {
                    lemma_rd_words_stops(s, p, (i + 1) as nat, n as nat);
                }
                return Err(e);
            },
        };
        words.push(x);
        i += 1;
    }
    Ok(words)
}

/// Read a section's storage: its tag, then its parts.
fn read_parts(reader: &mut Reader, shape: ChunkShape) -> (r: Result<SectionParts, PersistError>)
    requires
        old(reader).wf(),
        shape.wf(),
    ensures
        final(reader).wf(),
        final(reader).spec_bytes() == old(reader).spec_bytes(),
        match rd_parts(old(reader).spec_bytes(), old(reader).spec_pos(), shape) {
            Ok((parts, q)) => r matches Ok(sp) && sp@ == parts && final(reader).spec_pos() == q,
            Err(e) => r == Err::<SectionParts, PersistError>(e),
        },
{
    let tag = match reader.u8() {
        Ok(t) => t,
        Err(e) => {
            return Err(PersistError::Codec(e));
        },
    };
    if tag == TAG_UNIFORM {
        match reader.u32() {
            Ok(v) => Ok(SectionParts::Uniform(BlockStateId(v))),
            Err(e) => Err(PersistError::Codec(e)),
        }
    } else if tag == TAG_PALETTED {
        let len = match reader.u32() {
            Ok(v) => v,
            Err(e) => {
                return Err(PersistError::Codec(e));
            },
        };
        let palette = match read_states(reader, len) {
            Ok(v) => v,
            Err(e) => {
                return Err(PersistError::Codec(e));
            },
        };
        let bits = match reader.u8() {
            Ok(v) => v,
            Err(e) => {
                return Err(PersistError::Codec(e));
            },
        };
        let wlen = match reader.u32() {
            Ok(v) => v,
            Err(e) => {
                return Err(PersistError::Codec(e));
            },
        };
        let words = match read_words(reader, wlen) {
            Ok(v) => v,
            Err(e) => {
                return Err(PersistError::Codec(e));
            },
        };
        Ok(SectionParts::Paletted { palette, bits, words })
    } else if tag == TAG_DIRECT {
        let count = match reader.u32() {
            Ok(v) => v,
            Err(e) => {
                return Err(PersistError::Codec(e));
            },
        };
        let volume = shape.volume();
        if count as usize != volume {
            return Err(PersistError::ShapeMismatch { expected: volume, found: count });
        }
        match read_states(reader, count) {
            Ok(cells) => Ok(SectionParts::Direct(cells)),
            Err(e) => Err(PersistError::Codec(e)),
        }
    } else {
        Err(PersistError::UnknownStorageTag { tag })
    }
}

/// What stops a section's parts from becoming a section under `table`:
/// inconsistent parts, or a recorded state the table has no entry for,
/// checked in that order. Packed indices past the palette are no obstacle:
/// those cells read as air.
pub open spec fn convert_problem(shape: ChunkShape, parts: PartsView, table: Seq<BlockStateId>) -> Option<
    PersistError,
> {
    match parts_problem(shape, parts) {
        Some(e) => Some(PersistError::Voxel(e)),
        None => match first_uncovered(parts_states(parts), table.len() as int) {
            Some(id) => Some(
                PersistError::UnknownPaletteIndex { index: id, palette_len: table.len() as usize },
            ),
            None => None,
        },
    }
}

/// What reading `n` sections at `p` gives: each a `y` and storage parts that
/// convert under `table`.
pub open spec fn rd_sections(
    s: Seq<u8>,
    p: int,
    shape: ChunkShape,
    table: Seq<BlockStateId>,
    n: nat,
) -> Result<(Seq<(i64, PartsView)>, int), PersistError>
    decreases n,
{
    if n == 0 {
        Ok((Seq::empty(), p))
    } else {
        match rd_sections(s, p, shape, table, (n - 1) as nat) {
            Err(e) => Err(e),
            Ok((secs, q)) => match rd_i64(s, q) {
                Err(e) => Err(PersistError::Codec(e)),
                Ok((y, q1)) => match rd_parts(s, q1, shape) {
                    Err(e) => Err(e),
                    Ok((parts, q2)) => match convert_problem(shape, parts, table) {
                        Some(e) => Err(e),
                        None => Ok((secs.push((y, parts)), q2)),
                    },
                },
            },
        }
    }
}

/// What reading one chunk at `p` gives: its column and its sections.
pub open spec fn rd_chunk(s: Seq<u8>, p: int, shape: ChunkShape, table: Seq<BlockStateId>) -> Result<
    ((ChunkCoord, Seq<(i64, PartsView)>), int),
    PersistError,
> {
    match rd_i64(s, p) {
        Err(e) => Err(PersistError::Codec(e)),
        Ok((x, q1)) => match rd_i64(s, q1) {
            Err(e) => Err(PersistError::Codec(e)),
            Ok((z, q2)) => match rd_u32(s, q2) {
                Err(e) => Err(PersistError::Codec(e)),
                Ok((n, q3)) => match rd_sections(s, q3, shape, table, n as nat) {
                    Err(e) => Err(e),
                    Ok((secs, q4)) => Ok(((ChunkCoord { x, z }, secs), q4)),
                },
            },
        },
    }
}

/// What reading `n` chunks at `p` gives.
pub open spec fn rd_chunks(
    s: Seq<u8>,
    p: int,
    shape: ChunkShape,
    table: Seq<BlockStateId>,
    n: nat,
) -> Result<(Seq<(ChunkCoord, Seq<(i64, PartsView)>)>, int), PersistError>
    decreases n,
{
    if n == 0 {
        Ok((Seq::empty(), p))
    } else {
        match rd_chunks(s, p, shape, table, (n - 1) as nat) {
            Err(e) => Err(e),
            Ok((recs, q)) => match rd_chunk(s, q, shape, table) {
                Err(e) => Err(e),
                Ok((rec, q2)) => Ok((recs.push(rec), q2)),
            },
        }
    }
}

/// What decoding chunk data gives: a count, that many chunks, and nothing
/// after them.
pub open spec fn decode_chunks_spec(s: Seq<u8>, shape: ChunkShape, table: Seq<BlockStateId>) -> Result<
    Seq<(ChunkCoord, Seq<(i64, PartsView)>)>,
    PersistError,
> {
    match rd_u32(s, 0) {
        Err(e) => Err(PersistError::Codec(e)),
        Ok((n, q)) => match rd_chunks(s, q, shape, table, n as nat) {
            Err(e) => Err(e),
            Ok((recs, end)) => if end == s.len() {
                Ok(recs)
            } else {
                Err(PersistError::Codec(CodecError::TrailingBytes { count: (s.len() - end) as usize }))
            },
        },
    }
}

/// The cells a list of stored sections gives height `y`: the last section
/// stored there, translated through `table`, or air.
pub open spec fn sections_effective(
    shape: ChunkShape,
    table: Seq<BlockStateId>,
    secs: Seq<(i64, PartsView)>,
    y: i64,
) -> Seq<BlockStateId>
    decreases secs.len(),
{
    if secs.len() == 0 {
        Seq::new(shape.spec_volume(), |i: int| crate::voxel::spec_air())
    } else if secs.last().0 == y {
        remapped_cells(shape, secs.last().1, table)
    } else {
        sections_effective(shape, table, secs.drop_last(), y)
    }
}

/// A decoded chunk is the record it was read from: its column, every height
/// holding what the record's sections give it, and loaded, clean and with
/// an empty journal.
pub open spec fn chunk_matches(
    c: Chunk,
    rec: (ChunkCoord, Seq<(i64, PartsView)>),
    shape: ChunkShape,
    table: Seq<BlockStateId>,
) -> bool {
    &&& c.sound()
    &&& c.spec_coord() == rec.0
    &&& c.spec_shape() == shape
    &&& c.spec_state() == ChunkState::Loaded
    &&& c.spec_dirty().len() == 0
    &&& c.spec_journal().len() == 0
    &&& c.spec_dropped() == 0
    &&& forall|y: i64| #[trigger] c.effective(y) == sections_effective(shape, table, rec.1, y)
}

/// A chunk's stored sections as they are written: each `y` with its parts.
pub open spec fn section_entries(secs: Seq<(i64, Section)>) -> Seq<(i64, PartsView)> {
    secs.map_values(|e: (i64, Section)| (e.0, e.1.spec_parts()))
}

/// What a chunk writes: its column and its stored sections.
pub open spec fn chunk_record(c: Chunk) -> (ChunkCoord, Seq<(i64, PartsView)>) {
    (c.spec_coord(), section_entries(c.spec_sections()))
}

/// The records of a list of chunks, in order.
pub open spec fn chunk_records(chunks: Seq<Chunk>) -> Seq<(ChunkCoord, Seq<(i64, PartsView)>)> {
    chunks.map_values(|c: Chunk| chunk_record(c))
}

/// Sections as written: each `y`, then its storage.
pub open spec fn entries_bytes(entries: Seq<(i64, PartsView)>) -> Seq<u8>
    decreases entries.len(),
{
    if entries.len() == 0 {
        Seq::empty()
    } else {
        entries_bytes(entries.drop_last()) + le_bytes_u64(entries.last().0 as u64) + parts_bytes(
            entries.last().1,
        )
    }
}

/// One chunk as written: its column, its section count and its sections.
pub open spec fn record_bytes(rec: (ChunkCoord, Seq<(i64, PartsView)>)) -> Seq<u8> {
    le_bytes_u64(rec.0.x as u64) + le_bytes_u64(rec.0.z as u64) + le_bytes_u32(rec.1.len() as u32)
        + entries_bytes(rec.1)
}

/// Chunks as written, one after another.
pub open spec fn records_bytes(recs: Seq<(ChunkCoord, Seq<(i64, PartsView)>)>) -> Seq<u8>
    decreases recs.len(),
{
    if recs.len() == 0 {
        Seq::empty()
    } else {
        records_bytes(recs.drop_last()) + record_bytes(recs.last())
    }
}

/// Chunk data as written: the chunk count, then the chunks.
pub open spec fn chunks_bytes(recs: Seq<(ChunkCoord, Seq<(i64, PartsView)>)>) -> Seq<u8> {
    le_bytes_u32(recs.len() as u32) + records_bytes(recs)
}

/// Write one chunk: its column, its section count and each section.
fn encode_chunk(out: &mut Writer, chunk: &Chunk)
    ensures
        final(out)@ == old(out)@ + record_bytes(chunk_record(*chunk)),
{
    let ghost start = out@;
    let coord = chunk.coord();
    out.i64(coord.x);
    out.i64(coord.z);
    let secs = chunk.stored_sections();
    out.u32(secs.len() as u32);
    let ghost mid = out@;
    let mut i: usize = 0;
    while i < secs.len()
        invariant
            i <= secs@.len(),
            out@ == mid + entries_bytes(section_entries(secs@.take(i as int))),
        decreases secs.len() - i,
    {
        let entry = &secs[i];
        out.i64(entry.0);
        let parts = entry.1.to_parts();
        write_parts(out, &parts);
        proof {
            let before = section_entries(secs@.take(i as int));
            let after = section_entries(secs@.take(i + 1));
            assert(after.drop_last() =~= before);
            assert(after.last() == (entry.0, parts@));
        }
        i += 1;
        proof {
            assert(out@ =~= mid + entries_bytes(section_entries(secs@.take(i as int))));
        }
    }
    proof {
        assert(secs@.take(i as int) =~= secs@);
        assert(out@ =~= start + record_bytes(chunk_record(*chunk)));
    }
}

/// Write every resident chunk of a world, in column order: the chunk count,
/// then each chunk's column, section count and sections, each section its
/// `y`, storage tag and parts.
pub fn encode_chunks(world: &World) -> (r: Vec<u8>)
    ensures
        r@ == chunks_bytes(chunk_records(world.spec_chunks())),
{
    let chunks = world.chunk_list();
    let mut out = Writer::new();
    out.u32(chunks.len() as u32);
    let ghost head = out@;
    let mut i: usize = 0;
    while i < chunks.len()
        invariant
            i <= chunks@.len(),
            out@ == head + records_bytes(chunk_records(chunks@.take(i as int))),
        decreases chunks.len() - i,
    {
        encode_chunk(&mut out, &chunks[i]);
        proof {
            let before = chunk_records(chunks@.take(i as int));
            let after = chunk_records(chunks@.take(i + 1));
            assert(after.drop_last() =~= before);
        }
        i += 1;
        proof {
            assert(out@ =~= head + records_bytes(chunk_records(chunks@.take(i as int))));
        }
    }
    proof {
        assert(chunks@.take(i as int) =~= chunks@);
    }
    out.finish()
}

/// Write the given chunks, in the order given: the chunk count, then each
/// chunk's column, section count and sections.
pub fn encode_chunks_from(chunks: &Vec<Chunk>) -> (r: Vec<u8>)
    ensures
        r@ == chunks_bytes(chunk_records(chunks@)),
{
    let mut out = Writer::new();
    out.u32(chunks.len() as u32);
    let ghost head = out@;
    let mut i: usize = 0;
    while i < chunks.len()
        invariant
            i <= chunks@.len(),
            out@ == head + records_bytes(chunk_records(chunks@.take(i as int))),
        decreases chunks.len() - i,
    {
        encode_chunk(&mut out, &chunks[i]);
        proof {
            let before = chunk_records(chunks@.take(i as int));
            let after = chunk_records(chunks@.take(i + 1));
            assert(after.drop_last() =~= before);
        }
        i += 1;
        proof {
            assert(out@ =~= head + records_bytes(chunk_records(chunks@.take(i as int))));
        }
    }
    proof {
        assert(chunks@.take(i as int) =~= chunks@);
    }
    out.finish()
}

/// Turn stored parts into a section under the current registry.
fn convert_section(shape: ChunkShape, parts: SectionParts, table: &Vec<BlockStateId>) -> (r: Result<
    Section,
    PersistError,
>)
    requires
        shape.wf(),
    ensures
        match convert_problem(shape, parts@, table@) {
            Some(e) => r == Err::<Section, PersistError>(e),
            None => r matches Ok(section) && section.sound() && section.spec_shape() == shape
                && section@ == remapped_cells(shape, parts@, table@),
        },
{
    let ghost view = parts@;
    let mut section = match Section::from_parts(shape, parts) {
        Ok(s) => s,
        Err(e) => {
            return Err(PersistError::Voxel(e));
        },
    };
    let ghost before = section;
    proof {
        before.lemma_section_parts();
        before.lemma_wf();
    }
    match section.remap(table) {
        Ok(()) => {},
        Err(id) => {
            return Err(PersistError::UnknownPaletteIndex { index: id, palette_len: table.len() });
        },
    }
    proof {
        assert(section@ =~= remapped_cells(shape, view, table@));
    }
    if !section.check_fit() {
        // Indices past the palette read as air; holding them as cells of
        // their own keeps every later write where it is aimed.
        section.compact();
    }
    Ok(section)
}

/// Read one chunk: its column, then its sections.
fn decode_chunk(reader: &mut Reader, shape: ChunkShape, table: &Vec<BlockStateId>) -> (r: Result<
    Chunk,
    PersistError,
>)
    requires
        old(reader).wf(),
        shape.wf(),
    ensures
        final(reader).wf(),
        final(reader).spec_bytes() == old(reader).spec_bytes(),
        match rd_chunk(old(reader).spec_bytes(), old(reader).spec_pos(), shape, table@) {
            Ok((rec, q)) => r matches Ok(c) && chunk_matches(c, rec, shape, table@) && final(
                reader).spec_pos() == q,
            Err(e) => r == Err::<Chunk, PersistError>(e),
        },
{
    let ghost s = reader.spec_bytes();
    let ghost p0 = reader.spec_pos();
    let x = match reader.i64() {
        Ok(v) => v,
        Err(e) => {
            return Err(PersistError::Codec(e));
        },
    };
    let z = match reader.i64() {
        Ok(v) => v,
        Err(e) => {
            return Err(PersistError::Codec(e));
        },
    };
    let n = match reader.u32() {
        Ok(v) => v,
        Err(e) => {
            return Err(PersistError::Codec(e));
        },
    };
    let ghost start = reader.spec_pos();
    let coord = ChunkCoord::new(x, z);
    let mut chunk = Chunk::new(coord, shape);
    let ghost mut secs: Seq<(i64, PartsView)> = Seq::empty();
    let mut i: u32 = 0;
    let ghost outcome = match rd_sections(s, start, shape, table@, n as nat) {
        Err(e) => Err(e),
        Ok((all, q4)) => Ok(((coord, all), q4)),
    };
    assert(rd_chunk(s, p0, shape, table@) == outcome);
    proof {
        assert forall|y: i64| #[trigger] chunk.effective(y) == sections_effective(shape, table@, secs, y) by {
            crate::chunk::lemma_lookup_absent(chunk.spec_sections(), y);
        }
    }
    while i < n
        invariant
            reader.wf(),
            reader.spec_bytes() == s,
            s == old(reader).spec_bytes(),
            p0 == old(reader).spec_pos(),
            rd_chunk(s, p0, shape, table@) == outcome,
            outcome == match rd_sections(s, start, shape, table@, n as nat) {
                Err(e) => Err(e),
                Ok((all, q4)) => Ok(((coord, all), q4)),
            },
            shape.wf(),
            i <= n,
            rd_sections(s, start, shape, table@, i as nat) == Ok::<
                (Seq<(i64, PartsView)>, int),
                PersistError,
            >((secs, reader.spec_pos())),
            chunk.sound(),
            chunk.spec_coord() == coord,
            chunk.spec_shape() == shape,
            chunk.spec_state() == ChunkState::Unloaded,
            chunk.spec_journal().len() == 0,
            chunk.spec_dropped() == 0,
            forall|y: i64| #[trigger] chunk.effective(y) == sections_effective(shape, table@, secs, y),
        decreases n - i,
    {
        let ghost before = chunk;
        let y = match reader.i64() {
            Ok(v) => v,
            Err(e) => {
                proof {
                    lemma_rd_sections_stops(s, start, shape, table@, (i + 1) as nat, n as nat);
                }
                return Err(PersistError::Codec(e));
            },
        };
        let parts = match read_parts(reader, shape) {
            Ok(p) => p,
            Err(e) => {
                proof {
                    lemma_rd_sections_stops(s, start, shape, table@, (i + 1) as nat, n as nat);
                }
                return Err(e);
            },
        };
        let ghost view = parts@;
        let section = match convert_section(shape, parts, table) {
            Ok(sec) => sec,
            Err(e) => {
                proof {
                    lemma_rd_sections_stops(s, start, shape, table@, (i + 1) as nat, n as nat);
                }
                return Err(e);
            },
        };
        chunk.put_section(y, section);
        proof {
            let next = secs.push((y, view));
            assert(next.drop_last() =~= secs);
            assert forall|h: i64| #[trigger] chunk.effective(h) == sections_effective(shape, table@, next, h) by {
                if h != y {
                    assert(chunk.effective(h) == before.effective(h));
                }
            }
            secs = next;
        }
        i += 1;
    }
    let ghost built = chunk;
    chunk.force_state(ChunkState::Loaded);
    proof {
        built.lemma_with_state(ChunkState::Loaded);
    }
    chunk.mark_clean();
    let _ = chunk.take_journal();
    proof {
        assert forall|h: i64| #[trigger] chunk.effective(h) == sections_effective(shape, table@, secs, h) by {
            assert(chunk.effective(h) == built.effective(h));
        }
    }
    Ok(chunk)
}

/// A section list read that fails partway fails as a whole.
proof fn lemma_rd_sections_stops(
    s: Seq<u8>,
    p: int,
    shape: ChunkShape,
    table: Seq<BlockStateId>,
    k: nat,
    n: nat,
)
    requires
        k <= n,
        rd_sections(s, p, shape, table, k) is Err,
    ensures
        rd_sections(s, p, shape, table, n) == rd_sections(s, p, shape, table, k),
    decreases n - k,
{
    if k < n {
        lemma_rd_sections_stops(s, p, shape, table, k, (n - 1) as nat);
    }
}

/// A chunk list read that fails partway fails as a whole.
proof fn lemma_rd_chunks_stops(
    s: Seq<u8>,
    p: int,
    shape: ChunkShape,
    table: Seq<BlockStateId>,
    k: nat,
    n: nat,
)
    requires
        k <= n,
        rd_chunks(s, p, shape, table, k) is Err,
    ensures
        rd_chunks(s, p, shape, table, n) == rd_chunks(s, p, shape, table, k),
    decreases n - k,
{
    if k < n {
        lemma_rd_chunks_stops(s, p, shape, table, k, (n - 1) as nat);
    }
}

/// Read chunk data: a count, that many chunks, and nothing after them. Each
/// section's recorded states are translated through `table`, the save's
/// palette resolved against this build's registry.
pub fn decode_chunks(bytes: &[u8], shape: ChunkShape, table: &Vec<BlockStateId>) -> (r: Result<
    Vec<Chunk>,
    PersistError,
>)
    requires
        shape.wf(),
    ensures
        match decode_chunks_spec(bytes@, shape, table@) {
            Err(e) => r == Err::<Vec<Chunk>, PersistError>(e),
            Ok(recs) => r matches Ok(cs) && cs@.len() == recs.len() && forall|i: int|
                0 <= i < recs.len() ==> #[trigger] chunk_matches(cs@[i], recs[i], shape, table@),
        },
{
    let mut reader = Reader::new(bytes);
    let n = match reader.u32() {
        Ok(v) => v,
        Err(e) => {
            return Err(PersistError::Codec(e));
        },
    };
    let ghost start = reader.spec_pos();
    assert(decode_chunks_spec(bytes@, shape, table@) == match rd_chunks(bytes@, start, shape, table@, n as nat) {
        Err(e) => Err(e),
        Ok((all, end)) => if end == bytes@.len() {
            Ok(all)
        } else {
            Err(PersistError::Codec(CodecError::TrailingBytes { count: (bytes@.len() - end) as usize }))
        },
    });
    let ghost mut recs: Seq<(ChunkCoord, Seq<(i64, PartsView)>)> = Seq::empty();
    let mut chunks: Vec<Chunk> = Vec::new();
    let mut i: u32 = 0;
    while i < n
        invariant
            reader.wf(),
            reader.spec_bytes() == bytes@,
            decode_chunks_spec(bytes@, shape, table@) == match rd_chunks(bytes@, start, shape, table@, n as nat) {
                Err(e) => Err(e),
                Ok((all, end)) => if end == bytes@.len() {
                    Ok(all)
                } else {
                    Err(PersistError::Codec(CodecError::TrailingBytes { count: (bytes@.len() - end) as usize }))
                },
            },
            shape.wf(),
            i <= n,
            rd_chunks(bytes@, start, shape, table@, i as nat) == Ok::<
                (Seq<(ChunkCoord, Seq<(i64, PartsView)>)>, int),
                PersistError,
            >((recs, reader.spec_pos())),
            chunks@.len() == recs.len(),
            forall|k: int| 0 <= k < recs.len() ==> #[trigger] chunk_matches(chunks@[k], recs[k], shape, table@),
        decreases n - i,
    {
        let chunk = match decode_chunk(&mut reader, shape, table) {
            Ok(c) => c,
            Err(e) => {
                proof {
                    lemma_rd_chunks_stops(bytes@, start, shape, table@, (i + 1) as nat, n as nat);
                }
                return Err(e);
            },
        };
        proof {
            let rec = rd_chunk(bytes@, rd_chunks(bytes@, start, shape, table@, i as nat)->Ok_0.1, shape, table@)->Ok_0.0;
            recs = recs.push(rec);
        }
        chunks.push(chunk);
        i += 1;
    }
    match reader.expect_exhausted() {
        Ok(()) => Ok(chunks),
        Err(e) => Err(PersistError::Codec(e)),
    }
}

/// A byte written at `p` reads back there.
proof fn lemma_rd_byte(s: Seq<u8>, p: int, v: u8)
    requires
        0 <= p,
        p + 1 <= s.len(),
        s.subrange(p, p + 1) == seq![v],
    ensures
        rd_u8(s, p) == Ok::<(u8, int), CodecError>((v, p + 1)),
{
    assert(s.subrange(p, p + 1)[0] == s[p]);
}

/// State ids written at `p` read back there.
proof fn lemma_rd_states_written(s: Seq<u8>, p: int, states: Seq<BlockStateId>)
    requires
        0 <= p,
        p + u32s_bytes(states).len() <= s.len(),
        s.subrange(p, p + u32s_bytes(states).len()) == u32s_bytes(states),
    ensures
        rd_states(s, p, states.len()) == Ok::<(Seq<BlockStateId>, int), CodecError>(
            (states, p + u32s_bytes(states).len()),
        ),
    decreases states.len(),
{
    if states.len() > 0 {
        let init = states.drop_last();
        let last = states.last();
        lemma_split(s, p, u32s_bytes(init), le_bytes_u32(last.0));
        lemma_rd_states_written(s, p, init);
        lemma_rd_u32(s, p + u32s_bytes(init).len(), last.0);
        assert(init.push(BlockStateId(last.0)) =~= states);
        assert((states.len() - 1) as nat == init.len());
    } else {
        assert(states =~= Seq::<BlockStateId>::empty());
    }
}

/// Words written at `p` read back there.
proof fn lemma_rd_words_written(s: Seq<u8>, p: int, words: Seq<u64>)
    requires
        0 <= p,
        p + u64s_bytes(words).len() <= s.len(),
        s.subrange(p, p + u64s_bytes(words).len()) == u64s_bytes(words),
    ensures
        rd_words(s, p, words.len()) == Ok::<(Seq<u64>, int), CodecError>(
            (words, p + u64s_bytes(words).len()),
        ),
    decreases words.len(),
{
    if words.len() > 0 {
        let init = words.drop_last();
        let last = words.last();
        lemma_split(s, p, u64s_bytes(init), le_bytes_u64(last));
        lemma_rd_words_written(s, p, init);
        lemma_rd_u64(s, p + u64s_bytes(init).len(), last);
        assert(init.push(last) =~= words);
        assert((words.len() - 1) as nat == init.len());
    } else {
        assert(words =~= Seq::<u64>::empty());
    }
}

/// Consistent parts written at `p` read back there.
proof fn lemma_rd_parts_written(s: Seq<u8>, p: int, shape: ChunkShape, parts: PartsView)
    requires
        shape.wf(),
        parts_problem(shape, parts) is None,
        parts_fit(shape, parts),
        0 <= p,
        p + parts_bytes(parts).len() <= s.len(),
        s.subrange(p, p + parts_bytes(parts).len()) == parts_bytes(parts),
    ensures
        rd_parts(s, p, shape) == Ok::<(PartsView, int), PersistError>(
            (parts, p + parts_bytes(parts).len()),
        ),
{
    crate::voxel::lemma_parts_bounded(shape, parts);
    match parts {
        PartsView::Uniform(v) => {
            lemma_split(s, p, seq![TAG_UNIFORM], le_bytes_u32(v.0));
            lemma_rd_byte(s, p, TAG_UNIFORM);
            lemma_rd_u32(s, p + 1, v.0);
        },
        PartsView::Paletted { palette, bits, words } => {
            let a1 = seq![TAG_PALETTED];
            let a2 = le_bytes_u32(palette.len() as u32);
            let a3 = u32s_bytes(palette);
            let a4 = seq![bits];
            let a5 = le_bytes_u32(words.len() as u32);
            let a6 = u64s_bytes(words);
            lemma_split(s, p, a1 + a2 + a3 + a4 + a5, a6);
            lemma_split(s, p, a1 + a2 + a3 + a4, a5);
            lemma_split(s, p, a1 + a2 + a3, a4);
            lemma_split(s, p, a1 + a2, a3);
            lemma_split(s, p, a1, a2);
            lemma_rd_byte(s, p, TAG_PALETTED);
            lemma_rd_u32(s, p + 1, palette.len() as u32);
            lemma_rd_states_written(s, p + 5, palette);
            let q2 = p + 5 + a3.len();
            lemma_rd_byte(s, q2, bits);
            lemma_rd_u32(s, q2 + 1, words.len() as u32);
            lemma_rd_words_written(s, q2 + 5, words);
        },
        PartsView::Direct(cells) => {
            let a1 = seq![TAG_DIRECT];
            let a2 = le_bytes_u32(cells.len() as u32);
            let a3 = u32s_bytes(cells);
            lemma_split(s, p, a1 + a2, a3);
            lemma_split(s, p, a1, a2);
            lemma_rd_byte(s, p, TAG_DIRECT);
            lemma_rd_u32(s, p + 1, cells.len() as u32);
            lemma_rd_states_written(s, p + 5, cells);
        },
    }
}

/// Sections written at `p` read back there, when each converts under `table`.
proof fn lemma_rd_sections_written(
    s: Seq<u8>,
    p: int,
    shape: ChunkShape,
    table: Seq<BlockStateId>,
    entries: Seq<(i64, PartsView)>,
)
    requires
        shape.wf(),
        forall|k: int| 0 <= k < entries.len() ==> convert_problem(shape, #[trigger] entries[k].1, table) is None,
        forall|k: int| 0 <= k < entries.len() ==> parts_fit(shape, #[trigger] entries[k].1),
        0 <= p,
        p + entries_bytes(entries).len() <= s.len(),
        s.subrange(p, p + entries_bytes(entries).len()) == entries_bytes(entries),
    ensures
        rd_sections(s, p, shape, table, entries.len()) == Ok::<(Seq<(i64, PartsView)>, int), PersistError>(
            (entries, p + entries_bytes(entries).len()),
        ),
    decreases entries.len(),
{
    if entries.len() > 0 {
        let init = entries.drop_last();
        let last = entries.last();
        let a = entries_bytes(init);
        let b = le_bytes_u64(last.0 as u64);
        let c = parts_bytes(last.1);
        assert(convert_problem(shape, entries[entries.len() - 1].1, table) is None);
        lemma_split(s, p, a + b, c);
        lemma_split(s, p, a, b);
        assert forall|k: int| 0 <= k < init.len() implies convert_problem(shape, #[trigger] init[k].1, table) is None
            && parts_fit(shape, init[k].1) by {
            assert(init[k] == entries[k]);
        }
        assert(parts_fit(shape, entries[entries.len() - 1].1));
        lemma_rd_sections_written(s, p, shape, table, init);
        lemma_rd_u64(s, p + a.len(), last.0 as u64);
        let y = last.0;
        assert((y as u64) as i64 == y) by (bit_vector);
        lemma_rd_parts_written(s, p + a.len() + 8, shape, last.1);
        assert(init.push((last.0, last.1)) =~= entries);
        assert((entries.len() - 1) as nat == init.len());
    } else {
        assert(entries =~= Seq::<(i64, PartsView)>::empty());
    }
}

/// Whether a record can be written and read back under `table`: its section
/// count fits its field and every section converts.
pub open spec fn record_convertible(
    rec: (ChunkCoord, Seq<(i64, PartsView)>),
    shape: ChunkShape,
    table: Seq<BlockStateId>,
) -> bool {
    &&& rec.1.len() <= u32::MAX
    &&& forall|k: int| 0 <= k < rec.1.len() ==> convert_problem(shape, #[trigger] rec.1[k].1, table) is None
    &&& forall|k: int| 0 <= k < rec.1.len() ==> parts_fit(shape, #[trigger] rec.1[k].1)
}

/// A chunk written at `p` reads back there.
proof fn lemma_rd_chunk_written(
    s: Seq<u8>,
    p: int,
    shape: ChunkShape,
    table: Seq<BlockStateId>,
    rec: (ChunkCoord, Seq<(i64, PartsView)>),
)
    requires
        shape.wf(),
        record_convertible(rec, shape, table),
        0 <= p,
        p + record_bytes(rec).len() <= s.len(),
        s.subrange(p, p + record_bytes(rec).len()) == record_bytes(rec),
    ensures
        rd_chunk(s, p, shape, table) == Ok::<((ChunkCoord, Seq<(i64, PartsView)>), int), PersistError>(
            (rec, p + record_bytes(rec).len()),
        ),
{
    let a1 = le_bytes_u64(rec.0.x as u64);
    let a2 = le_bytes_u64(rec.0.z as u64);
    let a3 = le_bytes_u32(rec.1.len() as u32);
    let a4 = entries_bytes(rec.1);
    lemma_split(s, p, a1 + a2 + a3, a4);
    lemma_split(s, p, a1 + a2, a3);
    lemma_split(s, p, a1, a2);
    lemma_rd_u64(s, p, rec.0.x as u64);
    lemma_rd_u64(s, p + 8, rec.0.z as u64);
    let (x, z) = (rec.0.x, rec.0.z);
    assert((x as u64) as i64 == x) by (bit_vector);
    assert((z as u64) as i64 == z) by (bit_vector);
    lemma_rd_u32(s, p + 16, rec.1.len() as u32);
    lemma_rd_sections_written(s, p + 20, shape, table, rec.1);
}

/// Chunks written at `p` read back there.
proof fn lemma_rd_chunks_written(
    s: Seq<u8>,
    p: int,
    shape: ChunkShape,
    table: Seq<BlockStateId>,
    recs: Seq<(ChunkCoord, Seq<(i64, PartsView)>)>,
)
    requires
        shape.wf(),
        forall|i: int| 0 <= i < recs.len() ==> record_convertible(#[trigger] recs[i], shape, table),
        0 <= p,
        p + records_bytes(recs).len() <= s.len(),
        s.subrange(p, p + records_bytes(recs).len()) == records_bytes(recs),
    ensures
        rd_chunks(s, p, shape, table, recs.len()) == Ok::<
            (Seq<(ChunkCoord, Seq<(i64, PartsView)>)>, int),
            PersistError,
        >((recs, p + records_bytes(recs).len())),
    decreases recs.len(),
{
    if recs.len() > 0 {
        let init = recs.drop_last();
        let last = recs.last();
        assert(record_convertible(recs[recs.len() - 1], shape, table));
        lemma_split(s, p, records_bytes(init), record_bytes(last));
        assert forall|i: int| 0 <= i < init.len() implies record_convertible(#[trigger] init[i], shape, table) by {
            assert(init[i] == recs[i]);
        }
        lemma_rd_chunks_written(s, p, shape, table, init);
        lemma_rd_chunk_written(s, p + records_bytes(init).len(), shape, table, last);
        assert(init.push(last) =~= recs);
        assert((recs.len() - 1) as nat == init.len());
    } else {
        assert(recs =~= Seq::<(ChunkCoord, Seq<(i64, PartsView)>)>::empty());
    }
}

/// Chunk data reads back as the records it was written from: whenever the
/// chunk count and each section count fit their fields and every stored
/// section converts under `table`, decoding the written bytes gives back
/// exactly the records.
pub proof fn lemma_chunk_data_round_trip(
    recs: Seq<(ChunkCoord, Seq<(i64, PartsView)>)>,
    shape: ChunkShape,
    table: Seq<BlockStateId>,
)
    requires
        shape.wf(),
        recs.len() <= u32::MAX,
        forall|i: int| 0 <= i < recs.len() ==> record_convertible(#[trigger] recs[i], shape, table),
    ensures
        decode_chunks_spec(chunks_bytes(recs), shape, table) == Ok::<
            Seq<(ChunkCoord, Seq<(i64, PartsView)>)>,
            PersistError,
        >(recs),
{
    let s = chunks_bytes(recs);
    let head = le_bytes_u32(recs.len() as u32);
    let body = records_bytes(recs);
    assert(s.subrange(0, s.len() as int) =~= head + body);
    lemma_split(s, 0, head, body);
    lemma_rd_u32(s, 0, recs.len() as u32);
    lemma_rd_chunks_written(s, 4, shape, table, recs);
}

/// A table that maps each state below its length to itself.
pub open spec fn identity_table(table: Seq<BlockStateId>) -> bool {
    forall|i: int| 0 <= i < table.len() ==> (#[trigger] table[i]).0 == i
}

/// Every state a chunk's stored sections record lies below `n`.
pub open spec fn states_below(c: Chunk, n: int) -> bool {
    forall|k: int|
        0 <= k < c.spec_sections().len() ==> first_uncovered(
            parts_states(#[trigger] c.spec_sections()[k].1.spec_parts()),
            n,
        ) is None
}

/// Translating a sound section's parts through an identity table that covers
/// its states gives back its cells.
proof fn lemma_remap_identity(sec: Section, table: Seq<BlockStateId>)
    requires
        sec.sound(),
        identity_table(table),
        first_uncovered(parts_states(sec.spec_parts()), table.len() as int) is None,
    ensures
        convert_problem(sec.spec_shape(), sec.spec_parts(), table) is None,
        remapped_cells(sec.spec_shape(), sec.spec_parts(), table) == sec@,
{
    let shape = sec.spec_shape();
    let parts = sec.spec_parts();
    sec.lemma_parts_sound();
    sec.lemma_section_parts();
    sec.lemma_wf();
    crate::voxel::lemma_first_uncovered(parts_states(parts), table.len() as int);
    assert forall|i: int| 0 <= i < shape.spec_volume() implies #[trigger] remapped_cells(
        shape,
        parts,
        table,
    )[i] == sec@[i] by {
        assert(sec@[i] == parts_cell(parts, i));
        match parts {
            PartsView::Uniform(v) => {
                assert(parts_states(parts)[0] == v);
            },
            PartsView::Paletted { palette, bits, words } => {
                let p = packed_at(words, bits, i);
                assert(p < palette.len());
                assert(parts_states(parts)[p as int] == palette[p as int]);
            },
            PartsView::Direct(cells) => {
                assert(parts_states(parts)[i] == cells[i]);
            },
        }
    }
    assert(remapped_cells(shape, parts, table) =~= sec@);
}

/// With strictly ascending keys, dropping the last entry changes no lookup
/// of another key.
proof fn lemma_lookup_drop_last(secs: Seq<(i64, Section)>, y: i64)
    requires
        crate::chunk::keys_sorted(secs),
        secs.len() > 0,
        secs.last().0 != y,
    ensures
        lookup(secs, y) == lookup(secs.drop_last(), y),
{
    let init = secs.drop_last();
    if exists|i: int| 0 <= i < secs.len() && secs[i].0 == y {
        let i = choose|i: int| 0 <= i < secs.len() && secs[i].0 == y;
        assert(i < secs.len() - 1);
        crate::chunk::lemma_lookup_at(secs, i);
        assert(init[i] == secs[i]);
        crate::chunk::lemma_lookup_at(init, i);
    } else {
        assert forall|i: int| 0 <= i < init.len() implies init[i].0 != y by {
            assert(init[i] == secs[i]);
        }
        crate::chunk::lemma_lookup_absent(init, y);
    }
}

/// The sections a chunk writes give each height what the chunk holds there.
proof fn lemma_entries_effective(
    shape: ChunkShape,
    table: Seq<BlockStateId>,
    secs: Seq<(i64, Section)>,
    y: i64,
)
    requires
        crate::chunk::keys_sorted(secs),
        identity_table(table),
        forall|k: int|
            0 <= k < secs.len() ==> (#[trigger] secs[k]).1.sound() && secs[k].1.spec_shape() == shape
                && first_uncovered(parts_states(secs[k].1.spec_parts()), table.len() as int) is None,
    ensures
        sections_effective(shape, table, section_entries(secs), y) == match lookup(secs, y) {
            Some(s) => s@,
            None => Seq::new(shape.spec_volume(), |i: int| crate::voxel::spec_air()),
        },
    decreases secs.len(),
{
    let entries = section_entries(secs);
    if secs.len() == 0 {
        crate::chunk::lemma_lookup_absent(secs, y);
    } else {
        let init = secs.drop_last();
        assert(entries.drop_last() =~= section_entries(init));
        let last = secs.last();
        assert(secs[secs.len() - 1] == last);
        if last.0 == y {
            crate::chunk::lemma_lookup_at(secs, secs.len() - 1);
            lemma_remap_identity(last.1, table);
        } else {
            lemma_lookup_drop_last(secs, y);
            assert forall|k: int| 0 <= k < init.len() implies (#[trigger] init[k]).1.sound()
                && init[k].1.spec_shape() == shape && first_uncovered(
                parts_states(init[k].1.spec_parts()),
                table.len() as int,
            ) is None by {
                assert(init[k] == secs[k]);
            }
            lemma_entries_effective(shape, table, init, y);
        }
    }
}

/// A sound chunk whose recorded states are all covered by an identity table
/// writes a record that reads back under that table as the same chunk: every
/// section converts, and every height holds what the chunk holds there.
pub proof fn lemma_chunk_record_faithful(c: Chunk, table: Seq<BlockStateId>)
    requires
        c.sound(),
        identity_table(table),
        states_below(c, table.len() as int),
        c.spec_sections().len() <= u32::MAX,
    ensures
        record_convertible(chunk_record(c), c.spec_shape(), table),
        chunk_record(c).0 == c.spec_coord(),
        forall|y: i64|
            #[trigger] sections_effective(c.spec_shape(), table, chunk_record(c).1, y)
                == c.effective(y),
{
    let secs = c.spec_sections();
    let shape = c.spec_shape();
    assert forall|k: int| 0 <= k < secs.len() implies (#[trigger] secs[k]).1.sound()
        && secs[k].1.spec_shape() == shape && first_uncovered(
        parts_states(secs[k].1.spec_parts()),
        table.len() as int,
    ) is None by {
        assert(c.spec_sections()[k] == secs[k]);
    }
    let entries = chunk_record(c).1;
    assert forall|k: int| 0 <= k < entries.len() implies convert_problem(
        shape,
        #[trigger] entries[k].1,
        table,
    ) is None && parts_fit(shape, entries[k].1) by {
        lemma_remap_identity(secs[k].1, table);
        secs[k].1.lemma_parts_sound();
    }
    assert forall|y: i64| #[trigger] sections_effective(shape, table, entries, y) == c.effective(y) by {
        lemma_entries_effective(shape, table, secs, y);
    }
}

/// What a world header records: the world's identity, seed, generator,
/// section edges and bounds, the clock's tick and the calendar's seven
/// fields.
pub struct HeaderView {
    pub id: u64,
    pub name: Seq<char>,
    pub seed: u64,
    pub generator_version: u32,
    pub edges: Seq<u32>,
    pub min_y: i64,
    pub max_y: i64,
    pub now: u64,
    pub calendar: Seq<u32>,
}

/// A list of `u32`s, four bytes each.
pub open spec fn u32_list_bytes(v: Seq<u32>) -> Seq<u8>
    decreases v.len(),
{
    if v.len() == 0 {
        Seq::empty()
    } else {
        u32_list_bytes(v.drop_last()) + le_bytes_u32(v.last())
    }
}

/// What reading `n` `u32`s at `p` gives.
pub open spec fn rd_u32_list(s: Seq<u8>, p: int, n: nat) -> Result<(Seq<u32>, int), CodecError>
    decreases n,
{
    if n == 0 {
        Ok((Seq::empty(), p))
    } else {
        match rd_u32_list(s, p, (n - 1) as nat) {
            Err(e) => Err(e),
            Ok((v, q)) => match rd_u32(s, q) {
                Err(e) => Err(e),
                Ok((x, q2)) => Ok((v.push(x), q2)),
            },
        }
    }
}

/// A header as written.
pub open spec fn header_bytes(h: HeaderView) -> Seq<u8> {
    le_bytes_u64(h.id) + string_bytes(h.name) + le_bytes_u64(h.seed) + le_bytes_u32(
        h.generator_version,
    ) + u32_list_bytes(h.edges) + le_bytes_u64(h.min_y as u64) + le_bytes_u64(h.max_y as u64)
        + le_bytes_u64(h.now) + u32_list_bytes(h.calendar)
}

/// Whether a section edge is in range.
pub open spec fn edge_ok(e: u32) -> bool {
    1 <= e <= MAX_SECTION_EDGE
}

/// The first of three edges that is out of range.
pub open spec fn first_bad_edge(edges: Seq<u32>) -> u32 {
    if !edge_ok(edges[0]) {
        edges[0]
    } else if !edge_ok(edges[1]) {
        edges[1]
    } else {
        edges[2]
    }
}

/// What decoding a header gives. The three edges are read before they are
/// checked, as are both bounds and all seven calendar fields; nothing may
/// follow the calendar.
pub open spec fn rd_header(s: Seq<u8>) -> Result<HeaderView, PersistError> {
    match rd_u64(s, 0) {
        Err(e) => Err(PersistError::Codec(e)),
        Ok((id, q1)) => match rd_string(s, q1) {
            Err(e) => Err(PersistError::Codec(e)),
            Ok((name, q2)) => match rd_u64(s, q2) {
                Err(e) => Err(PersistError::Codec(e)),
                Ok((seed, q3)) => match rd_u32(s, q3) {
                    Err(e) => Err(PersistError::Codec(e)),
                    Ok((generator_version, q4)) => match rd_u32_list(s, q4, 3) {
                        Err(e) => Err(PersistError::Codec(e)),
                        Ok((edges, q5)) => if !(edge_ok(edges[0]) && edge_ok(edges[1]) && edge_ok(edges[2])) {
                            Err(PersistError::Spatial(SpatialError::EdgeOutOfRange { edge: first_bad_edge(edges) }))
                        } else {
                            match rd_i64(s, q5) {
                                Err(e) => Err(PersistError::Codec(e)),
                                Ok((min_y, q6)) => match rd_i64(s, q6) {
                                    Err(e) => Err(PersistError::Codec(e)),
                                    Ok((max_y, q7)) => if min_y >= max_y {
                                        Err(PersistError::World(WorldError::InvalidBounds { min_y, max_y }))
                                    } else {
                                        match rd_u64(s, q7) {
                                            Err(e) => Err(PersistError::Codec(e)),
                                            Ok((now, q8)) => match rd_u32_list(s, q8, 7) {
                                                Err(e) => Err(PersistError::Codec(e)),
                                                Ok((calendar, q9)) => if exists|i: int| 0 <= i < 7 && calendar[i] == 0 {
                                                    Err(PersistError::Time(TimeError::ZeroField))
                                                } else if q9 != s.len() {
                                                    Err(PersistError::Codec(CodecError::TrailingBytes { count: (s.len() - q9) as usize }))
                                                } else {
                                                    Ok(HeaderView { id, name, seed, generator_version, edges, min_y, max_y, now, calendar })
                                                },
                                            },
                                        }
                                    },
                                },
                            }
                        },
                    },
                },
            },
        },
    }
}

/// The header a world writes.
pub open spec fn world_header(w: World) -> HeaderView {
    let d = w.spec_descriptor();
    HeaderView {
        id: d.id.0,
        name: d.name@,
        seed: d.seed,
        generator_version: d.generator_version,
        edges: seq![d.shape.sx() as u32, d.shape.sy() as u32, d.shape.sz() as u32],
        min_y: d.bounds.min_y,
        max_y: d.bounds.max_y,
        now: w.spec_clock().spec_now().0,
        calendar: w.spec_clock().spec_calendar().fields(),
    }
}

/// A decoded descriptor, calendar and time are the header they were read
/// from.
pub open spec fn header_is(d: WorldDescriptor, c: CalendarConfig, t: WorldTime, h: HeaderView) -> bool {
    &&& d.id.0 == h.id
    &&& d.name@ == h.name
    &&& d.seed == h.seed
    &&& d.generator_version == h.generator_version
    &&& d.shape.wf()
    &&& d.shape.sx() == h.edges[0] && d.shape.sy() == h.edges[1] && d.shape.sz() == h.edges[2]
    &&& d.bounds == WorldBounds { min_y: h.min_y, max_y: h.max_y }
    &&& c.wf()
    &&& c.fields() == h.calendar
    &&& t.0 == h.now
}

/// Write a world's header: identity, name, seed, generator version, the
/// three section edges, the bounds, the clock's tick and the calendar.
pub fn encode_header(world: &World) -> (r: Vec<u8>)
    ensures
        r@ == header_bytes(world_header(*world)),
{
    let descriptor = world.descriptor();
    let clock = world.clock();
    let calendar = clock.calendar();
    let shape = descriptor.shape;
    let mut out = Writer::new();
    out.u64(descriptor.id.0);
    out.string(descriptor.name.as_str());
    out.u64(descriptor.seed);
    out.u32(descriptor.generator_version);
    out.u32(shape.size_x());
    out.u32(shape.size_y());
    out.u32(shape.size_z());
    out.i64(descriptor.bounds.min_y);
    out.i64(descriptor.bounds.max_y);
    out.u64(clock.now().ticks());
    out.u32(calendar.ticks_per_second());
    out.u32(calendar.seconds_per_minute());
    out.u32(calendar.minutes_per_hour());
    out.u32(calendar.hours_per_day());
    out.u32(calendar.days_per_month());
    out.u32(calendar.months_per_year());
    out.u32(calendar.seasons_per_year());
    proof {
        let h = world_header(*world);
        let f = h.calendar;
        calendar.lemma_fields(calendar);
        reveal_with_fuel(u32_list_bytes, 8);
        assert(u32_list_bytes(h.edges) =~= le_bytes_u32(h.edges[0]) + le_bytes_u32(h.edges[1])
            + le_bytes_u32(h.edges[2]));
        assert(u32_list_bytes(f) =~= le_bytes_u32(f[0]) + le_bytes_u32(f[1]) + le_bytes_u32(f[2])
            + le_bytes_u32(f[3]) + le_bytes_u32(f[4]) + le_bytes_u32(f[5]) + le_bytes_u32(f[6]));
        assert(out@ =~= header_bytes(h));
    }
    out.finish()
}

/// Read a world header back: the descriptor, the calendar and the clock's
/// tick it records.
#[verifier::spinoff_prover]
#[verifier::rlimit(80)]
pub fn decode_header(bytes: &[u8]) -> (r: Result<(WorldDescriptor, CalendarConfig, WorldTime), PersistError>)
    ensures
        match rd_header(bytes@) {
            Ok(h) => r matches Ok((d, c, t)) && header_is(d, c, t, h),
            Err(e) => r == Err::<(WorldDescriptor, CalendarConfig, WorldTime), PersistError>(e),
        },
{
    let ghost s = bytes@;
    proof {
        reveal_with_fuel(rd_u32_list, 8);
    }
    let mut reader = Reader::new(bytes);
    let id = match reader.u64() {
        Ok(v) => v,
        Err(e) => {
            return Err(PersistError::Codec(e));
        },
    };
    let name = match reader.string() {
        Ok(v) => v,
        Err(e) => {
            return Err(PersistError::Codec(e));
        },
    };
    let seed = match reader.u64() {
        Ok(v) => v,
        Err(e) => {
            return Err(PersistError::Codec(e));
        },
    };
    let generator_version = match reader.u32() {
        Ok(v) => v,
        Err(e) => {
            return Err(PersistError::Codec(e));
        },
    };
    let ghost q4 = reader.spec_pos();
    let sx = match reader.u32() {
        Ok(v) => v,
        Err(e) => {
            return Err(PersistError::Codec(e));
        },
    };
    let sy = match reader.u32() {
        Ok(v) => v,
        Err(e) => {
            return Err(PersistError::Codec(e));
        },
    };
    let sz = match reader.u32() {
        Ok(v) => v,
        Err(e) => {
            return Err(PersistError::Codec(e));
        },
    };
    assert(rd_u32_list(s, q4, 3) == Ok::<(Seq<u32>, int), CodecError>(
        (seq![sx, sy, sz], reader.spec_pos()),
    )) by {
        reveal_with_fuel(rd_u32_list, 4);
        assert(seq![sx].push(sy) =~= seq![sx, sy]);
        assert(seq![sx, sy].push(sz) =~= seq![sx, sy, sz]);
    }
    let shape = match ChunkShape::new(sx, sy, sz) {
        Ok(v) => v,
        Err(e) => {
            return Err(PersistError::Spatial(e));
        },
    };
    let min_y = match reader.i64() {
        Ok(v) => v,
        Err(e) => {
            return Err(PersistError::Codec(e));
        },
    };
    let max_y = match reader.i64() {
        Ok(v) => v,
        Err(e) => {
            return Err(PersistError::Codec(e));
        },
    };
    let bounds = match (WorldBounds { min_y, max_y }).validate() {
        Ok(b) => b,
        Err(e) => {
            return Err(PersistError::World(e));
        },
    };
    let now = match reader.u64() {
        Ok(v) => v,
        Err(e) => {
            return Err(PersistError::Codec(e));
        },
    };
    let ghost q8 = reader.spec_pos();
    let c0 = match reader.u32() {
        Ok(v) => v,
        Err(e) => {
            proof {
                lemma_rd_u32_list_stops(s, q8, 1, 7);
            }
            return Err(PersistError::Codec(e));
        },
    };
    let ghost p1 = reader.spec_pos();
    assert(rd_u32_list(s, q8, 1) == Ok::<(Seq<u32>, int), CodecError>(
        (seq![c0], p1),
    )) by {
        reveal_with_fuel(rd_u32_list, 2);
        assert(Seq::<u32>::empty().push(c0) =~= seq![c0]);
    }
    let c1 = match reader.u32() {
        Ok(v) => v,
        Err(e) => {
            proof {
                lemma_rd_u32_list_stops(s, q8, 2, 7);
            }
            return Err(PersistError::Codec(e));
        },
    };
    let ghost p2 = reader.spec_pos();
    assert(rd_u32_list(s, q8, 2) == Ok::<(Seq<u32>, int), CodecError>(
        (seq![c0, c1], p2),
    )) by {
        reveal_with_fuel(rd_u32_list, 2);
        assert(seq![c0].push(c1) =~= seq![c0, c1]);
    }
    let c2 = match reader.u32() {
        Ok(v) => v,
        Err(e) => {
            proof {
                lemma_rd_u32_list_stops(s, q8, 3, 7);
            }
            return Err(PersistError::Codec(e));
        },
    };
    let ghost p3 = reader.spec_pos();
    assert(rd_u32_list(s, q8, 3) == Ok::<(Seq<u32>, int), CodecError>(
        (seq![c0, c1, c2], p3),
    )) by {
        reveal_with_fuel(rd_u32_list, 2);
        assert(seq![c0, c1].push(c2) =~= seq![c0, c1, c2]);
    }
    let c3 = match reader.u32() {
        Ok(v) => v,
        Err(e) => {
            proof {
                lemma_rd_u32_list_stops(s, q8, 4, 7);
            }
            return Err(PersistError::Codec(e));
        },
    };
    let ghost p4 = reader.spec_pos();
    assert(rd_u32_list(s, q8, 4) == Ok::<(Seq<u32>, int), CodecError>(
        (seq![c0, c1, c2, c3], p4),
    )) by {
        reveal_with_fuel(rd_u32_list, 2);
        assert(seq![c0, c1, c2].push(c3) =~= seq![c0, c1, c2, c3]);
    }
    let c4 = match reader.u32() {
        Ok(v) => v,
        Err(e) => {
            proof {
                lemma_rd_u32_list_stops(s, q8, 5, 7);
            }
            return Err(PersistError::Codec(e));
        },
    };
    let ghost p5 = reader.spec_pos();
    assert(rd_u32_list(s, q8, 5) == Ok::<(Seq<u32>, int), CodecError>(
        (seq![c0, c1, c2, c3, c4], p5),
    )) by {
        reveal_with_fuel(rd_u32_list, 2);
        assert(seq![c0, c1, c2, c3].push(c4) =~= seq![c0, c1, c2, c3, c4]);
    }
    let c5 = match reader.u32() {
        Ok(v) => v,
        Err(e) => {
            proof {
                lemma_rd_u32_list_stops(s, q8, 6, 7);
            }
            return Err(PersistError::Codec(e));
        },
    };
    let ghost p6 = reader.spec_pos();
    assert(rd_u32_list(s, q8, 6) == Ok::<(Seq<u32>, int), CodecError>(
        (seq![c0, c1, c2, c3, c4, c5], p6),
    )) by {
        reveal_with_fuel(rd_u32_list, 2);
        assert(seq![c0, c1, c2, c3, c4].push(c5) =~= seq![c0, c1, c2, c3, c4, c5]);
    }
    let c6 = match reader.u32() {
        Ok(v) => v,
        Err(e) => {
            proof {
                lemma_rd_u32_list_stops(s, q8, 7, 7);
            }
            return Err(PersistError::Codec(e));
        },
    };
    let ghost p7 = reader.spec_pos();
    assert(rd_u32_list(s, q8, 7) == Ok::<(Seq<u32>, int), CodecError>(
        (seq![c0, c1, c2, c3, c4, c5, c6], p7),
    )) by {
        reveal_with_fuel(rd_u32_list, 2);
        assert(seq![c0, c1, c2, c3, c4, c5].push(c6) =~= seq![c0, c1, c2, c3, c4, c5, c6]);
    }
    let calendar = match CalendarConfig::new(c0, c1, c2, c3, c4, c5, c6) {
        Ok(c) => c,
        Err(e) => {
            return Err(PersistError::Time(e));
        },
    };
    proof {
        let f = seq![c0, c1, c2, c3, c4, c5, c6];
        assert(!exists|k: int| 0 <= k < 7 && f[k] == 0);
    }
    match reader.expect_exhausted() {
        Ok(()) => {},
        Err(e) => {
            return Err(PersistError::Codec(e));
        },
    }
    let descriptor = WorldDescriptor { id: WorldId(id), name, seed, generator_version, shape, bounds };
    Ok((descriptor, calendar, WorldTime(now)))
}

/// A list read that fails partway fails as a whole.
proof fn lemma_rd_u32_list_stops(s: Seq<u8>, p: int, k: nat, n: nat)
    requires
        k <= n,
        rd_u32_list(s, p, k) is Err,
    ensures
        rd_u32_list(s, p, n) == rd_u32_list(s, p, k),
    decreases n - k,
{
    if k < n {
        lemma_rd_u32_list_stops(s, p, k, (n - 1) as nat);
    }
}

/// `u32`s written at `p` read back there.
proof fn lemma_rd_u32_list_written(s: Seq<u8>, p: int, v: Seq<u32>)
    requires
        0 <= p,
        p + u32_list_bytes(v).len() <= s.len(),
        s.subrange(p, p + u32_list_bytes(v).len()) == u32_list_bytes(v),
    ensures
        rd_u32_list(s, p, v.len()) == Ok::<(Seq<u32>, int), CodecError>((v, p + u32_list_bytes(v).len())),
        u32_list_bytes(v).len() == 4 * v.len(),
    decreases v.len(),
{
    if v.len() > 0 {
        let init = v.drop_last();
        lemma_split(s, p, u32_list_bytes(init), le_bytes_u32(v.last()));
        lemma_rd_u32_list_written(s, p, init);
        lemma_rd_u32(s, p + u32_list_bytes(init).len(), v.last());
        assert(init.push(v.last()) =~= v);
        assert((v.len() - 1) as nat == init.len());
    } else {
        assert(v =~= Seq::<u32>::empty());
    }
}

/// Whether a header can be written and read back: edges in range, a
/// non-empty vertical range, no zero calendar field, and a name whose length
/// fits its field.
pub open spec fn header_valid(h: HeaderView) -> bool {
    &&& h.edges.len() == 3
    &&& edge_ok(h.edges[0]) && edge_ok(h.edges[1]) && edge_ok(h.edges[2])
    &&& h.min_y < h.max_y
    &&& h.calendar.len() == 7
    &&& forall|i: int| 0 <= i < 7 ==> #[trigger] h.calendar[i] > 0
    &&& encode_utf8(h.name).len() <= u32::MAX
}

/// A header reads back from its own bytes.
#[verifier::spinoff_prover]
#[verifier::rlimit(80)]
pub proof fn lemma_header_round_trip(h: HeaderView)
    requires
        header_valid(h),
    ensures
        rd_header(header_bytes(h)) == Ok::<HeaderView, PersistError>(h),
{
    let s = header_bytes(h);
    let a1 = le_bytes_u64(h.id);
    let a2 = string_bytes(h.name);
    let a3 = le_bytes_u64(h.seed);
    let a4 = le_bytes_u32(h.generator_version);
    let a5 = u32_list_bytes(h.edges);
    let a6 = le_bytes_u64(h.min_y as u64);
    let a7 = le_bytes_u64(h.max_y as u64);
    let a8 = le_bytes_u64(h.now);
    let a9 = u32_list_bytes(h.calendar);
    assert(s.subrange(0, s.len() as int) =~= a1 + a2 + a3 + a4 + a5 + a6 + a7 + a8 + a9);
    lemma_split(s, 0, a1 + a2 + a3 + a4 + a5 + a6 + a7 + a8, a9);
    lemma_split(s, 0, a1 + a2 + a3 + a4 + a5 + a6 + a7, a8);
    lemma_split(s, 0, a1 + a2 + a3 + a4 + a5 + a6, a7);
    lemma_split(s, 0, a1 + a2 + a3 + a4 + a5, a6);
    lemma_split(s, 0, a1 + a2 + a3 + a4, a5);
    lemma_split(s, 0, a1 + a2 + a3, a4);
    lemma_split(s, 0, a1 + a2, a3);
    lemma_split(s, 0, a1, a2);
    lemma_rd_u64(s, 0, h.id);
    lemma_rd_string(s, 8, h.name);
    let q2: int = 8 + a2.len() as int;
    lemma_rd_u64(s, q2, h.seed);
    lemma_rd_u32(s, q2 + 8, h.generator_version);
    lemma_rd_u32_list_written(s, q2 + 12, h.edges);
    let q5: int = q2 + 24;
    lemma_rd_u64(s, q5, h.min_y as u64);
    lemma_rd_u64(s, q5 + 8, h.max_y as u64);
    let (lo, hi) = (h.min_y, h.max_y);
    assert((lo as u64) as i64 == lo) by (bit_vector);
    assert((hi as u64) as i64 == hi) by (bit_vector);
    lemma_rd_u64(s, q5 + 16, h.now);
    lemma_rd_u32_list_written(s, q5 + 24, h.calendar);
    assert(q5 + 24 + 28 == s.len());
}

/// Names as written, one string after another.
pub open spec fn names_bytes(names: Seq<Seq<char>>) -> Seq<u8>
    decreases names.len(),
{
    if names.len() == 0 {
        Seq::empty()
    } else {
        names_bytes(names.drop_last()) + string_bytes(names.last())
    }
}

/// A palette as written: the entry count, then each identifier.
pub open spec fn palette_bytes(names: Seq<Seq<char>>) -> Seq<u8> {
    le_bytes_u32(names.len() as u32) + names_bytes(names)
}

/// What reading `n` identifiers at `p` gives.
pub open spec fn rd_names(s: Seq<u8>, p: int, n: nat) -> Result<(Seq<Seq<char>>, int), PersistError>
    decreases n,
{
    if n == 0 {
        Ok((Seq::empty(), p))
    } else {
        match rd_names(s, p, (n - 1) as nat) {
            Err(e) => Err(e),
            Ok((v, q)) => match rd_string(s, q) {
                Err(e) => Err(PersistError::Codec(e)),
                Ok((name, q2)) => if !valid_identifier(name) {
                    Err(PersistError::Ident(IdentError::Malformed))
                } else {
                    Ok((v.push(name), q2))
                },
            },
        }
    }
}

/// What decoding a palette gives: a count, that many identifiers, and
/// nothing after them.
pub open spec fn rd_palette(s: Seq<u8>) -> Result<Seq<Seq<char>>, PersistError> {
    match rd_u32(s, 0) {
        Err(e) => Err(PersistError::Codec(e)),
        Ok((n, q)) => match rd_names(s, q, n as nat) {
            Err(e) => Err(e),
            Ok((names, end)) => if end == s.len() {
                Ok(names)
            } else {
                Err(PersistError::Codec(CodecError::TrailingBytes { count: (s.len() - end) as usize }))
            },
        },
    }
}

/// Write the identifier of every registered block, in runtime-id order.
pub fn encode_palette(world: &World) -> (r: Vec<u8>)
    requires
        world.wf(),
    ensures
        r@ == palette_bytes(builtin_blocks()),
{
    let entries = world.blocks().len();
    let mut out = Writer::new();
    out.u32(entries as u32);
    let ghost head = out@;
    let mut runtime_id: u32 = 0;
    while (runtime_id as usize) < entries
        invariant
            world.wf(),
            entries == builtin_blocks().len(),
            runtime_id <= entries,
            out@ == head + names_bytes(builtin_blocks().take(runtime_id as int)),
        decreases entries - runtime_id,
    {
        let identifier = match world.block_identifier(BlockStateId(runtime_id)) {
            Some(id) => id,
            None => {
                proof {
                    assert(false);
                }
                return out.finish();
            },
        };
        out.string(identifier.as_str());
        proof {
            assert(builtin_blocks().take(runtime_id + 1).drop_last() =~= builtin_blocks().take(
                runtime_id as int,
            ));
        }
        runtime_id += 1;
        proof {
            assert(out@ =~= head + names_bytes(builtin_blocks().take(runtime_id as int)));
        }
    }
    proof {
        assert(builtin_blocks().take(runtime_id as int) =~= builtin_blocks());
    }
    out.finish()
}

/// Read a palette back: its identifiers, in the order they were written.
pub fn decode_palette(bytes: &[u8]) -> (r: Result<Vec<Identifier>, PersistError>)
    ensures
        match rd_palette(bytes@) {
            Ok(names) => r matches Ok(ids) && ids@.len() == names.len() && forall|i: int|
                0 <= i < names.len() ==> (#[trigger] ids@[i])@ == names[i],
            Err(e) => r == Err::<Vec<Identifier>, PersistError>(e),
        },
{
    let mut reader = Reader::new(bytes);
    let count = match reader.u32() {
        Ok(v) => v,
        Err(e) => {
            return Err(PersistError::Codec(e));
        },
    };
    let ghost start = reader.spec_pos();
    assert(rd_palette(bytes@) == match rd_names(bytes@, start, count as nat) {
        Err(e) => Err(e),
        Ok((names, end)) => if end == bytes@.len() {
            Ok(names)
        } else {
            Err(PersistError::Codec(CodecError::TrailingBytes { count: (bytes@.len() - end) as usize }))
        },
    });
    let ghost mut names: Seq<Seq<char>> = Seq::empty();
    let mut palette: Vec<Identifier> = Vec::new();
    let mut i: u32 = 0;
    while i < count
        invariant
            reader.wf(),
            reader.spec_bytes() == bytes@,
            rd_palette(bytes@) == match rd_names(bytes@, start, count as nat) {
                Err(e) => Err(e),
                Ok((names, end)) => if end == bytes@.len() {
                    Ok(names)
                } else {
                    Err(PersistError::Codec(CodecError::TrailingBytes { count: (bytes@.len() - end) as usize }))
                },
            },
            i <= count,
            rd_names(bytes@, start, i as nat) == Ok::<(Seq<Seq<char>>, int), PersistError>(
                (names, reader.spec_pos()),
            ),
            palette@.len() == names.len(),
            forall|k: int| 0 <= k < names.len() ==> (#[trigger] palette@[k])@ == names[k],
        decreases count - i,
    {
        let text = match reader.string() {
            Ok(t) => t,
            Err(e) => {
                proof {
                    lemma_rd_names_stops(bytes@, start, (i + 1) as nat, count as nat);
                }
                return Err(PersistError::Codec(e));
            },
        };
        let id = match Identifier::parse(text.as_str()) {
            Ok(id) => id,
            Err(e) => {
                proof {
                    lemma_rd_names_stops(bytes@, start, (i + 1) as nat, count as nat);
                }
                return Err(PersistError::Ident(e));
            },
        };
        proof {
            names = names.push(id@);
        }
        palette.push(id);
        i += 1;
    }
    match reader.expect_exhausted() {
        Ok(()) => Ok(palette),
        Err(e) => Err(PersistError::Codec(e)),
    }
}

/// A name list read that fails partway fails as a whole.
proof fn lemma_rd_names_stops(s: Seq<u8>, p: int, k: nat, n: nat)
    requires
        k <= n,
        rd_names(s, p, k) is Err,
    ensures
        rd_names(s, p, n) == rd_names(s, p, k),
    decreases n - k,
{
    if k < n {
        lemma_rd_names_stops(s, p, k, (n - 1) as nat);
    }
}

/// Identifiers written at `p` read back there.
proof fn lemma_rd_names_written(s: Seq<u8>, p: int, names: Seq<Seq<char>>)
    requires
        forall|i: int| 0 <= i < names.len() ==> valid_identifier(#[trigger] names[i]),
        forall|i: int| 0 <= i < names.len() ==> encode_utf8(#[trigger] names[i]).len() <= u32::MAX,
        0 <= p,
        p + names_bytes(names).len() <= s.len(),
        s.subrange(p, p + names_bytes(names).len()) == names_bytes(names),
    ensures
        rd_names(s, p, names.len()) == Ok::<(Seq<Seq<char>>, int), PersistError>(
            (names, p + names_bytes(names).len()),
        ),
    decreases names.len(),
{
    if names.len() > 0 {
        let init = names.drop_last();
        let last = names.last();
        assert(names[names.len() - 1] == last);
        lemma_split(s, p, names_bytes(init), string_bytes(last));
        assert forall|i: int| 0 <= i < init.len() implies valid_identifier(#[trigger] init[i]) by {
            assert(init[i] == names[i]);
        }
        assert forall|i: int| 0 <= i < init.len() implies encode_utf8(#[trigger] init[i]).len() <= u32::MAX by {
            assert(init[i] == names[i]);
        }
        lemma_rd_names_written(s, p, init);
        lemma_rd_string(s, p + names_bytes(init).len(), last);
        assert(init.push(last) =~= names);
        assert((names.len() - 1) as nat == init.len());
    } else {
        assert(names =~= Seq::<Seq<char>>::empty());
    }
}

/// A palette reads back from its own bytes.
pub proof fn lemma_palette_round_trip(names: Seq<Seq<char>>)
    requires
        names.len() <= u32::MAX,
        forall|i: int| 0 <= i < names.len() ==> valid_identifier(#[trigger] names[i]),
        forall|i: int| 0 <= i < names.len() ==> encode_utf8(#[trigger] names[i]).len() <= u32::MAX,
    ensures
        rd_palette(palette_bytes(names)) == Ok::<Seq<Seq<char>>, PersistError>(names),
{
    let s = palette_bytes(names);
    let head = le_bytes_u32(names.len() as u32);
    let body = names_bytes(names);
    assert(s.subrange(0, s.len() as int) =~= head + body);
    lemma_split(s, 0, head, body);
    lemma_rd_u32(s, 0, names.len() as u32);
    lemma_rd_names_written(s, 4, names);
}

/// The three section names are distinct identifiers of at most thirty
/// characters.
pub proof fn lemma_section_names()
    ensures
        valid_identifier(SECTION_WORLD_HEADER@),
        valid_identifier(SECTION_BLOCK_PALETTE@),
        valid_identifier(SECTION_CHUNKS@),
        SECTION_WORLD_HEADER@ != SECTION_BLOCK_PALETTE@,
        SECTION_WORLD_HEADER@ != SECTION_CHUNKS@,
        SECTION_BLOCK_PALETTE@ != SECTION_CHUNKS@,
        SECTION_WORLD_HEADER@.len() <= 30,
        SECTION_BLOCK_PALETTE@.len() <= 30,
        SECTION_CHUNKS@.len() <= 30,
{
    reveal_strlit("nexora:save/world_header");
    reveal_strlit("nexora:save/block_palette");
    reveal_strlit("nexora:save/chunks");
    reveal_with_fuel(crate::ident::chars_all, 20);
    crate::ident::lemma_valid_by_parts(SECTION_WORLD_HEADER@, 6);
    crate::ident::lemma_valid_by_parts(SECTION_BLOCK_PALETTE@, 6);
    crate::ident::lemma_valid_by_parts(SECTION_CHUNKS@, 6);
    assert(SECTION_WORLD_HEADER@[12] != SECTION_BLOCK_PALETTE@[12]);
    assert(SECTION_WORLD_HEADER@[12] != SECTION_CHUNKS@[12]);
    assert(SECTION_BLOCK_PALETTE@[12] != SECTION_CHUNKS@[12]);
}

/// The identifier naming a save section.
pub(crate) fn section_id(raw: &str) -> (r: Result<Identifier, PersistError>)
    requires
        valid_identifier(raw@),
    ensures
        r matches Ok(id) && id@ == raw@,
{
    match Identifier::parse(raw) {
        Ok(id) => Ok(id),
        Err(e) => Err(PersistError::Ident(e)),
    }
}

/// The sections a world saves into: its header, the identifiers of its
/// registered blocks, and its resident chunks.
pub open spec fn save_view(w: World) -> Seq<(Seq<char>, Seq<u8>)> {
    seq![
        (SECTION_WORLD_HEADER@, header_bytes(world_header(w))),
        (SECTION_BLOCK_PALETTE@, palette_bytes(builtin_blocks())),
        (SECTION_CHUNKS@, chunks_bytes(chunk_records(w.spec_chunks()))),
    ]
}

/// Serialize a world into a save container.
pub fn save(world: &World) -> (r: Result<SaveContainer, PersistError>)
    requires
        world.wf(),
    ensures
        r matches Ok(c) && c@ == save_view(*world),
{
    proof {
        lemma_section_names();
    }
    let mut container = SaveContainer::new();
    let header = match section_id(SECTION_WORLD_HEADER) {
        Ok(id) => id,
        Err(e) => {
            return Err(e);
        },
    };
    let palette = match section_id(SECTION_BLOCK_PALETTE) {
        Ok(id) => id,
        Err(e) => {
            return Err(e);
        },
    };
    let chunks = match section_id(SECTION_CHUNKS) {
        Ok(id) => id,
        Err(e) => {
            return Err(e);
        },
    };
    let ghost v0 = container@;
    container.put(header, encode_header(world));
    let ghost v1 = container@;
    assert(v1 =~= seq![(SECTION_WORLD_HEADER@, header_bytes(world_header(*world)))]);
    container.put(palette, encode_palette(world));
    let ghost v2 = container@;
    assert(v2 =~= v1.push((SECTION_BLOCK_PALETTE@, palette_bytes(builtin_blocks())))) by {
        assert(!exists|i: int| 0 <= i < v1.len() && v1[i].0 == SECTION_BLOCK_PALETTE@);
    }
    container.put(chunks, encode_chunks(world));
    assert(container@ =~= save_view(*world)) by {
        assert(!exists|i: int| 0 <= i < v2.len() && v2[i].0 == SECTION_CHUNKS@) by {
            assert forall|i: int| 0 <= i < v2.len() implies v2[i].0 != SECTION_CHUNKS@ by {
                assert(i == 0 || i == 1);
            }
        }
    }
    Ok(container)
}

/// Whether this build registers a block of this name.
pub open spec fn registered(name: Seq<char>) -> bool {
    builtin_blocks().contains(name)
}

/// The runtime id of a registered block name.
pub open spec fn builtin_index(name: Seq<char>) -> int {
    choose|i: int| 0 <= i < builtin_blocks().len() && builtin_blocks()[i] == name
}

/// The first saved name this build does not register.
pub open spec fn first_unregistered(names: Seq<Seq<char>>) -> Option<int>
    decreases names.len(),
{
    if names.len() == 0 {
        None
    } else {
        match first_unregistered(names.drop_last()) {
            Some(k) => Some(k),
            None => if registered(names.last()) {
                None
            } else {
                Some(names.len() - 1)
            },
        }
    }
}

/// The table that takes each saved palette index to this build's runtime id.
pub open spec fn resolved(names: Seq<Seq<char>>) -> Seq<BlockStateId> {
    names.map_values(|n: Seq<char>| BlockStateId(builtin_index(n) as u32))
}

/// Resolve saved identifiers against this build's registry. A name this
/// build does not register stops the load, naming it.
pub(crate) fn resolve_palette(world: &World, palette: &Vec<Identifier>) -> (r: Result<Vec<BlockStateId>, PersistError>)
    requires
        world.wf(),
    ensures
        match first_unregistered(palette@.map_values(|id: Identifier| id@)) {
            Some(k) => r matches Err(PersistError::MissingContent { name }) && name@ == palette@[k]@,
            None => r matches Ok(t) && t@ == resolved(palette@.map_values(|id: Identifier| id@)),
        },
{
    let ghost names = palette@.map_values(|id: Identifier| id@);
    let mut remap: Vec<BlockStateId> = Vec::new();
    let mut i: usize = 0;
    while i < palette.len()
        invariant
            world.wf(),
            names == palette@.map_values(|id: Identifier| id@),
            i <= palette@.len(),
            first_unregistered(names.take(i as int)) is None,
            remap@ == resolved(names.take(i as int)),
        decreases palette.len() - i,
    {
        proof {
            assert(names.take(i + 1).drop_last() =~= names.take(i as int));
            assert(names.take(i + 1).last() == palette@[i as int]@);
        }
        match world.block_id(&palette[i]) {
            Ok(state) => {
                proof {
                    let n = palette@[i as int]@;
                    assert(builtin_blocks()[state.0 as int] == n);
                    let k = builtin_index(n);
                    assert(0 <= k < builtin_blocks().len() && builtin_blocks()[k] == n);
                    crate::world::lemma_block_ids_round_trip(k, state.0 as int);
                }
                remap.push(state);
            },
            Err(_) => {
                proof {
                    lemma_first_unregistered_prefix(names, i as int);
                }
                return Err(PersistError::MissingContent { name: palette[i].as_str().to_owned() });
            },
        }
        proof {
            assert(remap@ =~= resolved(names.take(i + 1)));
        }
        i += 1;
    }
    proof {
        assert(names.take(i as int) =~= names);
    }
    Ok(remap)
}

/// When a prefix registers every name and the next name is not registered,
/// that next name is the first unregistered one.
proof fn lemma_first_unregistered_prefix(names: Seq<Seq<char>>, i: int)
    requires
        0 <= i < names.len(),
        first_unregistered(names.take(i)) is None,
        !registered(names[i]),
    ensures
        first_unregistered(names) == Some(i),
    decreases names.len(),
{
    if i < names.len() - 1 {
        let init = names.drop_last();
        assert(init.take(i) =~= names.take(i));
        assert(init[i] == names[i]);
        lemma_first_unregistered_prefix(init, i);
    } else {
        assert(names.drop_last() =~= names.take(i));
    }
}

/// The last record of a column, if any.
pub open spec fn last_index(recs: Seq<(ChunkCoord, Seq<(i64, PartsView)>)>, c: ChunkCoord) -> Option<int>
    decreases recs.len(),
{
    if recs.len() == 0 {
        None
    } else if recs.last().0 == c {
        Some(recs.len() - 1)
    } else {
        last_index(recs.drop_last(), c)
    }
}

/// Each column of a world holds the chunk read from its last record, and a
/// column without a record holds nothing.
pub open spec fn placed(
    w: World,
    recs: Seq<(ChunkCoord, Seq<(i64, PartsView)>)>,
    shape: ChunkShape,
    table: Seq<BlockStateId>,
) -> bool {
    forall|c: ChunkCoord|
        match last_index(recs, c) {
            None => (#[trigger] w.chunk_at(c)) is None,
            Some(k) => w.chunk_at(c) matches Some(ch) && chunk_matches(ch, recs[k], shape, table),
        }
}

/// Insert decoded chunks in order, later ones replacing earlier ones of the
/// same column.
fn insert_all(
    world: &mut World,
    chunks: Vec<Chunk>,
    Ghost(recs): Ghost<Seq<(ChunkCoord, Seq<(i64, PartsView)>)>>,
    Ghost(table): Ghost<Seq<BlockStateId>>,
)
    requires
        old(world).wf(),
        old(world).spec_chunks().len() == 0,
        chunks@.len() == recs.len(),
        forall|i: int|
            0 <= i < recs.len() ==> #[trigger] chunk_matches(
                chunks@[i],
                recs[i],
                old(world).spec_descriptor().shape,
                table,
            ),
    ensures
        final(world).wf(),
        final(world).spec_descriptor() == old(world).spec_descriptor(),
        final(world).spec_clock() == old(world).spec_clock(),
        final(world).spec_blocks() == old(world).spec_blocks(),
        final(world).spec_phase() == old(world).spec_phase(),
        placed(*final(world), recs, old(world).spec_descriptor().shape, table),
{
    let ghost shape = world.spec_descriptor().shape;
    let ghost all = chunks@;
    let mut rest = chunks;
    let total = rest.len();
    let mut i: usize = 0;
    proof {
        assert forall|c: ChunkCoord| #[trigger] world.chunk_at(c) is None by {}
    }
    while rest.len() > 0
        invariant
            world.wf(),
            world.spec_descriptor() == old(world).spec_descriptor(),
            world.spec_clock() == old(world).spec_clock(),
            world.spec_blocks() == old(world).spec_blocks(),
            world.spec_phase() == old(world).spec_phase(),
            shape == old(world).spec_descriptor().shape,
            all.len() == recs.len(),
            i <= all.len(),
            rest@ == all.skip(i as int),
            total == all.len(),
            forall|k: int| 0 <= k < recs.len() ==> #[trigger] chunk_matches(all[k], recs[k], shape, table),
            placed(*world, recs.take(i as int), shape, table),
        decreases rest.len(),
    {
        let chunk = rest.remove(0);
        proof {
            assert(chunk == all[i as int]);
            assert(rest@ =~= all.skip(i + 1));
            assert(chunk_matches(all[i as int], recs[i as int], shape, table));
        }
        let ghost before = *world;
        world.insert_chunk(chunk);
        proof {
            let pre = recs.take(i as int);
            let post = recs.take(i + 1);
            assert(post.drop_last() =~= pre);
            assert(post.last() == recs[i as int]);
            assert forall|c: ChunkCoord| match last_index(post, c) {
                None => (#[trigger] world.chunk_at(c)) is None,
                Some(k) => world.chunk_at(c) matches Some(ch) && chunk_matches(ch, post[k], shape, table),
            } by {
                if c == chunk.spec_coord() {
                    assert(recs[i as int].0 == chunk.spec_coord());
                    assert(last_index(post, c) == Some(i as int));
                } else {
                    assert(world.chunk_at(c) == before.chunk_at(c));
                    assert(last_index(post, c) == last_index(pre, c));
                    if let Some(k) = last_index(pre, c) {
                        lemma_last_index_bounds(pre, c);
                        assert(post[k] == pre[k]);
                    }
                }
            }
        }
        i += 1;
    }
    proof {
        assert(recs.take(i as int) =~= recs);
    }
}

/// A column's last record lies inside the list and is of that column.
proof fn lemma_last_index_bounds(recs: Seq<(ChunkCoord, Seq<(i64, PartsView)>)>, c: ChunkCoord)
    ensures
        last_index(recs, c) matches Some(k) ==> 0 <= k < recs.len() && recs[k].0 == c,
    decreases recs.len(),
{
    if recs.len() > 0 && recs.last().0 != c {
        lemma_last_index_bounds(recs.drop_last(), c);
    }
}

/// The shape a header's edges describe.
pub open spec fn shape_of(h: HeaderView) -> ChunkShape {
    choose|sh: ChunkShape| sh.sx() == h.edges[0] && sh.sy() == h.edges[1] && sh.sz() == h.edges[2]
}

/// What loading a container comes to.
pub enum LoadOutcome {
    /// Refused for a reason that names neither a section nor a block.
    Refused(PersistError),
    /// A required section is absent.
    MissingSection(Seq<char>),
    /// The save names block content this build does not register.
    MissingContent(Seq<char>),
    /// The world is rebuilt from this header, with chunk data read from these
    /// records through this table.
    Loaded {
        header: HeaderView,
        table: Seq<BlockStateId>,
        records: Seq<(ChunkCoord, Seq<(i64, PartsView)>)>,
    },
}

/// What loading the sections `v` comes to: the header, then the palette
/// resolved against this build's registry, then the chunk data, each refused
/// as soon as it is missing or malformed.
pub open spec fn load_outcome(v: Seq<(Seq<char>, Seq<u8>)>) -> LoadOutcome {
    match section_of(v, SECTION_WORLD_HEADER@) {
        None => LoadOutcome::MissingSection(SECTION_WORLD_HEADER@),
        Some(hb) => match rd_header(hb) {
            Err(e) => LoadOutcome::Refused(e),
            Ok(h) => match section_of(v, SECTION_BLOCK_PALETTE@) {
                None => LoadOutcome::MissingSection(SECTION_BLOCK_PALETTE@),
                Some(pb) => match rd_palette(pb) {
                    Err(e) => LoadOutcome::Refused(e),
                    Ok(names) => match first_unregistered(names) {
                        Some(k) => LoadOutcome::MissingContent(names[k]),
                        None => match section_of(v, SECTION_CHUNKS@) {
                            None => LoadOutcome::MissingSection(SECTION_CHUNKS@),
                            Some(cb) => match decode_chunks_spec(cb, shape_of(h), resolved(names)) {
                                Err(e) => LoadOutcome::Refused(e),
                                Ok(recs) => LoadOutcome::Loaded {
                                    header: h,
                                    table: resolved(names),
                                    records: recs,
                                },
                            },
                        },
                    },
                },
            },
        },
    }
}

/// A world rebuilt from a header and chunk records: consistent, with the
/// header's identity, bounds, calendar and tick, at the start of its
/// lifecycle, and each column holding the chunk read from its last record.
pub open spec fn restored(
    w: World,
    header: HeaderView,
    table: Seq<BlockStateId>,
    recs: Seq<(ChunkCoord, Seq<(i64, PartsView)>)>,
) -> bool {
    &&& w.wf()
    &&& header_is(w.spec_descriptor(), w.spec_clock().spec_calendar(), w.spec_clock().spec_now(), header)
    &&& w.spec_phase() == WorldPhase::Requested
    &&& placed(w, recs, w.spec_descriptor().shape, table)
}

/// Rebuild a world from a save container.
///
/// Lifecycle phase is runtime state, not saved state: a loaded world starts
/// at the beginning of its lifecycle with its data intact.
#[verifier::spinoff_prover]
#[verifier::rlimit(60)]
pub fn load(container: &SaveContainer) -> (r: Result<World, PersistError>)
    ensures
        match load_outcome(container@) {
            LoadOutcome::Refused(e) => r == Err::<World, PersistError>(e),
            LoadOutcome::MissingSection(n) => r matches Err(PersistError::MissingSection { name })
                && name@ == n,
            LoadOutcome::MissingContent(n) => r matches Err(PersistError::MissingContent { name })
                && name@ == n,
            LoadOutcome::Loaded { header, table, records } => r matches Ok(w) && restored(
                w,
                header,
                table,
                records,
            ),
        },
{
    proof {
        lemma_section_names();
    }
    let header_name = match section_id(SECTION_WORLD_HEADER) {
        Ok(id) => id,
        Err(e) => {
            return Err(e);
        },
    };
    let header_bytes = match container.require(&header_name) {
        Ok(b) => b,
        Err(e) => {
            return Err(e);
        },
    };
    let (descriptor, calendar, now) = match decode_header(header_bytes) {
        Ok(t) => t,
        Err(e) => {
            return Err(e);
        },
    };
    let ghost h = rd_header(header_bytes@)->Ok_0;
    let mut world = match World::resumed(descriptor, calendar, now) {
        Ok(w) => w,
        Err(e) => {
            return Err(PersistError::World(e));
        },
    };
    let palette_name = match section_id(SECTION_BLOCK_PALETTE) {
        Ok(id) => id,
        Err(e) => {
            return Err(e);
        },
    };
    let palette_bytes = match container.require(&palette_name) {
        Ok(b) => b,
        Err(e) => {
            return Err(e);
        },
    };
    let saved = match decode_palette(palette_bytes) {
        Ok(p) => p,
        Err(e) => {
            return Err(e);
        },
    };
    let ghost names = rd_palette(palette_bytes@)->Ok_0;
    proof {
        assert(saved@.map_values(|id: Identifier| id@) =~= names);
    }
    let remap = match resolve_palette(&world, &saved) {
        Ok(t) => t,
        Err(e) => {
            proof {
                lemma_first_unregistered_bounds(names);
                if let Some(k) = first_unregistered(names) {
                    assert(names[k] == saved@[k]@);
                }
            }
            return Err(e);
        },
    };
    let chunks_name = match section_id(SECTION_CHUNKS) {
        Ok(id) => id,
        Err(e) => {
            return Err(e);
        },
    };
    let chunk_bytes = match container.require(&chunks_name) {
        Ok(b) => b,
        Err(e) => {
            return Err(e);
        },
    };
    let shape = world.descriptor().shape;
    proof {
        assert(shape.sx() == h.edges[0] && shape.sy() == h.edges[1] && shape.sz() == h.edges[2]);
        let chosen = shape_of(h);
        assert(chosen.sx() == h.edges[0] && chosen.sy() == h.edges[1] && chosen.sz() == h.edges[2]);
        chosen.lemma_edges_determine(shape);
    }
    let chunks = match decode_chunks(chunk_bytes, shape, &remap) {
        Ok(c) => c,
        Err(e) => {
            return Err(e);
        },
    };
    let ghost recs = decode_chunks_spec(chunk_bytes@, shape, remap@)->Ok_0;
    insert_all(&mut world, chunks, Ghost(recs), Ghost(remap@));
    Ok(world)
}

/// The first unregistered name lies inside the list.
pub(crate) proof fn lemma_first_unregistered_bounds(names: Seq<Seq<char>>)
    ensures
        first_unregistered(names) matches Some(k) ==> 0 <= k < names.len(),
    decreases names.len(),
{
    if names.len() > 0 {
        lemma_first_unregistered_bounds(names.drop_last());
    }
}

/// What a world must satisfy for its save to load back: non-empty bounds, a
/// calendar without zero fields, counts and a name that fit their fields,
/// chunks of the world's shape, and no recorded state outside the registry.
pub open spec fn savable(w: World) -> bool {
    &&& w.spec_descriptor().bounds.min_y < w.spec_descriptor().bounds.max_y
    &&& w.spec_clock().spec_calendar().wf()
    &&& encode_utf8(w.spec_descriptor().name@).len() <= u32::MAX
    &&& w.spec_chunks().len() <= u32::MAX
    &&& forall|i: int|
        0 <= i < w.spec_chunks().len() ==> (#[trigger] w.spec_chunks()[i]).spec_sections().len()
            <= u32::MAX && w.spec_chunks()[i].spec_shape() == w.spec_descriptor().shape
            && states_below(w.spec_chunks()[i], builtin_blocks().len() as int)
}

/// The registry's own names all resolve, each to its own runtime id.
pub(crate) proof fn lemma_builtin_resolution()
    ensures
        first_unregistered(builtin_blocks()) is None,
        identity_table(resolved(builtin_blocks())),
        resolved(builtin_blocks()).len() == builtin_blocks().len(),
{
    let names = builtin_blocks();
    assert forall|k: int| 0 <= k <= names.len() implies first_unregistered(#[trigger] names.take(k))
        is None by {
        lemma_registered_prefix(names, k);
    }
    assert(names.take(names.len() as int) =~= names);
    assert forall|i: int| 0 <= i < names.len() implies (#[trigger] resolved(names)[i]).0 == i by {
        let k = builtin_index(names[i]);
        assert(names.contains(names[i]));
        assert(0 <= k < names.len() && names[k] == names[i]);
        crate::world::lemma_block_ids_round_trip(k, i);
    }
}

/// Every prefix of the registry's names is registered.
proof fn lemma_registered_prefix(names: Seq<Seq<char>>, k: int)
    requires
        names == builtin_blocks(),
        0 <= k <= names.len(),
    ensures
        first_unregistered(names.take(k)) is None,
    decreases k,
{
    if k > 0 {
        lemma_registered_prefix(names, k - 1);
        assert(names.take(k).drop_last() =~= names.take(k - 1));
        assert(names.take(k).last() == names[k - 1]);
        assert(names.contains(names[k - 1]));
    }
}

/// A world's header is valid when the world can be saved.
proof fn lemma_world_header_valid(w: World)
    requires
        w.wf(),
        savable(w),
    ensures
        header_valid(world_header(w)),
        shape_of(world_header(w)) == w.spec_descriptor().shape,
{
    let h = world_header(w);
    let d = w.spec_descriptor();
    let cal = w.spec_clock().spec_calendar();
    cal.lemma_fields(cal);
    assert forall|i: int| 0 <= i < 7 implies #[trigger] h.calendar[i] > 0 by {
        assert(cal.fields()[i] > 0);
    }
    let chosen = shape_of(h);
    assert(d.shape.sx() == h.edges[0] && d.shape.sy() == h.edges[1] && d.shape.sz() == h.edges[2]);
    chosen.lemma_edges_determine(d.shape);
}

/// Loading what a world saves rebuilds that world: whenever the world can be
/// saved, loading its sections reads back its header, resolves its palette
/// to the registry's own runtime ids, and reads back one record per resident
/// chunk, in column order, each the chunk's column and stored sections.
#[verifier::spinoff_prover]
#[verifier::rlimit(60)]
pub proof fn lemma_save_then_load(w: World)
    requires
        w.wf(),
        savable(w),
    ensures
        load_outcome(save_view(w)) == (LoadOutcome::Loaded {
            header: world_header(w),
            table: resolved(builtin_blocks()),
            records: chunk_records(w.spec_chunks()),
        }),
        identity_table(resolved(builtin_blocks())),
        resolved(builtin_blocks()).len() == builtin_blocks().len(),
{
    let v = save_view(w);
    let h = world_header(w);
    let names = builtin_blocks();
    let table = resolved(names);
    let recs = chunk_records(w.spec_chunks());
    let shape = w.spec_descriptor().shape;
    lemma_section_names();
    assert(crate::container::names_distinct(v));
    crate::container::lemma_section_at(v, 0);
    crate::container::lemma_section_at(v, 1);
    crate::container::lemma_section_at(v, 2);
    lemma_world_header_valid(w);
    lemma_header_round_trip(h);
    crate::world::lemma_builtin_names();
    assert forall|i: int| 0 <= i < names.len() implies encode_utf8(#[trigger] names[i]).len()
        <= u32::MAX by {
        crate::ident::lemma_identifier_ascii(names[i]);
    }
    lemma_palette_round_trip(names);
    lemma_builtin_resolution();
    assert forall|i: int| 0 <= i < recs.len() implies record_convertible(#[trigger] recs[i], shape, table) by {
        let c = w.spec_chunks()[i];
        assert(recs[i] == chunk_record(c));
        lemma_chunk_record_faithful(c, table);
    }
    lemma_chunk_data_round_trip(recs, shape, table);
}

/// A column's last record among a world's chunk records is the record of
/// its resident chunk.
proof fn lemma_records_find(chunks: Seq<Chunk>, c: ChunkCoord)
    requires
        crate::world::coords_sorted(chunks),
    ensures
        match last_index(chunk_records(chunks), c) {
            None => crate::world::find_chunk(chunks, c) is None,
            Some(k) => 0 <= k < chunks.len() && crate::world::find_chunk(chunks, c) == Some(chunks[k]),
        },
    decreases chunks.len(),
{
    let recs = chunk_records(chunks);
    if chunks.len() > 0 {
        let init = chunks.drop_last();
        assert(recs.drop_last() =~= chunk_records(init));
        assert(chunks[chunks.len() - 1] == chunks.last());
        if chunks.last().spec_coord() == c {
            crate::world::lemma_find_at(chunks, chunks.len() - 1);
        } else {
            assert forall|i: int, j: int| 0 <= i < j < init.len() implies crate::spatial::coord_lt(
                init[i].spec_coord(),
                init[j].spec_coord(),
            ) by {
                assert(init[i] == chunks[i] && init[j] == chunks[j]);
            }
            lemma_records_find(init, c);
            match last_index(chunk_records(init), c) {
                None => {
                    assert forall|i: int| 0 <= i < chunks.len() implies chunks[i].spec_coord() != c by {
                        if i < init.len() {
                            assert(init[i] == chunks[i]);
                            if chunks[i].spec_coord() == c {
                                assert(crate::world::find_chunk(init, c) is Some);
                            }
                        }
                    }
                },
                Some(k) => {
                    assert(init[k] == chunks[k]);
                    crate::world::lemma_find_at(init, k);
                    assert(init[k].spec_coord() == c);
                    crate::world::lemma_find_at(chunks, k);
                },
            }
        }
    }
}

/// A world rebuilt from what another world saved reads alike: the same
/// identity, seed, generator, shape and bounds, the same calendar and tick,
/// and every position reads the same block, or fails the same way.
pub proof fn lemma_restored_reads_alike(w: World, w2: World)
    requires
        w.wf(),
        savable(w),
        restored(w2, world_header(w), resolved(builtin_blocks()), chunk_records(w.spec_chunks())),
    ensures
        w2.spec_descriptor().id == w.spec_descriptor().id,
        w2.spec_descriptor().name@ == w.spec_descriptor().name@,
        w2.spec_descriptor().seed == w.spec_descriptor().seed,
        w2.spec_descriptor().generator_version == w.spec_descriptor().generator_version,
        w2.spec_descriptor().shape == w.spec_descriptor().shape,
        w2.spec_descriptor().bounds == w.spec_descriptor().bounds,
        w2.spec_clock() == w.spec_clock(),
        w2.spec_chunks().len() == w.spec_chunks().len(),
        forall|p: crate::spatial::BlockPos| #[trigger] crate::world::world_read(w2, p)
            == crate::world::world_read(w, p),
{
    let h = world_header(w);
    let shape = w.spec_descriptor().shape;
    let table = resolved(builtin_blocks());
    let recs = chunk_records(w.spec_chunks());
    lemma_world_header_valid(w);
    lemma_builtin_resolution();
    let d2 = w2.spec_descriptor();
    d2.shape.lemma_edges_determine(shape);
    let cal = w.spec_clock().spec_calendar();
    cal.lemma_fields(w2.spec_clock().spec_calendar());
    w2.spec_clock().spec_calendar().lemma_fields(cal);
    w2.spec_clock().lemma_determined(w.spec_clock());
    assert forall|c: ChunkCoord| (#[trigger] crate::world::find_chunk(w2.spec_chunks(), c)) is Some
        <==> crate::world::find_chunk(w.spec_chunks(), c) is Some by {
        lemma_records_find(w.spec_chunks(), c);
        assert(w2.chunk_at(c) == crate::world::find_chunk(w2.spec_chunks(), c));
    }
    crate::world::lemma_same_columns_same_count(w2.spec_chunks(), w.spec_chunks());
    assert forall|p: crate::spatial::BlockPos| #[trigger] crate::world::world_read(w2, p)
        == crate::world::world_read(w, p) by {
        let coord = shape.spec_column_of(p);
        lemma_records_find(w.spec_chunks(), coord);
        assert(w2.chunk_at(coord) == w2.chunk_at(coord));
        match last_index(recs, coord) {
            None => {},
            Some(k) => {
                let c = w.spec_chunks()[k];
                assert(recs[k] == chunk_record(c));
                lemma_chunk_record_faithful(c, table);
                let ch = w2.chunk_at(coord)->Some_0;
                assert(chunk_matches(ch, recs[k], shape, table));
                assert forall|y: i64| #[trigger] ch.effective(y) == c.effective(y) by {
                    assert(sections_effective(shape, table, chunk_record(c).1, y) == c.effective(y));
                }
                assert(ch.block(p) == c.block(p));
            },
        }
    }
}

} // verus!
