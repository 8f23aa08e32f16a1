//! World runtime: identity, lifecycle, block registry, chunks and generation.
//!
//! A world moves through linear phases from `Requested` to `Closed`;
//! streaming, LOD transitions and checkpoints are repeating operations inside
//! `Active`, not phases of their own. Terrain is a pure function of the seed
//! and the block position, so a column's content does not depend on which
//! chunks were generated first.

use vstd::prelude::*;
use vstd::string::*;

use crate::chunk::{
    Chunk,
    ChunkError,
    ChunkState,
    VoxelChange,
    journal_after,
    lookup,
    resident,
    total_storage_bytes,
    transition_allowed,
    MAX_JOURNAL_ENTRIES,
    chunk_error_text,
};
use crate::error::{Recovery, join};
use crate::hashing::{Fnv1a64, FNV_OFFSET_BASIS, fnv_fold, le_bytes_u64};
use crate::ident::{Identifier, chars_all, lemma_valid_by_parts, valid_identifier};
use crate::spatial::{
    BlockPos,
    ChunkCoord,
    ChunkShape,
    LocalPos,
    MAX_SECTION_EDGE,
    coord_lt,
    coord_less,
    floor_div,
    lemma_index_in_range,
    lemma_index_injective,
};
use crate::time::{CalendarConfig, WorldClock, WorldTime};
use crate::spatial::{lemma_div_bounds, lemma_local_at, local_at};
use vstd::arithmetic::div_mod::{lemma_fundamental_div_mod, lemma_mod_bound};
use crate::voxel::{BlockStateId, PartsView, Section, air, compacted_parts, spec_air};

verus! {

/// Version of the terrain algorithm in this build.
///
/// Bumping this is mandatory whenever generation changes: the same seed is only
/// guaranteed to reproduce a world under the same generator version.
pub const GENERATOR_VERSION: u32 = 1;

/// Base terrain height, in blocks.
pub const TERRAIN_BASE_HEIGHT: i64 = 64;

/// Peak-to-trough variation of the terrain surface, in blocks.
pub const TERRAIN_AMPLITUDE: i64 = 12;

/// Depth of the soil layer beneath the surface block.
pub const SOIL_DEPTH: i64 = 4;

/// The stream tag that separates terrain values from other positional values.
pub const TERRAIN_STREAM: u64 = 1;

/// The lowest buildable block of the default world.
pub const DEFAULT_MIN_Y: i64 = -1920;

/// The highest buildable block of the default world.
pub const DEFAULT_MAX_Y: i64 = 1920;

/// Runtime id of stone in the built-in registry.
pub const STONE_ID: u32 = 1;

/// Runtime id of dirt in the built-in registry.
pub const DIRT_ID: u32 = 2;

/// Runtime id of grass in the built-in registry.
pub const GRASS_ID: u32 = 3;

/// Why a world operation was refused.
#[derive(Debug, Clone, Copy, PartialEq, Eq, Structural)]
pub enum WorldError {
    /// The vertical range is empty or inverted.
    InvalidBounds { min_y: i64, max_y: i64 },
    /// A world needs a name that is not blank.
    EmptyName,
    /// The lifecycle does not allow this step.
    IllegalPhase { from: WorldPhase, to: WorldPhase },
    /// No block is registered under the identifier.
    UnknownBlock,
    /// The column is not in memory.
    NotResident { chunk: ChunkCoord },
    /// The position is above or below the world's buildable range.
    OutOfBounds { y: i64, min_y: i64, max_y: i64 },
    /// The column is loaded but not in a state that accepts writes.
    NotWritable { chunk: ChunkCoord, state: ChunkState },
    /// The chunk refused the request.
    Chunk(ChunkError),
}

/// The name a phase is reported under.
pub open spec fn phase_name(p: WorldPhase) -> Seq<char> {
    match p {
        WorldPhase::Requested => "Requested"@,
        WorldPhase::Validated => "Validated"@,
        WorldPhase::Seeded => "Seeded"@,
        WorldPhase::RootReady => "RootReady"@,
        WorldPhase::Registered => "Registered"@,
        WorldPhase::Active => "Active"@,
        WorldPhase::Suspended => "Suspended"@,
        WorldPhase::Closed => "Closed"@,
    }
}

/// The text of a world error.
pub open spec fn world_error_text(e: WorldError) -> Seq<char> {
    match e {
        WorldError::InvalidBounds { .. } => "the vertical range must be non-empty and ascending"@,
        WorldError::EmptyName => "a world needs a name"@,
        WorldError::IllegalPhase { from, to } => "illegal world phase transition: from="@
            + phase_name(from) + " to="@ + phase_name(to),
        WorldError::UnknownBlock => "no block is registered under the identifier"@,
        WorldError::NotResident { .. } => "chunk is not resident"@,
        WorldError::OutOfBounds { .. } => "block position is outside the world's vertical bounds"@,
        WorldError::NotWritable { .. } => "chunk is not in a writable state"@,
        WorldError::Chunk(c) => chunk_error_text(c),
    }
}

impl WorldError {
    /// A description of the error, naming the phases of a refused step.
    pub fn message(&self) -> (r: String)
        ensures
            r@ == world_error_text(*self),
    {
        match self {
            WorldError::IllegalPhase { from, to } => {
                let head = join("illegal world phase transition: from=", from.name());
                let middle = join(head.as_str(), " to=");
                join(middle.as_str(), to.name())
            },
            WorldError::Chunk(c) => c.message(),
            WorldError::InvalidBounds { .. } => "the vertical range must be non-empty and ascending".to_owned(),
            WorldError::EmptyName => "a world needs a name".to_owned(),
            WorldError::UnknownBlock => "no block is registered under the identifier".to_owned(),
            WorldError::NotResident { .. } => "chunk is not resident".to_owned(),
            WorldError::OutOfBounds { .. } => "block position is outside the world's vertical bounds".to_owned(),
            WorldError::NotWritable { .. } => "chunk is not in a writable state".to_owned(),
        }
    }

    /// What a caller can do about this error.
    pub fn recovery(&self) -> (r: Recovery)
        ensures
            r == (match *self {
                WorldError::InvalidBounds { .. } => Recovery::Reject,
                WorldError::EmptyName => Recovery::Reject,
                WorldError::IllegalPhase { .. } => Recovery::Manual,
                WorldError::UnknownBlock => Recovery::Reject,
                WorldError::NotResident { .. } => Recovery::Retry,
                WorldError::OutOfBounds { .. } => Recovery::Reject,
                WorldError::NotWritable { .. } => Recovery::Retry,
                WorldError::Chunk(ChunkError::IllegalTransition { .. }) => Recovery::Manual,
                WorldError::Chunk(_) => Recovery::Reject,
            }),
    {
        match self {
            WorldError::InvalidBounds { .. } => Recovery::Reject,
            WorldError::EmptyName => Recovery::Reject,
            WorldError::IllegalPhase { .. } => Recovery::Manual,
            WorldError::UnknownBlock => Recovery::Reject,
            WorldError::NotResident { .. } => Recovery::Retry,
            WorldError::OutOfBounds { .. } => Recovery::Reject,
            WorldError::NotWritable { .. } => Recovery::Retry,
            WorldError::Chunk(e) => e.recovery(),
        }
    }
}

/// The vertical extent of a dimension, in blocks.
#[derive(Debug, Clone, Copy, PartialEq, Eq, Structural)]
pub struct WorldBounds {
    /// Lowest buildable block.
    pub min_y: i64,
    /// Highest buildable block.
    pub max_y: i64,
}

impl WorldBounds {
    /// The default deep world: 1920 blocks up and down.
    pub fn default_bounds() -> (b: Self)
        ensures
            b.min_y == DEFAULT_MIN_Y,
            b.max_y == DEFAULT_MAX_Y,
    {
        WorldBounds { min_y: DEFAULT_MIN_Y, max_y: DEFAULT_MAX_Y }
    }

    /// Validate the bounds: the range must be non-empty and ascending.
    pub fn validate(self) -> (r: Result<Self, WorldError>)
        ensures
            r is Ok <==> self.min_y < self.max_y,
            r matches Ok(b) ==> b == self,
            r matches Err(e) ==> e == (WorldError::InvalidBounds {
                min_y: self.min_y,
                max_y: self.max_y,
            }),
    {
        if self.min_y >= self.max_y {
            return Err(WorldError::InvalidBounds { min_y: self.min_y, max_y: self.max_y });
        }
        Ok(self)
    }

    /// Whether a block height is inside the buildable range.
    pub fn contains_y(self, y: i64) -> (r: bool)
        ensures
            r == (self.min_y <= y && y <= self.max_y),
    {
        y >= self.min_y && y <= self.max_y
    }
}

/// A registered block type.
#[derive(Debug, Clone, Copy, PartialEq, Eq, Structural)]
pub struct BlockDefinition {
    /// Whether the block obstructs movement. Consumed by physics, not by storage.
    pub solid: bool,
}

/// The linear phases of a world's existence.
#[derive(Debug, Clone, Copy, PartialEq, Eq, Structural, PartialOrd, Ord)]
pub enum WorldPhase {
    /// Requested but not yet checked.
    Requested,
    /// Configuration validated.
    Validated,
    /// Seed and generator version fixed; from here they are immutable.
    Seeded,
    /// Root state generated or loaded.
    RootReady,
    /// Registered with the runtime and addressable.
    Registered,
    /// Simulating. Streaming, LOD transitions and checkpoints happen here.
    Active,
    /// Not simulating; state intact.
    Suspended,
    /// Flushed and closed.
    Closed,
}

/// A phase's place in the lifecycle order.
pub open spec fn phase_rank(p: WorldPhase) -> int {
    match p {
        WorldPhase::Requested => 0,
        WorldPhase::Validated => 1,
        WorldPhase::Seeded => 2,
        WorldPhase::RootReady => 3,
        WorldPhase::Registered => 4,
        WorldPhase::Active => 5,
        WorldPhase::Suspended => 6,
        WorldPhase::Closed => 7,
    }
}

/// Which phase steps the lifecycle allows.
pub open spec fn phase_step_allowed(from: WorldPhase, to: WorldPhase) -> bool {
    match from {
        WorldPhase::Requested => to == WorldPhase::Validated,
        WorldPhase::Validated => to == WorldPhase::Seeded,
        WorldPhase::Seeded => to == WorldPhase::RootReady,
        WorldPhase::RootReady => to == WorldPhase::Registered,
        WorldPhase::Registered => to == WorldPhase::Active || to == WorldPhase::Closed,
        WorldPhase::Active => to == WorldPhase::Suspended || to == WorldPhase::Closed,
        WorldPhase::Suspended => to == WorldPhase::Active || to == WorldPhase::Closed,
        WorldPhase::Closed => false,
    }
}

/// The shape of the world lifecycle:
/// - a world can always be shut down once registered: every phase from
///   registration on, but closed itself, may step to closed;
/// - closed is final: nothing follows it;
/// - before registration each phase steps only to the next one, in order;
/// - simulation can be paused and resumed, either way, once running;
/// - every step moves forward in the lifecycle order, except resuming a
///   suspended world;
/// - a world becomes active only from registration or suspension, and is
///   suspended only while active.
pub proof fn lemma_phase_shape(from: WorldPhase, to: WorldPhase)
    ensures
        phase_rank(from) >= phase_rank(WorldPhase::Registered) && from != WorldPhase::Closed
            ==> phase_step_allowed(from, WorldPhase::Closed),
        !phase_step_allowed(WorldPhase::Closed, to),
        phase_rank(from) < phase_rank(WorldPhase::Registered) ==> (phase_step_allowed(from, to) <==> phase_rank(to)
            == phase_rank(from) + 1),
        phase_step_allowed(WorldPhase::Active, WorldPhase::Suspended),
        phase_step_allowed(WorldPhase::Suspended, WorldPhase::Active),
        phase_step_allowed(from, to) ==> (phase_rank(to) > phase_rank(from) || (from == WorldPhase::Suspended
            && to == WorldPhase::Active)),
        to == WorldPhase::Active ==> (phase_step_allowed(from, to) <==> (from == WorldPhase::Registered
            || from == WorldPhase::Suspended)),
        to == WorldPhase::Suspended ==> (phase_step_allowed(from, to) <==> from == WorldPhase::Active),
{
}

impl WorldPhase {
    /// The name this phase is reported under.
    pub fn name(self) -> (r: &'static str)
        ensures
            r@ == phase_name(self),
    {
        match self {
            WorldPhase::Requested => "Requested",
            WorldPhase::Validated => "Validated",
            WorldPhase::Seeded => "Seeded",
            WorldPhase::RootReady => "RootReady",
            WorldPhase::Registered => "Registered",
            WorldPhase::Active => "Active",
            WorldPhase::Suspended => "Suspended",
            WorldPhase::Closed => "Closed",
        }
    }

    /// This phase's place in the lifecycle order.
    pub fn rank(self) -> (r: u8)
        ensures
            r == phase_rank(self),
    {
        match self {
            WorldPhase::Requested => 0,
            WorldPhase::Validated => 1,
            WorldPhase::Seeded => 2,
            WorldPhase::RootReady => 3,
            WorldPhase::Registered => 4,
            WorldPhase::Active => 5,
            WorldPhase::Suspended => 6,
            WorldPhase::Closed => 7,
        }
    }

    /// Whether the lifecycle allows a step from this phase to `next`.
    pub fn can_step_to(self, next: WorldPhase) -> (r: bool)
        ensures
            r == phase_step_allowed(self, next),
    {
        match self {
            WorldPhase::Requested => next == WorldPhase::Validated,
            WorldPhase::Validated => next == WorldPhase::Seeded,
            WorldPhase::Seeded => next == WorldPhase::RootReady,
            WorldPhase::RootReady => next == WorldPhase::Registered,
            WorldPhase::Registered => next == WorldPhase::Active || next == WorldPhase::Closed,
            WorldPhase::Active => next == WorldPhase::Suspended || next == WorldPhase::Closed,
            WorldPhase::Suspended => next == WorldPhase::Active || next == WorldPhase::Closed,
            WorldPhase::Closed => false,
        }
    }
}

/// A closed world is finished: no step leaves it.
pub proof fn lemma_closed_is_final(to: WorldPhase)
    ensures
        !phase_step_allowed(WorldPhase::Closed, to),
{
}

/// Before `Active`, the only step is to the next phase in order; from
/// `Active` on, a world only suspends, resumes or closes.
pub proof fn lemma_phases_cannot_be_skipped(from: WorldPhase, to: WorldPhase)
    requires
        phase_step_allowed(from, to),
    ensures
        phase_rank(from) < phase_rank(WorldPhase::Registered) ==> phase_rank(to) == phase_rank(from)
            + 1,
        phase_rank(from) >= phase_rank(WorldPhase::Active) ==> (to == WorldPhase::Suspended || to
            == WorldPhase::Active || to == WorldPhase::Closed),
        to != WorldPhase::Requested,
{
}

/// A character that `str::trim` removes: Unicode `White_Space`.
pub open spec fn is_unicode_whitespace(c: char) -> bool {
    ('\u{9}' <= c && c <= '\u{d}') || c == ' ' || c == '\u{85}' || c == '\u{a0}' || c
        == '\u{1680}' || ('\u{2000}' <= c && c <= '\u{200a}') || c == '\u{2028}' || c == '\u{2029}'
        || c == '\u{202f}' || c == '\u{205f}' || c == '\u{3000}'
}

/// A text that trims to nothing.
pub open spec fn blank(s: Seq<char>) -> bool {
    forall|i: int| 0 <= i < s.len() ==> #[trigger] is_unicode_whitespace(s[i])
}

fn whitespace(c: char) -> (r: bool)
    ensures
        r == is_unicode_whitespace(c),
{
    ('\u{9}' <= c && c <= '\u{d}') || c == ' ' || c == '\u{85}' || c == '\u{a0}' || c
        == '\u{1680}' || ('\u{2000}' <= c && c <= '\u{200a}') || c == '\u{2028}' || c == '\u{2029}'
        || c == '\u{202f}' || c == '\u{205f}' || c == '\u{3000}'
}

/// Whether a text is empty after trimming white space.
pub fn is_blank(text: &str) -> (r: bool)
    ensures
        r == blank(text@),
{
    let n = text.unicode_len();
    let mut i: usize = 0;
    while i < n
        invariant
            n == text@.len(),
            i <= n,
            forall|j: int| 0 <= j < i ==> #[trigger] is_unicode_whitespace(text@[j]),
        decreases n - i,
    {
        if !whitespace(text.get_char(i)) {
            return false;
        }
        i += 1;
    }
    true
}

/// The persistent identity of a world.
#[derive(Debug, Clone, Copy, PartialEq, Eq, Structural, Hash, PartialOrd, Ord)]
pub struct WorldId(pub u64);

/// The identity derived from a world's name and seed.
pub open spec fn world_id_value(name: Seq<u8>, seed: u64) -> u64 {
    fnv_fold(fnv_fold(FNV_OFFSET_BASIS, name), le_bytes_u64(seed))
}

impl WorldId {
    /// Derive an identity from a name and a seed: FNV-1a over the name's
    /// UTF-8 bytes, then the seed's little-endian bytes.
    pub fn derive(name: &str, seed: u64) -> (id: Self)
        ensures
            id.0 == world_id_value(name.spec_bytes(), seed),
    {
        let mut hasher = Fnv1a64::new();
        hasher.write_str(name);
        hasher.write_u64(seed);
        WorldId(hasher.finish())
    }
}

/// Everything needed to identify and recreate a world.
#[derive(Debug, Clone, PartialEq, Eq)]
pub struct WorldDescriptor {
    /// Persistent identity.
    pub id: WorldId,
    /// Human-readable name.
    pub name: String,
    /// Immutable generation seed.
    pub seed: u64,
    /// Generator algorithm version.
    pub generator_version: u32,
    /// Section extent.
    pub shape: ChunkShape,
    /// Vertical extent.
    pub bounds: WorldBounds,
}

impl WorldDescriptor {
    /// Build a descriptor with this build's generator and the default shape
    /// and bounds. A name that is empty or only white space is refused.
    pub fn new(name: &str, seed: u64) -> (r: Result<Self, WorldError>)
        ensures
            r is Ok <==> !blank(name@),
            r matches Ok(d) ==> {
                &&& d.id.0 == world_id_value(name.spec_bytes(), seed)
                &&& d.name@ == name@
                &&& d.seed == seed
                &&& d.generator_version == GENERATOR_VERSION
                &&& d.shape.wf()
                &&& d.shape.sx() == 32 && d.shape.sy() == 32 && d.shape.sz() == 32
                &&& d.bounds.min_y == DEFAULT_MIN_Y && d.bounds.max_y == DEFAULT_MAX_Y
            },
            r matches Err(e) ==> e == WorldError::EmptyName,
    {
        if is_blank(name) {
            return Err(WorldError::EmptyName);
        }
        let bounds = match WorldBounds::default_bounds().validate() {
            Ok(b) => b,
            Err(e) => {
                return Err(e);
            },
        };
        Ok(WorldDescriptor {
            id: WorldId::derive(name, seed),
            name: name.to_owned(),
            seed,
            generator_version: GENERATOR_VERSION,
            shape: ChunkShape::cubic_default(),
            bounds,
        })
    }

    /// The versioned inputs that make this world reproducible: its seed, its
    /// generator's version, the content version and no mods.
    pub fn reproduction_key(&self) -> (k: ReproductionKey)
        ensures
            k.world_seed == self.seed,
            k.generator_version == self.generator_version,
            k.content_version == CONTENT_VERSION,
            k.mods@.len() == 0,
    {
        ReproductionKey {
            world_seed: self.seed,
            generator_version: self.generator_version,
            content_version: CONTENT_VERSION,
            mods: Vec::new(),
        }
    }
}

/// The content version a world is generated against.
pub const CONTENT_VERSION: u32 = 1;

/// The versioned inputs that make a world reproducible: the same key
/// regenerates the same world.
#[derive(Debug, Clone, PartialEq, Eq)]
pub struct ReproductionKey {
    /// The world's seed.
    pub world_seed: u64,
    /// The terrain generator's version.
    pub generator_version: u32,
    /// The content version.
    pub content_version: u32,
    /// The mods loaded, by name.
    pub mods: Vec<String>,
}

/// The identifiers of the built-in blocks, in runtime-id order. Air is
/// first: section storage answers "is this empty" without a registry lookup,
/// and that shortcut depends on air being runtime id 0.
pub open spec fn builtin_blocks() -> Seq<Seq<char>> {
    seq!["nexora:block/air"@, "nexora:block/stone"@, "nexora:block/dirt"@, "nexora:block/grass"@]
}

/// Whether each built-in block is solid, in runtime-id order.
pub open spec fn builtin_solid() -> Seq<bool> {
    seq![false, true, true, true]
}

/// Distinct runtime ids name distinct blocks, so the identifier behind a
/// runtime id resolves back to that id.
pub proof fn lemma_block_ids_round_trip(i: int, j: int)
    requires
        0 <= i < builtin_blocks().len(),
        0 <= j < builtin_blocks().len(),
        builtin_blocks()[i] == builtin_blocks()[j],
    ensures
        i == j,
{
    reveal_strlit("nexora:block/air");
    reveal_strlit("nexora:block/stone");
    reveal_strlit("nexora:block/dirt");
    reveal_strlit("nexora:block/grass");
    let names = builtin_blocks();
    assert(names[0][13] == 'a' && names[1][13] == 's' && names[2][13] == 'd' && names[3][13]
        == 'g');
    if i != j {
        assert(names[i][13] != names[j][13]);
    }
}

/// Every built-in block name is an identifier of at most twenty characters.
pub proof fn lemma_builtin_names()
    ensures
        forall|i: int|
            0 <= i < builtin_blocks().len() ==> valid_identifier(#[trigger] builtin_blocks()[i])
                && builtin_blocks()[i].len() <= 20,
{
    reveal_strlit("nexora:block/air");
    reveal_strlit("nexora:block/stone");
    reveal_strlit("nexora:block/dirt");
    reveal_strlit("nexora:block/grass");
    reveal_with_fuel(chars_all, 12);
    lemma_valid_by_parts("nexora:block/air"@, 6);
    lemma_valid_by_parts("nexora:block/stone"@, 6);
    lemma_valid_by_parts("nexora:block/dirt"@, 6);
    lemma_valid_by_parts("nexora:block/grass"@, 6);
    assert forall|i: int| 0 <= i < builtin_blocks().len() implies valid_identifier(
        #[trigger] builtin_blocks()[i],
    ) && builtin_blocks()[i].len() <= 20 by {
        assert(i == 0 || i == 1 || i == 2 || i == 3);
    }
}

/// Columns ascend strictly in column order.
pub open spec fn coords_sorted(chunks: Seq<Chunk>) -> bool {
    forall|i: int, j: int|
        0 <= i < j < chunks.len() ==> coord_lt(chunks[i].spec_coord(), chunks[j].spec_coord())
}

/// The resident chunk of a column, if any.
pub open spec fn find_chunk(chunks: Seq<Chunk>, c: ChunkCoord) -> Option<Chunk> {
    if exists|i: int| 0 <= i < chunks.len() && chunks[i].spec_coord() == c {
        Some(chunks[choose|i: int| 0 <= i < chunks.len() && chunks[i].spec_coord() == c])
    } else {
        None
    }
}

/// The columns of a chunk list, in order.
pub open spec fn columns_of(chunks: Seq<Chunk>) -> Seq<ChunkCoord> {
    chunks.map_values(|ch: Chunk| ch.spec_coord())
}

/// Two lists of chunks in strictly ascending column order that hold the
/// same columns hold as many chunks.
pub proof fn lemma_same_columns_same_count(a: Seq<Chunk>, b: Seq<Chunk>)
    requires
        coords_sorted(a),
        coords_sorted(b),
        forall|c: ChunkCoord| (#[trigger] find_chunk(a, c)) is Some <==> find_chunk(b, c) is Some,
    ensures
        a.len() == b.len(),
{
    let sa = columns_of(a);
    let sb = columns_of(b);
    assert(sa.no_duplicates()) by {
        assert forall|i: int, j: int| 0 <= i < sa.len() && 0 <= j < sa.len() && i != j implies sa[i] != sa[j] by {
            if i < j {
                assert(coord_lt(a[i].spec_coord(), a[j].spec_coord()));
            } else {
                assert(coord_lt(a[j].spec_coord(), a[i].spec_coord()));
            }
        }
    }
    assert(sb.no_duplicates()) by {
        assert forall|i: int, j: int| 0 <= i < sb.len() && 0 <= j < sb.len() && i != j implies sb[i] != sb[j] by {
            if i < j {
                assert(coord_lt(b[i].spec_coord(), b[j].spec_coord()));
            } else {
                assert(coord_lt(b[j].spec_coord(), b[i].spec_coord()));
            }
        }
    }
    assert(sa.to_set() =~= sb.to_set()) by {
        assert forall|c: ChunkCoord| sa.to_set().contains(c) <==> sb.to_set().contains(c) by {
            if sa.to_set().contains(c) {
                let i = choose|i: int| 0 <= i < sa.len() && sa[i] == c;
                assert(a[i].spec_coord() == c);
                assert(find_chunk(a, c) is Some);
                assert(find_chunk(b, c) is Some);
                let j = choose|j: int| 0 <= j < b.len() && b[j].spec_coord() == c;
                assert(sb[j] == c);
            }
            if sb.to_set().contains(c) {
                let j = choose|j: int| 0 <= j < sb.len() && sb[j] == c;
                assert(b[j].spec_coord() == c);
                assert(find_chunk(b, c) is Some);
                assert(find_chunk(a, c) is Some);
                let i = choose|i: int| 0 <= i < a.len() && a[i].spec_coord() == c;
                assert(sa[i] == c);
            }
        }
    }
    sa.unique_seq_to_set();
    sb.unique_seq_to_set();
}

/// With strictly ascending columns, the chunk at `i` is what its column finds.
pub proof fn lemma_find_at(chunks: Seq<Chunk>, i: int)
    requires
        coords_sorted(chunks),
        0 <= i < chunks.len(),
    ensures
        find_chunk(chunks, chunks[i].spec_coord()) == Some(chunks[i]),
{
    let c = chunks[i].spec_coord();
    assert(exists|k: int| 0 <= k < chunks.len() && chunks[k].spec_coord() == c);
    let k = choose|k: int| 0 <= k < chunks.len() && chunks[k].spec_coord() == c;
    if k < i {
        assert(coord_lt(chunks[k].spec_coord(), chunks[i].spec_coord()));
    } else if k > i {
        assert(coord_lt(chunks[i].spec_coord(), chunks[k].spec_coord()));
    }
}

/// Replacing a chunk by one of the same column changes only that column.
pub(crate) proof fn lemma_find_update(chunks: Seq<Chunk>, idx: int, chunk: Chunk)
    requires
        coords_sorted(chunks),
        0 <= idx < chunks.len(),
        chunk.spec_coord() == chunks[idx].spec_coord(),
    ensures
        coords_sorted(chunks.update(idx, chunk)),
        find_chunk(chunks.update(idx, chunk), chunk.spec_coord()) == Some(chunk),
        forall|c: ChunkCoord|
            c != chunk.spec_coord() ==> #[trigger] find_chunk(chunks.update(idx, chunk), c)
                == find_chunk(chunks, c),
{
    let next = chunks.update(idx, chunk);
    lemma_find_at(next, idx);
    assert forall|c: ChunkCoord| c != chunk.spec_coord() implies #[trigger] find_chunk(next, c)
        == find_chunk(chunks, c) by {
        if exists|j: int| 0 <= j < chunks.len() && chunks[j].spec_coord() == c {
            let j = choose|j: int| 0 <= j < chunks.len() && chunks[j].spec_coord() == c;
            lemma_find_at(chunks, j);
            lemma_find_at(next, j);
        } else {
            assert forall|j: int| 0 <= j < next.len() implies next[j].spec_coord() != c by {
                if j != idx {
                    assert(next[j] == chunks[j]);
                }
            }
        }
    }
}

/// Inserting a chunk at its sorted place adds its column and changes no other.
pub(crate) proof fn lemma_find_insert(chunks: Seq<Chunk>, idx: int, chunk: Chunk)
    requires
        coords_sorted(chunks),
        0 <= idx <= chunks.len(),
        forall|k: int| 0 <= k < idx ==> coord_lt(chunks[k].spec_coord(), chunk.spec_coord()),
        forall|k: int|
            idx <= k < chunks.len() ==> coord_lt(chunk.spec_coord(), chunks[k].spec_coord()),
    ensures
        coords_sorted(chunks.insert(idx, chunk)),
        find_chunk(chunks.insert(idx, chunk), chunk.spec_coord()) == Some(chunk),
        forall|c: ChunkCoord|
            c != chunk.spec_coord() ==> #[trigger] find_chunk(chunks.insert(idx, chunk), c)
                == find_chunk(chunks, c),
{
    let next = chunks.insert(idx, chunk);
    assert forall|a: int, b: int| 0 <= a < b < next.len() implies coord_lt(
        next[a].spec_coord(),
        next[b].spec_coord(),
    ) by {
        if b < idx {
        } else if b == idx {
        } else if a < idx {
            assert(next[b] == chunks[b - 1]);
        } else if a == idx {
            assert(next[b] == chunks[b - 1]);
        } else {
            assert(next[a] == chunks[a - 1] && next[b] == chunks[b - 1]);
        }
    }
    lemma_find_at(next, idx);
    assert forall|c: ChunkCoord| c != chunk.spec_coord() implies #[trigger] find_chunk(next, c)
        == find_chunk(chunks, c) by {
        if exists|j: int| 0 <= j < chunks.len() && chunks[j].spec_coord() == c {
            let j = choose|j: int| 0 <= j < chunks.len() && chunks[j].spec_coord() == c;
            lemma_find_at(chunks, j);
            if j < idx {
                lemma_find_at(next, j);
            } else {
                assert(next[j + 1] == chunks[j]);
                lemma_find_at(next, j + 1);
            }
        } else {
            assert forall|j: int| 0 <= j < next.len() implies next[j].spec_coord() != c by {
                if j < idx {
                    assert(next[j] == chunks[j]);
                } else if j > idx {
                    assert(next[j] == chunks[j - 1]);
                }
            }
        }
    }
}

/// Removing a chunk removes its column and changes no other.
proof fn lemma_find_remove(chunks: Seq<Chunk>, idx: int)
    requires
        coords_sorted(chunks),
        0 <= idx < chunks.len(),
    ensures
        coords_sorted(chunks.remove(idx)),
        find_chunk(chunks.remove(idx), chunks[idx].spec_coord()) is None,
        forall|c: ChunkCoord|
            c != chunks[idx].spec_coord() ==> #[trigger] find_chunk(chunks.remove(idx), c)
                == find_chunk(chunks, c),
{
    let next = chunks.remove(idx);
    let key = chunks[idx].spec_coord();
    assert forall|a: int, b: int| 0 <= a < b < next.len() implies coord_lt(
        next[a].spec_coord(),
        next[b].spec_coord(),
    ) by {
        if b < idx {
        } else if a < idx {
            assert(next[b] == chunks[b + 1]);
        } else {
            assert(next[a] == chunks[a + 1] && next[b] == chunks[b + 1]);
        }
    }
    assert forall|j: int| 0 <= j < next.len() implies next[j].spec_coord() != key by {
        if j < idx {
            assert(coord_lt(chunks[j].spec_coord(), key));
        } else {
            assert(next[j] == chunks[j + 1]);
            assert(coord_lt(key, chunks[j + 1].spec_coord()));
        }
    }
    assert forall|c: ChunkCoord| c != key implies #[trigger] find_chunk(next, c) == find_chunk(
        chunks,
        c,
    ) by {
        if exists|j: int| 0 <= j < chunks.len() && chunks[j].spec_coord() == c {
            let j = choose|j: int| 0 <= j < chunks.len() && chunks[j].spec_coord() == c;
            lemma_find_at(chunks, j);
            if j < idx {
                lemma_find_at(next, j);
            } else {
                assert(next[j - 1] == chunks[j]);
                lemma_find_at(next, j - 1);
            }
        } else {
            assert forall|j: int| 0 <= j < next.len() implies next[j].spec_coord() != c by {
                if j < idx {
                    assert(next[j] == chunks[j]);
                } else {
                    assert(next[j] == chunks[j + 1]);
                }
            }
        }
    }
}

/// Total voxel storage of a list of chunks.
pub open spec fn total_chunk_bytes(chunks: Seq<Chunk>) -> int
    decreases chunks.len(),
{
    if chunks.len() == 0 {
        0
    } else {
        total_chunk_bytes(chunks.drop_last()) + total_storage_bytes(
            chunks.last().spec_sections(),
        )
    }
}

/// What a read at `p` gives in a world: the block of the resident column,
/// or why there is none.
pub open spec fn world_read(w: World, p: BlockPos) -> Result<BlockStateId, WorldError> {
    let coord = w.spec_descriptor().shape.spec_column_of(p);
    match w.chunk_at(coord) {
        None => Err(WorldError::NotResident { chunk: coord }),
        Some(c) => if c.contains(p) {
            Ok(c.block(p))
        } else {
            Err(
                WorldError::Chunk(
                    ChunkError::WrongColumn {
                        position: p,
                        chunk: c.spec_coord(),
                        resolved: c.spec_shape().spec_column_of(p),
                    },
                ),
            )
        },
    }
}

/// A live world.
#[derive(Debug)]
pub struct World {
    descriptor: WorldDescriptor,
    clock: WorldClock,
    blocks: Vec<(Identifier, BlockDefinition)>,
    chunks: Vec<Chunk>,
    phase: WorldPhase,
}

impl World {
    /// The world's descriptor.
    pub closed spec fn spec_descriptor(self) -> WorldDescriptor {
        self.descriptor
    }

    /// The authoritative clock.
    pub closed spec fn spec_clock(self) -> WorldClock {
        self.clock
    }

    /// The registered blocks, in runtime-id order.
    pub closed spec fn spec_blocks(self) -> Seq<(Identifier, BlockDefinition)> {
        self.blocks@
    }

    /// The resident chunks, in column order.
    pub closed spec fn spec_chunks(self) -> Seq<Chunk> {
        self.chunks@
    }

    /// The lifecycle phase.
    pub closed spec fn spec_phase(self) -> WorldPhase {
        self.phase
    }

    /// The resident chunk of a column.
    pub open spec fn chunk_at(self, c: ChunkCoord) -> Option<Chunk> {
        find_chunk(self.spec_chunks(), c)
    }

    /// Whether column `c` is resident and holds a change not yet saved.
    pub open spec fn dirty_at(self, c: ChunkCoord) -> bool {
        match self.chunk_at(c) {
            Some(chunk) => chunk.spec_dirty().len() > 0,
            None => false,
        }
    }

    /// Nothing but the lifecycle phase differs between two worlds.
    pub open spec fn same_but_phase(self, other: World) -> bool {
        &&& self.spec_descriptor() == other.spec_descriptor()
        &&& self.spec_clock() == other.spec_clock()
        &&& self.spec_blocks() == other.spec_blocks()
        &&& self.spec_chunks() == other.spec_chunks()
    }

    /// Consistent: a valid shape, the built-in registry, and resident chunks
    /// that are each consistent, stored once per column in column order.
    pub open spec fn wf(self) -> bool {
        &&& self.spec_descriptor().shape.wf()
        &&& coords_sorted(self.spec_chunks())
        &&& forall|i: int| 0 <= i < self.spec_chunks().len() ==> (#[trigger] self.spec_chunks()[i]).sound()
        &&& self.spec_blocks().len() == builtin_blocks().len()
        &&& forall|i: int|
            0 <= i < builtin_blocks().len() ==> (#[trigger] self.spec_blocks()[i]).0@
                == builtin_blocks()[i] && self.spec_blocks()[i].1.solid == builtin_solid()[i]
    }

    /// Create a world and register the built-in block set: air, stone, dirt
    /// and grass, with air at runtime id 0.
    pub fn create(descriptor: WorldDescriptor, calendar: CalendarConfig) -> (r: Result<Self, WorldError>)
        requires
            descriptor.shape.wf(),
        ensures
            r matches Ok(w) && w.wf() && w.spec_descriptor() == descriptor && w.spec_clock().spec_calendar()
                == calendar && w.spec_clock().spec_now().0 == 0 && w.spec_chunks().len() == 0 && w.spec_phase()
                == WorldPhase::Requested,
    {
        let air_id = Identifier::parse("nexora:block/air");
        let stone_id = Identifier::parse("nexora:block/stone");
        let dirt_id = Identifier::parse("nexora:block/dirt");
        let grass_id = Identifier::parse("nexora:block/grass");
        proof {
            reveal_strlit("nexora:block/air");
            reveal_strlit("nexora:block/stone");
            reveal_strlit("nexora:block/dirt");
            reveal_strlit("nexora:block/grass");
            reveal_with_fuel(chars_all, 12);
            lemma_valid_by_parts("nexora:block/air"@, 6);
            lemma_valid_by_parts("nexora:block/stone"@, 6);
            lemma_valid_by_parts("nexora:block/dirt"@, 6);
            lemma_valid_by_parts("nexora:block/grass"@, 6);
        }
        let (air_id, stone_id, dirt_id, grass_id) = match (air_id, stone_id, dirt_id, grass_id) {
            (Ok(a), Ok(s), Ok(d), Ok(g)) => (a, s, d, g),
            _ => {
                proof {
                    assert(false);
                }
                return Err(WorldError::UnknownBlock);
            },
        };
        let mut blocks: Vec<(Identifier, BlockDefinition)> = Vec::new();
        blocks.push((air_id, BlockDefinition { solid: false }));
        blocks.push((stone_id, BlockDefinition { solid: true }));
        blocks.push((dirt_id, BlockDefinition { solid: true }));
        blocks.push((grass_id, BlockDefinition { solid: true }));
        let w = World {
            descriptor,
            clock: WorldClock::new(calendar),
            blocks,
            chunks: Vec::new(),
            phase: WorldPhase::Requested,
        };
        proof {
            assert forall|i: int| 0 <= i < builtin_blocks().len() implies (
            #[trigger] w.spec_blocks()[i]).0@ == builtin_blocks()[i] && w.spec_blocks()[i].1.solid
                == builtin_solid()[i] by {
                assert(i == 0 || i == 1 || i == 2 || i == 3);
            }
        }
        Ok(w)
    }

    /// Rebuild a world at a persisted time, used when loading a save.
    pub fn resumed(descriptor: WorldDescriptor, calendar: CalendarConfig, now: WorldTime) -> (r:
        Result<Self, WorldError>)
        requires
            descriptor.shape.wf(),
        ensures
            r matches Ok(w) && w.wf() && w.spec_descriptor() == descriptor && w.spec_clock().spec_calendar()
                == calendar && w.spec_clock().spec_now() == now && w.spec_chunks().len() == 0
                && w.spec_phase() == WorldPhase::Requested,
    {
        let mut world = match Self::create(descriptor, calendar) {
            Ok(w) => w,
            Err(e) => {
                return Err(e);
            },
        };
        world.clock = WorldClock::resumed_at(calendar, now);
        Ok(world)
    }

    /// The world's descriptor.
    pub fn descriptor(&self) -> (r: &WorldDescriptor)
        ensures
            *r == self.spec_descriptor(),
    {
        &self.descriptor
    }

    /// The authoritative clock.
    pub fn clock(&self) -> (r: &WorldClock)
        ensures
            *r == self.spec_clock(),
    {
        &self.clock
    }

    /// Mutable access to the clock, for the runtime that owns time advancement.
    pub fn clock_mut(&mut self) -> (r: &mut WorldClock)
        ensures
            *r == old(self).spec_clock(),
            final(self).spec_clock() == *final(r),
            final(self).spec_descriptor() == old(self).spec_descriptor(),
            final(self).spec_blocks() == old(self).spec_blocks(),
            final(self).spec_chunks() == old(self).spec_chunks(),
            final(self).spec_phase() == old(self).spec_phase(),
    {
        &mut self.clock
    }

    /// The registered blocks, in runtime-id order.
    pub fn blocks(&self) -> (r: &[(Identifier, BlockDefinition)])
        ensures
            r@ == self.spec_blocks(),
    {
        self.blocks.as_slice()
    }

    /// The current lifecycle phase.
    pub fn phase(&self) -> (r: WorldPhase)
        ensures
            r == self.spec_phase(),
    {
        self.phase
    }

    /// Move the world to a new phase.
    ///
    /// A step the lifecycle does not allow is refused, naming both phases,
    /// and changes nothing.
    pub fn transition_to(&mut self, next: WorldPhase) -> (r: Result<(), WorldError>)
        ensures
            r is Ok <==> phase_step_allowed(old(self).spec_phase(), next),
            r is Ok ==> final(self).spec_phase() == next,
            r matches Err(e) ==> e == (WorldError::IllegalPhase {
                from: old(self).spec_phase(),
                to: next,
            }) && final(self).spec_phase() == old(self).spec_phase(),
            final(self).same_but_phase(*old(self)),
    {
        if !self.phase.can_step_to(next) {
            return Err(WorldError::IllegalPhase { from: self.phase, to: next });
        }
        self.phase = next;
        Ok(())
    }

    /// Walk from the current phase through to [`WorldPhase::Active`].
    ///
    /// Each phase before `Active` is entered in order; a world already at or
    /// past `Active` is left where it is.
    pub fn bring_online(&mut self) -> (r: Result<(), WorldError>)
        ensures
            r is Ok,
            final(self).spec_phase() == if phase_rank(old(self).spec_phase()) < phase_rank(
                WorldPhase::Active,
            ) {
                WorldPhase::Active
            } else {
                old(self).spec_phase()
            },
            final(self).same_but_phase(*old(self)),
    {
        let ghost start = *self;
        let steps: [WorldPhase; 5] = [
            WorldPhase::Validated,
            WorldPhase::Seeded,
            WorldPhase::RootReady,
            WorldPhase::Registered,
            WorldPhase::Active,
        ];
        let mut i: usize = 0;
        while i < 5
            invariant
                steps@ == seq![
                    WorldPhase::Validated,
                    WorldPhase::Seeded,
                    WorldPhase::RootReady,
                    WorldPhase::Registered,
                    WorldPhase::Active,
                ],
                i <= 5,
                self.same_but_phase(start),
                phase_rank(start.spec_phase()) < 5 ==> phase_rank(self.spec_phase()) == if phase_rank(
                    start.spec_phase(),
                ) > i {
                    phase_rank(start.spec_phase())
                } else {
                    i as int
                },
                phase_rank(start.spec_phase()) >= 5 ==> self.spec_phase() == start.spec_phase(),
            decreases 5 - i,
        {
            let step = steps[i];
            if self.phase.rank() < step.rank() {
                match self.transition_to(step) {
                    Ok(()) => {},
                    Err(e) => {
                        proof {
                            assert(false);
                        }
                        return Err(e);
                    },
                }
            }
            i += 1;
        }
        Ok(())
    }

    /// Resolve a block identifier to its session-local state id.
    pub fn block_id(&self, id: &Identifier) -> (r: Result<BlockStateId, WorldError>)
        requires
            self.wf(),
        ensures
            r is Ok <==> builtin_blocks().contains(id@),
            r matches Ok(s) ==> s.0 < builtin_blocks().len() && builtin_blocks()[s.0 as int]
                == id@,
            r matches Err(e) ==> e == WorldError::UnknownBlock,
    {
        let mut i: usize = 0;
        while i < self.blocks.len()
            invariant
                self.wf(),
                i <= self.blocks@.len(),
                forall|k: int| 0 <= k < i ==> builtin_blocks()[k] != id@,
            decreases self.blocks.len() - i,
        {
            if self.blocks[i].0.same(id) {
                return Ok(BlockStateId(i as u32));
            }
            i += 1;
        }
        Err(WorldError::UnknownBlock)
    }

    /// The identifier behind a state id, for saving and diagnostics.
    pub fn block_identifier(&self, state: BlockStateId) -> (r: Option<Identifier>)
        requires
            self.wf(),
        ensures
            r is Some <==> state.0 < builtin_blocks().len(),
            r matches Some(id) ==> id@ == builtin_blocks()[state.0 as int],
    {
        if (state.0 as usize) < self.blocks.len() {
            Some(self.blocks[state.0 as usize].0.duplicate())
        } else {
            None
        }
    }

    /// Where a column's chunk is stored, or where it would go.
    fn locate_chunk(&self, c: ChunkCoord) -> (r: Result<usize, usize>)
        requires
            coords_sorted(self.spec_chunks()),
        ensures
            r matches Ok(i) ==> i < self.spec_chunks().len() && self.spec_chunks()[i as int].spec_coord()
                == c,
            r matches Err(i) ==> i <= self.spec_chunks().len() && (forall|k: int|
                0 <= k < i ==> coord_lt(self.spec_chunks()[k].spec_coord(), c)) && (forall|k: int|
                i <= k < self.spec_chunks().len() ==> coord_lt(c, self.spec_chunks()[k].spec_coord())),
    {
        let mut i: usize = 0;
        while i < self.chunks.len()
            invariant
                coords_sorted(self.chunks@),
                i <= self.chunks@.len(),
                forall|k: int| 0 <= k < i ==> coord_lt(self.chunks@[k].spec_coord(), c),
            decreases self.chunks.len() - i,
        {
            let here = self.chunks[i].coord();
            if here == c {
                return Ok(i);
            }
            if coord_less(c, here) {
                proof {
                    assert forall|k: int| i <= k < self.chunks@.len() implies coord_lt(
                        c,
                        self.chunks@[k].spec_coord(),
                    ) by {
                        if k > i {
                            assert(coord_lt(self.chunks@[i as int].spec_coord(), self.chunks@[k].spec_coord()));
                        }
                    }
                }
                return Err(i);
            }
            i += 1;
        }
        Err(i)
    }

    /// Chunk columns currently resident, in column order.
    pub fn loaded_chunks(&self) -> (r: Vec<ChunkCoord>)
        ensures
            r@ == self.spec_chunks().map_values(|c: Chunk| c.spec_coord()),
    {
        let mut r: Vec<ChunkCoord> = Vec::new();
        let mut i: usize = 0;
        while i < self.chunks.len()
            invariant
                i <= self.chunks@.len(),
                r@ == self.chunks@.take(i as int).map_values(|c: Chunk| c.spec_coord()),
            decreases self.chunks.len() - i,
        {
            r.push(self.chunks[i].coord());
            i += 1;
            proof {
                assert(r@ =~= self.chunks@.take(i as int).map_values(|c: Chunk| c.spec_coord()));
            }
        }
        proof {
            assert(self.chunks@.take(i as int) =~= self.chunks@);
        }
        r
    }

    /// Every resident chunk, in column order.
    pub fn chunk_list(&self) -> (r: &[Chunk])
        ensures
            r@ == self.spec_chunks(),
    {
        self.chunks.as_slice()
    }

    /// How many chunk columns are resident.
    pub fn chunk_count(&self) -> (n: usize)
        ensures
            n == self.spec_chunks().len(),
    {
        self.chunks.len()
    }

    /// Approximate voxel storage cost across resident chunks, in bytes.
    pub fn storage_bytes(&self) -> (n: usize)
        requires
            self.wf(),
            total_chunk_bytes(self.spec_chunks()) <= usize::MAX,
        ensures
            n == total_chunk_bytes(self.spec_chunks()),
    {
        let mut n: usize = 0;
        let mut i: usize = 0;
        while i < self.chunks.len()
            invariant
                self.wf(),
                total_chunk_bytes(self.chunks@) <= usize::MAX,
                i <= self.chunks@.len(),
                n == total_chunk_bytes(self.chunks@.take(i as int)),
            decreases self.chunks.len() - i,
        {
            proof {
                assert(self.chunks@.take(i + 1).drop_last() =~= self.chunks@.take(i as int));
                lemma_chunk_bytes_monotone(self.chunks@, i + 1);
                assert(self.chunks@[i as int].sound());
            }
            n = n + self.chunks[i].storage_bytes();
            i += 1;
        }
        proof {
            assert(self.chunks@.take(i as int) =~= self.chunks@);
        }
        n
    }

    /// Borrow a resident chunk.
    /// Whether any of these columns is resident and holds a change not yet
    /// saved.
    pub fn any_dirty(&self, columns: &Vec<ChunkCoord>) -> (r: bool)
        requires
            self.wf(),
        ensures
            r == exists|k: int| 0 <= k < columns@.len() && #[trigger] self.dirty_at(columns@[k]),
    {
        let mut i: usize = 0;
        while i < columns.len()
            invariant
                self.wf(),
                i <= columns@.len(),
                forall|k: int| 0 <= k < i ==> !#[trigger] self.dirty_at(columns@[k]),
            decreases columns.len() - i,
        {
            let coord = columns[i];
            match self.chunk(coord) {
                Some(c) => {
                    if c.is_dirty() {
                        proof {
                            assert(self.dirty_at(columns@[i as int]));
                        }
                        return true;
                    }
                },
                None => {},
            }
            proof {
                assert(!self.dirty_at(columns@[i as int]));
            }
            i += 1;
        }
        false
    }

    pub fn chunk(&self, coord: ChunkCoord) -> (r: Option<&Chunk>)
        requires
            self.wf(),
        ensures
            r is None <==> self.chunk_at(coord) is None,
            r matches Some(c) ==> self.chunk_at(coord) == Some(*c),
    {
        match self.locate_chunk(coord) {
            Ok(i) => {
                proof {
                    lemma_find_at(self.chunks@, i as int);
                }
                Some(&self.chunks[i])
            },
            Err(_) => None,
        }
    }

    /// Mutably borrow a resident chunk. Whatever is done through the borrow
    /// lands on that chunk and nothing else.
    pub fn chunk_mut(&mut self, coord: ChunkCoord) -> (r: Option<&mut Chunk>)
        requires
            old(self).wf(),
        ensures
            r is None <==> old(self).chunk_at(coord) is None,
            r is None ==> *final(self) == *old(self),
            r matches Some(c) ==> old(self).chunk_at(coord) == Some(*c) && exists|i: int|
                0 <= i < old(self).spec_chunks().len() && old(self).spec_chunks()[i] == *c
                    && final(self).spec_chunks() == old(self).spec_chunks().update(i, *final(c)),
            final(self).spec_descriptor() == old(self).spec_descriptor(),
            final(self).spec_clock() == old(self).spec_clock(),
            final(self).spec_blocks() == old(self).spec_blocks(),
            final(self).spec_phase() == old(self).spec_phase(),
    {
        match self.locate_chunk(coord) {
            Ok(i) => {
                proof {
                    lemma_find_at(self.chunks@, i as int);
                }
                Some(&mut self.chunks[i])
            },
            Err(_) => None,
        }
    }

    /// Insert an already-built chunk, e.g. one read from a save, replacing
    /// whatever was resident for its column.
    pub fn insert_chunk(&mut self, chunk: Chunk)
        requires
            old(self).wf(),
            chunk.sound(),
        ensures
            final(self).wf(),
            final(self).chunk_at(chunk.spec_coord()) == Some(chunk),
            forall|c: ChunkCoord|
                c != chunk.spec_coord() ==> #[trigger] final(self).chunk_at(c) == old(self).chunk_at(c),
            final(self).spec_descriptor() == old(self).spec_descriptor(),
            final(self).spec_clock() == old(self).spec_clock(),
            final(self).spec_blocks() == old(self).spec_blocks(),
            final(self).spec_phase() == old(self).spec_phase(),
    {
        let ghost before = self.chunks@;
        match self.locate_chunk(chunk.coord()) {
            Ok(i) => {
                proof {
                    lemma_find_update(before, i as int, chunk);
                }
                self.chunks.set(i, chunk);
                proof {
                    assert(self.chunks@ == before.update(i as int, chunk));
                    assert forall|k: int| 0 <= k < self.chunks@.len() implies (
                    #[trigger] self.chunks@[k]).sound() by {
                        if k != i {
                            assert(self.chunks@[k] == before[k]);
                        }
                    }
                }
            },
            Err(i) => {
                proof {
                    lemma_find_insert(before, i as int, chunk);
                }
                self.chunks.insert(i, chunk);
                proof {
                    assert(self.chunks@ == before.insert(i as int, chunk));
                    assert forall|k: int| 0 <= k < self.chunks@.len() implies (
                    #[trigger] self.chunks@[k]).sound() by {
                        if k < i {
                            assert(self.chunks@[k] == before[k]);
                        } else if k > i {
                            assert(self.chunks@[k] == before[k - 1]);
                        }
                    }
                }
            },
        }
    }

    /// Remove a chunk from memory.
    ///
    /// Returns the chunk so the caller can persist it; dropping it here would
    /// discard unsaved edits silently.
    pub fn unload_chunk(&mut self, coord: ChunkCoord) -> (r: Option<Chunk>)
        requires
            old(self).wf(),
        ensures
            final(self).wf(),
            r == old(self).chunk_at(coord),
            final(self).chunk_at(coord) is None,
            forall|c: ChunkCoord| c != coord ==> #[trigger] final(self).chunk_at(c) == old(self).chunk_at(c),
            final(self).spec_chunks().len() == old(self).spec_chunks().len() - (if r is Some {
                1int
            } else {
                0int
            }),
            final(self).spec_descriptor() == old(self).spec_descriptor(),
            final(self).spec_clock() == old(self).spec_clock(),
            final(self).spec_blocks() == old(self).spec_blocks(),
            final(self).spec_phase() == old(self).spec_phase(),
    {
        let ghost before = self.chunks@;
        match self.locate_chunk(coord) {
            Ok(i) => {
                proof {
                    lemma_find_at(before, i as int);
                    lemma_find_remove(before, i as int);
                }
                let chunk = self.chunks.remove(i);
                proof {
                    assert(self.chunks@ == before.remove(i as int));
                    assert forall|k: int| 0 <= k < self.chunks@.len() implies (
                    #[trigger] self.chunks@[k]).sound() by {
                        if k < i {
                            assert(self.chunks@[k] == before[k]);
                        } else {
                            assert(self.chunks@[k] == before[k + 1]);
                        }
                    }
                }
                Some(chunk)
            },
            Err(_) => None,
        }
    }
}

/// Every prefix of a chunk list totals no more than the whole.
proof fn lemma_chunk_bytes_monotone(chunks: Seq<Chunk>, k: int)
    requires
        0 <= k <= chunks.len(),
        forall|i: int| 0 <= i < chunks.len() ==> (#[trigger] chunks[i]).sound(),
    ensures
        total_chunk_bytes(chunks.take(k)) <= total_chunk_bytes(chunks),
        k < chunks.len() ==> total_storage_bytes(chunks[k].spec_sections()) <= total_chunk_bytes(chunks),
    decreases chunks.len() - k,
{
    if k < chunks.len() {
        lemma_chunk_bytes_monotone(chunks, k + 1);
        assert(chunks.take(k + 1).drop_last() =~= chunks.take(k));
        lemma_storage_total_nonneg(chunks[k].spec_sections());
        lemma_chunk_bytes_nonneg(chunks.take(k));
    } else {
        assert(chunks.take(k) =~= chunks);
    }
}

/// Chunks of sound sections, each holding at most `sections` of them, cost
/// less than 2^28 bytes a section to hold in all: a caller with a bound on
/// the world's size meets the limit of [`World::storage_bytes`] by it.
pub proof fn lemma_total_chunk_bound(chunks: Seq<Chunk>, sections: nat)
    requires
        forall|i: int| 0 <= i < chunks.len() ==> (#[trigger] chunks[i]).sound(),
        forall|i: int| 0 <= i < chunks.len() ==> (#[trigger] chunks[i]).spec_sections().len() <= sections,
    ensures
        0 <= total_chunk_bytes(chunks) <= chunks.len() * (sections * 0x1000_0000),
    decreases chunks.len(),
{
    if chunks.len() > 0 {
        let init = chunks.drop_last();
        assert forall|i: int| 0 <= i < init.len() implies (#[trigger] init[i]).sound()
            && init[i].spec_sections().len() <= sections by {
            assert(init[i] == chunks[i]);
        }
        lemma_total_chunk_bound(init, sections);
        let last = chunks.last();
        assert(last == chunks[chunks.len() - 1]);
        assert forall|i: int| 0 <= i < last.spec_sections().len() implies (#[trigger] last.spec_sections()[i]).1.sound() by {
            assert(last.sound());
        }
        crate::chunk::lemma_total_storage_bound(last.spec_sections());
        let k = last.spec_sections().len();
        assert(k * 0x1000_0000 <= sections * 0x1000_0000) by (nonlinear_arith)
            requires
                k <= sections,
        ;
        let n = init.len();
        assert((n + 1) * (sections * 0x1000_0000) == n * (sections * 0x1000_0000) + sections * 0x1000_0000) by (nonlinear_arith);
    }
}

proof fn lemma_chunk_bytes_nonneg(chunks: Seq<Chunk>)
    ensures
        total_chunk_bytes(chunks) >= 0,
    decreases chunks.len(),
{
    if chunks.len() > 0 {
        lemma_chunk_bytes_nonneg(chunks.drop_last());
        lemma_storage_total_nonneg(chunks.last().spec_sections());
    }
}

proof fn lemma_storage_total_nonneg(secs: Seq<(i64, Section)>)
    ensures
        total_storage_bytes(secs) >= 0,
    decreases secs.len(),
{
    if secs.len() > 0 {
        lemma_storage_total_nonneg(secs.drop_last());
        secs.last().1.lemma_storage_bytes_nonneg();
    }
}

/// The positional value behind a column's terrain height: FNV-1a over the
/// seed, the terrain stream tag and the column's `x`, `0`, `z`, each as eight
/// little-endian bytes.
pub open spec fn terrain_value(seed: u64, x: i64, z: i64) -> u64 {
    fnv_fold(
        fnv_fold(
            fnv_fold(
                fnv_fold(
                    fnv_fold(FNV_OFFSET_BASIS, le_bytes_u64(seed)),
                    le_bytes_u64(TERRAIN_STREAM),
                ),
                le_bytes_u64(x as u64),
            ),
            le_bytes_u64(0),
        ),
        le_bytes_u64(z as u64),
    )
}

/// The generated surface height of one world column.
pub open spec fn surface_spec(seed: u64, x: i64, z: i64) -> i64 {
    (TERRAIN_BASE_HEIGHT + (terrain_value(seed, x, z) % ((2 * TERRAIN_AMPLITUDE + 1) as u64))
        - TERRAIN_AMPLITUDE) as i64
}

/// The block at height `y` of a column whose surface is at `surface`: grass
/// on top, four blocks of dirt beneath it, stone below, air above.
pub open spec fn layer_block(surface: i64, y: i64) -> BlockStateId {
    if y > surface {
        spec_air()
    } else if y == surface {
        BlockStateId(GRASS_ID)
    } else if y >= surface - SOIL_DEPTH {
        BlockStateId(DIRT_ID)
    } else {
        BlockStateId(STONE_ID)
    }
}

/// What generation puts at a position: terrain layering from the section
/// holding the world's lowest block upward, and air in the sections below it.
pub open spec fn generated_block(seed: u64, shape: ChunkShape, min_y: i64, p: BlockPos) -> BlockStateId {
    if (p.y as int) / (shape.sy() as int) < (min_y as int) / (shape.sy() as int) {
        spec_air()
    } else {
        layer_block(surface_spec(seed, p.x, p.z), p.y)
    }
}

/// The surface height of the column at local offset `(b, a)` of a chunk.
pub open spec fn column_height(seed: u64, coord: ChunkCoord, shape: ChunkShape, a: int, b: int) -> i64 {
    surface_spec(
        seed,
        (coord.x * shape.sx() + b) as i64,
        (coord.z * shape.sz() + a) as i64,
    )
}

/// What generation puts at local offset `l` of section `y` of a chunk.
pub open spec fn expected_cell(
    seed: u64,
    coord: ChunkCoord,
    shape: ChunkShape,
    y: i64,
    l: LocalPos,
) -> BlockStateId {
    layer_block(column_height(seed, coord, shape, l.z as int, l.x as int), (y * shape.sy() + l.y) as i64)
}

/// Section `y` of a chunk holds what generation puts there.
pub open spec fn section_generated(seed: u64, c: Chunk, y: i64) -> bool {
    forall|l: LocalPos|
        c.spec_shape().contains_local(l) ==> #[trigger] c.effective(y)[c.spec_shape().spec_index(l)]
            == expected_cell(seed, c.spec_coord(), c.spec_shape(), y, l)
}

/// The column's footprint fits in `i64` block coordinates.
pub open spec fn column_in_range(coord: ChunkCoord, shape: ChunkShape) -> bool {
    &&& i64::MIN <= coord.x * shape.sx()
    &&& coord.x * shape.sx() + shape.sx() - 1 <= i64::MAX
    &&& i64::MIN <= coord.z * shape.sz()
    &&& coord.z * shape.sz() + shape.sz() - 1 <= i64::MAX
}

/// The terrain height of one world column.
pub fn terrain_height(seed: u64, x: i64, z: i64) -> (h: i64)
    ensures
        h == surface_spec(seed, x, z),
        TERRAIN_BASE_HEIGHT - TERRAIN_AMPLITUDE <= h <= TERRAIN_BASE_HEIGHT + TERRAIN_AMPLITUDE,
{
    let mut hasher = Fnv1a64::new();
    hasher.write_u64(seed);
    hasher.write_u64(TERRAIN_STREAM);
    hasher.write_u64(x as u64);
    hasher.write_u64(0);
    hasher.write_u64(z as u64);
    let span = (TERRAIN_AMPLITUDE * 2 + 1) as u64;
    TERRAIN_BASE_HEIGHT + ((hasher.finish() % span) as i64) - TERRAIN_AMPLITUDE
}

/// The stone, dirt or grass at height `y` of a column whose surface is
/// `surface`, for `y` at or below the surface.
fn layer_at(surface: i64, y: i64) -> (b: BlockStateId)
    requires
        y <= surface,
        surface >= i64::MIN + SOIL_DEPTH,
    ensures
        b == layer_block(surface, y),
{
    if y == surface {
        BlockStateId(GRASS_ID)
    } else if y >= surface - SOIL_DEPTH {
        BlockStateId(DIRT_ID)
    } else {
        BlockStateId(STONE_ID)
    }
}

impl World {
    /// The generated surface height for one world column.
    ///
    /// Derived from a position-seeded value, so a column's height does not
    /// depend on which chunks were generated first.
    pub fn surface_height(&self, x: i64, z: i64) -> (h: i64)
        ensures
            h == surface_spec(self.spec_descriptor().seed, x, z),
            TERRAIN_BASE_HEIGHT - TERRAIN_AMPLITUDE <= h <= TERRAIN_BASE_HEIGHT + TERRAIN_AMPLITUDE,
    {
        terrain_height(self.descriptor.seed, x, z)
    }

    /// What generation puts at a position.
    pub fn terrain_block(&self, position: BlockPos) -> (b: BlockStateId)
        requires
            self.wf(),
        ensures
            b == generated_block(
                self.spec_descriptor().seed,
                self.spec_descriptor().shape,
                self.spec_descriptor().bounds.min_y,
                position,
            ),
    {
        let size_y = self.descriptor.shape.size_y();
        let section = floor_div(position.y, size_y);
        let first = floor_div(self.descriptor.bounds.min_y, size_y);
        if section < first {
            return air();
        }
        let surface = terrain_height(self.descriptor.seed, position.x, position.z);
        if position.y > surface {
            air()
        } else {
            layer_at(surface, position.y)
        }
    }

    /// Read a block from a resident chunk.
    pub fn get_block(&self, position: BlockPos) -> (r: Result<BlockStateId, WorldError>)
        requires
            self.wf(),
        ensures
            r == world_read(*self, position),
    {
        let coord = self.descriptor.shape.section_of(position).column();
        match self.locate_chunk(coord) {
            Ok(i) => {
                proof {
                    lemma_find_at(self.chunks@, i as int);
                }
                match self.chunks[i].get(position) {
                    Ok(s) => Ok(s),
                    Err(e) => Err(WorldError::Chunk(e)),
                }
            },
            Err(_) => Err(WorldError::NotResident { chunk: coord }),
        }
    }

    /// Write a block into a resident chunk and return what it replaced.
    ///
    /// Refused, changing nothing, when the position is outside the world's
    /// vertical bounds, when its column is not resident, or when the column
    /// is not in a writable state. A write lands in the column's journal
    /// stamped with the clock's current time.
    pub fn set_block(&mut self, position: BlockPos, state: BlockStateId) -> (r: Result<
        BlockStateId,
        WorldError,
    >)
        requires
            old(self).wf(),
        ensures
            final(self).wf(),
            final(self).spec_descriptor() == old(self).spec_descriptor(),
            final(self).spec_clock() == old(self).spec_clock(),
            final(self).spec_blocks() == old(self).spec_blocks(),
            final(self).spec_phase() == old(self).spec_phase(),
            ({
                let bounds = old(self).spec_descriptor().bounds;
                let coord = old(self).spec_descriptor().shape.spec_column_of(position);
                if !(bounds.min_y <= position.y && position.y <= bounds.max_y) {
                    &&& r == Err::<BlockStateId, WorldError>(
                        WorldError::OutOfBounds {
                            y: position.y,
                            min_y: bounds.min_y,
                            max_y: bounds.max_y,
                        },
                    )
                    &&& final(self).spec_chunks() == old(self).spec_chunks()
                } else {
                    match old(self).chunk_at(coord) {
                        None => {
                            &&& r == Err::<BlockStateId, WorldError>(
                                WorldError::NotResident { chunk: coord },
                            )
                            &&& final(self).spec_chunks() == old(self).spec_chunks()
                        },
                        Some(c) => if !resident(c.spec_state()) {
                            &&& r == Err::<BlockStateId, WorldError>(
                                WorldError::NotWritable { chunk: coord, state: c.spec_state() },
                            )
                            &&& final(self).spec_chunks() == old(self).spec_chunks()
                        } else {
                            &&& (r is Ok <==> c.contains(position))
                            &&& (r is Err ==> r == world_read(*old(self), position)
                                && final(self).spec_chunks() == old(self).spec_chunks())
                            &&& forall|other: ChunkCoord|
                                other != coord ==> #[trigger] final(self).chunk_at(other) == old(
                                    self,
                                ).chunk_at(other)
                            &&& final(self).chunk_at(coord) matches Some(n) && n.spec_state()
                                == c.spec_state() && n.spec_coord() == c.spec_coord()
                                && n.spec_shape() == c.spec_shape()
                            &&& (r matches Ok(prev) ==> prev == c.block(position))
                            &&& (r matches Ok(prev) ==> (prev != state ==> final(self).chunk_at(
                                coord,
                            )->0.spec_journal() == journal_after(
                                c.spec_journal(),
                                VoxelChange {
                                    position,
                                    previous: prev,
                                    next: state,
                                    at: old(self).spec_clock().spec_now(),
                                },
                            )))
                            &&& (r is Ok ==> {
                                &&& world_read(*final(self), position) == Ok::<
                                    BlockStateId,
                                    WorldError,
                                >(state)
                                &&& forall|q: BlockPos|
                                    q != position ==> #[trigger] world_read(*final(self), q)
                                        == world_read(*old(self), q)
                            })
                        },
                    }
                }
            }),
    {
        if !self.descriptor.bounds.contains_y(position.y) {
            return Err(
                WorldError::OutOfBounds {
                    y: position.y,
                    min_y: self.descriptor.bounds.min_y,
                    max_y: self.descriptor.bounds.max_y,
                },
            );
        }
        let now = self.clock.now();
        let coord = self.descriptor.shape.section_of(position).column();
        let i = match self.locate_chunk(coord) {
            Ok(i) => i,
            Err(_) => {
                return Err(WorldError::NotResident { chunk: coord });
            },
        };
        let ghost before = self.chunks@;
        let ghost old_world = *self;
        proof {
            lemma_find_at(before, i as int);
        }
        let chunk_state = self.chunks[i].state();
        if !chunk_state.is_resident() {
            return Err(WorldError::NotWritable { chunk: coord, state: chunk_state });
        }
        let result = self.chunks[i].set(position, state, now);
        proof {
            let c = before[i as int];
            let n = self.chunks@[i as int];
            assert(self.chunks@ == before.update(i as int, n));
            lemma_find_update(before, i as int, n);
            assert forall|k: int| 0 <= k < self.chunks@.len() implies (
            #[trigger] self.chunks@[k]).sound() by {
                if k != i {
                    assert(self.chunks@[k] == before[k]);
                }
            }
            if result is Err {
                assert(self.chunks@ =~= before);
            }
            if result is Ok {
                assert forall|q: BlockPos| q != position implies #[trigger] world_read(*self, q)
                    == world_read(old_world, q) by {
                    let cq = self.descriptor.shape.spec_column_of(q);
                    if cq != coord {
                    }
                }
            }
        }
        match result {
            Ok(prev) => Ok(prev),
            Err(e) => Err(WorldError::Chunk(e)),
        }
    }
}

/// The lowest and highest surface over a chunk's columns.
fn column_extremes(seed: u64, coord: ChunkCoord, shape: ChunkShape) -> (r: (i64, i64))
    requires
        shape.wf(),
        column_in_range(coord, shape),
    ensures
        TERRAIN_BASE_HEIGHT - TERRAIN_AMPLITUDE <= r.0 <= r.1 <= TERRAIN_BASE_HEIGHT + TERRAIN_AMPLITUDE,
        forall|a: int, b: int|
            0 <= a < shape.sz() && 0 <= b < shape.sx() ==> r.0 <= #[trigger] column_height(
                seed,
                coord,
                shape,
                a,
                b,
            ) <= r.1,
        exists|a: int, b: int|
            0 <= a < shape.sz() && 0 <= b < shape.sx() && #[trigger] column_height(
                seed,
                coord,
                shape,
                a,
                b,
            ) == r.0,
        exists|a: int, b: int|
            0 <= a < shape.sz() && 0 <= b < shape.sx() && #[trigger] column_height(
                seed,
                coord,
                shape,
                a,
                b,
            ) == r.1,
{
    let sx = shape.size_x() as i64;
    let sz = shape.size_z() as i64;
    let origin_x = coord.x * sx;
    let origin_z = coord.z * sz;
    let mut lowest: i64 = i64::MAX;
    let mut highest: i64 = i64::MIN;
    let mut lz: i64 = 0;
    while lz < sz
        invariant
            shape.wf(),
            column_in_range(coord, shape),
            sx == shape.sx(),
            sz == shape.sz(),
            origin_x == coord.x * shape.sx(),
            origin_z == coord.z * shape.sz(),
            0 <= lz <= sz,
            lz > 0 ==> TERRAIN_BASE_HEIGHT - TERRAIN_AMPLITUDE <= lowest <= highest
                <= TERRAIN_BASE_HEIGHT + TERRAIN_AMPLITUDE,
            forall|a: int, b: int|
                0 <= a < lz && 0 <= b < sx ==> lowest <= #[trigger] column_height(
                    seed,
                    coord,
                    shape,
                    a,
                    b,
                ) <= highest,
            lz > 0 ==> exists|a: int, b: int|
                0 <= a < lz && 0 <= b < sx && #[trigger] column_height(seed, coord, shape, a, b)
                    == lowest,
            lz > 0 ==> exists|a: int, b: int|
                0 <= a < lz && 0 <= b < sx && #[trigger] column_height(seed, coord, shape, a, b)
                    == highest,
        decreases sz - lz,
    {
        let mut lx: i64 = 0;
        while lx < sx
            invariant
                shape.wf(),
                column_in_range(coord, shape),
                sx == shape.sx(),
                sz == shape.sz(),
                origin_x == coord.x * shape.sx(),
                origin_z == coord.z * shape.sz(),
                0 <= lz < sz,
                0 <= lx <= sx,
                lz > 0 || lx > 0 ==> TERRAIN_BASE_HEIGHT - TERRAIN_AMPLITUDE <= lowest <= highest
                    <= TERRAIN_BASE_HEIGHT + TERRAIN_AMPLITUDE,
                forall|a: int, b: int|
                    (0 <= a < lz && 0 <= b < sx) || (a == lz && 0 <= b < lx) ==> lowest
                        <= #[trigger] column_height(seed, coord, shape, a, b) <= highest,
                lz > 0 || lx > 0 ==> exists|a: int, b: int|
                    ((0 <= a < lz && 0 <= b < sx) || (a == lz && 0 <= b < lx)) && #[trigger] column_height(
                        seed,
                        coord,
                        shape,
                        a,
                        b,
                    ) == lowest,
                lz > 0 || lx > 0 ==> exists|a: int, b: int|
                    ((0 <= a < lz && 0 <= b < sx) || (a == lz && 0 <= b < lx)) && #[trigger] column_height(
                        seed,
                        coord,
                        shape,
                        a,
                        b,
                    ) == highest,
            decreases sx - lx,
        {
            let h = terrain_height(seed, origin_x + lx, origin_z + lz);
            assert(h == column_height(seed, coord, shape, lz as int, lx as int));
            if lz == 0 && lx == 0 {
                lowest = h;
                highest = h;
            } else {
                if h < lowest {
                    lowest = h;
                }
                if h > highest {
                    highest = h;
                }
            }
            lx += 1;
        }
        lz += 1;
    }
    (lowest, highest)
}

/// Build one section of generated terrain, cell by cell.
fn fill_section(seed: u64, coord: ChunkCoord, shape: ChunkShape, section_y: i64) -> (s: Section)
    requires
        shape.wf(),
        column_in_range(coord, shape),
        i64::MIN <= section_y * shape.sy(),
        section_y * shape.sy() + shape.sy() - 1 <= i64::MAX,
    ensures
        s.sound(),
        s.spec_shape() == shape,
        forall|l: LocalPos|
            shape.contains_local(l) ==> #[trigger] s@[shape.spec_index(l)] == expected_cell(
                seed,
                coord,
                shape,
                section_y,
                l,
            ),
{
    let size_x = shape.size_x();
    let size_y = shape.size_y();
    let size_z = shape.size_z();
    let origin_x = coord.x * (size_x as i64);
    let origin_z = coord.z * (size_z as i64);
    let section_min = section_y * (size_y as i64);
    let ghost volume = shape.spec_volume() as int;
    let mut section = Section::empty(shape);
    let ghost mut cur: int = 0;
    let mut ly: u32 = 0;
    proof {
        assert((ly * size_z) * size_x == 0) by (nonlinear_arith)
            requires
                ly == 0,
        ;
    }
    while ly < size_y
        invariant
            shape.wf(),
            column_in_range(coord, shape),
            size_x == shape.sx(),
            size_y == shape.sy(),
            size_z == shape.sz(),
            origin_x == coord.x * shape.sx(),
            origin_z == coord.z * shape.sz(),
            section_min == section_y * shape.sy(),
            section_y * shape.sy() + shape.sy() - 1 <= i64::MAX,
            volume == shape.spec_volume(),
            ly <= size_y,
            cur == (ly * size_z) * size_x,
            section.sound(),
            section.spec_shape() == shape,
            forall|l: LocalPos|
                shape.contains_local(l) && shape.spec_index(l) < cur ==> #[trigger] section@[shape.spec_index(l)]
                    == expected_cell(seed, coord, shape, section_y, l),
            forall|i: int| cur <= i < volume ==> #[trigger] section@[i] == spec_air(),
        decreases size_y - ly,
    {
        let mut lz: u32 = 0;
        while lz < size_z
            invariant
                shape.wf(),
                column_in_range(coord, shape),
                size_x == shape.sx(),
                size_y == shape.sy(),
                size_z == shape.sz(),
                origin_x == coord.x * shape.sx(),
                origin_z == coord.z * shape.sz(),
                section_min == section_y * shape.sy(),
                section_y * shape.sy() + shape.sy() - 1 <= i64::MAX,
                volume == shape.spec_volume(),
                ly < size_y,
                lz <= size_z,
                cur == (ly * size_z + lz) * size_x,
                section.sound(),
                section.spec_shape() == shape,
                forall|l: LocalPos|
                    shape.contains_local(l) && shape.spec_index(l) < cur ==> #[trigger] section@[shape.spec_index(l)]
                        == expected_cell(seed, coord, shape, section_y, l),
                forall|i: int| cur <= i < volume ==> #[trigger] section@[i] == spec_air(),
            decreases size_z - lz,
        {
            let mut lx: u32 = 0;
            while lx < size_x
                invariant
                    shape.wf(),
                    column_in_range(coord, shape),
                    size_x == shape.sx(),
                    size_y == shape.sy(),
                    size_z == shape.sz(),
                    origin_x == coord.x * shape.sx(),
                    origin_z == coord.z * shape.sz(),
                    section_min == section_y * shape.sy(),
                    section_y * shape.sy() + shape.sy() - 1 <= i64::MAX,
                    volume == shape.spec_volume(),
                    ly < size_y,
                    lz < size_z,
                    lx <= size_x,
                    cur == (ly * size_z + lz) * size_x + lx,
                    section.sound(),
                    section.spec_shape() == shape,
                    forall|l: LocalPos|
                        shape.contains_local(l) && shape.spec_index(l) < cur ==> #[trigger] section@[shape.spec_index(l)]
                            == expected_cell(seed, coord, shape, section_y, l),
                    forall|i: int| cur <= i < volume ==> #[trigger] section@[i] == spec_air(),
                decreases size_x - lx,
            {
                let here = LocalPos::new(lx, ly, lz);
                proof {
                    lemma_index_in_range(shape, here);
                    assert(shape.spec_index(here) == cur);
                    section.lemma_wf();
                }
                let ghost before = section@;
                let world_y = section_min + (ly as i64);
                let surface = terrain_height(seed, origin_x + (lx as i64), origin_z + (lz as i64));
                assert(surface == column_height(seed, coord, shape, lz as int, lx as int));
                if world_y <= surface {
                    let state = layer_at(surface, world_y);
                    match section.set(here, state) {
                        Ok(_) => {},
                        Err(_) => {
                            proof {
                                assert(false);
                            }
                        },
                    }
                    proof {
                        assert(section@ == before.update(cur, state));
                    }
                }
                proof {
                    assert forall|l: LocalPos|
                        shape.contains_local(l) && shape.spec_index(l) < cur + 1 implies #[trigger] section@[shape.spec_index(l)]
                            == expected_cell(seed, coord, shape, section_y, l) by {
                        if shape.spec_index(l) == cur {
                            lemma_index_injective(shape, l, here);
                        }
                    }
                    cur = cur + 1;
                }
                lx += 1;
            }
            proof {
                assert((ly * size_z + lz) * size_x + size_x == (ly * size_z + (lz + 1)) * size_x)
                    by (nonlinear_arith);
            }
            lz += 1;
        }
        proof {
            assert((ly * size_z + size_z) * size_x == ((ly + 1) * size_z) * size_x)
                by (nonlinear_arith);
        }
        ly += 1;
    }
    proof {
        assert((size_y * size_z) * size_x == size_x * size_y * size_z) by (nonlinear_arith);
        assert forall|l: LocalPos| shape.contains_local(l) implies #[trigger] section@[shape.spec_index(l)]
            == expected_cell(seed, coord, shape, section_y, l) by {
            lemma_index_in_range(shape, l);
        }
    }
    section
}

/// A chunk whose sections hold generated terrain from `first` to `last`,
/// and nothing elsewhere, holds generated terrain at every block.
proof fn lemma_generated_blocks(
    seed: u64,
    c: Chunk,
    min_y: i64,
    first: i64,
    last: i64,
    highest: i64,
)
    requires
        c.wf(),
        first as int == (min_y as int) / (c.spec_shape().sy() as int),
        (last + 1) * c.spec_shape().sy() > highest,
        forall|a: int, b: int|
            0 <= a < c.spec_shape().sz() && 0 <= b < c.spec_shape().sx() ==> #[trigger] column_height(
                seed,
                c.spec_coord(),
                c.spec_shape(),
                a,
                b,
            ) <= highest,
        forall|y: i64| (y < first || y > last) ==> #[trigger] lookup(c.spec_sections(), y) is None,
        forall|y: i64| first <= y <= last ==> #[trigger] section_generated(seed, c, y),
    ensures
        forall|p: BlockPos|
            c.contains(p) ==> #[trigger] c.block(p) == generated_block(seed, c.spec_shape(), min_y, p),
{
    let sh = c.spec_shape();
    let coord = c.spec_coord();
    let (sx, sy, sz) = (sh.sx() as int, sh.sy() as int, sh.sz() as int);
    assert forall|p: BlockPos| c.contains(p) implies #[trigger] c.block(p) == generated_block(
        seed,
        sh,
        min_y,
        p,
    ) by {
        let l = sh.spec_local_of(p);
        lemma_fundamental_div_mod(p.x as int, sx);
        lemma_fundamental_div_mod(p.y as int, sy);
        lemma_fundamental_div_mod(p.z as int, sz);
        lemma_mod_bound(p.x as int, sx);
        lemma_mod_bound(p.y as int, sy);
        lemma_mod_bound(p.z as int, sz);
        lemma_div_bounds(p.x as int, sx);
        lemma_div_bounds(p.y as int, sy);
        lemma_div_bounds(p.z as int, sz);
        let y = sh.spec_section_of(p).y;
        assert(y as int == (p.y as int) / sy);
        assert(coord.x as int == (p.x as int) / sx);
        assert(coord.z as int == (p.z as int) / sz);
        assert(p.x == coord.x * sx + l.x) by (nonlinear_arith)
            requires
                p.x as int == sx * ((p.x as int) / sx) + (p.x as int) % sx,
                coord.x as int == (p.x as int) / sx,
                l.x as int == (p.x as int) % sx,
        ;
        assert(p.z == coord.z * sz + l.z) by (nonlinear_arith)
            requires
                p.z as int == sz * ((p.z as int) / sz) + (p.z as int) % sz,
                coord.z as int == (p.z as int) / sz,
                l.z as int == (p.z as int) % sz,
        ;
        assert(p.y == y * sy + l.y) by (nonlinear_arith)
            requires
                p.y as int == sy * ((p.y as int) / sy) + (p.y as int) % sy,
                y as int == (p.y as int) / sy,
                l.y as int == (p.y as int) % sy,
        ;
        lemma_index_in_range(sh, l);
        let h = column_height(seed, coord, sh, l.z as int, l.x as int);
        assert(h == surface_spec(seed, p.x, p.z));
        if y < first {
        } else if y <= last {
            assert(section_generated(seed, c, y));
        } else {
            assert(h <= highest);
            assert(y * sy >= (last + 1) * sy) by (nonlinear_arith)
                requires
                    y >= last + 1,
                    sy >= 1,
            ;
        }
    }
}

/// Section `y` of chunk `coord` lies wholly below the soil of every one of
/// its columns, so generation fills it with stone.
pub open spec fn deep_section(seed: u64, coord: ChunkCoord, shape: ChunkShape, y: i64) -> bool {
    forall|a: int, b: int|
        0 <= a < shape.sz() && 0 <= b < shape.sx() ==> y * shape.sy() + shape.sy() - 1
            < #[trigger] column_height(seed, coord, shape, a, b) - SOIL_DEPTH
}

/// `h` is the highest surface among a chunk's columns: none is above it and
/// one reaches it.
pub open spec fn is_column_top(seed: u64, coord: ChunkCoord, shape: ChunkShape, h: i64) -> bool {
    &&& forall|a: int, b: int|
        0 <= a < shape.sz() && 0 <= b < shape.sx() ==> #[trigger] column_height(seed, coord, shape, a, b) <= h
    &&& exists|a: int, b: int|
        0 <= a < shape.sz() && 0 <= b < shape.sx() && #[trigger] column_height(seed, coord, shape, a, b) == h
}

/// The highest surface among a chunk's columns.
pub open spec fn column_top(seed: u64, coord: ChunkCoord, shape: ChunkShape) -> i64 {
    choose|h: i64| is_column_top(seed, coord, shape, h)
}

/// A chunk has one highest surface.
proof fn lemma_column_top(seed: u64, coord: ChunkCoord, shape: ChunkShape, h: i64)
    requires
        is_column_top(seed, coord, shape, h),
    ensures
        column_top(seed, coord, shape) == h,
{
    let t = column_top(seed, coord, shape);
    assert(is_column_top(seed, coord, shape, t));
    let (a, b) = choose|a: int, b: int|
        0 <= a < shape.sz() && 0 <= b < shape.sx() && #[trigger] column_height(seed, coord, shape, a, b) == h;
    let (c, d) = choose|a: int, b: int|
        0 <= a < shape.sz() && 0 <= b < shape.sx() && #[trigger] column_height(seed, coord, shape, a, b) == t;
    assert(column_height(seed, coord, shape, a, b) <= t);
    assert(column_height(seed, coord, shape, c, d) <= h);
}

/// A stored section is in compacted form and holds something other than
/// air: an all-air section is never stored.
pub open spec fn canonical_section(sec: Section) -> bool {
    &&& sec.spec_parts() == compacted_parts(sec@)
    &&& exists|i: int| 0 <= i < sec@.len() && #[trigger] sec@[i] != spec_air()
}

/// What generating column `coord` from `seed` gives, section by section:
/// nothing below the world's floor or above the section of the highest
/// surface, the layered terrain in between, every stored section compacted
/// and holding something, loaded, clean, with an empty journal.
pub open spec fn generated_chunk(c: Chunk, seed: u64, coord: ChunkCoord, shape: ChunkShape, min_y: i64) -> bool {
    &&& c.sound()
    &&& c.spec_coord() == coord
    &&& c.spec_shape() == shape
    &&& c.spec_state() == ChunkState::Loaded
    &&& c.spec_dirty().len() == 0
    &&& c.spec_journal().len() == 0
    &&& c.spec_dropped() == 0
    &&& forall|y: i64|
        ((y as int) < (min_y as int) / (shape.sy() as int) || (y as int) > (column_top(seed, coord, shape)
            as int) / (shape.sy() as int)) ==> #[trigger] lookup(c.spec_sections(), y) is None
    &&& forall|y: i64|
        (min_y as int) / (shape.sy() as int) <= (y as int) <= (column_top(seed, coord, shape) as int) / (
        shape.sy() as int) ==> #[trigger] section_generated(seed, c, y)
    &&& forall|y: i64|
        #[trigger] lookup(c.spec_sections(), y) matches Some(sec) ==> canonical_section(sec)
}

/// The parts of the section stored at height `y`, if one is.
pub open spec fn parts_at(c: Chunk, y: i64) -> Option<PartsView> {
    match lookup(c.spec_sections(), y) {
        Some(sec) => Some(sec.spec_parts()),
        None => None,
    }
}

/// Generation is a function of the seed, the column, the shape and the
/// floor alone: two chunks generated from the same inputs, in whatever world
/// and in whatever order, store the same sections with the same parts and
/// cells, and agree in state, dirty set and journal.
pub proof fn lemma_generation_determined(
    c1: Chunk,
    c2: Chunk,
    seed: u64,
    coord: ChunkCoord,
    shape: ChunkShape,
    min_y: i64,
)
    requires
        generated_chunk(c1, seed, coord, shape, min_y),
        generated_chunk(c2, seed, coord, shape, min_y),
    ensures
        c1.spec_coord() == c2.spec_coord(),
        c1.spec_shape() == c2.spec_shape(),
        c1.spec_state() == c2.spec_state(),
        c1.spec_dirty() == c2.spec_dirty(),
        c1.spec_journal() == c2.spec_journal(),
        c1.spec_dropped() == c2.spec_dropped(),
        forall|y: i64| #[trigger] c1.effective(y) == c2.effective(y),
        forall|y: i64|
            (#[trigger] lookup(c1.spec_sections(), y)) is Some <==> lookup(c2.spec_sections(), y) is Some,
        forall|y: i64| #[trigger] parts_at(c1, y) == parts_at(c2, y),
{
    assert(c1.spec_dirty() =~= c2.spec_dirty());
    assert(c1.spec_journal() =~= c2.spec_journal());
    let first = (min_y as int) / (shape.sy() as int);
    let last = (column_top(seed, coord, shape) as int) / (shape.sy() as int);
    assert forall|y: i64| #[trigger] c1.effective(y) == c2.effective(y) by {
        c1.lemma_effective_len(y);
        c2.lemma_effective_len(y);
        if first <= y <= last {
            assert(section_generated(seed, c1, y));
            assert(section_generated(seed, c2, y));
            assert forall|i: int| 0 <= i < shape.spec_volume() implies c1.effective(y)[i] == c2.effective(y)[i] by {
                lemma_local_at(shape, i);
                let l = local_at(shape, i);
                assert(c1.effective(y)[shape.spec_index(l)] == expected_cell(seed, coord, shape, y, l));
                assert(c2.effective(y)[shape.spec_index(l)] == expected_cell(seed, coord, shape, y, l));
            }
            assert(c1.effective(y) =~= c2.effective(y));
        } else {
            assert(lookup(c1.spec_sections(), y) is None);
            assert(lookup(c2.spec_sections(), y) is None);
            assert(c1.effective(y) =~= c2.effective(y));
        }
    }
    assert forall|y: i64|
        (#[trigger] lookup(c1.spec_sections(), y)) is Some <==> lookup(c2.spec_sections(), y) is Some by {
        let e = c1.effective(y);
        assert(e == c2.effective(y));
        lemma_present_iff_not_air(c1, y);
        lemma_present_iff_not_air(c2, y);
    }
    assert forall|y: i64| #[trigger] parts_at(c1, y) == parts_at(c2, y) by {
        assert(c1.effective(y) == c2.effective(y));
        lemma_present_iff_not_air(c1, y);
        lemma_present_iff_not_air(c2, y);
        if lookup(c1.spec_sections(), y) is Some {
            let s1 = lookup(c1.spec_sections(), y)->Some_0;
            let s2 = lookup(c2.spec_sections(), y)->Some_0;
            assert(canonical_section(s1));
            assert(canonical_section(s2));
            assert(s1@ == c1.effective(y));
            assert(s2@ == c2.effective(y));
        }
    }
}

/// In a chunk whose stored sections are canonical, a section is stored
/// exactly when its cells hold something other than air.
proof fn lemma_present_iff_not_air(c: Chunk, y: i64)
    requires
        c.wf(),
        forall|y: i64| #[trigger] lookup(c.spec_sections(), y) matches Some(sec) ==> canonical_section(sec),
    ensures
        lookup(c.spec_sections(), y) is Some <==> exists|i: int|
            0 <= i < c.effective(y).len() && #[trigger] c.effective(y)[i] != spec_air(),
{
    match lookup(c.spec_sections(), y) {
        Some(sec) => {
            assert(canonical_section(sec));
            let i = choose|i: int| 0 <= i < sec@.len() && #[trigger] sec@[i] != spec_air();
            assert(c.effective(y)[i] != spec_air());
        },
        None => {},
    }
}

impl World {
    /// Generate one chunk from the world seed.
    ///
    /// Terrain is layered from each column's surface height: grass on top,
    /// four blocks of dirt, stone below. Sections wholly below the deepest
    /// soil are stored as one uniform stone section, sections wholly above
    /// the highest surface are left absent, and sections below the one that
    /// holds the world's lowest block are absent too. The chunk comes back
    /// loaded, clean and with an empty journal.
    #[verifier::spinoff_prover]
    #[verifier::rlimit(50)]
    pub fn generate_chunk(&self, coord: ChunkCoord) -> (r: Result<Chunk, WorldError>)
        requires
            self.wf(),
            column_in_range(coord, self.spec_descriptor().shape),
            self.spec_descriptor().bounds.min_y >= i64::MIN + MAX_SECTION_EDGE,
        ensures
            r matches Ok(c) && {
                &&& c.sound()
                &&& c.spec_coord() == coord
                &&& c.spec_shape() == self.spec_descriptor().shape
                &&& c.spec_state() == ChunkState::Loaded
                &&& c.spec_dirty().len() == 0
                &&& c.spec_journal().len() == 0
                &&& c.spec_dropped() == 0
                &&& generated_chunk(
                    c,
                    self.spec_descriptor().seed,
                    coord,
                    self.spec_descriptor().shape,
                    self.spec_descriptor().bounds.min_y,
                )
                &&& forall|p: BlockPos|
                    c.contains(p) ==> #[trigger] c.block(p) == generated_block(
                        self.spec_descriptor().seed,
                        self.spec_descriptor().shape,
                        self.spec_descriptor().bounds.min_y,
                        p,
                    )
                &&& forall|y: i64|
                    (self.spec_descriptor().bounds.min_y as int) / (
                    self.spec_descriptor().shape.sy() as int) <= y && #[trigger] deep_section(
                        self.spec_descriptor().seed,
                        coord,
                        self.spec_descriptor().shape,
                        y,
                    ) ==> (lookup(c.spec_sections(), y) matches Some(sec) && sec.spec_parts()
                        == PartsView::Uniform(BlockStateId(STONE_ID)) && sec.spec_storage_bytes()
                        == 0)
            },
    {
        let shape = self.descriptor.shape;
        let seed = self.descriptor.seed;
        let min_y = self.descriptor.bounds.min_y;
        let mut chunk = Chunk::new(coord, shape);
        let ghost fresh = chunk;
        let step = chunk.transition_to(ChunkState::Requested);
        proof {
            fresh.lemma_with_state(ChunkState::Requested);
        }
        let ghost requested = chunk;
        let step2 = chunk.transition_to(ChunkState::Generating);
        if step.is_err() || step2.is_err() {
            proof {
                assert(false);
            }
            return Err(WorldError::Chunk(ChunkError::IllegalTransition {
                from: ChunkState::Unloaded,
                to: ChunkState::Requested,
            }));
        }
        proof {
            requested.lemma_with_state(ChunkState::Generating);
        }
        let (lowest, highest) = column_extremes(seed, coord, shape);
        let size_y = shape.size_y();
        let sy = size_y as i64;
        let first_section = floor_div(min_y, size_y);
        let last_section = floor_div(highest, size_y);
        let mut section_y = first_section;
        while section_y <= last_section
            invariant
                shape.wf(),
                shape == self.descriptor.shape,
                column_in_range(coord, shape),
                size_y == shape.sy(),
                sy == shape.sy(),
                min_y >= i64::MIN + MAX_SECTION_EDGE,
                first_section as int == (min_y as int) / (sy as int),
                first_section * sy <= min_y,
                min_y < (first_section + 1) * sy,
                last_section * sy <= highest,
                highest < (last_section + 1) * sy,
                TERRAIN_BASE_HEIGHT - TERRAIN_AMPLITUDE <= lowest <= highest <= TERRAIN_BASE_HEIGHT
                    + TERRAIN_AMPLITUDE,
                forall|a: int, b: int|
                    0 <= a < shape.sz() && 0 <= b < shape.sx() ==> lowest <= #[trigger] column_height(
                        seed,
                        coord,
                        shape,
                        a,
                        b,
                    ) <= highest,
                chunk.sound(),
                chunk.spec_coord() == coord,
                chunk.spec_shape() == shape,
                chunk.spec_state() == ChunkState::Generating,
                chunk.spec_journal().len() == 0,
                chunk.spec_dropped() == 0,
                first_section <= section_y,
                section_y > first_section ==> section_y <= last_section + 1,
                forall|y: i64|
                    (y < first_section || y >= section_y) ==> #[trigger] lookup(
                        chunk.spec_sections(),
                        y,
                    ) is None,
                forall|y: i64| first_section <= y < section_y ==> #[trigger] section_generated(seed, chunk, y),
                forall|y: i64|
                    #[trigger] lookup(chunk.spec_sections(), y) matches Some(sec) ==> canonical_section(sec),
                exists|a: int, b: int|
                    0 <= a < shape.sz() && 0 <= b < shape.sx() && #[trigger] column_height(
                        seed,
                        coord,
                        shape,
                        a,
                        b,
                    ) == lowest,
                forall|y: i64|
                    first_section <= y < section_y && #[trigger] deep_section(seed, coord, shape, y)
                        ==> (lookup(chunk.spec_sections(), y) matches Some(sec) && sec.spec_parts()
                        == PartsView::Uniform(BlockStateId(STONE_ID))),
            decreases last_section + 1 - section_y,
        {
            proof {
                assert(first_section * sy <= section_y * sy <= last_section * sy) by (nonlinear_arith)
                    requires
                        first_section <= section_y <= last_section,
                        sy >= 1,
                ;
                assert((first_section + 1) * sy == first_section * sy + sy) by (nonlinear_arith);
                assert(first_section * sy >= i64::MIN);
                assert(section_y <= TERRAIN_BASE_HEIGHT + TERRAIN_AMPLITUDE) by (nonlinear_arith)
                    requires
                        section_y <= last_section,
                        last_section * sy <= TERRAIN_BASE_HEIGHT + TERRAIN_AMPLITUDE,
                        sy >= 1,
                ;
            }
            let section_min = section_y * sy;
            let section_max = section_min + sy - 1;
            let ghost before = chunk;
            if section_max < lowest - SOIL_DEPTH {
                let stone = Section::uniform(shape, BlockStateId(STONE_ID));
                chunk.put_section(section_y, stone);
                proof {
                    assert(PartsView::Uniform(BlockStateId(STONE_ID)) != PartsView::Uniform(spec_air()));
                    assert(lookup(chunk.spec_sections(), section_y) == Some(stone));
                    crate::spatial::lemma_volume_bounds(shape);
                    assert(stone@[0] == BlockStateId(STONE_ID));
                    assert(stone@[0] != spec_air());
                    assert(canonical_section(stone));
                    assert forall|y: i64|
                        (#[trigger] lookup(chunk.spec_sections(), y)) is Some implies canonical_section(
                        lookup(chunk.spec_sections(), y)->Some_0,
                    ) by {
                        if y != section_y {
                            assert(lookup(chunk.spec_sections(), y) == lookup(before.spec_sections(), y));
                        }
                    }
                    assert forall|l: LocalPos| shape.contains_local(l) implies #[trigger] chunk.effective(
                        section_y,
                    )[shape.spec_index(l)] == expected_cell(seed, coord, shape, section_y, l) by {
                        lemma_index_in_range(shape, l);
                        let h = column_height(seed, coord, shape, l.z as int, l.x as int);
                        assert(lowest <= h);
                    }
                }
            } else if section_min > highest {
                proof {
                    assert(!deep_section(seed, coord, shape, section_y)) by {
                        if deep_section(seed, coord, shape, section_y) {
                            assert(column_height(seed, coord, shape, 0, 0) <= highest);
                        }
                    }
                    assert forall|l: LocalPos| shape.contains_local(l) implies #[trigger] chunk.effective(
                        section_y,
                    )[shape.spec_index(l)] == expected_cell(seed, coord, shape, section_y, l) by {
                        lemma_index_in_range(shape, l);
                        let h = column_height(seed, coord, shape, l.z as int, l.x as int);
                        assert(h <= highest);
                    }
                }
            } else {
                let mut section = fill_section(seed, coord, shape, section_y);
                proof {
                    assert(!deep_section(seed, coord, shape, section_y)) by {
                        if deep_section(seed, coord, shape, section_y) {
                            let (wa, wb) = choose|a: int, b: int|
                                0 <= a < shape.sz() && 0 <= b < shape.sx() && #[trigger] column_height(
                                    seed,
                                    coord,
                                    shape,
                                    a,
                                    b,
                                ) == lowest;
                            assert(column_height(seed, coord, shape, wa, wb) == lowest);
                        }
                    }
                    section.lemma_wf();
                }
                let ghost filled = section@;
                section.compact();
                let ghost packed = section;
                chunk.put_section(section_y, section);
                proof {
                    crate::spatial::lemma_volume_bounds(shape);
                    if lookup(chunk.spec_sections(), section_y) is Some {
                        assert(packed.spec_parts() != PartsView::Uniform(spec_air()));
                        assert(packed.spec_parts() == compacted_parts(packed@));
                        if forall|i: int| 0 <= i < packed@.len() ==> #[trigger] packed@[i] == spec_air() {
                            assert(forall|i: int| 0 <= i < packed@.len() ==> #[trigger] packed@[i] == packed@[0]);
                            assert(false);
                        }
                        assert(canonical_section(packed));
                    }
                    assert forall|y: i64|
                        (#[trigger] lookup(chunk.spec_sections(), y)) is Some implies canonical_section(
                        lookup(chunk.spec_sections(), y)->Some_0,
                    ) by {
                        if y != section_y {
                            assert(lookup(chunk.spec_sections(), y) == lookup(before.spec_sections(), y));
                        }
                    }
                }
                proof {
                    assert forall|l: LocalPos| shape.contains_local(l) implies #[trigger] chunk.effective(
                        section_y,
                    )[shape.spec_index(l)] == expected_cell(seed, coord, shape, section_y, l) by {
                        assert(filled[shape.spec_index(l)] == expected_cell(seed, coord, shape, section_y, l));
                    }
                }
            }
            proof {
                assert forall|y: i64|
                    first_section <= y < section_y + 1 && #[trigger] deep_section(seed, coord, shape, y)
                        implies (lookup(chunk.spec_sections(), y) matches Some(sec)
                        && sec.spec_parts() == PartsView::Uniform(BlockStateId(STONE_ID))) by {
                    if y != section_y {
                        assert(lookup(chunk.spec_sections(), y) == lookup(before.spec_sections(), y));
                    }
                }
                assert(section_generated(seed, chunk, section_y));
                assert forall|y: i64| first_section <= y < section_y + 1 implies #[trigger] section_generated(
                    seed,
                    chunk,
                    y,
                ) by {
                    if y != section_y {
                        assert(chunk.effective(y) == before.effective(y));
                        assert(section_generated(seed, before, y));
                    }
                }
            }
            section_y += 1;
        }
        let ghost built = chunk;
        let step3 = chunk.transition_to(ChunkState::Generated);
        proof {
            built.lemma_with_state(ChunkState::Generated);
        }
        let ghost generated = chunk;
        let step4 = chunk.transition_to(ChunkState::Loaded);
        proof {
            generated.lemma_with_state(ChunkState::Loaded);
        }
        if step3.is_err() || step4.is_err() {
            proof {
                assert(false);
            }
            return Err(WorldError::Chunk(ChunkError::IllegalTransition {
                from: ChunkState::Generating,
                to: ChunkState::Generated,
            }));
        }
        chunk.mark_clean();
        let _ = chunk.take_journal();
        proof {
            assert(chunk.spec_sections() == built.spec_sections());
            assert forall|y: i64| first_section <= y <= last_section implies #[trigger] section_generated(
                seed,
                chunk,
                y,
            ) by {
                assert(chunk.effective(y) == built.effective(y));
                assert(section_generated(seed, built, y));
            }
            lemma_generated_blocks(seed, chunk, min_y, first_section, last_section, highest);
            assert forall|y: i64|
                (min_y as int) / (shape.sy() as int) <= y && #[trigger] deep_section(seed, coord, shape, y)
                    implies (lookup(chunk.spec_sections(), y) matches Some(sec) && sec.spec_parts()
                    == PartsView::Uniform(BlockStateId(STONE_ID)) && sec.spec_storage_bytes() == 0) by {
                assert(y * sy + sy - 1 < column_height(seed, coord, shape, 0, 0) - SOIL_DEPTH);
                assert(column_height(seed, coord, shape, 0, 0) <= highest);
                assert(y <= last_section) by (nonlinear_arith)
                    requires
                        y * sy + sy - 1 < highest,
                        highest < (last_section + 1) * sy,
                        sy >= 1,
                ;
                assert(lookup(chunk.spec_sections(), y) == lookup(built.spec_sections(), y));
                let sec = lookup(chunk.spec_sections(), y)->Some_0;
                sec.lemma_storage_bytes();
            }
            lemma_column_top(seed, coord, shape, highest);
            assert forall|y: i64|
                ((y as int) < (min_y as int) / (shape.sy() as int) || (y as int) > (column_top(seed, coord, shape)
                    as int) / (shape.sy() as int)) implies #[trigger] lookup(chunk.spec_sections(), y) is None by {
                assert(lookup(chunk.spec_sections(), y) == lookup(built.spec_sections(), y));
            }
            assert forall|y: i64|
                (#[trigger] lookup(chunk.spec_sections(), y)) is Some implies canonical_section(
                lookup(chunk.spec_sections(), y)->Some_0,
            ) by {
                assert(lookup(chunk.spec_sections(), y) == lookup(built.spec_sections(), y));
            }
            assert(generated_chunk(chunk, seed, coord, shape, min_y));
        }
        Ok(chunk)
    }
}

impl World {
    /// Ensure a chunk is resident, generating it if it is not.
    ///
    /// A resident chunk is returned as it is; a missing one is generated
    /// from the seed and inserted, and nothing else changes.
    pub fn load_or_generate(&mut self, coord: ChunkCoord) -> (r: Result<&Chunk, WorldError>)
        requires
            old(self).wf(),
            column_in_range(coord, old(self).spec_descriptor().shape),
            old(self).spec_descriptor().bounds.min_y >= i64::MIN + MAX_SECTION_EDGE,
        ensures
            final(self).wf(),
            r matches Ok(c) && final(self).chunk_at(coord) == Some(*c),
            old(self).chunk_at(coord) matches Some(existing) ==> final(self).chunk_at(coord) == Some(
                existing,
            ),
            old(self).chunk_at(coord) is None ==> ({
                let c = final(self).chunk_at(coord)->0;
                &&& c.spec_coord() == coord
                &&& c.spec_state() == ChunkState::Loaded
                &&& c.spec_dirty().len() == 0
                &&& c.spec_journal().len() == 0
                &&& forall|p: BlockPos|
                    c.contains(p) ==> #[trigger] c.block(p) == generated_block(
                        old(self).spec_descriptor().seed,
                        old(self).spec_descriptor().shape,
                        old(self).spec_descriptor().bounds.min_y,
                        p,
                    )
            }),
            forall|c: ChunkCoord| c != coord ==> #[trigger] final(self).chunk_at(c) == old(self).chunk_at(c),
            final(self).spec_descriptor() == old(self).spec_descriptor(),
            final(self).spec_clock() == old(self).spec_clock(),
            final(self).spec_blocks() == old(self).spec_blocks(),
            final(self).spec_phase() == old(self).spec_phase(),
    {
        if let Err(_) = self.locate_chunk(coord) {
            let chunk = match self.generate_chunk(coord) {
                Ok(c) => c,
                Err(e) => {
                    return Err(e);
                },
            };
            self.insert_chunk(chunk);
        }
        match self.locate_chunk(coord) {
            Ok(i) => {
                proof {
                    lemma_find_at(self.chunks@, i as int);
                }
                Ok(&self.chunks[i])
            },
            Err(_) => {
                proof {
                    assert(false);
                }
                Err(WorldError::NotResident { chunk: coord })
            },
        }
    }
}

} // verus!
