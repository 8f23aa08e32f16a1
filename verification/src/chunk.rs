//! Chunk columns and their lifecycle.
//!
//! A chunk is a **column**: one `(x, z)` footprint holding a sparse stack of
//! cubic sections indexed by `y`. An absent section is exactly air, so a
//! world with a 3840-block vertical range does not allocate storage for the
//! empty majority of it.
//!
//! What a chunk *means* is one state per block position of its column
//! ([`Chunk::block`]). Sections, their representations, the dirty set and
//! the journal are how that meaning is stored and tracked; the contracts
//! below are stated over the meaning.

use vstd::prelude::*;

use crate::error::{Recovery, join};
use crate::spatial::{
    BlockPos, ChunkCoord, ChunkShape, LocalPos, SectionCoord, lemma_index_in_range,
    lemma_index_injective, lemma_locate_injective,
};
use crate::time::WorldTime;
use crate::voxel::{
    BlockStateId, PartsView, Section, StorageKind, VoxelError, air, count_non_air, spec_air,
    voxel_error_text,
};

verus! {

/// Largest number of changes a chunk keeps before dropping the oldest.
pub const MAX_JOURNAL_ENTRIES: usize = 4096;

/// Runtime state of a chunk.
#[derive(Debug, Clone, Copy, PartialEq, Eq, Structural, Hash)]
pub enum ChunkState {
    /// Not in memory.
    Unloaded,
    /// Queued for loading.
    Requested,
    /// Being read from storage.
    Loading,
    /// Being generated because no stored copy exists.
    Generating,
    /// Generation finished.
    Generated,
    /// In memory and readable.
    Loaded,
    /// In memory and being simulated.
    Active,
    /// In memory but not simulated.
    Inactive,
    /// Being written out and removed.
    Unloading,
    /// Written to storage.
    Saved,
    /// Failed; must not be treated as usable data.
    Error,
}

/// The lifecycle graph: which state may follow which.
///
/// Error is always reachable, because any step may fail. Nothing leaves
/// Error except a fresh load, because a chunk that failed is not trustworthy
/// data and must be re-read rather than patched up.
pub open spec fn transition_allowed(from: ChunkState, to: ChunkState) -> bool {
    if to == ChunkState::Error {
        true
    } else {
        match from {
            ChunkState::Unloaded => to == ChunkState::Requested,
            ChunkState::Requested => to == ChunkState::Loading || to == ChunkState::Generating,
            ChunkState::Loading => to == ChunkState::Loaded || to == ChunkState::Generating,
            ChunkState::Generating => to == ChunkState::Generated,
            ChunkState::Generated => to == ChunkState::Loaded,
            ChunkState::Loaded => to == ChunkState::Active || to == ChunkState::Inactive || to
                == ChunkState::Unloading,
            ChunkState::Active => to == ChunkState::Inactive || to == ChunkState::Unloading,
            ChunkState::Inactive => to == ChunkState::Active || to == ChunkState::Unloading,
            ChunkState::Unloading => to == ChunkState::Saved || to == ChunkState::Unloaded,
            ChunkState::Saved => to == ChunkState::Unloaded || to == ChunkState::Loaded,
            ChunkState::Error => to == ChunkState::Unloaded || to == ChunkState::Requested,
        }
    }
}

/// A chunk whose data is in memory and settled: loaded, simulated or not.
pub open spec fn settled(s: ChunkState) -> bool {
    s == ChunkState::Loaded || s == ChunkState::Active || s == ChunkState::Inactive
}

/// The shape of the lifecycle graph, seen from both ends of a step:
/// - a settled chunk may switch between simulated and not, either way, as
///   often as it likes, and may always begin unloading;
/// - any state may fail, and a failed chunk leaves only by being dropped or
///   asked for again;
/// - no state other than failure steps to itself;
/// - data is only ever reached by asking first: the one step out of
///   unloaded is a request;
/// - a chunk becomes loaded only from reading, from finished generation or
///   from a save, and becomes saved only while unloading;
/// - a chunk is simulated only after it has loaded;
/// - a request comes only from an unloaded or failed chunk, reading only
///   from a request, generation only from a request or a read that found
///   nothing, and unloading only from a settled chunk; a chunk is dropped
///   only once unloaded, saved or failed.
pub proof fn lemma_lifecycle_shape(from: ChunkState, to: ChunkState)
    ensures
        settled(from) && (to == ChunkState::Active || to == ChunkState::Inactive) && to != from
            ==> transition_allowed(from, to),
        settled(from) ==> transition_allowed(from, ChunkState::Unloading),
        transition_allowed(from, ChunkState::Error),
        from == ChunkState::Error && to != ChunkState::Error ==> (transition_allowed(from, to) <==> (
        to == ChunkState::Unloaded || to == ChunkState::Requested)),
        from != ChunkState::Error ==> !transition_allowed(from, from),
        from == ChunkState::Unloaded && to != ChunkState::Error ==> (transition_allowed(from, to) <==> to
            == ChunkState::Requested),
        to == ChunkState::Loaded ==> (transition_allowed(from, to) <==> (from == ChunkState::Loading
            || from == ChunkState::Generated || from == ChunkState::Saved)),
        to == ChunkState::Saved ==> (transition_allowed(from, to) <==> from == ChunkState::Unloading),
        to == ChunkState::Active ==> (transition_allowed(from, to) <==> (from == ChunkState::Loaded
            || from == ChunkState::Inactive)),
        to == ChunkState::Inactive ==> (transition_allowed(from, to) <==> (from == ChunkState::Loaded
            || from == ChunkState::Active)),
        to == ChunkState::Requested ==> (transition_allowed(from, to) <==> (from == ChunkState::Unloaded
            || from == ChunkState::Error)),
        to == ChunkState::Loading ==> (transition_allowed(from, to) <==> from == ChunkState::Requested),
        to == ChunkState::Generating ==> (transition_allowed(from, to) <==> (from == ChunkState::Requested
            || from == ChunkState::Loading)),
        to == ChunkState::Generated ==> (transition_allowed(from, to) <==> from == ChunkState::Generating),
        to == ChunkState::Unloading ==> (transition_allowed(from, to) <==> settled(from)),
        to == ChunkState::Unloaded ==> (transition_allowed(from, to) <==> (from == ChunkState::Unloading
            || from == ChunkState::Saved || from == ChunkState::Error)),
{
}

/// The states whose voxels may be read or written.
pub open spec fn resident(s: ChunkState) -> bool {
    s == ChunkState::Generated || s == ChunkState::Loaded || s == ChunkState::Active || s
        == ChunkState::Inactive || s == ChunkState::Saved
}

/// The stable lowercase name of a state.
pub open spec fn state_name(s: ChunkState) -> Seq<char> {
    match s {
        ChunkState::Unloaded => "unloaded"@,
        ChunkState::Requested => "requested"@,
        ChunkState::Loading => "loading"@,
        ChunkState::Generating => "generating"@,
        ChunkState::Generated => "generated"@,
        ChunkState::Loaded => "loaded"@,
        ChunkState::Active => "active"@,
        ChunkState::Inactive => "inactive"@,
        ChunkState::Unloading => "unloading"@,
        ChunkState::Saved => "saved"@,
        ChunkState::Error => "error"@,
    }
}

impl ChunkState {
    /// Stable lowercase name.
    pub fn as_str(self) -> (r: &'static str)
        ensures
            r@ == state_name(self),
    {
        match self {
            ChunkState::Unloaded => "unloaded",
            ChunkState::Requested => "requested",
            ChunkState::Loading => "loading",
            ChunkState::Generating => "generating",
            ChunkState::Generated => "generated",
            ChunkState::Loaded => "loaded",
            ChunkState::Active => "active",
            ChunkState::Inactive => "inactive",
            ChunkState::Unloading => "unloading",
            ChunkState::Saved => "saved",
            ChunkState::Error => "error",
        }
    }

    /// Whether the chunk's voxels may be read or written.
    pub fn is_resident(self) -> (r: bool)
        ensures
            r == resident(self),
    {
        matches!(
            self,
            ChunkState::Generated | ChunkState::Loaded | ChunkState::Active | ChunkState::Inactive
                | ChunkState::Saved
        )
    }

    /// Whether `next` is a legal transition from this state.
    pub fn can_transition_to(self, next: ChunkState) -> (r: bool)
        ensures
            r == transition_allowed(self, next),
    {
        if matches!(next, ChunkState::Error) {
            return true;
        }
        match self {
            ChunkState::Unloaded => matches!(next, ChunkState::Requested),
            ChunkState::Requested => matches!(next, ChunkState::Loading | ChunkState::Generating),
            ChunkState::Loading => matches!(next, ChunkState::Loaded | ChunkState::Generating),
            ChunkState::Generating => matches!(next, ChunkState::Generated),
            ChunkState::Generated => matches!(next, ChunkState::Loaded),
            ChunkState::Loaded => matches!(
                next,
                ChunkState::Active | ChunkState::Inactive | ChunkState::Unloading
            ),
            ChunkState::Active => matches!(next, ChunkState::Inactive | ChunkState::Unloading),
            ChunkState::Inactive => matches!(next, ChunkState::Active | ChunkState::Unloading),
            ChunkState::Unloading => matches!(next, ChunkState::Saved | ChunkState::Unloaded),
            ChunkState::Saved => matches!(next, ChunkState::Unloaded | ChunkState::Loaded),
            ChunkState::Error => matches!(next, ChunkState::Unloaded | ChunkState::Requested),
        }
    }
}

/// Any step may fail, and a failed chunk is only ever re-read: every state
/// may move to Error, Error leads only to Unloaded or Requested, and Error is
/// not resident.
pub proof fn lemma_error_is_reachable_and_only_left_by_a_fresh_load(s: ChunkState, t: ChunkState)
    ensures
        transition_allowed(s, ChunkState::Error),
        transition_allowed(ChunkState::Error, t) <==> (t == ChunkState::Error || t
            == ChunkState::Unloaded || t == ChunkState::Requested),
        !resident(ChunkState::Error),
{
}

/// A chunk becomes resident only by finishing a load, a generation or a
/// write-out: no other step crosses from a non-resident state into one whose
/// voxels may be read.
pub proof fn lemma_residency_is_entered_by_finishing_a_step(s: ChunkState, t: ChunkState)
    requires
        transition_allowed(s, t),
        !resident(s),
        resident(t),
    ensures
        s == ChunkState::Loading || s == ChunkState::Generating || s == ChunkState::Unloading,
{
}

/// One recorded voxel mutation.
#[derive(Debug, Clone, Copy, PartialEq, Eq, Structural)]
pub struct VoxelChange {
    /// Where the change happened.
    pub position: BlockPos,
    /// The state that was replaced.
    pub previous: BlockStateId,
    /// The state now in place.
    pub next: BlockStateId,
    /// World time of the change.
    pub at: WorldTime,
}

/// Why a chunk refused a request.
#[derive(Debug, Clone, Copy, PartialEq, Eq, Structural)]
pub enum ChunkError {
    /// The transition is not in the lifecycle graph.
    IllegalTransition {
        /// The current state.
        from: ChunkState,
        /// The requested state.
        to: ChunkState,
    },
    /// The position belongs to a different column.
    WrongColumn {
        /// The position asked for.
        position: BlockPos,
        /// This chunk's column.
        chunk: ChunkCoord,
        /// The column the position belongs to.
        resolved: ChunkCoord,
    },
    /// The section storage refused the access.
    Voxel(VoxelError),
}

/// The text of a chunk error.
pub open spec fn chunk_error_text(e: ChunkError) -> Seq<char> {
    match e {
        ChunkError::IllegalTransition { from, to } => "illegal chunk state transition: from="@
            + state_name(from) + " to="@ + state_name(to),
        ChunkError::WrongColumn { .. } => "block position belongs to a different chunk column"@,
        ChunkError::Voxel(v) => voxel_error_text(v),
    }
}

impl ChunkError {
    /// What a caller can do about it.
    /// A description of the error, naming the states of a refused
    /// transition.
    pub fn message(&self) -> (r: String)
        ensures
            r@ == chunk_error_text(*self),
    {
        match self {
            ChunkError::IllegalTransition { from, to } => {
                let head = join("illegal chunk state transition: from=", from.as_str());
                let middle = join(head.as_str(), " to=");
                join(middle.as_str(), to.as_str())
            },
            ChunkError::WrongColumn { .. } => "block position belongs to a different chunk column".to_owned(),
            ChunkError::Voxel(e) => e.message(),
        }
    }

    pub fn recovery(&self) -> (r: Recovery)
        ensures
            self is IllegalTransition ==> r == Recovery::Manual,
            self is WrongColumn ==> r == Recovery::Reject,
            self is Voxel ==> r == Recovery::Reject,
    {
        match self {
            ChunkError::IllegalTransition { .. } => Recovery::Manual,
            ChunkError::WrongColumn { .. } => Recovery::Reject,
            ChunkError::Voxel(_) => Recovery::Reject,
        }
    }
}

/// Section keys ascend strictly.
pub open spec fn keys_sorted(secs: Seq<(i64, Section)>) -> bool {
    forall|i: int, j: int| 0 <= i < j < secs.len() ==> secs[i].0 < secs[j].0
}

/// The section stored under a key, if any.
pub open spec fn lookup(secs: Seq<(i64, Section)>, y: i64) -> Option<Section> {
    if exists|i: int| 0 <= i < secs.len() && secs[i].0 == y {
        Some(secs[choose|i: int| 0 <= i < secs.len() && secs[i].0 == y].1)
    } else {
        None
    }
}

/// With strictly ascending keys, the entry at `i` is what its key looks up.
pub proof fn lemma_lookup_at(secs: Seq<(i64, Section)>, i: int)
    requires
        keys_sorted(secs),
        0 <= i < secs.len(),
    ensures
        lookup(secs, secs[i].0) == Some(secs[i].1),
{
    let y = secs[i].0;
    assert(exists|k: int| 0 <= k < secs.len() && secs[k].0 == y);
    let c = choose|k: int| 0 <= k < secs.len() && secs[k].0 == y;
    if c < i {
        assert(secs[c].0 < secs[i].0);
    } else if c > i {
        assert(secs[i].0 < secs[c].0);
    }
}

/// A key that no entry carries looks up nothing.
pub proof fn lemma_lookup_absent(secs: Seq<(i64, Section)>, y: i64)
    requires
        forall|i: int| 0 <= i < secs.len() ==> secs[i].0 != y,
    ensures
        lookup(secs, y) is None,
{
}

/// Replacing the entry under an existing key changes that key's lookup and
/// no other.
pub proof fn lemma_lookup_update(secs: Seq<(i64, Section)>, idx: int, entry: (i64, Section))
    requires
        keys_sorted(secs),
        0 <= idx < secs.len(),
        entry.0 == secs[idx].0,
    ensures
        keys_sorted(secs.update(idx, entry)),
        lookup(secs.update(idx, entry), entry.0) == Some(entry.1),
        forall|y: i64| y != entry.0 ==> #[trigger] lookup(secs.update(idx, entry), y) == lookup(secs, y),
{
    let next = secs.update(idx, entry);
    lemma_lookup_at(next, idx);
    assert forall|y: i64| y != entry.0 implies #[trigger] lookup(next, y) == lookup(secs, y) by {
        if exists|j: int| 0 <= j < secs.len() && secs[j].0 == y {
            let j = choose|j: int| 0 <= j < secs.len() && secs[j].0 == y;
            lemma_lookup_at(secs, j);
            lemma_lookup_at(next, j);
        } else {
            assert forall|j: int| 0 <= j < next.len() implies next[j].0 != y by {
                if j != idx {
                    assert(next[j] == secs[j]);
                }
            }
        }
    }
}

/// Inserting an entry at its sorted place adds its key and changes no other.
pub proof fn lemma_lookup_insert(secs: Seq<(i64, Section)>, idx: int, entry: (i64, Section))
    requires
        keys_sorted(secs),
        0 <= idx <= secs.len(),
        forall|k: int| 0 <= k < idx ==> secs[k].0 < entry.0,
        forall|k: int| idx <= k < secs.len() ==> secs[k].0 > entry.0,
    ensures
        keys_sorted(secs.insert(idx, entry)),
        lookup(secs.insert(idx, entry), entry.0) == Some(entry.1),
        forall|y: i64| y != entry.0 ==> #[trigger] lookup(secs.insert(idx, entry), y) == lookup(secs, y),
{
    let next = secs.insert(idx, entry);
    assert forall|a: int, b: int| 0 <= a < b < next.len() implies next[a].0 < next[b].0 by {
        if b < idx {
        } else if b == idx {
        } else if a < idx {
            assert(next[b] == secs[b - 1]);
        } else if a == idx {
            assert(next[b] == secs[b - 1]);
        } else {
            assert(next[a] == secs[a - 1] && next[b] == secs[b - 1]);
        }
    }
    lemma_lookup_at(next, idx);
    assert forall|y: i64| y != entry.0 implies #[trigger] lookup(next, y) == lookup(secs, y) by {
        if exists|j: int| 0 <= j < secs.len() && secs[j].0 == y {
            let j = choose|j: int| 0 <= j < secs.len() && secs[j].0 == y;
            lemma_lookup_at(secs, j);
            if j < idx {
                lemma_lookup_at(next, j);
            } else {
                assert(next[j + 1] == secs[j]);
                lemma_lookup_at(next, j + 1);
            }
        } else {
            assert forall|j: int| 0 <= j < next.len() implies next[j].0 != y by {
                if j < idx {
                    assert(next[j] == secs[j]);
                } else if j > idx {
                    assert(next[j] == secs[j - 1]);
                }
            }
        }
    }
}

/// Removing an entry removes its key and changes no other.
pub proof fn lemma_lookup_remove(secs: Seq<(i64, Section)>, idx: int)
    requires
        keys_sorted(secs),
        0 <= idx < secs.len(),
    ensures
        keys_sorted(secs.remove(idx)),
        lookup(secs.remove(idx), secs[idx].0) is None,
        forall|y: i64| y != secs[idx].0 ==> #[trigger] lookup(secs.remove(idx), y) == lookup(secs, y),
{
    let next = secs.remove(idx);
    let key = secs[idx].0;
    assert forall|a: int, b: int| 0 <= a < b < next.len() implies next[a].0 < next[b].0 by {
        if b < idx {
        } else if a < idx {
            assert(next[b] == secs[b + 1]);
        } else {
            assert(next[a] == secs[a + 1] && next[b] == secs[b + 1]);
        }
    }
    assert forall|j: int| 0 <= j < next.len() implies next[j].0 != key by {
        if j < idx {
            assert(secs[j].0 < key);
        } else {
            assert(next[j] == secs[j + 1]);
            assert(secs[j + 1].0 > key);
        }
    }
    assert forall|y: i64| y != key implies #[trigger] lookup(next, y) == lookup(secs, y) by {
        if exists|j: int| 0 <= j < secs.len() && secs[j].0 == y {
            let j = choose|j: int| 0 <= j < secs.len() && secs[j].0 == y;
            lemma_lookup_at(secs, j);
            if j < idx {
                lemma_lookup_at(next, j);
            } else {
                assert(next[j - 1] == secs[j]);
                lemma_lookup_at(next, j - 1);
            }
        } else {
            assert forall|j: int| 0 <= j < next.len() implies next[j].0 != y by {
                if j < idx {
                    assert(next[j] == secs[j]);
                } else {
                    assert(next[j] == secs[j + 1]);
                }
            }
        }
    }
}

/// What a journal holds after one more change: the oldest entry is dropped
/// when the journal is full.
pub open spec fn journal_after(journal: Seq<VoxelChange>, change: VoxelChange) -> Seq<VoxelChange> {
    if journal.len() >= MAX_JOURNAL_ENTRIES {
        journal.drop_first().push(change)
    } else {
        journal.push(change)
    }
}

/// Total non-air cells of a list of sections.
pub open spec fn total_non_air(secs: Seq<(i64, Section)>) -> int
    decreases secs.len(),
{
    if secs.len() == 0 {
        0
    } else {
        total_non_air(secs.drop_last()) + secs.last().1.spec_non_air()
    }
}

/// Total storage bytes of a list of sections.
pub open spec fn total_storage_bytes(secs: Seq<(i64, Section)>) -> int
    decreases secs.len(),
{
    if secs.len() == 0 {
        0
    } else {
        total_storage_bytes(secs.drop_last()) + secs.last().1.spec_storage_bytes()
    }
}

/// Every list prefix totals no more than the whole.
proof fn lemma_totals_monotone(secs: Seq<(i64, Section)>, k: int)
    requires
        0 <= k <= secs.len(),
    ensures
        total_non_air(secs.take(k)) <= total_non_air(secs),
        total_storage_bytes(secs.take(k)) <= total_storage_bytes(secs),
    decreases secs.len() - k,
{
    if k < secs.len() {
        lemma_totals_monotone(secs, k + 1);
        assert(secs.take(k + 1).drop_last() =~= secs.take(k));
        secs[k].1.lemma_storage_bytes_nonneg();
    } else {
        assert(secs.take(k) =~= secs);
    }
}

/// Sound sections cost less than 2^28 bytes each to hold, so a list of
/// them totals less than that many times its length.
pub proof fn lemma_total_storage_bound(secs: Seq<(i64, Section)>)
    requires
        forall|i: int| 0 <= i < secs.len() ==> (#[trigger] secs[i]).1.sound(),
    ensures
        0 <= total_storage_bytes(secs) <= secs.len() * 0x1000_0000,
    decreases secs.len(),
{
    if secs.len() > 0 {
        let init = secs.drop_last();
        assert forall|i: int| 0 <= i < init.len() implies (#[trigger] init[i]).1.sound() by {
            assert(init[i] == secs[i]);
        }
        lemma_total_storage_bound(init);
        secs[secs.len() - 1].1.lemma_storage_bytes_bound();
    }
}

/// Strictly ascending integers.
pub open spec fn ascending(s: Seq<i64>) -> bool {
    forall|i: int, j: int| 0 <= i < j < s.len() ==> s[i] < s[j]
}

/// Add a key to a strictly ascending list, keeping it so.
fn insert_ascending(v: &mut Vec<i64>, x: i64)
    requires
        ascending(old(v)@),
    ensures
        ascending(final(v)@),
        final(v)@.to_set() == old(v)@.to_set().insert(x),
{
    let mut i: usize = 0;
    while i < v.len() && v[i] < x
        invariant
            i <= v@.len(),
            ascending(v@),
            forall|k: int| 0 <= k < i ==> v@[k] < x,
        decreases v.len() - i,
    {
        i += 1;
    }
    if i < v.len() && v[i] == x {
        proof {
            assert(v@.to_set().insert(x) =~= v@.to_set());
        }
        return;
    }
    let ghost before = v@;
    v.insert(i, x);
    proof {
        assert(v@ == before.insert(i as int, x));
        assert forall|a: int, b: int| 0 <= a < b < v@.len() implies v@[a] < v@[b] by {
            if b < i {
            } else if a < i && b == i {
            } else if a < i && b > i {
                assert(v@[b] == before[b - 1]);
                if b - 1 >= i {
                    assert(before[i as int] > x || i == before.len());
                }
            } else if a == i {
                assert(v@[b] == before[b - 1]);
            } else {
                assert(v@[a] == before[a - 1] && v@[b] == before[b - 1]);
            }
        }
        assert(v@.to_set() =~= before.to_set().insert(x)) by {
            assert forall|e: i64| v@.to_set().contains(e) implies before.to_set().insert(x).contains(
                e,
            ) by {
                let k = choose|k: int| 0 <= k < v@.len() && v@[k] == e;
                if k < i {
                    assert(before[k] == e);
                } else if k > i {
                    assert(before[k - 1] == e);
                }
            }
            assert forall|e: i64| before.to_set().insert(x).contains(e) implies v@.to_set().contains(
                e,
            ) by {
                if e == x {
                    assert(v@[i as int] == x);
                } else {
                    let k = choose|k: int| 0 <= k < before.len() && before[k] == e;
                    if k < i {
                        assert(v@[k] == e);
                    } else {
                        assert(v@[k + 1] == e);
                    }
                }
            }
        }
    }
}

/// A column of voxel sections.
#[derive(Debug, Clone, PartialEq, Eq)]
pub struct Chunk {
    coord: ChunkCoord,
    shape: ChunkShape,
    sections: Vec<(i64, Section)>,
    state: ChunkState,
    dirty_sections: Vec<i64>,
    journal: Vec<VoxelChange>,
    dropped_journal_entries: u64,
}

impl Chunk {
    /// The column address.
    pub closed spec fn spec_coord(self) -> ChunkCoord {
        self.coord
    }

    /// The section extent.
    pub closed spec fn spec_shape(self) -> ChunkShape {
        self.shape
    }

    /// The stored sections, keyed by `y`, ascending.
    pub closed spec fn spec_sections(self) -> Seq<(i64, Section)> {
        self.sections@
    }

    /// The lifecycle state.
    pub closed spec fn spec_state(self) -> ChunkState {
        self.state
    }

    /// The sections changed since the last clean mark, ascending.
    pub closed spec fn spec_dirty(self) -> Seq<i64> {
        self.dirty_sections@
    }

    /// The recorded changes, oldest first.
    pub closed spec fn spec_journal(self) -> Seq<VoxelChange> {
        self.journal@
    }

    /// How many journal entries were dropped to stay within the cap.
    pub closed spec fn spec_dropped(self) -> u64 {
        self.dropped_journal_entries
    }

    /// The same chunk in another lifecycle state.
    pub closed spec fn with_state(self, state: ChunkState) -> Chunk {
        Chunk { state, ..self }
    }

    /// Changing the state changes nothing else.
    pub proof fn lemma_with_state(self, state: ChunkState)
        ensures
            self.with_state(state).spec_state() == state,
            self.with_state(state).spec_coord() == self.spec_coord(),
            self.with_state(state).spec_shape() == self.spec_shape(),
            self.with_state(state).spec_sections() == self.spec_sections(),
            self.with_state(state).spec_dirty() == self.spec_dirty(),
            self.with_state(state).spec_journal() == self.spec_journal(),
            self.with_state(state).spec_dropped() == self.spec_dropped(),
    {
    }

    /// Every observable part of two chunks agrees.
    pub open spec fn same_as(self, other: Chunk) -> bool {
        &&& self.spec_coord() == other.spec_coord()
        &&& self.spec_shape() == other.spec_shape()
        &&& self.spec_sections() == other.spec_sections()
        &&& self.spec_state() == other.spec_state()
        &&& self.spec_dirty() == other.spec_dirty()
        &&& self.spec_journal() == other.spec_journal()
        &&& self.spec_dropped() == other.spec_dropped()
    }

    /// The cells of section `y`: its stored view, or air when it is absent.
    pub open spec fn effective(self, y: i64) -> Seq<BlockStateId> {
        match lookup(self.spec_sections(), y) {
            Some(s) => s@,
            None => Seq::new(self.spec_shape().spec_volume(), |i: int| spec_air()),
        }
    }

    /// Whether a position lies in this column.
    pub open spec fn contains(self, p: BlockPos) -> bool {
        self.spec_shape().spec_column_of(p) == self.spec_coord()
    }

    /// The state at a position of this column.
    /// Whether the section at height `y`, if stored, has a palette its width
    /// can address, so that a write to it reads back.
    pub open spec fn addressable_at(self, y: i64) -> bool {
        match lookup(self.spec_sections(), y) {
            Some(s) => s.addressable(),
            None => true,
        }
    }

    pub open spec fn block(self, p: BlockPos) -> BlockStateId {
        let shape = self.spec_shape();
        self.effective(shape.spec_section_of(p).y)[shape.spec_index(shape.spec_local_of(p))]
    }

    /// Consistent: sorted keys, well-formed sections of this shape, a sorted
    /// dirty list and a bounded journal.
    pub open spec fn wf(self) -> bool {
        &&& self.spec_shape().wf()
        &&& keys_sorted(self.spec_sections())
        &&& forall|i: int|
            0 <= i < self.spec_sections().len() ==> (#[trigger] self.spec_sections()[i]).1.wf()
                && self.spec_sections()[i].1.spec_shape() == self.spec_shape()
        &&& ascending(self.spec_dirty())
        &&& self.spec_journal().len() <= MAX_JOURNAL_ENTRIES
    }

    /// Consistent, and every section keeps its writes exact.
    pub open spec fn sound(self) -> bool {
        &&& self.wf()
        &&& forall|i: int|
            0 <= i < self.spec_sections().len() ==> (#[trigger] self.spec_sections()[i]).1.fits()
    }

    /// Create an empty chunk in [`ChunkState::Unloaded`].
    pub fn new(coord: ChunkCoord, shape: ChunkShape) -> (c: Self)
        requires
            shape.wf(),
        ensures
            c.sound(),
            c.spec_coord() == coord,
            c.spec_shape() == shape,
            c.spec_state() == ChunkState::Unloaded,
            c.spec_sections().len() == 0,
            c.spec_dirty().len() == 0,
            c.spec_journal().len() == 0,
            c.spec_dropped() == 0,
            forall|p: BlockPos| #[trigger] c.block(p) == spec_air(),
    {
        let c = Chunk {
            coord,
            shape,
            sections: Vec::new(),
            state: ChunkState::Unloaded,
            dirty_sections: Vec::new(),
            journal: Vec::new(),
            dropped_journal_entries: 0,
        };
        proof {
            assert forall|p: BlockPos| #[trigger] c.block(p) == spec_air() by {
                lemma_index_in_range(shape, shape.spec_local_of(p));
            }
        }
        c
    }

    /// The column address.
    pub fn coord(&self) -> (c: ChunkCoord)
        ensures
            c == self.spec_coord(),
    {
        self.coord
    }

    /// The section extent used by this chunk.
    pub fn shape(&self) -> (s: ChunkShape)
        ensures
            s == self.spec_shape(),
    {
        self.shape
    }

    /// The current runtime state.
    pub fn state(&self) -> (s: ChunkState)
        ensures
            s == self.spec_state(),
    {
        self.state
    }

    /// How many sections hold storage. Absent sections are air.
    pub fn section_count(&self) -> (n: usize)
        ensures
            n == self.spec_sections().len(),
    {
        self.sections.len()
    }

    /// The `y` index of every stored section, ascending.
    pub fn section_indices(&self) -> (ys: Vec<i64>)
        ensures
            ys@ == self.spec_sections().map_values(|e: (i64, Section)| e.0),
    {
        let mut ys: Vec<i64> = Vec::new();
        let mut i: usize = 0;
        while i < self.sections.len()
            invariant
                i <= self.sections@.len(),
                ys@ == self.sections@.take(i as int).map_values(|e: (i64, Section)| e.0),
            decreases self.sections.len() - i,
        {
            ys.push(self.sections[i].0);
            i += 1;
            proof {
                assert(ys@ =~= self.sections@.take(i as int).map_values(|e: (i64, Section)| e.0));
            }
        }
        proof {
            assert(self.sections@.take(i as int) =~= self.sections@);
        }
        ys
    }

    /// Total non-air cells across every stored section.
    pub fn non_air_count(&self) -> (n: u64)
        requires
            self.wf(),
            total_non_air(self.spec_sections()) <= u64::MAX,
        ensures
            n == total_non_air(self.spec_sections()),
    {
        let mut n: u64 = 0;
        let mut i: usize = 0;
        while i < self.sections.len()
            invariant
                self.wf(),
                total_non_air(self.sections@) <= u64::MAX,
                i <= self.sections@.len(),
                n == total_non_air(self.sections@.take(i as int)),
            decreases self.sections.len() - i,
        {
            proof {
                assert(self.sections@.take(i + 1).drop_last() =~= self.sections@.take(i as int));
                lemma_totals_monotone(self.sections@, i + 1);
            }
            n = n + self.sections[i].1.non_air_count() as u64;
            i += 1;
        }
        proof {
            assert(self.sections@.take(i as int) =~= self.sections@);
        }
        n
    }

    /// Approximate heap cost of this chunk's voxel storage, in bytes.
    pub fn storage_bytes(&self) -> (n: usize)
        requires
            self.wf(),
            total_storage_bytes(self.spec_sections()) <= usize::MAX,
        ensures
            n == total_storage_bytes(self.spec_sections()),
    {
        let mut n: usize = 0;
        let mut i: usize = 0;
        while i < self.sections.len()
            invariant
                self.wf(),
                total_storage_bytes(self.sections@) <= usize::MAX,
                i <= self.sections@.len(),
                n == total_storage_bytes(self.sections@.take(i as int)),
            decreases self.sections.len() - i,
        {
            proof {
                assert(self.sections@.take(i + 1).drop_last() =~= self.sections@.take(i as int));
                lemma_totals_monotone(self.sections@, i + 1);
                assert(self.sections@[i as int].1.wf());
            }
            n = n + self.sections[i].1.storage_bytes();
            i += 1;
        }
        proof {
            assert(self.sections@.take(i as int) =~= self.sections@);
        }
        n
    }

    /// Move to a new lifecycle state.
    ///
    /// An illegal transition is refused, naming both states, and changes
    /// nothing: an out-of-order transition means a caller is treating a chunk
    /// as ready when it is not.
    pub fn transition_to(&mut self, next: ChunkState) -> (r: Result<(), ChunkError>)
        ensures
            r is Ok <==> transition_allowed(old(self).spec_state(), next),
            r is Ok ==> *final(self) == old(self).with_state(next),
            r matches Err(e) ==> *final(self) == *old(self) && e == (ChunkError::IllegalTransition {
                from: old(self).spec_state(),
                to: next,
            }),
    {
        if !self.state.can_transition_to(next) {
            return Err(ChunkError::IllegalTransition { from: self.state, to: next });
        }
        self.state = next;
        Ok(())
    }

    /// Force a state without checking the transition: only for a chunk
    /// rebuilt from storage, where the recorded state is the starting point.
    pub(crate) fn force_state(&mut self, state: ChunkState)
        ensures
            *final(self) == old(self).with_state(state),
    {
        self.state = state;
    }

    /// Resolve a position to `(section index, section-local offset)`.
    fn locate(&self, position: BlockPos) -> (r: Result<(i64, LocalPos), ChunkError>)
        requires
            self.spec_shape().wf(),
        ensures
            r is Ok <==> self.contains(position),
            r matches Ok((y, l)) ==> y == self.spec_shape().spec_section_of(position).y && l
                == self.spec_shape().spec_local_of(position) && self.spec_shape().contains_local(l),
            r matches Err(e) ==> e == (ChunkError::WrongColumn {
                position,
                chunk: self.spec_coord(),
                resolved: self.spec_shape().spec_column_of(position),
            }),
    {
        let section = self.shape.section_of(position);
        let column = section.column();
        if column.x != self.coord.x || column.z != self.coord.z {
            return Err(ChunkError::WrongColumn { position, chunk: self.coord, resolved: column });
        }
        Ok((section.y, self.shape.local_of(position)))
    }

    /// Where section `y` is stored, or where it would go.
    fn find_section(&self, y: i64) -> (r: Result<usize, usize>)
        requires
            keys_sorted(self.spec_sections()),
        ensures
            r matches Ok(i) ==> i < self.spec_sections().len() && self.spec_sections()[i as int].0
                == y,
            r matches Err(i) ==> i <= self.spec_sections().len() && (forall|k: int|
                0 <= k < i ==> self.spec_sections()[k].0 < y) && (forall|k: int|
                i <= k < self.spec_sections().len() ==> self.spec_sections()[k].0 > y),
    {
        let mut i: usize = 0;
        while i < self.sections.len()
            invariant
                keys_sorted(self.sections@),
                i <= self.sections@.len(),
                forall|k: int| 0 <= k < i ==> self.sections@[k].0 < y,
            decreases self.sections.len() - i,
        {
            if self.sections[i].0 == y {
                return Ok(i);
            }
            if self.sections[i].0 > y {
                return Err(i);
            }
            i += 1;
        }
        Err(i)
    }

    /// Read one block.
    pub fn get(&self, position: BlockPos) -> (r: Result<BlockStateId, ChunkError>)
        requires
            self.wf(),
        ensures
            r is Ok <==> self.contains(position),
            r matches Ok(s) ==> s == self.block(position),
            r matches Err(e) ==> e == (ChunkError::WrongColumn {
                position,
                chunk: self.spec_coord(),
                resolved: self.spec_shape().spec_column_of(position),
            }),
    {
        let (section_y, local) = self.locate(position)?;
        proof {
            lemma_index_in_range(self.shape, local);
        }
        match self.find_section(section_y) {
            Ok(i) => {
                proof {
                    lemma_lookup_at(self.sections@, i as int);
                }
                match self.sections[i].1.get(local) {
                    Ok(s) => Ok(s),
                    Err(e) => Err(ChunkError::Voxel(e)),
                }
            },
            Err(_) => {
                proof {
                    lemma_lookup_absent(self.sections@, section_y);
                }
                Ok(air())
            },
        }
    }

    /// Append one change to the journal, dropping the oldest when it is full.
    fn record(&mut self, change: VoxelChange)
        requires
            old(self).journal@.len() <= MAX_JOURNAL_ENTRIES,
        ensures
            final(self).journal@ == journal_after(old(self).journal@, change),
            final(self).journal@.len() <= MAX_JOURNAL_ENTRIES,
            final(self).dropped_journal_entries == if old(self).journal@.len() >= MAX_JOURNAL_ENTRIES {
                if old(self).dropped_journal_entries == u64::MAX {
                    u64::MAX
                } else {
                    (old(self).dropped_journal_entries + 1) as u64
                }
            } else {
                old(self).dropped_journal_entries
            },
            final(self).coord == old(self).coord,
            final(self).shape == old(self).shape,
            final(self).sections == old(self).sections,
            final(self).state == old(self).state,
            final(self).dirty_sections == old(self).dirty_sections,
    {
        if self.journal.len() >= MAX_JOURNAL_ENTRIES {
            let ghost before = self.journal@;
            self.journal.remove(0);
            proof {
                assert(self.journal@ =~= before.drop_first());
            }
            self.dropped_journal_entries = self.dropped_journal_entries.saturating_add(1);
        }
        self.journal.push(change);
    }

    /// Write one block and return what it replaced.
    ///
    /// Writing air into a section that does not exist is a no-op: absent
    /// already means air, so no storage is allocated for it. A write that
    /// changes nothing neither dirties the chunk nor reaches the journal. A
    /// write that changes the block marks its section dirty and records the
    /// change, dropping the oldest journal entry when the journal is full.
    pub fn set(&mut self, position: BlockPos, state: BlockStateId, at: WorldTime) -> (r: Result<
        BlockStateId,
        ChunkError,
    >)
        requires
            old(self).wf(),
        ensures
            r is Ok <==> old(self).contains(position),
            r matches Err(e) ==> *final(self) == *old(self) && e == (ChunkError::WrongColumn {
                position,
                chunk: old(self).spec_coord(),
                resolved: old(self).spec_shape().spec_column_of(position),
            }),
            r matches Ok(prev) ==> prev == old(self).block(position),
            r matches Ok(prev) ==> (prev == state ==> final(self).same_as(*old(self))),
            r matches Ok(prev) ==> (prev != state ==> {
                &&& ascending(final(self).spec_dirty())
                &&& final(self).spec_dirty().to_set() == old(self).spec_dirty().to_set().insert(
                    old(self).spec_shape().spec_section_of(position).y,
                )
                &&& final(self).spec_journal() == journal_after(
                    old(self).spec_journal(),
                    VoxelChange { position, previous: prev, next: state, at },
                )
                &&& final(self).spec_dropped() == if old(self).spec_journal().len()
                    >= MAX_JOURNAL_ENTRIES {
                    if old(self).spec_dropped() == u64::MAX {
                        u64::MAX
                    } else {
                        (old(self).spec_dropped() + 1) as u64
                    }
                } else {
                    old(self).spec_dropped()
                }
            }),
            final(self).spec_coord() == old(self).spec_coord(),
            final(self).spec_shape() == old(self).spec_shape(),
            final(self).spec_state() == old(self).spec_state(),
            r is Ok && old(self).addressable_at(old(self).spec_shape().spec_section_of(position).y)
                ==> final(self).block(position) == state,
            r is Ok && old(self).sound() ==> {
                &&& final(self).sound()
                &&& final(self).block(position) == state
                &&& forall|q: BlockPos|
                    #![trigger final(self).block(q)]
                    old(self).contains(q) && q != position ==> final(self).block(q) == old(
                        self,
                    ).block(q)
            },
    {
        let (section_y, local) = self.locate(position)?;
        let ghost old_self = *self;
        let ghost index = self.shape.spec_index(local);
        proof {
            lemma_index_in_range(self.shape, local);
        }
        let found = self.find_section(section_y);
        if state == air() {
            if let Err(_) = found {
                proof {
                    lemma_lookup_absent(self.sections@, section_y);
                }
                return Ok(air());
            }
        }
        let shape = self.shape;
        let idx = match found {
            Ok(i) => {
                proof {
                    lemma_lookup_at(self.sections@, i as int);
                }
                i
            },
            Err(i) => {
                let fresh = Section::empty(shape);
                proof {
                    lemma_lookup_absent(self.sections@, section_y);
                    lemma_lookup_insert(self.sections@, i as int, (section_y, fresh));
                    assert(fresh@ =~= old_self.effective(section_y));
                }
                self.sections.insert(i, (section_y, fresh));
                i
            },
        };
        let ghost mid = *self;
        let ghost before = self.sections@[idx as int].1;
        proof {
            assert(before.wf());
            assert(before@ == old_self.effective(section_y));
        }
        let result = self.sections[idx].1.set(local, state);
        let previous = match result {
            Ok(p) => p,
            Err(e) => {
                proof {
                    assert(false);
                }
                return Err(ChunkError::Voxel(e));
            },
        };
        proof {
            let after = self.sections@[idx as int].1;
            assert(self.sections@ == mid.sections@.update(idx as int, (section_y, after)));
            lemma_lookup_update(mid.sections@, idx as int, (section_y, after));
        }
        if previous != state {
            insert_ascending(&mut self.dirty_sections, section_y);
            self.record(VoxelChange { position, previous, next: state, at });
        } else {
            proof {
                assert(self.sections@ =~= mid.sections@);
                if found is Err {
                    assert(false);
                }
                assert(self.sections@ =~= old_self.sections@);
            }
        }
        proof {
            if old_self.addressable_at(section_y) {
                let after = self.sections@[idx as int].1;
                if found is Err {
                    before.lemma_addressable();
                }
                assert(before.addressable());
                assert(lookup(self.sections@, section_y) == Some(after));
                assert(self.effective(section_y)[index] == state);
            }
            if old_self.sound() {
                let after = self.sections@[idx as int].1;
                assert(before.fits());
                assert forall|i: int| 0 <= i < self.sections@.len() implies (
                #[trigger] self.sections@[i]).1.wf() && self.sections@[i].1.spec_shape() == shape
                    && self.sections@[i].1.fits() by {
                    if i != idx {
                        assert(self.sections@[i] == mid.sections@[i]);
                    }
                }
                assert(self.effective(section_y) == old_self.effective(section_y).update(
                    index,
                    state,
                ));
                assert forall|y: i64| y != section_y implies #[trigger] self.effective(y)
                    == old_self.effective(y) by {}
                lemma_blocks_after_write(old_self, *self, position, state);
            }
        }
        Ok(previous)
    }
}

/// A write that changes exactly one cell of one section changes exactly one
/// block of the column.
proof fn lemma_blocks_after_write(old: Chunk, new: Chunk, p: BlockPos, state: BlockStateId)
    requires
        old.wf(),
        new.spec_shape() == old.spec_shape(),
        new.spec_coord() == old.spec_coord(),
        old.contains(p),
        new.effective(old.spec_shape().spec_section_of(p).y) == old.effective(
            old.spec_shape().spec_section_of(p).y,
        ).update(old.spec_shape().spec_index(old.spec_shape().spec_local_of(p)), state),
        forall|y: i64|
            y != old.spec_shape().spec_section_of(p).y ==> #[trigger] new.effective(y)
                == old.effective(y),
    ensures
        new.block(p) == state,
        forall|q: BlockPos|
            #![trigger new.block(q)]
            old.contains(q) && q != p ==> new.block(q) == old.block(q),
{
    let shape = old.spec_shape();
    let y = shape.spec_section_of(p).y;
    lemma_index_in_range(shape, shape.spec_local_of(p));
    old.lemma_effective_len(y);
    assert forall|q: BlockPos|
        #![trigger new.block(q)]
        old.contains(q) && q != p implies new.block(q) == old.block(q) by {
        let yq = shape.spec_section_of(q).y;
        if yq == y {
            lemma_index_in_range(shape, shape.spec_local_of(q));
            if shape.spec_index(shape.spec_local_of(q)) == shape.spec_index(shape.spec_local_of(p)) {
                lemma_index_injective(shape, shape.spec_local_of(q), shape.spec_local_of(p));
                lemma_locate_injective(shape, p, q);
            }
        }
    }
}

impl Chunk {
    /// Every section's effective view covers the whole volume.
    pub proof fn lemma_effective_len(self, y: i64)
        requires
            self.wf(),
        ensures
            self.effective(y).len() == self.spec_shape().spec_volume(),
    {
        match lookup(self.spec_sections(), y) {
            Some(s) => {
                let i = choose|i: int|
                    0 <= i < self.spec_sections().len() && self.spec_sections()[i].0 == y;
                assert(self.spec_sections()[i].1.wf());
                s.lemma_wf();
            },
            None => {},
        }
    }

    /// Replace a whole section at once, as generation and loading do.
    ///
    /// An all-air uniform section is stored as absence, keeping the sparse
    /// representation honest. Either way the section's cells become what the
    /// column reads at that height, and the section is marked dirty.
    pub fn put_section(&mut self, section_y: i64, section: Section)
        requires
            old(self).wf(),
            section.wf(),
            section.spec_shape() == old(self).spec_shape(),
        ensures
            final(self).wf(),
            old(self).sound() && section.fits() ==> final(self).sound(),
            lookup(final(self).spec_sections(), section_y) == if section.spec_parts()
                == PartsView::Uniform(spec_air()) {
                None
            } else {
                Some(section)
            },
            final(self).effective(section_y) == section@,
            forall|y: i64|
                y != section_y ==> #[trigger] lookup(final(self).spec_sections(), y) == lookup(
                    old(self).spec_sections(),
                    y,
                ),
            ascending(final(self).spec_dirty()),
            final(self).spec_dirty().to_set() == old(self).spec_dirty().to_set().insert(section_y),
            final(self).spec_coord() == old(self).spec_coord(),
            final(self).spec_shape() == old(self).spec_shape(),
            final(self).spec_state() == old(self).spec_state(),
            final(self).spec_journal() == old(self).spec_journal(),
            final(self).spec_dropped() == old(self).spec_dropped(),
    {
        let ghost old_self = *self;
        let all_air = match section.uniform_state() {
            Some(s) => section.is_empty() && s == air(),
            None => false,
        };
        proof {
            section.lemma_wf();
            if section.spec_parts() == PartsView::Uniform(spec_air()) {
                section.lemma_uniform_view(spec_air());
                crate::voxel::lemma_count_constant(section@, spec_air());
            }
        }
        assert(all_air == (section.spec_parts() == PartsView::Uniform(spec_air())));
        let found = self.find_section(section_y);
        if all_air {
            match found {
                Ok(i) => {
                    proof {
                        lemma_lookup_remove(self.sections@, i as int);
                    }
                    self.sections.remove(i);
                },
                Err(_) => {
                    proof {
                        lemma_lookup_absent(self.sections@, section_y);
                    }
                },
            }
            proof {
                section.lemma_uniform_view(spec_air());
                assert(self.effective(section_y) =~= section@);
            }
        } else {
            match found {
                Ok(i) => {
                    proof {
                        lemma_lookup_update(self.sections@, i as int, (section_y, section));
                    }
                    self.sections.set(i, (section_y, section));
                },
                Err(i) => {
                    proof {
                        lemma_lookup_insert(self.sections@, i as int, (section_y, section));
                    }
                    self.sections.insert(i, (section_y, section));
                },
            }
        }
        proof {
            assert forall|i: int| 0 <= i < self.sections@.len() implies (
            #[trigger] self.sections@[i]).1.wf() && self.sections@[i].1.spec_shape()
                == self.shape by {
                if self.sections@[i].0 != section_y {
                    lemma_lookup_at(self.sections@, i);
                    let j = choose|j: int|
                        0 <= j < old_self.sections@.len() && old_self.sections@[j].0
                            == self.sections@[i].0;
                    lemma_lookup_at(old_self.sections@, j);
                } else {
                    lemma_lookup_at(self.sections@, i);
                }
            }
            if old_self.sound() && section.fits() {
                assert forall|i: int| 0 <= i < self.sections@.len() implies (
                #[trigger] self.sections@[i]).1.fits() by {
                    lemma_lookup_at(self.sections@, i);
                    if self.sections@[i].0 != section_y {
                        let j = choose|j: int|
                            0 <= j < old_self.sections@.len() && old_self.sections@[j].0
                                == self.sections@[i].0;
                        lemma_lookup_at(old_self.sections@, j);
                    }
                }
            }
        }
        insert_ascending(&mut self.dirty_sections, section_y);
    }

    /// Borrow a stored section.
    pub fn section(&self, section_y: i64) -> (r: Option<&Section>)
        requires
            keys_sorted(self.spec_sections()),
        ensures
            r is None <==> lookup(self.spec_sections(), section_y) is None,
            r matches Some(s) ==> lookup(self.spec_sections(), section_y) == Some(*s),
    {
        match self.find_section(section_y) {
            Ok(i) => {
                proof {
                    lemma_lookup_at(self.sections@, i as int);
                }
                Some(&self.sections[i].1)
            },
            Err(_) => {
                proof {
                    lemma_lookup_absent(self.sections@, section_y);
                }
                None
            },
        }
    }

    /// Every stored section with its `y`, ascending.
    pub fn stored_sections(&self) -> (r: &[(i64, Section)])
        ensures
            r@ == self.spec_sections(),
    {
        self.sections.as_slice()
    }

    /// Whether anything has changed since the last [`Chunk::mark_clean`].
    pub fn is_dirty(&self) -> (r: bool)
        ensures
            r == (self.spec_dirty().len() > 0),
    {
        self.dirty_sections.len() > 0
    }

    /// Which sections have changed, ascending.
    pub fn dirty_sections(&self) -> (r: Vec<i64>)
        ensures
            r@ == self.spec_dirty(),
    {
        let mut r: Vec<i64> = Vec::new();
        let mut i: usize = 0;
        while i < self.dirty_sections.len()
            invariant
                i <= self.dirty_sections@.len(),
                r@ == self.dirty_sections@.take(i as int),
            decreases self.dirty_sections.len() - i,
        {
            r.push(self.dirty_sections[i]);
            i += 1;
            proof {
                assert(r@ =~= self.dirty_sections@.take(i as int));
            }
        }
        proof {
            assert(r@ =~= self.dirty_sections@);
        }
        r
    }

    /// Clear the dirty set, after a successful save.
    pub fn mark_clean(&mut self)
        ensures
            final(self).spec_dirty().len() == 0,
            final(self).spec_coord() == old(self).spec_coord(),
            final(self).spec_shape() == old(self).spec_shape(),
            final(self).spec_sections() == old(self).spec_sections(),
            final(self).spec_state() == old(self).spec_state(),
            final(self).spec_journal() == old(self).spec_journal(),
            final(self).spec_dropped() == old(self).spec_dropped(),
    {
        self.dirty_sections.clear();
    }

    /// The recorded changes, oldest first.
    pub fn journal(&self) -> (r: &[VoxelChange])
        ensures
            r@ == self.spec_journal(),
    {
        self.journal.as_slice()
    }

    /// How many journal entries were dropped to stay within the cap.
    ///
    /// A non-zero value means the journal is no longer a complete record.
    pub fn dropped_journal_entries(&self) -> (n: u64)
        ensures
            n == self.spec_dropped(),
    {
        self.dropped_journal_entries
    }

    /// Drain the journal, e.g. after forwarding it to history or replication.
    pub fn take_journal(&mut self) -> (taken: Vec<VoxelChange>)
        ensures
            taken@ == old(self).spec_journal(),
            final(self).spec_journal().len() == 0,
            final(self).spec_dropped() == 0,
            final(self).spec_coord() == old(self).spec_coord(),
            final(self).spec_shape() == old(self).spec_shape(),
            final(self).spec_sections() == old(self).spec_sections(),
            final(self).spec_state() == old(self).spec_state(),
            final(self).spec_dirty() == old(self).spec_dirty(),
    {
        self.dropped_journal_entries = 0;
        let mut taken: Vec<VoxelChange> = Vec::new();
        std::mem::swap(&mut taken, &mut self.journal);
        taken
    }

    /// Collapse every section to its smallest representation, and drop the
    /// sections that turn out to be all air. No block changes.
    pub fn compact(&mut self)
        requires
            old(self).wf(),
        ensures
            final(self).sound(),
            forall|y: i64| #[trigger] final(self).effective(y) == old(self).effective(y),
            forall|i: int|
                0 <= i < final(self).spec_sections().len() ==> (#[trigger] final(self).spec_sections()[i]).1.spec_parts()
                    != PartsView::Uniform(spec_air()),
            final(self).spec_coord() == old(self).spec_coord(),
            final(self).spec_shape() == old(self).spec_shape(),
            final(self).spec_state() == old(self).spec_state(),
            final(self).spec_dirty() == old(self).spec_dirty(),
            final(self).spec_journal() == old(self).spec_journal(),
            final(self).spec_dropped() == old(self).spec_dropped(),
    {
        let ghost old_self = *self;
        let mut i: usize = 0;
        while i < self.sections.len()
            invariant
                self.wf(),
                i <= self.sections@.len(),
                forall|k: int|
                    0 <= k < i ==> (#[trigger] self.sections@[k]).1.fits()
                        && self.sections@[k].1.spec_parts() != PartsView::Uniform(spec_air()),
                forall|y: i64| #[trigger] self.effective(y) == old_self.effective(y),
                self.coord == old_self.coord,
                self.shape == old_self.shape,
                self.state == old_self.state,
                self.dirty_sections@ == old_self.dirty_sections@,
                self.journal@ == old_self.journal@,
                self.dropped_journal_entries == old_self.dropped_journal_entries,
            decreases self.sections.len() - i,
        {
            let ghost mid = *self;
            let key = self.sections[i].0;
            proof {
                lemma_lookup_at(self.sections@, i as int);
            }
            self.sections[i].1.compact();
            let ghost after = self.sections@[i as int].1;
            proof {
                assert(self.sections@ == mid.sections@.update(i as int, (key, after)));
                lemma_lookup_update(mid.sections@, i as int, (key, after));
                assert(self.effective(key) == mid.effective(key));
                assert forall|y: i64| #[trigger] self.effective(y) == mid.effective(y) by {}
                assert forall|k: int| 0 <= k < self.sections@.len() implies (
                #[trigger] self.sections@[k]).1.wf() && self.sections@[k].1.spec_shape()
                    == self.shape by {
                    if k != i {
                        assert(self.sections@[k] == mid.sections@[k]);
                    }
                }
            }
            let all_air = match self.sections[i].1.uniform_state() {
                Some(s) => self.sections[i].1.is_empty() && s == air(),
                None => false,
            };
            if all_air {
                let ghost before_remove = *self;
                proof {
                    lemma_lookup_remove(self.sections@, i as int);
                    after.lemma_uniform_view(spec_air());
                }
                self.sections.remove(i);
                proof {
                    assert(self.effective(key) =~= before_remove.effective(key));
                    assert forall|y: i64| #[trigger] self.effective(y) == before_remove.effective(
                        y,
                    ) by {}
                    assert forall|k: int| 0 <= k < self.sections@.len() implies (
                    #[trigger] self.sections@[k]).1.wf() && self.sections@[k].1.spec_shape()
                        == self.shape by {
                        if k < i {
                            assert(self.sections@[k] == before_remove.sections@[k]);
                        } else {
                            assert(self.sections@[k] == before_remove.sections@[k + 1]);
                        }
                    }
                    assert forall|k: int| 0 <= k < i implies (
                    #[trigger] self.sections@[k]).1.fits() && self.sections@[k].1.spec_parts()
                        != PartsView::Uniform(spec_air()) by {
                        assert(self.sections@[k] == before_remove.sections@[k]);
                    }
                }
            } else {
                proof {
                    assert(after.spec_parts() != PartsView::Uniform(spec_air())) by {
                        if after.spec_parts() == PartsView::Uniform(spec_air()) {
                            after.lemma_uniform_view(spec_air());
                            crate::voxel::lemma_count_constant(after@, spec_air());
                        }
                    }
                    assert forall|k: int| 0 <= k < i + 1 implies (
                    #[trigger] self.sections@[k]).1.fits() && self.sections@[k].1.spec_parts()
                        != PartsView::Uniform(spec_air()) by {
                        if k < i {
                            assert(self.sections@[k] == mid.sections@[k]);
                        }
                    }
                }
                i += 1;
            }
        }
    }
}

} // verus!
