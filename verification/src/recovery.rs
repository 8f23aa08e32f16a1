//! Edits recorded between snapshots, and the world they rebuild.
//!
//! Recovery is a snapshot plus a journal: the journal frames and checksums
//! opaque records, and this module decides what a record means for a voxel
//! world.
//!
//! An edit is recorded by identifier, not by runtime id. A runtime id is
//! assigned when a registry is built, and a journal outlives the process that
//! wrote it; replaying `17` into a session where `17` means something else
//! would place the wrong block, silently. So a record carries
//! `nexora:block/stone`, and replay resolves it against the registry it is
//! replaying into. A block whose identifier is not registered is reported,
//! never guessed.
//!
//! Records are applied in journal order, so the last write to a position
//! wins. An edit whose column is not resident is reported and also filed
//! against that column, to be applied when the column arrives: two records
//! that can overwrite each other are at the same position, hence in the same
//! column, so keeping each column's records in journal order is enough.

use vstd::prelude::*;
use vstd::utf8::encode_utf8;

use crate::chunk::resident;
use crate::codec::{
    CodecError,
    Reader,
    Writer,
    le_bytes_u32,
    lemma_rd_string,
    lemma_rd_u64,
    lemma_split,
    rd_i64,
    rd_string,
    rd_u8,
    string_bytes,
};
use crate::error::Recovery;
use crate::hashing::le_bytes_u64;
use crate::ident::{IdentError, Identifier, valid_identifier};
use crate::persist::{builtin_index, registered};
use crate::spatial::{BlockPos, ChunkCoord, ChunkShape, coord_less, coord_lt};
use crate::voxel::BlockStateId;
use crate::world::{World, WorldError, builtin_blocks, world_read};

verus! {

/// Tag byte of a block edit.
pub const TAG_SET_BLOCK: u8 = 1;

/// One recorded change to the world.
#[derive(Debug, PartialEq, Eq)]
pub enum EditRecord {
    /// A block was written.
    SetBlock {
        /// Where.
        position: BlockPos,
        /// Which block, by registry identifier rather than runtime id.
        block: Identifier,
    },
}

impl View for EditRecord {
    type V = (BlockPos, Seq<char>);

    open spec fn view(&self) -> (BlockPos, Seq<char>) {
        match self {
            EditRecord::SetBlock { position, block } => (*position, block@),
        }
    }
}

/// Why a journal record could not be read.
#[derive(Debug, Clone, Copy, PartialEq, Eq, Structural)]
pub enum RecordError {
    /// The bytes ran out, held text that is not UTF-8, or ran past the edit.
    Codec(CodecError),
    /// The record's tag names no edit this build knows.
    UnknownEditTag { tag: u8 },
    /// The recorded block name is not an identifier.
    Ident(IdentError),
}

impl RecordError {
    /// What a caller can do about this error: a record that does not read is
    /// damaged data, to be set aside.
    pub fn recovery(&self) -> (r: Recovery)
        ensures
            r == Recovery::Quarantine,
    {
        Recovery::Quarantine
    }
}

/// A block edit as written: its tag, the position's three coordinates and
/// the block's identifier.
pub open spec fn record_bytes(position: BlockPos, block: Seq<char>) -> Seq<u8> {
    seq![TAG_SET_BLOCK] + le_bytes_u64(position.x as u64) + le_bytes_u64(position.y as u64)
        + le_bytes_u64(position.z as u64) + string_bytes(block)
}

/// What decoding a journal record gives: a known tag, the position, an
/// identifier, and nothing after it.
pub open spec fn rd_record(s: Seq<u8>) -> Result<(BlockPos, Seq<char>), RecordError> {
    match rd_u8(s, 0) {
        Err(e) => Err(RecordError::Codec(e)),
        Ok((tag, q0)) => if tag != TAG_SET_BLOCK {
            Err(RecordError::UnknownEditTag { tag })
        } else {
            match rd_i64(s, q0) {
                Err(e) => Err(RecordError::Codec(e)),
                Ok((x, q1)) => match rd_i64(s, q1) {
                    Err(e) => Err(RecordError::Codec(e)),
                    Ok((y, q2)) => match rd_i64(s, q2) {
                        Err(e) => Err(RecordError::Codec(e)),
                        Ok((z, q3)) => match rd_string(s, q3) {
                            Err(e) => Err(RecordError::Codec(e)),
                            Ok((name, q4)) => if !valid_identifier(name) {
                                Err(RecordError::Ident(IdentError::Malformed))
                            } else if q4 != s.len() {
                                Err(RecordError::Codec(CodecError::TrailingBytes { count: (s.len() - q4) as usize }))
                            } else {
                                Ok((BlockPos { x, y, z }, name))
                            },
                        },
                    },
                },
            }
        },
    }
}

impl EditRecord {
    /// The column this edit writes into.
    pub fn column(&self, shape: ChunkShape) -> (c: ChunkCoord)
        requires
            shape.wf(),
        ensures
            c == shape.spec_column_of(self@.0),
    {
        match self {
            EditRecord::SetBlock { position, .. } => shape.section_of(*position).column(),
        }
    }

    /// Encode this edit into journal record bytes.
    pub fn encode(&self) -> (r: Vec<u8>)
        ensures
            r@ == record_bytes(self@.0, self@.1),
    {
        let mut writer = Writer::new();
        match self {
            EditRecord::SetBlock { position, block } => {
                writer.u8(TAG_SET_BLOCK);
                writer.i64(position.x);
                writer.i64(position.y);
                writer.i64(position.z);
                writer.string(block.as_str());
            },
        }
        proof {
            assert(writer@ =~= record_bytes(self@.0, self@.1));
        }
        writer.finish()
    }

    /// Decode one edit from journal record bytes.
    pub fn decode(bytes: &[u8]) -> (r: Result<EditRecord, RecordError>)
        ensures
            match rd_record(bytes@) {
                Ok(v) => r matches Ok(rec) && rec@ == v,
                Err(e) => r == Err::<EditRecord, RecordError>(e),
            },
    {
        let mut reader = Reader::new(bytes);
        let tag = match reader.u8() {
            Ok(t) => t,
            Err(e) => {
                return Err(RecordError::Codec(e));
            },
        };
        if tag != TAG_SET_BLOCK {
            return Err(RecordError::UnknownEditTag { tag });
        }
        let x = match reader.i64() {
            Ok(v) => v,
            Err(e) => {
                return Err(RecordError::Codec(e));
            },
        };
        let y = match reader.i64() {
            Ok(v) => v,
            Err(e) => {
                return Err(RecordError::Codec(e));
            },
        };
        let z = match reader.i64() {
            Ok(v) => v,
            Err(e) => {
                return Err(RecordError::Codec(e));
            },
        };
        let text = match reader.string() {
            Ok(t) => t,
            Err(e) => {
                return Err(RecordError::Codec(e));
            },
        };
        let block = match Identifier::parse(text.as_str()) {
            Ok(id) => id,
            Err(e) => {
                return Err(RecordError::Ident(e));
            },
        };
        match reader.expect_exhausted() {
            Ok(()) => {},
            Err(e) => {
                return Err(RecordError::Codec(e));
            },
        }
        Ok(EditRecord::SetBlock { position: BlockPos::new(x, y, z), block })
    }
}

/// An edit record reads back from its own bytes.
pub proof fn lemma_record_round_trip(position: BlockPos, block: Seq<char>)
    requires
        valid_identifier(block),
        encode_utf8(block).len() <= u32::MAX,
    ensures
        rd_record(record_bytes(position, block)) == Ok::<(BlockPos, Seq<char>), RecordError>(
            (position, block),
        ),
{
    let s = record_bytes(position, block);
    let a0: Seq<u8> = seq![TAG_SET_BLOCK];
    let a1 = le_bytes_u64(position.x as u64);
    let a2 = le_bytes_u64(position.y as u64);
    let a3 = le_bytes_u64(position.z as u64);
    let a4 = string_bytes(block);
    assert(s.subrange(0, s.len() as int) =~= a0 + a1 + a2 + a3 + a4);
    lemma_split(s, 0, a0 + a1 + a2 + a3, a4);
    lemma_split(s, 0, a0 + a1 + a2, a3);
    lemma_split(s, 0, a0 + a1, a2);
    lemma_split(s, 0, a0, a1);
    assert(s[0] == TAG_SET_BLOCK);
    lemma_rd_u64(s, 1, position.x as u64);
    lemma_rd_u64(s, 9, position.y as u64);
    lemma_rd_u64(s, 17, position.z as u64);
    let (x, y, z) = (position.x, position.y, position.z);
    assert((x as u64) as i64 == x) by (bit_vector);
    assert((y as u64) as i64 == y) by (bit_vector);
    assert((z as u64) as i64 == z) by (bit_vector);
    lemma_rd_string(s, 25, block);
}

/// Every proper prefix of an edit record is refused: a record torn
/// anywhere short of its end never decodes as an edit.
pub proof fn lemma_record_prefix_refused(position: BlockPos, block: Seq<char>, k: int)
    requires
        valid_identifier(block),
        encode_utf8(block).len() <= u32::MAX,
        0 <= k < record_bytes(position, block).len(),
    ensures
        rd_record(record_bytes(position, block).take(k)) is Err,
{
    let s = record_bytes(position, block);
    let t = s.take(k);
    lemma_record_round_trip(position, block);
    if rd_record(t) is Ok {
        assert(rd_u8(t, 0) is Ok);
        assert(rd_i64(t, 1) is Ok);
        assert(rd_i64(t, 9) is Ok);
        assert(rd_i64(t, 17) is Ok);
        let n_t = crate::codec::u32_at(t, 25);
        assert(crate::codec::rd_u32(t, 25) == Ok::<(u32, int), CodecError>((n_t, 29)));
        assert(rd_string(t, 25) is Ok);
        assert(29 + n_t == t.len());
        let n_s = crate::codec::u32_at(s, 25);
        assert(crate::codec::rd_u32(s, 25) == Ok::<(u32, int), CodecError>((n_s, 29)));
        assert(29 + n_s == s.len());
        assert(t[25] == s[25] && t[26] == s[26] && t[27] == s[27] && t[28] == s[28]);
        assert(n_t == n_s);
    }
}

/// Why an edit could not be applied.
#[derive(Debug, PartialEq, Eq)]
pub enum SkipReason {
    /// The record did not decode.
    Undecodable,
    /// The block identifier is not registered in this session: missing
    /// content, whose ordinary cause is a removed mod.
    UnknownBlock(Identifier),
    /// The chunk holding the position is not resident, or the write was
    /// refused.
    NotWritable(BlockPos),
}

/// The content of a [`SkipReason`].
pub enum SkipView {
    Undecodable,
    UnknownBlock(Seq<char>),
    NotWritable(BlockPos),
}

impl View for SkipReason {
    type V = SkipView;

    open spec fn view(&self) -> SkipView {
        match self {
            SkipReason::Undecodable => SkipView::Undecodable,
            SkipReason::UnknownBlock(id) => SkipView::UnknownBlock(id@),
            SkipReason::NotWritable(p) => SkipView::NotWritable(*p),
        }
    }
}

/// Whether a block write at `p` lands: inside the vertical bounds, in a
/// resident column that holds the position.
pub open spec fn can_write(w: World, p: BlockPos) -> bool {
    let d = w.spec_descriptor();
    let coord = d.shape.spec_column_of(p);
    &&& d.bounds.min_y <= p.y && p.y <= d.bounds.max_y
    &&& w.chunk_at(coord) matches Some(c) && resident(c.spec_state()) && c.contains(p)
}

/// What becomes of one edit in a world.
pub enum Fate {
    /// The block is not registered.
    Unknown(Seq<char>),
    /// The position cannot be written.
    Blocked(BlockPos),
    /// The position now holds this state.
    Written(BlockPos, BlockStateId),
}

/// What becomes of an edit: an unregistered block is reported, an unwritable
/// position is reported, and anything else is written with the block's
/// runtime id in this session.
pub open spec fn fate(w: World, rec: (BlockPos, Seq<char>)) -> Fate {
    if !registered(rec.1) {
        Fate::Unknown(rec.1)
    } else if !can_write(w, rec.0) {
        Fate::Blocked(rec.0)
    } else {
        Fate::Written(rec.0, BlockStateId(builtin_index(rec.1) as u32))
    }
}

/// What a read at `q` gives after replaying edits in order: the state of
/// the last edit written at `q`, or what the world held before. A `None`
/// stands for a record that did not decode.
pub open spec fn replayed_read(w: World, recs: Seq<Option<(BlockPos, Seq<char>)>>, q: BlockPos) -> Result<
    BlockStateId,
    WorldError,
>
    decreases recs.len(),
{
    if recs.len() == 0 {
        world_read(w, q)
    } else {
        match recs.last() {
            Some(rec) => match fate(w, rec) {
                Fate::Written(p, s) => if p == q {
                    Ok(s)
                } else {
                    replayed_read(w, recs.drop_last(), q)
                },
                _ => replayed_read(w, recs.drop_last(), q),
            },
            None => replayed_read(w, recs.drop_last(), q),
        }
    }
}

/// How many of the edits are written.
pub open spec fn written_count(w: World, recs: Seq<Option<(BlockPos, Seq<char>)>>) -> nat
    decreases recs.len(),
{
    if recs.len() == 0 {
        0
    } else {
        written_count(w, recs.drop_last()) + match recs.last() {
            Some(rec) => if fate(w, rec) is Written {
                1nat
            } else {
                0nat
            },
            None => 0nat,
        }
    }
}

/// Why each edit that is not written is skipped, in order.
pub open spec fn skip_reasons(w: World, recs: Seq<Option<(BlockPos, Seq<char>)>>) -> Seq<SkipView>
    decreases recs.len(),
{
    if recs.len() == 0 {
        Seq::empty()
    } else {
        let earlier = skip_reasons(w, recs.drop_last());
        match recs.last() {
            None => earlier.push(SkipView::Undecodable),
            Some(rec) => match fate(w, rec) {
                Fate::Unknown(n) => earlier.push(SkipView::UnknownBlock(n)),
                Fate::Blocked(p) => earlier.push(SkipView::NotWritable(p)),
                Fate::Written(_, _) => earlier,
            },
        }
    }
}

/// The journal position of each edit that is not written, in order.
pub open spec fn skip_indices(w: World, recs: Seq<Option<(BlockPos, Seq<char>)>>) -> Seq<int>
    decreases recs.len(),
{
    if recs.len() == 0 {
        Seq::empty()
    } else {
        let earlier = skip_indices(w, recs.drop_last());
        match recs.last() {
            Some(rec) => if fate(w, rec) is Written {
                earlier
            } else {
                earlier.push(recs.len() - 1)
            },
            None => earlier.push(recs.len() - 1),
        }
    }
}

/// Apply one decoded record, or say why it could not be.
fn apply_one(world: &mut World, record: &EditRecord) -> (r: Result<(), SkipReason>)
    requires
        old(world).wf(),
    ensures
        final(world).wf(),
        final(world).spec_descriptor() == old(world).spec_descriptor(),
        final(world).spec_clock() == old(world).spec_clock(),
        final(world).spec_blocks() == old(world).spec_blocks(),
        final(world).spec_phase() == old(world).spec_phase(),
        forall|q: BlockPos| #[trigger] can_write(*final(world), q) == can_write(*old(world), q),
        match fate(*old(world), record@) {
            Fate::Unknown(n) => r matches Err(SkipReason::UnknownBlock(id)) && id@ == n,
            Fate::Blocked(p) => r matches Err(SkipReason::NotWritable(q)) && q == p,
            Fate::Written(_, _) => r is Ok,
        },
        forall|q: BlockPos| #[trigger] world_read(*final(world), q) == match fate(*old(world), record@) {
            Fate::Written(p, s) => if q == p {
                Ok::<BlockStateId, WorldError>(s)
            } else {
                world_read(*old(world), q)
            },
            _ => world_read(*old(world), q),
        },
{
    let ghost before = *world;
    match record {
        EditRecord::SetBlock { position, block } => {
            let state = match world.block_id(block) {
                Ok(s) => s,
                Err(_) => {
                    return Err(SkipReason::UnknownBlock(block.duplicate()));
                },
            };
            proof {
                let k = builtin_index(block@);
                assert(builtin_blocks().contains(block@));
                assert(0 <= k < builtin_blocks().len() && builtin_blocks()[k] == block@);
                crate::world::lemma_block_ids_round_trip(k, state.0 as int);
            }
            let written = world.set_block(*position, state);
            proof {
                let d = before.spec_descriptor();
                let coord = d.shape.spec_column_of(*position);
                assert forall|q: BlockPos| #[trigger] can_write(*world, q) == can_write(before, q) by {
                    let cq = d.shape.spec_column_of(q);
                    if cq != coord {
                        assert(world.chunk_at(cq) == before.chunk_at(cq));
                    }
                }
            }
            match written {
                Ok(_) => Ok(()),
                Err(_) => Err(SkipReason::NotWritable(*position)),
            }
        },
    }
}

/// The edits filed under a column, oldest first; none when nothing is.
pub open spec fn pending_of(
    v: Seq<(ChunkCoord, Seq<(BlockPos, Seq<char>)>)>,
    c: ChunkCoord,
) -> Seq<(BlockPos, Seq<char>)> {
    if exists|i: int| 0 <= i < v.len() && v[i].0 == c {
        v[choose|i: int| 0 <= i < v.len() && v[i].0 == c].1
    } else {
        Seq::empty()
    }
}

/// Columns ascend strictly and every filed column holds an edit.
pub open spec fn pending_wf(v: Seq<(ChunkCoord, Seq<(BlockPos, Seq<char>)>)>) -> bool {
    &&& forall|i: int, j: int| 0 <= i < j < v.len() ==> coord_lt(v[i].0, v[j].0)
    &&& forall|i: int| 0 <= i < v.len() ==> (#[trigger] v[i]).1.len() > 0
}

/// How many edits are filed in all.
pub open spec fn total_waiting(v: Seq<(ChunkCoord, Seq<(BlockPos, Seq<char>)>)>) -> nat
    decreases v.len(),
{
    if v.len() == 0 {
        0
    } else {
        total_waiting(v.drop_last()) + v.last().1.len()
    }
}

/// With ascending columns, the group at `i` is what its column finds.
proof fn lemma_pending_at(v: Seq<(ChunkCoord, Seq<(BlockPos, Seq<char>)>)>, i: int)
    requires
        pending_wf(v),
        0 <= i < v.len(),
    ensures
        pending_of(v, v[i].0) == v[i].1,
{
    let c = choose|k: int| 0 <= k < v.len() && v[k].0 == v[i].0;
    assert(0 <= c < v.len() && v[c].0 == v[i].0);
    if c < i {
        assert(coord_lt(v[c].0, v[i].0));
    } else if c > i {
        assert(coord_lt(v[i].0, v[c].0));
    }
}

/// Edits waiting for their column, in journal order within each column.
#[derive(Debug, PartialEq, Eq)]
pub struct PendingEdits {
    by_column: Vec<(ChunkCoord, Vec<EditRecord>)>,
    applied: usize,
}

impl View for PendingEdits {
    type V = Seq<(ChunkCoord, Seq<(BlockPos, Seq<char>)>)>;

    /// Each column with something filed, ascending, and its edits in order.
    closed spec fn view(&self) -> Seq<(ChunkCoord, Seq<(BlockPos, Seq<char>)>)> {
        self.by_column@.map_values(
            |e: (ChunkCoord, Vec<EditRecord>)| (e.0, e.1@.map_values(|r: EditRecord| r@)),
        )
    }
}

impl Default for PendingEdits {
    fn default() -> (r: Self)
        ensures
            r@ == Seq::<(ChunkCoord, Seq<(BlockPos, Seq<char>)>)>::empty(),
            r.spec_applied() == 0,
    {
        let r = PendingEdits { by_column: Vec::new(), applied: 0 };
        proof {
            assert(r@ =~= Seq::<(ChunkCoord, Seq<(BlockPos, Seq<char>)>)>::empty());
        }
        r
    }
}

impl PendingEdits {
    /// Columns ascend and no filed column is empty.
    #[verifier::type_invariant]
    spec fn well_formed(&self) -> bool {
        pending_wf(self@)
    }

    /// How many filed edits have been applied through this index.
    pub closed spec fn spec_applied(&self) -> usize {
        self.applied
    }

    /// How many edits are still waiting; a count past `usize::MAX` reads as
    /// `usize::MAX`.
    pub fn len(&self) -> (n: usize)
        ensures
            n == if total_waiting(self@) <= usize::MAX {
                total_waiting(self@) as usize
            } else {
                usize::MAX
            },
    {
        let mut total: usize = 0;
        let mut i: usize = 0;
        while i < self.by_column.len()
            invariant
                i <= self@.len(),
                total == if total_waiting(self@.take(i as int)) <= usize::MAX {
                    total_waiting(self@.take(i as int)) as usize
                } else {
                    usize::MAX
                },
            decreases self.by_column.len() - i,
        {
            proof {
                assert(self@.take(i + 1).drop_last() =~= self@.take(i as int));
                assert(self@.take(i + 1).last() == self@[i as int]);
            }
            total = total.saturating_add(self.by_column[i].1.len());
            i += 1;
        }
        proof {
            assert(self@.take(i as int) =~= self@);
        }
        total
    }

    /// Whether nothing is waiting.
    pub fn is_empty(&self) -> (r: bool)
        ensures
            r == (self@.len() == 0),
            r == (total_waiting(self@) == 0),
    {
        proof {
            use_type_invariant(self);
            lemma_total_positive(self@);
        }
        self.by_column.len() == 0
    }

    /// How many filed edits have been applied through this index so far.
    pub fn applied(&self) -> (r: usize)
        ensures
            r == self.spec_applied(),
    {
        self.applied
    }

    /// The columns something is waiting on, ascending.
    pub fn columns(&self) -> (r: Vec<ChunkCoord>)
        ensures
            r@ == self@.map_values(|e: (ChunkCoord, Seq<(BlockPos, Seq<char>)>)| e.0),
    {
        let mut out: Vec<ChunkCoord> = Vec::new();
        let mut i: usize = 0;
        while i < self.by_column.len()
            invariant
                i <= self@.len(),
                out@ == self@.take(i as int).map_values(|e: (ChunkCoord, Seq<(BlockPos, Seq<char>)>)| e.0),
            decreases self.by_column.len() - i,
        {
            out.push(self.by_column[i].0);
            i += 1;
            proof {
                assert(out@ =~= self@.take(i as int).map_values(
                    |e: (ChunkCoord, Seq<(BlockPos, Seq<char>)>)| e.0,
                ));
            }
        }
        proof {
            assert(self@.take(i as int) =~= self@);
        }
        out
    }

    /// How many edits wait on one column.
    pub fn waiting_on(&self, column: ChunkCoord) -> (n: usize)
        ensures
            n == pending_of(self@, column).len(),
    {
        proof {
            use_type_invariant(self);
        }
        let mut i: usize = 0;
        while i < self.by_column.len()
            invariant
                i <= self@.len(),
                pending_wf(self@),
                forall|k: int| 0 <= k < i ==> self@[k].0 != column,
            decreases self.by_column.len() - i,
        {
            if self.by_column[i].0 == column {
                proof {
                    lemma_pending_at(self@, i as int);
                }
                return self.by_column[i].1.len();
            }
            i += 1;
        }
        0
    }
}

impl PendingEdits {
    /// File an edit under its column, after any already filed there.
    fn push(&mut self, column: ChunkCoord, record: EditRecord)
        ensures
            final(self).spec_applied() == old(self).spec_applied(),
            forall|c: ChunkCoord| #[trigger] pending_of(final(self)@, c) == if c == column {
                pending_of(old(self)@, c).push(record@)
            } else {
                pending_of(old(self)@, c)
            },
    {
        proof {
            use_type_invariant(&*self);
        }
        let ghost before = self@;
        let mut groups: Vec<(ChunkCoord, Vec<EditRecord>)> = Vec::new();
        std::mem::swap(&mut groups, &mut self.by_column);
        let ghost gv = groups@;
        let mut i: usize = 0;
        while i < groups.len() && coord_less(groups[i].0, column)
            invariant
                groups@ == gv,
                before == gv.map_values(
                    |e: (ChunkCoord, Vec<EditRecord>)| (e.0, e.1@.map_values(|r: EditRecord| r@)),
                ),
                i <= gv.len(),
                forall|k: int| 0 <= k < i ==> coord_lt(#[trigger] gv[k].0, column),
            decreases gv.len() - i,
        {
            i += 1;
        }
        let found = i < groups.len() && groups[i].0 == column;
        let ghost rv = record@;
        if found {
            let (c, mut recs) = groups.remove(i);
            let ghost old_recs = recs@;
            assert(old_recs == gv[i as int].1@);
            recs.push(record);
            let ghost entry = (c, recs);
            assert(recs@.map_values(|r: EditRecord| r@) =~= old_recs.map_values(|r: EditRecord| r@).push(
                rv,
            ));
            groups.insert(i, (c, recs));
            proof {
                assert(groups@ =~= gv.update(i as int, entry));
                let after = groups@.map_values(
                    |e: (ChunkCoord, Vec<EditRecord>)| (e.0, e.1@.map_values(|r: EditRecord| r@)),
                );
                assert(after =~= before.update(i as int, (column, before[i as int].1.push(rv))));
                lemma_pending_update(before, i as int, rv);
            }
        } else {
            let mut recs: Vec<EditRecord> = Vec::new();
            recs.push(record);
            let ghost entry = (column, recs);
            assert(recs@.map_values(|r: EditRecord| r@) =~= seq![rv]);
            groups.insert(i, (column, recs));
            proof {
                assert(groups@ =~= gv.insert(i as int, entry));
                let after = groups@.map_values(
                    |e: (ChunkCoord, Vec<EditRecord>)| (e.0, e.1@.map_values(|r: EditRecord| r@)),
                );
                assert(after =~= before.insert(i as int, (column, seq![rv])));
                lemma_pending_insert(before, i as int, column, rv);
            }
        }
        self.by_column = groups;
    }
}

/// Appending to the group at `i` adds the edit to that column alone.
proof fn lemma_pending_update(
    v: Seq<(ChunkCoord, Seq<(BlockPos, Seq<char>)>)>,
    i: int,
    rec: (BlockPos, Seq<char>),
)
    requires
        pending_wf(v),
        0 <= i < v.len(),
    ensures
        pending_wf(v.update(i, (v[i].0, v[i].1.push(rec)))),
        forall|c: ChunkCoord| #[trigger] pending_of(v.update(i, (v[i].0, v[i].1.push(rec))), c) == if c
            == v[i].0 {
            pending_of(v, c).push(rec)
        } else {
            pending_of(v, c)
        },
{
    let w = v.update(i, (v[i].0, v[i].1.push(rec)));
    assert forall|a: int, b: int| 0 <= a < b < w.len() implies coord_lt(w[a].0, w[b].0) by {
        assert(w[a].0 == v[a].0 && w[b].0 == v[b].0);
    }
    assert forall|a: int| 0 <= a < w.len() implies (#[trigger] w[a]).1.len() > 0 by {
        if a != i {
            assert(w[a] == v[a]);
        }
    }
    lemma_pending_at(v, i);
    lemma_pending_at(w, i);
    assert forall|c: ChunkCoord| #[trigger] pending_of(w, c) == if c == v[i].0 {
        pending_of(v, c).push(rec)
    } else {
        pending_of(v, c)
    } by {
        if c != v[i].0 {
            if exists|k: int| 0 <= k < v.len() && v[k].0 == c {
                let k = choose|k: int| 0 <= k < v.len() && v[k].0 == c;
                lemma_pending_at(v, k);
                assert(w[k] == v[k]);
                lemma_pending_at(w, k);
            } else {
                assert(!exists|k: int| 0 <= k < w.len() && w[k].0 == c) by {
                    assert forall|k: int| 0 <= k < w.len() implies w[k].0 != c by {
                        assert(w[k].0 == v[k].0);
                    }
                }
            }
        }
    }
}

/// Inserting a new group at its place in column order files the edit under
/// that column alone.
proof fn lemma_pending_insert(
    v: Seq<(ChunkCoord, Seq<(BlockPos, Seq<char>)>)>,
    i: int,
    column: ChunkCoord,
    rec: (BlockPos, Seq<char>),
)
    requires
        pending_wf(v),
        0 <= i <= v.len(),
        forall|k: int| 0 <= k < i ==> coord_lt(#[trigger] v[k].0, column),
        i < v.len() ==> v[i].0 != column && !coord_lt(v[i].0, column),
    ensures
        pending_wf(v.insert(i, (column, seq![rec]))),
        forall|c: ChunkCoord| #[trigger] pending_of(v.insert(i, (column, seq![rec])), c) == if c == column {
            pending_of(v, c).push(rec)
        } else {
            pending_of(v, c)
        },
{
    let w = v.insert(i, (column, seq![rec]));
    assert forall|a: int, b: int| 0 <= a < b < w.len() implies coord_lt(w[a].0, w[b].0) by {
        if b < i {
            assert(w[a] == v[a] && w[b] == v[b]);
        } else if b == i {
            assert(w[a] == v[a]);
        } else if a < i {
            assert(w[a] == v[a] && w[b] == v[b - 1]);
            assert(coord_lt(v[a].0, column));
            assert(coord_lt(v[i].0, v[b - 1].0) || i == b - 1);
        } else if a == i {
            assert(w[b] == v[b - 1]);
            assert(coord_lt(v[i].0, v[b - 1].0) || i == b - 1);
        } else {
            assert(w[a] == v[a - 1] && w[b] == v[b - 1]);
        }
    }
    assert forall|a: int| 0 <= a < w.len() implies (#[trigger] w[a]).1.len() > 0 by {
        if a < i {
            assert(w[a] == v[a]);
        } else if a > i {
            assert(w[a] == v[a - 1]);
        }
    }
    assert(!exists|k: int| 0 <= k < v.len() && v[k].0 == column) by {
        assert forall|k: int| 0 <= k < v.len() implies v[k].0 != column by {
            if k < i {
                assert(coord_lt(v[k].0, column));
            } else if k > i {
                assert(coord_lt(v[i].0, v[k].0));
            }
        }
    }
    lemma_pending_at(w, i);
    assert(pending_of(v, column) =~= Seq::<(BlockPos, Seq<char>)>::empty());
    assert(pending_of(v, column).push(rec) =~= seq![rec]);
    assert forall|c: ChunkCoord| #[trigger] pending_of(w, c) == if c == column {
        pending_of(v, c).push(rec)
    } else {
        pending_of(v, c)
    } by {
        if c != column {
            if exists|k: int| 0 <= k < v.len() && v[k].0 == c {
                let k = choose|k: int| 0 <= k < v.len() && v[k].0 == c;
                lemma_pending_at(v, k);
                let kw = if k < i { k } else { k + 1 };
                assert(w[kw] == v[k]);
                lemma_pending_at(w, kw);
            } else {
                assert(!exists|k: int| 0 <= k < w.len() && w[k].0 == c) by {
                    assert forall|k: int| 0 <= k < w.len() implies w[k].0 != c by {
                        if k < i {
                            assert(w[k] == v[k]);
                        } else if k > i {
                            assert(w[k] == v[k - 1]);
                        }
                    }
                }
            }
        }
    }
}

/// A filed column always holds an edit, so the count is zero only when
/// nothing is filed.
proof fn lemma_total_positive(v: Seq<(ChunkCoord, Seq<(BlockPos, Seq<char>)>)>)
    requires
        forall|i: int| 0 <= i < v.len() ==> (#[trigger] v[i]).1.len() > 0,
    ensures
        (total_waiting(v) == 0) == (v.len() == 0),
    decreases v.len(),
{
    if v.len() > 0 {
        assert(v[v.len() - 1] == v.last());
        assert forall|i: int| 0 <= i < v.drop_last().len() implies (#[trigger] v.drop_last()[i]).1.len() > 0 by {
            assert(v.drop_last()[i] == v[i]);
        }
        lemma_total_positive(v.drop_last());
    }
}

/// What a journal read found wrong with the file.
#[derive(Debug, Clone, Copy, PartialEq, Eq, Structural)]
pub enum Damage {
    /// The file ends partway through a record, as a crash mid-write leaves
    /// it.
    TornTail { trailing_bytes: usize },
    /// A record's bytes do not match its checksum.
    Corruption { offset: usize },
}

impl Damage {
    /// Whether a crash alone explains the damage: a torn tail is what an
    /// interrupted append leaves, corruption is not.
    pub fn is_expected_after_a_crash(&self) -> (r: bool)
        ensures
            r == (*self is TornTail),
    {
        match self {
            Damage::TornTail { .. } => true,
            Damage::Corruption { .. } => false,
        }
    }
}

/// A journal as read: its records, oldest first, and what, if anything, was
/// wrong with the file.
#[derive(Debug)]
pub struct Replay {
    /// The records that read back, in journal order.
    pub records: Vec<Vec<u8>>,
    /// What the read reported about the file.
    pub damage: Option<Damage>,
}

/// One record that replay could not apply.
#[derive(Debug, PartialEq, Eq)]
pub struct SkippedEdit {
    /// Its position in the journal.
    pub index: usize,
    /// Why it was skipped.
    pub reason: SkipReason,
}

/// What replaying a journal into a world achieved.
#[derive(Debug)]
pub struct RecoveryReport {
    /// Edits applied to the world.
    pub applied: usize,
    /// Records that could not be applied, and why.
    pub skipped: Vec<SkippedEdit>,
    /// What the journal read reported, if anything was wrong with the file.
    pub damage: Option<Damage>,
    /// The skipped edits that only wait for their column, filed under it.
    pub deferred: PendingEdits,
}

impl RecoveryReport {
    /// Whether every record in the journal was applied.
    pub fn is_complete(&self) -> (r: bool)
        ensures
            r == (self.skipped@.len() == 0 && self.damage is None),
    {
        self.skipped.len() == 0 && self.damage.is_none()
    }
}

/// The edit a record holds, when it decodes.
pub open spec fn decoded(s: Seq<u8>) -> Option<(BlockPos, Seq<char>)> {
    match rd_record(s) {
        Ok(v) => Some(v),
        Err(_) => None,
    }
}

/// The edits of a journal's records, in order.
pub open spec fn journal_edits(records: Seq<Vec<u8>>) -> Seq<Option<(BlockPos, Seq<char>)>> {
    records.map_values(|b: Vec<u8>| decoded(b@))
}

/// The edits that cannot be written for want of their column, filed under
/// column `c`, in order.
pub open spec fn blocked_in(
    w: World,
    recs: Seq<Option<(BlockPos, Seq<char>)>>,
    c: ChunkCoord,
) -> Seq<(BlockPos, Seq<char>)>
    decreases recs.len(),
{
    if recs.len() == 0 {
        Seq::empty()
    } else {
        let earlier = blocked_in(w, recs.drop_last(), c);
        match recs.last() {
            Some(rec) => if fate(w, rec) is Blocked && w.spec_descriptor().shape.spec_column_of(rec.0)
                == c {
                earlier.push(rec)
            } else {
                earlier
            },
            None => earlier,
        }
    }
}

/// Written edits never outnumber the edits.
proof fn lemma_written_bound(w: World, recs: Seq<Option<(BlockPos, Seq<char>)>>)
    ensures
        written_count(w, recs) <= recs.len(),
        skip_reasons(w, recs).len() == skip_indices(w, recs).len(),
        forall|k: int|
            0 <= k < skip_indices(w, recs).len() ==> 0 <= #[trigger] skip_indices(w, recs)[k] < recs.len(),
    decreases recs.len(),
{
    if recs.len() > 0 {
        lemma_written_bound(w, recs.drop_last());
    }
}

/// Apply a journal's records to a world, in order.
///
/// A record that does not decode, names a block this session does not
/// register, or falls where nothing can be written is skipped and reported
/// with its position in the journal; the rest of the journal still applies.
/// Edits skipped only for want of their column are also filed under it.
pub fn apply(world: &mut World, replay: &Replay) -> (r: Result<RecoveryReport, WorldError>)
    requires
        old(world).wf(),
    ensures
        final(world).wf(),
        final(world).spec_descriptor() == old(world).spec_descriptor(),
        final(world).spec_clock() == old(world).spec_clock(),
        final(world).spec_blocks() == old(world).spec_blocks(),
        final(world).spec_phase() == old(world).spec_phase(),
        r matches Ok(report) && {
            let recs = journal_edits(replay.records@);
            &&& report.applied == written_count(*old(world), recs)
            &&& report.skipped@.len() == skip_reasons(*old(world), recs).len()
            &&& forall|k: int|
                0 <= k < report.skipped@.len() ==> (#[trigger] report.skipped@[k]).index
                    == skip_indices(*old(world), recs)[k] && report.skipped@[k].reason@
                    == skip_reasons(*old(world), recs)[k]
            &&& report.damage == replay.damage
            &&& report.deferred.spec_applied() == 0
            &&& forall|c: ChunkCoord| #[trigger] pending_of(report.deferred@, c) == blocked_in(
                *old(world),
                recs,
                c,
            )
        },
        forall|q: BlockPos| #[trigger] world_read(*final(world), q) == replayed_read(
            *old(world),
            journal_edits(replay.records@),
            q,
        ),
{
    let ghost w0 = *world;
    let ghost recs = journal_edits(replay.records@);
    let shape = world.descriptor().shape;
    let n = replay.records.len();
    let mut applied: usize = 0;
    let mut skipped: Vec<SkippedEdit> = Vec::new();
    let mut deferred = PendingEdits::default();
    let mut i: usize = 0;
    proof {
        assert forall|c: ChunkCoord| #[trigger] pending_of(deferred@, c) == blocked_in(w0, recs.take(0), c) by {
            assert(recs.take(0).len() == 0);
        }
        assert forall|q: BlockPos| #[trigger] world_read(*world, q) == replayed_read(w0, recs.take(0), q) by {
            assert(recs.take(0).len() == 0);
        }
    }
    while i < n
        invariant
            n == replay.records@.len(),
            recs == journal_edits(replay.records@),
            recs.len() == n,
            shape == w0.spec_descriptor().shape,
            world.wf(),
            world.spec_descriptor() == w0.spec_descriptor(),
            world.spec_clock() == w0.spec_clock(),
            world.spec_blocks() == w0.spec_blocks(),
            world.spec_phase() == w0.spec_phase(),
            i <= n,
            forall|q: BlockPos| #[trigger] can_write(*world, q) == can_write(w0, q),
            applied == written_count(w0, recs.take(i as int)),
            applied <= i,
            skipped@.len() == skip_reasons(w0, recs.take(i as int)).len(),
            forall|k: int|
                0 <= k < skipped@.len() ==> (#[trigger] skipped@[k]).index == skip_indices(
                    w0,
                    recs.take(i as int),
                )[k] && skipped@[k].reason@ == skip_reasons(w0, recs.take(i as int))[k],
            deferred.spec_applied() == 0,
            forall|c: ChunkCoord| #[trigger] pending_of(deferred@, c) == blocked_in(w0, recs.take(i as int), c),
            forall|q: BlockPos| #[trigger] world_read(*world, q) == replayed_read(w0, recs.take(i as int), q),
        decreases n - i,
    {
        let ghost pre = recs.take(i as int);
        let ghost post = recs.take(i + 1);
        proof {
            assert(post.drop_last() =~= pre);
            assert(post.last() == recs[i as int]);
            assert(recs[i as int] == decoded(replay.records@[i as int]@));
            lemma_written_bound(w0, pre);
        }
        let ghost before = *world;
        match EditRecord::decode(replay.records[i].as_slice()) {
            Err(_) => {
                skipped.push(SkippedEdit { index: i, reason: SkipReason::Undecodable });
                proof {
                    assert forall|q: BlockPos| #[trigger] world_read(*world, q) == replayed_read(w0, post, q) by {}
                    assert forall|c: ChunkCoord| #[trigger] pending_of(deferred@, c) == blocked_in(w0, post, c) by {}
                }
            },
            Ok(record) => {
                let ghost rec = record@;
                assert(can_write(before, rec.0) == can_write(w0, rec.0));
                assert(fate(before, rec) == fate(w0, rec));
                match apply_one(world, &record) {
                    Ok(()) => {
                        applied += 1;
                        proof {
                            assert forall|c: ChunkCoord| #[trigger] pending_of(deferred@, c) == blocked_in(w0, post, c) by {}
                        }
                    },
                    Err(reason) => {
                        let blocked = match reason {
                            SkipReason::NotWritable(_) => true,
                            _ => false,
                        };
                        if blocked {
                            let column = record.column(shape);
                            let ghost old_pending = deferred@;
                            deferred.push(column, record);
                            proof {
                                assert forall|c: ChunkCoord| #[trigger] pending_of(deferred@, c) == blocked_in(w0, post, c) by {
                                    assert(pending_of(deferred@, c) == if c == column {
                                        pending_of(old_pending, c).push(rec)
                                    } else {
                                        pending_of(old_pending, c)
                                    });
                                }
                            }
                        } else {
                            proof {
                                assert forall|c: ChunkCoord| #[trigger] pending_of(deferred@, c) == blocked_in(w0, post, c) by {}
                            }
                        }
                        skipped.push(SkippedEdit { index: i, reason });
                    },
                }
                proof {
                    assert forall|q: BlockPos| #[trigger] can_write(*world, q) == can_write(w0, q) by {
                        assert(can_write(*world, q) == can_write(before, q));
                    }
                    assert forall|q: BlockPos| #[trigger] world_read(*world, q) == replayed_read(w0, post, q) by {
                        assert(world_read(before, q) == replayed_read(w0, pre, q));
                    }
                }
            },
        }
        i += 1;
    }
    proof {
        assert(recs.take(n as int) =~= recs);
    }
    Ok(RecoveryReport { applied, skipped, damage: replay.damage, deferred })
}

/// What applying one column's filed edits achieved.
#[derive(Debug, Default, PartialEq, Eq)]
pub struct ColumnRecovery {
    /// Edits that landed.
    pub applied: usize,
    /// Edits that still could not be applied with the column resident.
    pub refused: Vec<SkipReason>,
}

/// The edits filed under a column, as edits that all decoded.
pub open spec fn filed_edits(
    v: Seq<(ChunkCoord, Seq<(BlockPos, Seq<char>)>)>,
    c: ChunkCoord,
) -> Seq<Option<(BlockPos, Seq<char>)>> {
    pending_of(v, c).map_values(|e: (BlockPos, Seq<char>)| Some(e))
}

/// Removing the group at `i` empties that column and leaves the others.
proof fn lemma_pending_remove(v: Seq<(ChunkCoord, Seq<(BlockPos, Seq<char>)>)>, i: int)
    requires
        pending_wf(v),
        0 <= i < v.len(),
    ensures
        pending_wf(v.remove(i)),
        forall|c: ChunkCoord| #[trigger] pending_of(v.remove(i), c) == if c == v[i].0 {
            Seq::<(BlockPos, Seq<char>)>::empty()
        } else {
            pending_of(v, c)
        },
{
    let w = v.remove(i);
    assert forall|a: int, b: int| 0 <= a < b < w.len() implies coord_lt(w[a].0, w[b].0) by {
        let va = if a < i { a } else { a + 1 };
        let vb = if b < i { b } else { b + 1 };
        assert(w[a] == v[va] && w[b] == v[vb]);
    }
    assert forall|a: int| 0 <= a < w.len() implies (#[trigger] w[a]).1.len() > 0 by {
        let va = if a < i { a } else { a + 1 };
        assert(w[a] == v[va]);
    }
    assert forall|c: ChunkCoord| #[trigger] pending_of(w, c) == if c == v[i].0 {
        Seq::<(BlockPos, Seq<char>)>::empty()
    } else {
        pending_of(v, c)
    } by {
        if c == v[i].0 {
            assert forall|k: int| 0 <= k < w.len() implies w[k].0 != c by {
                let vk = if k < i { k } else { k + 1 };
                assert(w[k] == v[vk]);
                if vk < i {
                    assert(coord_lt(v[vk].0, v[i].0));
                } else {
                    assert(coord_lt(v[i].0, v[vk].0));
                }
            }
        } else if exists|k: int| 0 <= k < v.len() && v[k].0 == c {
            let k = choose|k: int| 0 <= k < v.len() && v[k].0 == c;
            lemma_pending_at(v, k);
            assert(k != i);
            let kw = if k < i { k } else { k - 1 };
            assert(w[kw] == v[k]);
            lemma_pending_at(w, kw);
        } else {
            assert forall|k: int| 0 <= k < w.len() implies w[k].0 != c by {
                let vk = if k < i { k } else { k + 1 };
                assert(w[k] == v[vk]);
            }
        }
    }
}

impl PendingEdits {
    /// Apply everything filed under one column, in the order it was
    /// journalled.
    ///
    /// The column is cleared whether or not every edit lands: an edit that
    /// still cannot be applied with the column resident is not waiting on
    /// residency, and keeping it would mean retrying it forever. Those come
    /// back in the returned report instead.
    pub fn apply_column(&mut self, world: &mut World, column: ChunkCoord) -> (r: Result<
        ColumnRecovery,
        WorldError,
    >)
        requires
            old(world).wf(),
        ensures
            final(world).wf(),
            final(world).spec_descriptor() == old(world).spec_descriptor(),
            final(world).spec_clock() == old(world).spec_clock(),
            final(world).spec_blocks() == old(world).spec_blocks(),
            final(world).spec_phase() == old(world).spec_phase(),
            r matches Ok(report) && {
                let recs = filed_edits(old(self)@, column);
                &&& report.applied == written_count(*old(world), recs)
                &&& report.refused@.len() == skip_reasons(*old(world), recs).len()
                &&& forall|k: int|
                    0 <= k < report.refused@.len() ==> (#[trigger] report.refused@[k])@ == skip_reasons(
                        *old(world),
                        recs,
                    )[k]
                &&& final(self).spec_applied() == if old(self).spec_applied() + report.applied
                    <= usize::MAX {
                    (old(self).spec_applied() + report.applied) as usize
                } else {
                    usize::MAX
                }
            },
            forall|c: ChunkCoord| #[trigger] pending_of(final(self)@, c) == if c == column {
                Seq::<(BlockPos, Seq<char>)>::empty()
            } else {
                pending_of(old(self)@, c)
            },
            forall|q: BlockPos| #[trigger] world_read(*final(world), q) == replayed_read(
                *old(world),
                filed_edits(old(self)@, column),
                q,
            ),
    {
        proof {
            use_type_invariant(&*self);
        }
        let ghost w0 = *world;
        let ghost v0 = self@;
        let ghost recs = filed_edits(v0, column);
        let mut i: usize = 0;
        while i < self.by_column.len() && self.by_column[i].0 != column
            invariant
                i <= self@.len(),
                self@ == v0,
                forall|k: int| 0 <= k < i ==> self@[k].0 != column,
            decreases self.by_column.len() - i,
        {
            i += 1;
        }
        if i == self.by_column.len() {
            proof {
                assert(pending_of(v0, column) =~= Seq::<(BlockPos, Seq<char>)>::empty());
                assert(recs =~= Seq::<Option<(BlockPos, Seq<char>)>>::empty());
            }
            return Ok(ColumnRecovery { applied: 0, refused: Vec::new() });
        }
        let ghost by0 = self.by_column@;
        assert(v0 == by0.map_values(
            |e: (ChunkCoord, Vec<EditRecord>)| (e.0, e.1@.map_values(|r: EditRecord| r@)),
        ));
        let mut groups: Vec<(ChunkCoord, Vec<EditRecord>)> = Vec::new();
        std::mem::swap(&mut groups, &mut self.by_column);
        let ghost gv = groups@;
        assert(gv == by0);
        let (_, records) = groups.remove(i);
        proof {
            assert(records == gv[i as int].1);
            assert(v0[i as int] == (gv[i as int].0, gv[i as int].1@.map_values(|r: EditRecord| r@)));
            assert(v0[i as int].0 == column);
            lemma_pending_at(v0, i as int);
            lemma_pending_remove(v0, i as int);
            assert(groups@.map_values(
                |e: (ChunkCoord, Vec<EditRecord>)| (e.0, e.1@.map_values(|r: EditRecord| r@)),
            ) =~= v0.remove(i as int));
            assert(records@.map_values(|r: EditRecord| r@) == pending_of(v0, column));
        }
        self.by_column = groups;
        let mut applied: usize = 0;
        let mut refused: Vec<SkipReason> = Vec::new();
        let mut k: usize = 0;
        while k < records.len()
            invariant
                recs == records@.map_values(|r: EditRecord| r@).map_values(
                    |e: (BlockPos, Seq<char>)| Some(e),
                ),
                world.wf(),
                world.spec_descriptor() == w0.spec_descriptor(),
                world.spec_clock() == w0.spec_clock(),
                world.spec_blocks() == w0.spec_blocks(),
                world.spec_phase() == w0.spec_phase(),
                k <= records@.len(),
                forall|q: BlockPos| #[trigger] can_write(*world, q) == can_write(w0, q),
                applied == written_count(w0, recs.take(k as int)),
                applied <= k,
                refused@.len() == skip_reasons(w0, recs.take(k as int)).len(),
                forall|j: int|
                    0 <= j < refused@.len() ==> (#[trigger] refused@[j])@ == skip_reasons(
                        w0,
                        recs.take(k as int),
                    )[j],
                forall|q: BlockPos| #[trigger] world_read(*world, q) == replayed_read(w0, recs.take(k as int), q),
            decreases records.len() - k,
        {
            let ghost pre = recs.take(k as int);
            let ghost post = recs.take(k + 1);
            let ghost rec = records@[k as int]@;
            proof {
                assert(post.drop_last() =~= pre);
                assert(post.last() == Some(rec));
                lemma_written_bound(w0, pre);
            }
            let ghost before = *world;
            assert(can_write(before, rec.0) == can_write(w0, rec.0));
            match apply_one(world, &records[k]) {
                Ok(()) => {
                    applied += 1;
                },
                Err(reason) => {
                    refused.push(reason);
                },
            }
            proof {
                assert forall|q: BlockPos| #[trigger] can_write(*world, q) == can_write(w0, q) by {
                    assert(can_write(*world, q) == can_write(before, q));
                }
                assert forall|q: BlockPos| #[trigger] world_read(*world, q) == replayed_read(w0, post, q) by {
                    assert(world_read(before, q) == replayed_read(w0, pre, q));
                }
            }
            k += 1;
        }
        proof {
            assert(recs.take(k as int) =~= recs);
        }
        self.applied = self.applied.saturating_add(applied);
        Ok(ColumnRecovery { applied, refused })
    }
}

/// Edits apply in journal order, so the last write wins: when edit `k` is
/// written at `q` and no later edit is written there, a read at `q` after
/// replay gives edit `k`'s state; when no edit is written at `q`, the read
/// is what the world held before.
pub proof fn lemma_last_write_wins(
    w: World,
    recs: Seq<Option<(BlockPos, Seq<char>)>>,
    q: BlockPos,
    k: int,
)
    requires
        0 <= k < recs.len(),
        recs[k] matches Some(rec) && fate(w, rec) matches Fate::Written(p, _) && p == q,
        forall|j: int|
            k < j < recs.len() ==> !(#[trigger] recs[j] matches Some(r) && fate(w, r) matches Fate::Written(
                p,
                _,
            ) && p == q),
    ensures
        recs[k] matches Some(rec) && fate(w, rec) matches Fate::Written(_, s) && replayed_read(
            w,
            recs,
            q,
        ) == Ok::<BlockStateId, WorldError>(s),
    decreases recs.len(),
{
    if k < recs.len() - 1 {
        let init = recs.drop_last();
        assert(recs[recs.len() - 1] == recs.last());
        assert forall|j: int|
            k < j < init.len() implies !(#[trigger] init[j] matches Some(r) && fate(w, r) matches Fate::Written(
                p,
                _,
            ) && p == q) by {
            assert(init[j] == recs[j]);
        }
        assert(init[k] == recs[k]);
        lemma_last_write_wins(w, init, q, k);
    }
}

/// A position no edit writes reads after replay as it did before.
pub proof fn lemma_unwritten_unchanged(w: World, recs: Seq<Option<(BlockPos, Seq<char>)>>, q: BlockPos)
    requires
        forall|j: int|
            0 <= j < recs.len() ==> !(#[trigger] recs[j] matches Some(r) && fate(w, r) matches Fate::Written(
                p,
                _,
            ) && p == q),
    ensures
        replayed_read(w, recs, q) == world_read(w, q),
    decreases recs.len(),
{
    if recs.len() > 0 {
        let init = recs.drop_last();
        assert(recs[recs.len() - 1] == recs.last());
        assert forall|j: int|
            0 <= j < init.len() implies !(#[trigger] init[j] matches Some(r) && fate(w, r) matches Fate::Written(
                p,
                _,
            ) && p == q) by {
            assert(init[j] == recs[j]);
        }
        lemma_unwritten_unchanged(w, init, q);
    }
}

} // verus!
