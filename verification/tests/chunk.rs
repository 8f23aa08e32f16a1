use nexora::chunk::{Chunk, ChunkError, ChunkState, VoxelChange, MAX_JOURNAL_ENTRIES};
use nexora::error::Recovery;
use nexora::spatial::{BlockPos, ChunkCoord, ChunkShape};
use nexora::time::WorldTime;
use nexora::voxel::{air, BlockStateId, Section};

const STONE: BlockStateId = BlockStateId(1);
const DIRT: BlockStateId = BlockStateId(2);

fn chunk_at(x: i64, z: i64) -> Chunk {
    Chunk::new(ChunkCoord::new(x, z), ChunkShape::cubic_default())
}

/// A block position inside column `(x, z)`.
fn inside(x: i64, z: i64, local_x: i64, y: i64, local_z: i64) -> BlockPos {
    BlockPos::new(x * 32 + local_x, y, z * 32 + local_z)
}

#[test]
fn a_new_chunk_is_entirely_air_and_stores_nothing() {
    let chunk = chunk_at(0, 0);
    assert_eq!(chunk.section_count(), 0);
    assert_eq!(chunk.storage_bytes(), 0);
    assert_eq!(chunk.non_air_count(), 0);
    assert_eq!(chunk.get(inside(0, 0, 5, 100, 5)).unwrap(), air());
    assert!(!chunk.is_dirty());
}

#[test]
fn writing_and_reading_a_block_round_trips() {
    let mut chunk = chunk_at(0, 0);
    let position = inside(0, 0, 3, 70, 9);

    assert_eq!(chunk.set(position, STONE, WorldTime(10)).unwrap(), air());
    assert_eq!(chunk.get(position).unwrap(), STONE);
    assert_eq!(chunk.non_air_count(), 1);
    assert!(chunk.is_dirty());
}

#[test]
fn negative_columns_address_their_own_blocks() {
    let mut chunk = chunk_at(-1, -1);
    let position = BlockPos::new(-1, 64, -1);
    assert_eq!(chunk.set(position, STONE, WorldTime(0)).unwrap(), air());
    assert_eq!(chunk.get(position).unwrap(), STONE);

    assert!(chunk.get(BlockPos::new(0, 64, 0)).is_err());
    assert!(chunk.set(BlockPos::new(0, 64, 0), STONE, WorldTime(0)).is_err());
}

#[test]
fn a_position_from_another_column_is_refused() {
    let mut chunk = chunk_at(0, 0);
    let err = chunk
        .set(inside(5, 5, 0, 64, 0), STONE, WorldTime(0))
        .expect_err("cross-column writes must be refused");
    assert_eq!(err.recovery(), Recovery::Reject);
    assert!(err.message().contains("different chunk column"), "{}", err.message());
}

#[test]
fn deep_and_high_sections_coexist_sparsely() {
    let mut chunk = chunk_at(0, 0);
    chunk.set(inside(0, 0, 0, -1900, 0), STONE, WorldTime(0)).unwrap();
    chunk.set(inside(0, 0, 0, 1900, 0), DIRT, WorldTime(0)).unwrap();

    assert_eq!(chunk.section_count(), 2);
    assert_eq!(chunk.get(inside(0, 0, 0, -1900, 0)).unwrap(), STONE);
    assert_eq!(chunk.get(inside(0, 0, 0, 1900, 0)).unwrap(), DIRT);
    assert_eq!(chunk.get(inside(0, 0, 0, 0, 0)).unwrap(), air());
}

#[test]
fn writing_air_into_empty_space_allocates_nothing() {
    let mut chunk = chunk_at(0, 0);
    assert_eq!(chunk.set(inside(0, 0, 1, 500, 1), air(), WorldTime(0)).unwrap(), air());
    assert_eq!(chunk.section_count(), 0);
    assert!(!chunk.is_dirty(), "a no-op write must not dirty the chunk");
}

#[test]
fn dirty_tracking_is_per_section() {
    let mut chunk = chunk_at(0, 0);
    chunk.set(inside(0, 0, 0, 0, 0), STONE, WorldTime(0)).unwrap();
    chunk.set(inside(0, 0, 0, 64, 0), STONE, WorldTime(0)).unwrap();

    assert_eq!(chunk.dirty_sections(), vec![0, 2]);

    chunk.mark_clean();
    assert!(!chunk.is_dirty());
    assert!(chunk.dirty_sections().is_empty());

    chunk.set(inside(0, 0, 1, 64, 1), DIRT, WorldTime(0)).unwrap();
    assert_eq!(chunk.dirty_sections(), vec![2], "only the touched section is dirty again");
}

#[test]
fn rewriting_the_same_state_does_not_dirty_or_journal() {
    let mut chunk = chunk_at(0, 0);
    let position = inside(0, 0, 2, 20, 2);
    chunk.set(position, STONE, WorldTime(1)).unwrap();
    chunk.mark_clean();
    chunk.take_journal();

    assert_eq!(chunk.set(position, STONE, WorldTime(2)).unwrap(), STONE);
    assert!(!chunk.is_dirty());
    assert!(chunk.journal().is_empty());
}

#[test]
fn the_journal_records_cause_and_effect() {
    let mut chunk = chunk_at(0, 0);
    let position = inside(0, 0, 4, 40, 4);

    chunk.set(position, STONE, WorldTime(100)).unwrap();
    chunk.set(position, DIRT, WorldTime(200)).unwrap();
    chunk.set(position, air(), WorldTime(300)).unwrap();

    let journal = chunk.journal();
    assert_eq!(journal.len(), 3);
    assert_eq!(
        journal[0],
        VoxelChange { position, previous: air(), next: STONE, at: WorldTime(100) }
    );
    assert_eq!(
        journal[1],
        VoxelChange { position, previous: STONE, next: DIRT, at: WorldTime(200) }
    );
    assert_eq!(
        journal[2],
        VoxelChange { position, previous: DIRT, next: air(), at: WorldTime(300) }
    );

    let drained = chunk.take_journal();
    assert_eq!(drained.len(), 3);
    assert!(chunk.journal().is_empty());
}

#[test]
fn the_journal_is_bounded_and_reports_what_it_dropped() {
    let mut chunk = chunk_at(0, 0);
    let position = inside(0, 0, 0, 0, 0);

    for tick in 0..(MAX_JOURNAL_ENTRIES as u64 + 50) {
        let state = if tick % 2 == 0 { STONE } else { DIRT };
        chunk.set(position, state, WorldTime(tick)).unwrap();
    }

    assert_eq!(chunk.journal().len(), MAX_JOURNAL_ENTRIES);
    assert_eq!(chunk.dropped_journal_entries(), 50);
    assert_eq!(
        chunk.journal().last().unwrap().at,
        WorldTime(MAX_JOURNAL_ENTRIES as u64 + 49)
    );
}

#[test]
fn lifecycle_transitions_follow_the_documented_flow() {
    let mut chunk = chunk_at(0, 0);
    for state in [
        ChunkState::Requested,
        ChunkState::Generating,
        ChunkState::Generated,
        ChunkState::Loaded,
        ChunkState::Active,
        ChunkState::Inactive,
        ChunkState::Unloading,
        ChunkState::Saved,
        ChunkState::Unloaded,
    ] {
        chunk
            .transition_to(state)
            .unwrap_or_else(|err| panic!("{state:?} rejected: {}", err.message()));
        assert_eq!(chunk.state(), state);
    }
}

#[test]
fn illegal_transitions_are_refused_with_both_states() {
    let mut chunk = chunk_at(0, 0);
    let err = chunk
        .transition_to(ChunkState::Active)
        .expect_err("an unloaded chunk cannot become active");
    assert!(err.message().contains("from=unloaded"), "{}", err.message());
    assert!(err.message().contains("to=active"), "{}", err.message());
    assert_eq!(chunk.state(), ChunkState::Unloaded, "a refused transition changes nothing");
}

#[test]
fn a_failed_chunk_must_be_reloaded_rather_than_resumed() {
    let mut chunk = chunk_at(0, 0);
    chunk.transition_to(ChunkState::Requested).unwrap();
    chunk.transition_to(ChunkState::Error).unwrap();

    assert!(!chunk.state().is_resident());
    assert!(chunk.transition_to(ChunkState::Active).is_err());
    assert!(chunk.transition_to(ChunkState::Loaded).is_err());
    chunk.transition_to(ChunkState::Unloaded).unwrap();
}

#[test]
fn putting_an_all_air_section_stores_absence() {
    let mut chunk = chunk_at(0, 0);
    let shape = ChunkShape::cubic_default();

    chunk.put_section(3, Section::uniform(shape, STONE));
    assert_eq!(chunk.section_count(), 1);

    chunk.put_section(3, Section::empty(shape));
    assert_eq!(chunk.section_count(), 0, "an air section is stored as absence");
}

#[test]
fn compaction_removes_sections_that_were_dug_out() {
    let mut chunk = chunk_at(0, 0);
    let position = inside(0, 0, 7, 7, 7);

    chunk.set(position, STONE, WorldTime(0)).unwrap();
    assert_eq!(chunk.section_count(), 1);

    chunk.set(position, air(), WorldTime(1)).unwrap();
    assert_eq!(chunk.section_count(), 1, "the section still exists until compaction");

    chunk.compact();
    assert_eq!(chunk.section_count(), 0);
    assert_eq!(chunk.storage_bytes(), 0);
    assert_eq!(chunk.non_air_count(), 0);
}

#[test]
fn state_names_are_stable_and_lowercase() {
    assert_eq!(ChunkState::Unloaded.as_str(), "unloaded");
    assert_eq!(ChunkState::Generating.as_str(), "generating");
    assert_eq!(ChunkState::Error.as_str(), "error");
    assert!(ChunkState::Loaded.is_resident());
    assert!(!ChunkState::Loading.is_resident());
}

#[test]
fn error_is_reachable_from_every_state() {
    for state in [
        ChunkState::Unloaded,
        ChunkState::Requested,
        ChunkState::Loading,
        ChunkState::Generating,
        ChunkState::Generated,
        ChunkState::Loaded,
        ChunkState::Active,
        ChunkState::Inactive,
        ChunkState::Unloading,
        ChunkState::Saved,
        ChunkState::Error,
    ] {
        assert!(state.can_transition_to(ChunkState::Error), "{state:?}");
    }
}

#[test]
fn an_illegal_transition_is_a_manual_problem() {
    let err = ChunkError::IllegalTransition { from: ChunkState::Unloaded, to: ChunkState::Active };
    assert_eq!(err.recovery(), Recovery::Manual);
    assert_eq!(err.message(), "illegal chunk state transition: from=unloaded to=active");
}
