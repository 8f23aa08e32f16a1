use nexora::chunk::ChunkState;
use nexora::ident::Identifier;
use nexora::spatial::{BlockPos, ChunkCoord};
use nexora::time::{CalendarConfig, WorldTime};
use nexora::voxel::{air, BlockStateId};
use nexora::world::{
    World, WorldBounds, WorldDescriptor, WorldError, WorldPhase, CONTENT_VERSION,
    GENERATOR_VERSION, SOIL_DEPTH, TERRAIN_AMPLITUDE, TERRAIN_BASE_HEIGHT,
};

fn world(seed: u64) -> World {
    World::create(
        WorldDescriptor::new("test-world", seed).expect("descriptor"),
        CalendarConfig::earthlike(),
    )
    .expect("world")
}

fn block(world: &World, path: &str) -> BlockStateId {
    world
        .block_id(&Identifier::parse(path).expect("identifier"))
        .expect("registered block")
}

#[test]
fn air_is_pinned_to_runtime_id_zero() {
    let world = world(1);
    assert_eq!(block(&world, "nexora:block/air"), air());
}

#[test]
fn descriptors_reject_an_empty_name() {
    assert!(WorldDescriptor::new("", 1).is_err());
    assert!(WorldDescriptor::new("   ", 1).is_err());
    assert!(WorldDescriptor::new("valid", 1).is_ok());
}

#[test]
fn the_lifecycle_runs_forward_and_supports_suspend_resume() {
    let mut world = world(1);
    assert_eq!(world.phase(), WorldPhase::Requested);

    world.bring_online().unwrap();
    assert_eq!(world.phase(), WorldPhase::Active);

    world.transition_to(WorldPhase::Suspended).unwrap();
    world.transition_to(WorldPhase::Active).unwrap();
    world.transition_to(WorldPhase::Suspended).unwrap();
    world.transition_to(WorldPhase::Closed).unwrap();

    assert!(world.transition_to(WorldPhase::Active).is_err());
}

#[test]
fn phases_cannot_be_skipped() {
    let mut world = world(1);
    let err = world.transition_to(WorldPhase::Active).expect_err("must not skip");
    assert!(err.message().contains("from=Requested"), "{}", err.message());
}

#[test]
fn the_same_seed_generates_an_identical_chunk() {
    let first = world(0xC0FFEE);
    let second = world(0xC0FFEE);
    let coord = ChunkCoord::new(3, -5);

    let a = first.generate_chunk(coord).unwrap();
    let b = second.generate_chunk(coord).unwrap();
    assert_eq!(a, b, "the same seed must reproduce the same chunk");
}

#[test]
fn a_different_seed_generates_a_different_world() {
    let a = world(1).generate_chunk(ChunkCoord::new(0, 0)).unwrap();
    let b = world(2).generate_chunk(ChunkCoord::new(0, 0)).unwrap();
    assert_ne!(a, b);
}

#[test]
fn generation_is_order_independent() {
    let world = world(42);
    let target = ChunkCoord::new(0, 0);

    let alone = world.generate_chunk(target).unwrap();
    for neighbour in [ChunkCoord::new(1, 0), ChunkCoord::new(0, 1), ChunkCoord::new(-1, -1)] {
        let _ = world.generate_chunk(neighbour).unwrap();
    }
    let after_neighbours = world.generate_chunk(target).unwrap();

    assert_eq!(alone, after_neighbours);
}

#[test]
fn generated_terrain_has_the_expected_layering() {
    let world = world(99);
    let chunk = world.generate_chunk(ChunkCoord::new(0, 0)).unwrap();

    let surface = world.surface_height(0, 0);
    let grass = block(&world, "nexora:block/grass");
    let dirt = block(&world, "nexora:block/dirt");
    let stone = block(&world, "nexora:block/stone");

    assert_eq!(chunk.get(BlockPos::new(0, surface, 0)).unwrap(), grass);
    assert_eq!(chunk.get(BlockPos::new(0, surface - 1, 0)).unwrap(), dirt);
    assert_eq!(chunk.get(BlockPos::new(0, surface - SOIL_DEPTH - 1, 0)).unwrap(), stone);
    assert_eq!(chunk.get(BlockPos::new(0, surface + 1, 0)).unwrap(), air());
    assert_eq!(chunk.get(BlockPos::new(0, 1900, 0)).unwrap(), air());
}

#[test]
fn deep_underground_sections_cost_nothing_to_store() {
    let world = world(7);
    let chunk = world.generate_chunk(ChunkCoord::new(0, 0)).unwrap();

    let deep_section = (-1000i64).div_euclid(32);
    let section = chunk.section(deep_section).expect("deep sections exist");
    assert_eq!(section.storage_bytes(), 0);
    assert_eq!(section.uniform_state(), Some(block(&world, "nexora:block/stone")));
}

#[test]
fn terrain_stays_inside_its_amplitude() {
    let world = world(31_337);
    for x in -50..50i64 {
        for z in -50..50i64 {
            let height = world.surface_height(x, z);
            assert!(
                (TERRAIN_BASE_HEIGHT - TERRAIN_AMPLITUDE..=TERRAIN_BASE_HEIGHT + TERRAIN_AMPLITUDE)
                    .contains(&height),
                "height {height} at ({x},{z}) escaped the amplitude"
            );
        }
    }
}

#[test]
fn reading_and_writing_requires_a_resident_chunk() {
    let mut world = world(5);
    world.bring_online().unwrap();
    let position = BlockPos::new(4, 70, 4);
    let stone = block(&world, "nexora:block/stone");

    assert!(world.get_block(position).is_err(), "no chunk is loaded yet");
    assert!(world.set_block(position, stone).is_err());

    world.load_or_generate(ChunkCoord::new(0, 0)).unwrap();
    world.set_block(position, stone).unwrap();
    assert_eq!(world.get_block(position).unwrap(), stone);
}

#[test]
fn writing_outside_the_vertical_bounds_is_refused() {
    let mut world = world(5);
    world.bring_online().unwrap();
    world.load_or_generate(ChunkCoord::new(0, 0)).unwrap();
    let stone = block(&world, "nexora:block/stone");

    let err = world
        .set_block(BlockPos::new(0, 5_000, 0), stone)
        .expect_err("above the ceiling must be refused");
    assert!(err.message().contains("vertical bounds"), "{}", err.message());
    assert!(world.set_block(BlockPos::new(0, -5_000, 0), stone).is_err());
}

#[test]
fn unloading_returns_the_chunk_rather_than_discarding_edits() {
    let mut world = world(5);
    world.bring_online().unwrap();
    world.load_or_generate(ChunkCoord::new(0, 0)).unwrap();
    let stone = block(&world, "nexora:block/stone");
    world.set_block(BlockPos::new(1, 100, 1), stone).unwrap();

    let unloaded = world.unload_chunk(ChunkCoord::new(0, 0)).expect("chunk was resident");
    assert!(unloaded.is_dirty(), "the caller receives the unsaved edits");
    assert_eq!(world.chunk_count(), 0);
}

#[test]
fn block_identifiers_round_trip_through_state_ids() {
    let world = world(1);
    for path in ["nexora:block/air", "nexora:block/stone", "nexora:block/dirt", "nexora:block/grass"]
    {
        let id = Identifier::parse(path).unwrap();
        let state = world.block_id(&id).unwrap();
        assert_eq!(world.block_identifier(state), Some(id));
    }
    assert!(world.block_id(&Identifier::parse("example:block/ruby").unwrap()).is_err());
}

#[test]
fn world_bounds_are_validated() {
    assert!(WorldBounds { min_y: 10, max_y: 10 }.validate().is_err());
    assert!(WorldBounds { min_y: 10, max_y: -10 }.validate().is_err());
    assert!(WorldBounds::default_bounds().validate().is_ok());
    assert!(WorldBounds::default_bounds().contains_y(0));
    assert!(!WorldBounds::default_bounds().contains_y(100_000));
}

#[test]
fn every_generated_block_is_the_layering_of_its_column() {
    let world = world(2024);
    let coord = ChunkCoord::new(-2, 1);
    let chunk = world.generate_chunk(coord).unwrap();
    assert_eq!(chunk.state(), ChunkState::Loaded);
    assert!(!chunk.is_dirty());
    assert!(chunk.journal().is_empty());
    for (x, z) in [(-64, 32), (-33, 63), (-50, 40)] {
        for y in [-1920, -1000, 0, 40, 51, 52, 60, 64, 70, 76, 77, 100, 1919] {
            let position = BlockPos::new(x, y, z);
            assert_eq!(
                chunk.get(position).unwrap(),
                world.terrain_block(position),
                "({x},{y},{z})"
            );
        }
    }
}

#[test]
fn a_resumed_world_keeps_the_persisted_time() {
    let descriptor = WorldDescriptor::new("resumed", 9).unwrap();
    let world = World::resumed(descriptor, CalendarConfig::earthlike(), WorldTime(1234)).unwrap();
    assert_eq!(world.clock().now(), WorldTime(1234));
    assert_eq!(world.phase(), WorldPhase::Requested);
}

#[test]
fn a_write_is_journalled_at_the_world_clock() {
    let mut world = world(5);
    world.bring_online().unwrap();
    world.load_or_generate(ChunkCoord::new(0, 0)).unwrap();
    world.clock_mut().advance_by(nexora::time::TimeScale::Second, 3).unwrap();
    let stone = block(&world, "nexora:block/stone");
    let previous = world.set_block(BlockPos::new(2, 200, 2), stone).unwrap();
    assert_eq!(previous, air());
    let chunk = world.chunk(ChunkCoord::new(0, 0)).unwrap();
    let last = chunk.journal().last().copied().unwrap();
    assert_eq!(last.at, WorldTime(60));
    assert_eq!(last.next, stone);
}

#[test]
fn a_chunk_that_is_not_writable_refuses_writes() {
    let mut world = world(5);
    let mut chunk = world.generate_chunk(ChunkCoord::new(0, 0)).unwrap();
    chunk.transition_to(ChunkState::Unloading).unwrap();
    world.insert_chunk(chunk);
    let err = world.set_block(BlockPos::new(1, 10, 1), air()).unwrap_err();
    assert_eq!(
        err,
        WorldError::NotWritable { chunk: ChunkCoord::new(0, 0), state: ChunkState::Unloading }
    );
    assert!(err.message().contains("writable"));
}

#[test]
fn a_closed_world_is_finished_and_bring_online_leaves_it() {
    let mut world = world(3);
    world.bring_online().unwrap();
    world.transition_to(WorldPhase::Closed).unwrap();
    world.bring_online().unwrap();
    assert_eq!(world.phase(), WorldPhase::Closed);
}

#[test]
fn the_world_identity_is_a_function_of_name_and_seed() {
    let a = WorldDescriptor::new("alpha", 1).unwrap();
    let b = WorldDescriptor::new("alpha", 1).unwrap();
    let c = WorldDescriptor::new("alpha", 2).unwrap();
    assert_eq!(a.id, b.id);
    assert_ne!(a.id, c.id);
}

#[test]
fn loaded_chunks_are_listed_in_column_order() {
    let mut world = world(8);
    for coord in [ChunkCoord::new(2, 0), ChunkCoord::new(-1, 5), ChunkCoord::new(0, 0)] {
        world.load_or_generate(coord).unwrap();
    }
    assert_eq!(
        world.loaded_chunks(),
        vec![ChunkCoord::new(-1, 5), ChunkCoord::new(0, 0), ChunkCoord::new(2, 0)]
    );
    assert_eq!(world.chunk_count(), 3);
    assert!(world.storage_bytes() > 0);
}

#[test]
fn a_resident_chunk_can_be_borrowed_mutably() {
    let mut world = world(5);
    world.bring_online().expect("online");
    world.load_or_generate(ChunkCoord::new(0, 0)).expect("generated");
    let stone = block(&world, "nexora:block/stone");
    world.set_block(BlockPos::new(1, 150, 1), stone).expect("written");
    assert!(world.chunk(ChunkCoord::new(0, 0)).unwrap().is_dirty());

    world
        .chunk_mut(ChunkCoord::new(0, 0))
        .expect("resident")
        .mark_clean();
    assert!(!world.chunk(ChunkCoord::new(0, 0)).unwrap().is_dirty());
    assert_eq!(world.get_block(BlockPos::new(1, 150, 1)).unwrap(), stone);
    assert!(world.chunk_mut(ChunkCoord::new(4, 4)).is_none());
}

#[test]
fn sections_below_the_soil_are_stored_as_uniform_stone_that_costs_nothing() {
    let world = world(7);
    let chunk = world.generate_chunk(ChunkCoord::new(0, 0)).expect("generated");
    let shape = world.descriptor().shape;
    let min_y = world.descriptor().bounds.min_y;
    let lowest_soil = TERRAIN_BASE_HEIGHT - TERRAIN_AMPLITUDE - SOIL_DEPTH;
    let first = min_y.div_euclid(shape.size_y() as i64);
    let mut deep = 0;
    for y in first.. {
        let top = y * shape.size_y() as i64 + shape.size_y() as i64 - 1;
        if top >= lowest_soil {
            break;
        }
        let section = chunk.section(y).expect("deep sections are stored");
        assert_eq!(section.uniform_state(), Some(block(&world, "nexora:block/stone")));
        assert_eq!(section.storage_bytes(), 0);
        deep += 1;
    }
    assert!(deep > 0);
}

#[test]
fn the_reproduction_key_pins_the_generator_version() {
    let descriptor = WorldDescriptor::new("key", 11).unwrap();
    let key = descriptor.reproduction_key();
    assert_eq!(key.world_seed, 11);
    assert_eq!(key.generator_version, GENERATOR_VERSION);
    assert_eq!(key.content_version, CONTENT_VERSION);
    assert!(key.mods.is_empty());
}

#[test]
fn worlds_of_other_names_and_one_seed_store_generated_sections_alike() {
    let named = |name: &str| {
        World::create(WorldDescriptor::new(name, 77).expect("descriptor"), CalendarConfig::earthlike())
            .expect("world")
    };
    let first = named("north");
    let second = named("south");
    for warm_up in [ChunkCoord::new(5, 5), ChunkCoord::new(-2, 1)] {
        let _ = first.generate_chunk(warm_up).unwrap();
    }
    let coord = ChunkCoord::new(2, -3);
    let a = first.generate_chunk(coord).unwrap();
    let b = second.generate_chunk(coord).unwrap();
    assert_eq!(a.section_indices(), b.section_indices());
    for y in a.section_indices() {
        let (sa, sb) = (a.section(y).unwrap(), b.section(y).unwrap());
        assert_eq!(sa.to_parts(), sb.to_parts(), "section {y}");
        assert_eq!(sa.storage_kind(), sb.storage_kind());
    }
    assert_eq!(a.storage_bytes(), b.storage_bytes());
}
