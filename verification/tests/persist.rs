use nexora::codec::Writer;
use nexora::container::SaveContainer;
use nexora::error::Recovery;
use nexora::ident::Identifier;
use nexora::persist::{
    decode_chunks, decode_header, decode_palette, encode_chunks, encode_header, encode_palette,
    load, save, PersistError, SECTION_BLOCK_PALETTE, SECTION_CHUNKS, SECTION_WORLD_HEADER,
    TAG_DIRECT, TAG_PALETTED, TAG_UNIFORM,
};
use nexora::chunk::ChunkState;
use nexora::spatial::{BlockPos, ChunkCoord};
use nexora::time::{CalendarConfig, TimeScale, WorldTime};
use nexora::voxel::{air, BlockStateId};
use nexora::world::{World, WorldDescriptor, WorldPhase};

fn section_id(raw: &str) -> Identifier {
    Identifier::parse(raw).unwrap()
}

fn built_world(seed: u64) -> World {
    let mut world = World::create(
        WorldDescriptor::new("persistence-test", seed).unwrap(),
        CalendarConfig::earthlike(),
    )
    .unwrap();
    world.bring_online().unwrap();
    for x in -1..=1 {
        for z in -1..=1 {
            world.load_or_generate(ChunkCoord::new(x, z)).unwrap();
        }
    }
    world
}

fn block(world: &World, path: &str) -> BlockStateId {
    world.block_id(&Identifier::parse(path).unwrap()).unwrap()
}

fn earthlike_header(descriptor: &WorldDescriptor, now: u64) -> Writer {
    let calendar = CalendarConfig::earthlike();
    let mut header = Writer::new();
    header.u64(descriptor.id.0);
    header.string(&descriptor.name);
    header.u64(descriptor.seed);
    header.u32(descriptor.generator_version);
    header.u32(descriptor.shape.size_x());
    header.u32(descriptor.shape.size_y());
    header.u32(descriptor.shape.size_z());
    header.i64(descriptor.bounds.min_y);
    header.i64(descriptor.bounds.max_y);
    header.u64(now);
    header.u32(calendar.ticks_per_second());
    header.u32(calendar.seconds_per_minute());
    header.u32(calendar.minutes_per_hour());
    header.u32(calendar.hours_per_day());
    header.u32(calendar.days_per_month());
    header.u32(calendar.months_per_year());
    header.u32(calendar.seasons_per_year());
    header
}

#[test]
fn a_world_survives_a_save_and_load_cycle() {
    let mut original = built_world(0xBEEF);
    original
        .clock_mut()
        .advance_by(TimeScale::Hour, 30)
        .unwrap();

    let stone = block(&original, "nexora:block/stone");
    let edits = [
        (BlockPos::new(5, 200, 5), stone),
        (BlockPos::new(-20, 64, -20), air()),
        (
            BlockPos::new(31, 100, 31),
            block(&original, "nexora:block/grass"),
        ),
    ];
    for (position, state) in edits {
        original.set_block(position, state).unwrap();
    }

    let container = save(&original).unwrap();
    let encoded = container.encode();
    let restored = load(&SaveContainer::decode(&encoded).unwrap()).unwrap();

    assert_eq!(restored.descriptor(), original.descriptor());
    assert_eq!(restored.clock().now(), original.clock().now());
    assert_eq!(restored.chunk_count(), original.chunk_count());

    for (position, expected) in edits {
        assert_eq!(
            restored.get_block(position).unwrap(),
            expected,
            "at {position:?}"
        );
    }
}

#[test]
fn every_generated_block_survives_the_round_trip() {
    let original = built_world(1234);
    let restored = load(&save(&original).unwrap()).unwrap();

    // Sample the full vertical range of one column plus the chunk corners.
    for coord in original.loaded_chunks() {
        for (dx, dz) in [(0i64, 0i64), (31, 31), (0, 31), (31, 0), (16, 16)] {
            let x = coord.x * 32 + dx;
            let z = coord.z * 32 + dz;
            for y in [-1920, -1000, -33, -1, 0, 50, 64, 76, 200, 1900] {
                let position = BlockPos::new(x, y, z);
                assert_eq!(
                    restored.get_block(position).unwrap(),
                    original.get_block(position).unwrap(),
                    "block at {position:?} changed across the round trip"
                );
            }
        }
    }
}

#[test]
fn a_restored_world_resumes_rather_than_restarts() {
    let mut original = built_world(9);
    original.clock_mut().advance_by(TimeScale::Day, 3).unwrap();
    original.transition_to(WorldPhase::Suspended).unwrap();

    let restored = load(&save(&original).unwrap()).unwrap();
    // The same calendar at the same tick is the same date.
    assert_eq!(restored.clock().calendar(), original.clock().calendar());
    assert_eq!(restored.clock().now(), original.clock().now());
    assert_ne!(restored.clock().now(), WorldTime::epoch());
    // Lifecycle phase is runtime state, not saved state: a loaded world
    // starts at the beginning of its lifecycle with its data intact.
    assert_eq!(restored.phase(), WorldPhase::Requested);
}

#[test]
fn saved_chunks_come_back_clean_and_loaded() {
    let mut original = built_world(3);
    original
        .set_block(
            BlockPos::new(0, 150, 0),
            block(&original, "nexora:block/dirt"),
        )
        .unwrap();
    assert!(original.chunk(ChunkCoord::new(0, 0)).unwrap().is_dirty());

    let restored = load(&save(&original).unwrap()).unwrap();
    let chunk = restored.chunk(ChunkCoord::new(0, 0)).unwrap();
    assert_eq!(chunk.state(), ChunkState::Loaded);
    assert!(
        !chunk.is_dirty(),
        "a freshly loaded chunk has nothing to write back"
    );
    assert!(chunk.journal().is_empty());
}

#[test]
fn chunk_data_is_remapped_through_identifiers_not_runtime_ids() {
    // The save below lists its palette in a different order from the
    // registry, so index 0 means stone rather than air. If loading trusted
    // the integers, the block would come back as air.
    let descriptor = WorldDescriptor::new("remap-test", 5).unwrap();
    let header = earthlike_header(&descriptor, 0);

    // Deliberately permuted relative to registration order.
    let mut palette = Writer::new();
    palette.u32(4);
    for name in [
        "nexora:block/stone",
        "nexora:block/grass",
        "nexora:block/air",
        "nexora:block/dirt",
    ] {
        palette.string(name);
    }

    // One chunk, one uniform section holding saved index 0 == stone.
    let mut chunks = Writer::new();
    chunks.u32(1);
    chunks.i64(0);
    chunks.i64(0);
    chunks.u32(1);
    chunks.i64(2);
    chunks.u8(TAG_UNIFORM);
    chunks.u32(0);

    let mut container = SaveContainer::new();
    container.put(section_id(SECTION_WORLD_HEADER), header.finish());
    container.put(section_id(SECTION_BLOCK_PALETTE), palette.finish());
    container.put(section_id(SECTION_CHUNKS), chunks.finish());

    let world = load(&container).unwrap();
    let stone = block(&world, "nexora:block/stone");
    assert_ne!(
        stone,
        air(),
        "the test is meaningless if stone is already id 0"
    );
    assert_eq!(
        world.get_block(BlockPos::new(0, 64, 0)).unwrap(),
        stone,
        "saved index 0 must resolve through the identifier, not the integer"
    );
}

#[test]
fn a_save_naming_absent_content_is_refused_with_the_name() {
    let original = built_world(2);
    let mut container = save(&original).unwrap();

    // Rewrite the palette to name a block this build does not have.
    let mut palette = Writer::new();
    palette.u32(4);
    for name in [
        "nexora:block/air",
        "example:block/ruby_ore",
        "nexora:block/dirt",
        "nexora:block/grass",
    ] {
        palette.string(name);
    }
    container.put(section_id(SECTION_BLOCK_PALETTE), palette.finish());

    let err = load(&container).expect_err("missing content must not load silently");
    assert_eq!(err.recovery(), Recovery::Quarantine);
    assert!(
        err.message().contains("example:block/ruby_ore"),
        "{}",
        err.message()
    );
}

#[test]
fn a_missing_section_is_refused() {
    let original = built_world(2);
    let full = save(&original).unwrap();

    for missing in [SECTION_WORLD_HEADER, SECTION_BLOCK_PALETTE, SECTION_CHUNKS] {
        let mut container = SaveContainer::new();
        for name in full.section_names() {
            if name.as_str() == missing {
                continue;
            }
            container.put(name.duplicate(), full.get(&name).unwrap().to_vec());
        }
        assert!(
            load(&container).is_err(),
            "loading without {missing} must fail"
        );
    }
}

#[test]
fn an_unknown_storage_tag_is_refused() {
    let original = built_world(2);
    let mut container = save(&original).unwrap();

    let mut chunks = Writer::new();
    chunks.u32(1);
    chunks.i64(0);
    chunks.i64(0);
    chunks.u32(1);
    chunks.i64(0);
    chunks.u8(99);
    container.put(section_id(SECTION_CHUNKS), chunks.finish());

    let err = load(&container).expect_err("an unknown tag must be refused");
    assert!(err.message().contains("storage tag"), "{}", err.message());
}

#[test]
fn an_empty_world_round_trips() {
    let world = World::create(
        WorldDescriptor::new("empty", 1).unwrap(),
        CalendarConfig::earthlike(),
    )
    .unwrap();
    let restored = load(&save(&world).unwrap()).unwrap();
    assert_eq!(restored.chunk_count(), 0);
    assert_eq!(restored.descriptor(), world.descriptor());
}

#[test]
fn a_missing_section_names_itself() {
    let original = built_world(4);
    let full = save(&original).unwrap();
    let mut container = SaveContainer::new();
    for name in full.section_names() {
        if name.as_str() != SECTION_CHUNKS {
            container.put(name.duplicate(), full.get(&name).unwrap().to_vec());
        }
    }
    let err = load(&container).expect_err("chunk data is required");
    assert_eq!(
        err,
        PersistError::MissingSection {
            name: SECTION_CHUNKS.to_owned()
        }
    );
    assert!(err.message().contains(SECTION_CHUNKS));
}

#[test]
fn a_container_reads_back_from_its_bytes() {
    let mut container = SaveContainer::new();
    container.put(section_id("test:one"), vec![1, 2, 3]);
    container.put(section_id("test:two"), vec![]);
    container.put(section_id("test:one"), vec![9]);
    let bytes = container.encode();
    let back = SaveContainer::decode(&bytes).unwrap();
    let names: Vec<String> = back
        .section_names()
        .iter()
        .map(|n| n.as_str().to_owned())
        .collect();
    assert_eq!(names, vec!["test:one".to_owned(), "test:two".to_owned()]);
    assert_eq!(back.get(&section_id("test:one")).unwrap(), &[9u8][..]);
    assert_eq!(back.get(&section_id("test:two")).unwrap(), &[] as &[u8]);
    assert!(back.get(&section_id("test:three")).is_none());
}

#[test]
fn a_container_has_a_fixed_layout() {
    let mut container = SaveContainer::new();
    container.put(section_id("a:b"), vec![7]);
    assert_eq!(
        container.encode(),
        vec![
            0x4e, 0x58, 0x53, 0x56, // mark
            1, 0, 0, 0, // format version
            1, 0, 0, 0, // one section
            3, 0, 0, 0, b'a', b':', b'b', // its name
            1, 0, 0, 0, 7, // its bytes
        ]
    );
}

#[test]
fn bytes_without_the_mark_are_not_a_save() {
    assert_eq!(
        SaveContainer::decode(&[1, 2, 3, 4, 5]).unwrap_err(),
        PersistError::NotASave
    );
    assert_eq!(SaveContainer::decode(&[]).unwrap_err(), PersistError::NotASave);
}

#[test]
fn an_unknown_format_version_is_refused() {
    let mut bytes = SaveContainer::new().encode();
    bytes[4] = 2;
    assert_eq!(
        SaveContainer::decode(&bytes).unwrap_err(),
        PersistError::UnsupportedFormat { version: 2 }
    );
}

#[test]
fn a_container_with_trailing_bytes_is_refused() {
    let mut bytes = SaveContainer::new().encode();
    bytes.push(0);
    assert!(matches!(
        SaveContainer::decode(&bytes),
        Err(PersistError::Codec(_))
    ));
}

#[test]
fn a_header_reads_back_what_it_wrote() {
    let mut world = built_world(77);
    world.clock_mut().advance_by(TimeScale::Minute, 5).unwrap();
    let bytes = encode_header(&world);
    let (descriptor, calendar, now) = decode_header(&bytes).unwrap();
    assert_eq!(&descriptor, world.descriptor());
    assert_eq!(calendar, CalendarConfig::earthlike());
    assert_eq!(now, world.clock().now());
    assert_eq!(now.ticks(), 5 * 60 * 20);
}

#[test]
fn a_header_with_a_zero_edge_is_refused() {
    let descriptor = WorldDescriptor::new("edges", 1).unwrap();
    let mut header = Writer::new();
    header.u64(descriptor.id.0);
    header.string(&descriptor.name);
    header.u64(descriptor.seed);
    header.u32(descriptor.generator_version);
    header.u32(32);
    header.u32(0);
    header.u32(32);
    assert!(matches!(
        decode_header(&header.finish()),
        Err(PersistError::Spatial(_))
    ));
}

#[test]
fn a_header_with_inverted_bounds_is_refused() {
    let mut descriptor = WorldDescriptor::new("bounds", 1).unwrap();
    descriptor.bounds.min_y = 10;
    descriptor.bounds.max_y = 10;
    let header = earthlike_header(&descriptor, 0);
    assert!(matches!(
        decode_header(&header.finish()),
        Err(PersistError::World(_))
    ));
}

#[test]
fn a_palette_lists_the_registry_in_runtime_id_order() {
    let world = built_world(1);
    let palette = decode_palette(&encode_palette(&world)).unwrap();
    let names: Vec<&str> = palette.iter().map(|id| id.as_str()).collect();
    assert_eq!(
        names,
        vec![
            "nexora:block/air",
            "nexora:block/stone",
            "nexora:block/dirt",
            "nexora:block/grass"
        ]
    );
}

#[test]
fn a_palette_entry_that_is_not_an_identifier_is_refused() {
    let mut palette = Writer::new();
    palette.u32(1);
    palette.string("Not An Identifier");
    assert!(matches!(
        decode_palette(&palette.finish()),
        Err(PersistError::Ident(_))
    ));
}

#[test]
fn chunk_data_reads_back_under_the_identity_table() {
    let world = built_world(5);
    let bytes = encode_chunks(&world);
    let table = vec![
        BlockStateId(0),
        BlockStateId(1),
        BlockStateId(2),
        BlockStateId(3),
    ];
    let chunks = decode_chunks(&bytes, world.descriptor().shape, &table).unwrap();
    assert_eq!(chunks.len(), world.chunk_count());
    for (decoded, original) in chunks.iter().zip(world.chunk_list()) {
        assert_eq!(decoded.coord(), original.coord());
        assert_eq!(decoded.section_indices(), original.section_indices());
        assert_eq!(decoded.state(), ChunkState::Loaded);
    }
}

#[test]
fn a_direct_section_of_the_wrong_size_is_refused() {
    let world = built_world(5);
    let mut chunks = Writer::new();
    chunks.u32(1);
    chunks.i64(0);
    chunks.i64(0);
    chunks.u32(1);
    chunks.i64(0);
    chunks.u8(TAG_DIRECT);
    chunks.u32(3);
    let err = decode_chunks(&chunks.finish(), world.descriptor().shape, &vec![BlockStateId(0)])
        .unwrap_err();
    assert_eq!(
        err,
        PersistError::ShapeMismatch {
            expected: 32 * 32 * 32,
            found: 3
        }
    );
}

#[test]
fn a_palette_index_past_the_save_palette_is_refused() {
    let world = built_world(5);
    let mut chunks = Writer::new();
    chunks.u32(1);
    chunks.i64(0);
    chunks.i64(0);
    chunks.u32(1);
    chunks.i64(0);
    chunks.u8(TAG_UNIFORM);
    chunks.u32(7);
    let err = decode_chunks(&chunks.finish(), world.descriptor().shape, &vec![BlockStateId(0)])
        .unwrap_err();
    assert_eq!(
        err,
        PersistError::UnknownPaletteIndex {
            index: 7,
            palette_len: 1
        }
    );
    assert_eq!(err.recovery(), Recovery::Quarantine);
}

#[test]
fn a_paletted_section_with_bad_metadata_is_refused() {
    let world = built_world(5);
    let mut chunks = Writer::new();
    chunks.u32(1);
    chunks.i64(0);
    chunks.i64(0);
    chunks.u32(1);
    chunks.i64(0);
    chunks.u8(TAG_PALETTED);
    chunks.u32(0);
    chunks.u8(0);
    chunks.u32(0);
    assert!(matches!(
        decode_chunks(&chunks.finish(), world.descriptor().shape, &vec![BlockStateId(0)]),
        Err(PersistError::Voxel(_))
    ));
}

#[test]
fn truncated_chunk_data_is_refused() {
    let world = built_world(5);
    let mut bytes = encode_chunks(&world);
    bytes.truncate(bytes.len() - 1);
    let table = vec![BlockStateId(0), BlockStateId(1), BlockStateId(2), BlockStateId(3)];
    assert!(matches!(
        decode_chunks(&bytes, world.descriptor().shape, &table),
        Err(PersistError::Codec(_))
    ));
}

#[test]
fn a_header_with_a_zero_calendar_field_is_refused() {
    let descriptor = WorldDescriptor::new("calendar", 1).unwrap();
    let mut header = Writer::new();
    header.u64(descriptor.id.0);
    header.string(&descriptor.name);
    header.u64(descriptor.seed);
    header.u32(descriptor.generator_version);
    header.u32(32);
    header.u32(32);
    header.u32(32);
    header.i64(-10);
    header.i64(10);
    header.u64(0);
    for field in [20u32, 60, 0, 24, 30, 12, 4] {
        header.u32(field);
    }
    assert!(matches!(
        decode_header(&header.finish()),
        Err(PersistError::Time(_))
    ));
}

#[test]
fn packed_indices_past_the_section_palette_read_as_air() {
    let world = built_world(5);
    let mut chunks = Writer::new();
    chunks.u32(1);
    chunks.i64(0);
    chunks.i64(0);
    chunks.u32(1);
    chunks.i64(0);
    chunks.u8(TAG_PALETTED);
    chunks.u32(1);
    chunks.u32(1);
    chunks.u8(1);
    // One bit per cell over 32 * 32 * 32 cells is 512 words; the first
    // cell names palette index 1 of a palette of one.
    chunks.u32(512);
    chunks.u64(1);
    for _ in 1..512 {
        chunks.u64(0);
    }
    let decoded = decode_chunks(
        &chunks.finish(),
        world.descriptor().shape,
        &vec![BlockStateId(0), BlockStateId(1)],
    )
    .expect("a stale index is read, not refused");
    assert_eq!(decoded.len(), 1);
    assert_eq!(decoded[0].get(BlockPos::new(0, 0, 0)).expect("inside"), BlockStateId(0));
    assert_eq!(decoded[0].get(BlockPos::new(5, 5, 5)).expect("inside"), BlockStateId(1));
}
