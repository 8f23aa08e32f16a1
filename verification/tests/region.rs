use std::path::Path;

use nexora::chunk::Chunk;
use nexora::codec::Writer;
use nexora::container::SaveContainer;
use nexora::error::Recovery;
use nexora::ident::Identifier;
use nexora::region::{
    decimal, group_columns, merge_columns, parse_i64, parse_region_stem, region_columns,
    region_container, regions_from_names, should_write, split_columns, RegionError, RegionStore, Scope,
    WriteReport, HEADER_FILE, REGION_DIR, SAVE_EXTENSION, SECTION_REGION_SHAPE,
};
use nexora::spatial::{BlockPos, ChunkCoord, ChunkShape, RegionCoord, RegionShape};
use nexora::time::{CalendarConfig, WorldTime};
use nexora::voxel::BlockStateId;
use nexora::world::{World, WorldDescriptor};

/// Two columns per region, so a 3x3 world spans four regions instead of one.
fn small_regions() -> RegionShape {
    RegionShape::new(2).expect("two columns per region")
}

fn built_world(seed: u64) -> World {
    let mut world = World::create(
        WorldDescriptor::new("region-test", seed).expect("descriptor"),
        CalendarConfig::earthlike(),
    )
    .expect("world");
    world.bring_online().expect("online");
    for x in -1..=1 {
        for z in -1..=1 {
            world
                .load_or_generate(ChunkCoord::new(x, z))
                .expect("generate");
        }
    }
    world
}

fn block(world: &World, path: &str) -> BlockStateId {
    world
        .block_id(&Identifier::parse(path).expect("identifier"))
        .expect("registered")
}

fn names(raw: &[&str]) -> Vec<String> {
    raw.iter().map(|s| (*s).to_owned()).collect()
}

#[test]
fn a_region_address_survives_its_file_name_in_both_signs() {
    for region in [
        RegionCoord::new(0, 0),
        RegionCoord::new(-1, 2),
        RegionCoord::new(3, -4),
        RegionCoord::new(-5, -6),
        RegionCoord::new(i64::MIN, i64::MAX),
    ] {
        let store = RegionStore::new("root");
        let path = store.region_path(region);
        let stem = Path::new(&path)
            .file_stem()
            .and_then(|s| s.to_str())
            .expect("stem");
        assert_eq!(
            parse_region_stem(stem).expect("parses"),
            region,
            "round trip through {stem}"
        );
    }
}

#[test]
fn a_store_lays_its_files_out_under_its_root() {
    let store = RegionStore::with_shape("/saves/w", small_regions());
    assert_eq!(store.root(), "/saves/w");
    assert_eq!(store.shape(), small_regions());
    assert_eq!(store.header_path(), "/saves/w/world.nxsv");
    assert_eq!(
        store.region_path(RegionCoord::new(-1, 0)),
        "/saves/w/region/r.-1.0.nxsv"
    );
    assert_eq!(HEADER_FILE, "world.nxsv");
    assert_eq!(REGION_DIR, "region");
    assert_eq!(SAVE_EXTENSION, "nxsv");
    assert_eq!(RegionStore::new("x").shape(), RegionShape::default_shape());
}

#[test]
fn decimal_text_reads_back_at_both_ends_of_the_range() {
    for value in [0_i64, 7, -7, 10, -10, 1234567890, i64::MAX, i64::MIN] {
        assert_eq!(decimal(value), value.to_string());
        assert_eq!(parse_i64(&decimal(value)), Some(value));
    }
}

#[test]
fn signed_decimal_is_read_as_the_standard_library_reads_it() {
    for text in [
        "0", "+5", "-5", "007", "-0", "9223372036854775807", "-9223372036854775808",
        "9223372036854775808", "-9223372036854775809", "", "-", "+", "-+5", "+-5", "1.5", " 1",
        "١",
    ] {
        assert_eq!(parse_i64(text), text.parse::<i64>().ok(), "`{text}`");
    }
}

#[test]
fn a_stem_that_is_not_a_region_address_is_refused_naming_it() {
    for stem in ["notes", "r.1", "r.1.2.3", "r.x.0", "q.0.0", "r.", "r.1."] {
        let err = parse_region_stem(stem).expect_err(stem);
        assert_eq!(err, RegionError::NotARegionName { stem: stem.to_owned() });
        assert_eq!(err.recovery(), Recovery::Quarantine);
        assert!(err.message().contains(stem));
    }
    assert_eq!(parse_region_stem("r.-3.+4"), Ok(RegionCoord::new(-3, 4)));
}

#[test]
fn a_stray_save_file_among_the_region_names_is_reported() {
    let error = regions_from_names(&names(&["r.0.0.nxsv", "notes.nxsv"]))
        .expect_err("a save file that is not a region is a corrupt store");
    assert!(error.message().contains("notes"), "got: {}", error.message());
}

#[test]
fn a_quarantined_copy_among_the_region_names_is_not_a_region() {
    let listed = regions_from_names(&names(&[
        "r.0.0.nxsv",
        "r.0.0.nxsv.quarantine.0",
        "r.0.0.tmp",
        ".nxsv",
        "README",
    ]))
    .expect("list");
    assert_eq!(listed, vec![RegionCoord::new(0, 0)]);
}

#[test]
fn regions_on_disk_come_back_in_ascending_order() {
    let listed = regions_from_names(&names(&[
        "r.1.0.nxsv",
        "r.-1.5.nxsv",
        "r.0.0.nxsv",
        "r.-1.-5.nxsv",
        "r.1.0.nxsv",
    ]))
    .expect("list");
    assert_eq!(
        listed,
        vec![
            RegionCoord::new(-1, -5),
            RegionCoord::new(-1, 5),
            RegionCoord::new(0, 0),
            RegionCoord::new(1, 0),
            RegionCoord::new(1, 0),
        ]
    );
    assert_eq!(regions_from_names(&Vec::new()), Ok(Vec::new()));
}

#[test]
fn resident_columns_are_grouped_under_the_region_that_stores_them() {
    let store = RegionStore::with_shape("root", small_regions());
    let world = built_world(1);
    let grouped = store.group(&world);
    // Columns -1..=1 on each axis, two per region: -1 lands in region -1,
    // and 0 and 1 share region 0.
    let regions: Vec<RegionCoord> = grouped.iter().map(|g| g.0).collect();
    assert_eq!(
        regions,
        vec![
            RegionCoord::new(-1, -1),
            RegionCoord::new(-1, 0),
            RegionCoord::new(0, -1),
            RegionCoord::new(0, 0),
        ]
    );
    assert_eq!(grouped[0].1, vec![ChunkCoord::new(-1, -1)]);
    assert_eq!(
        grouped[3].1,
        vec![
            ChunkCoord::new(0, 0),
            ChunkCoord::new(0, 1),
            ChunkCoord::new(1, 0),
            ChunkCoord::new(1, 1),
        ]
    );
    let total: usize = grouped.iter().map(|g| g.1.len()).sum();
    assert_eq!(total, 9);
}

#[test]
fn grouping_keeps_the_order_it_was_given_within_a_region() {
    let coords = vec![
        ChunkCoord::new(3, 0),
        ChunkCoord::new(-4, 0),
        ChunkCoord::new(2, 1),
    ];
    let grouped = group_columns(small_regions(), &coords);
    assert_eq!(
        grouped,
        vec![
            (RegionCoord::new(-2, 0), vec![ChunkCoord::new(-4, 0)]),
            (
                RegionCoord::new(1, 0),
                vec![ChunkCoord::new(3, 0), ChunkCoord::new(2, 1)]
            ),
        ]
    );
    assert!(group_columns(small_regions(), &Vec::new()).is_empty());
}

#[test]
fn a_region_file_reads_back_its_columns_without_the_header() {
    let mut world = built_world(4);
    let stone = block(&world, "nexora:block/stone");
    world
        .set_block(BlockPos::new(-20, 64, -20), stone)
        .expect("edit");
    let held: Vec<Chunk> = vec![
        world.unload_chunk(ChunkCoord::new(-1, -1)).expect("resident"),
        world.unload_chunk(ChunkCoord::new(1, 1)).expect("resident"),
    ];
    let container = region_container(&world, &held).expect("container");
    let bytes = container.encode();
    let reread = SaveContainer::decode(&bytes).expect("decode");
    let columns = region_columns(&world, &reread).expect("columns");
    assert_eq!(columns.len(), 2);
    assert_eq!(columns[0].coord(), ChunkCoord::new(-1, -1));
    assert_eq!(columns[1].coord(), ChunkCoord::new(1, 1));
    assert_eq!(
        columns[0].get(BlockPos::new(-20, 64, -20)).expect("inside"),
        stone
    );
}

#[test]
fn a_region_file_without_its_columns_section_is_refused() {
    let world = built_world(5);
    let empty = SaveContainer::new();
    assert!(region_columns(&world, &empty).is_err());
}

#[test]
fn a_stored_column_merges_without_displacing_the_others() {
    let shape = built_world(0).descriptor().shape;
    let stored: Vec<Chunk> = (0..2)
        .flat_map(|x| (0..2).map(move |z| Chunk::new(ChunkCoord::new(x, z), shape)))
        .collect();
    let mut fresh = Chunk::new(ChunkCoord::new(1, 0), shape);
    fresh
        .set(BlockPos::new(40, 10, 3), BlockStateId(1), WorldTime(0))
        .expect("inside");
    let merged = merge_columns(vec![fresh], stored);
    let coords: Vec<ChunkCoord> = merged.iter().map(|c| c.coord()).collect();
    assert_eq!(
        coords,
        vec![
            ChunkCoord::new(0, 0),
            ChunkCoord::new(0, 1),
            ChunkCoord::new(1, 0),
            ChunkCoord::new(1, 1),
        ]
    );
    assert_eq!(
        merged[2].get(BlockPos::new(40, 10, 3)).expect("inside"),
        BlockStateId(1)
    );
}

#[test]
fn storing_a_column_twice_keeps_the_second_write() {
    let shape = built_world(0).descriptor().shape;
    let at = BlockPos::new(0, 10, 0);
    let mut first = Chunk::new(ChunkCoord::new(0, 0), shape);
    first.set(at, BlockStateId(1), WorldTime(0)).expect("inside");
    let mut second = Chunk::new(ChunkCoord::new(0, 0), shape);
    second.set(at, BlockStateId(2), WorldTime(0)).expect("inside");
    let merged = merge_columns(vec![first, second], Vec::new());
    assert_eq!(merged.len(), 1);
    assert_eq!(merged[0].get(at).expect("inside"), BlockStateId(2));
}

fn header_recording(columns: Option<&[u8]>) -> SaveContainer {
    let mut header = SaveContainer::new();
    if let Some(bytes) = columns {
        header.put(
            Identifier::parse(SECTION_REGION_SHAPE).expect("section name"),
            bytes.to_vec(),
        );
    }
    header
}

#[test]
fn reopening_with_a_different_region_extent_is_refused() {
    let grouped_by_two = RegionStore::with_shape("root", small_regions());
    let header = header_recording(Some(&grouped_by_two.encode_shape()));
    assert_eq!(grouped_by_two.compare_shape(&header), Ok(()));

    let default = RegionStore::new("root");
    let err = default
        .compare_shape(&header)
        .expect_err("a different extent is refused");
    assert_eq!(
        err,
        RegionError::ShapeMismatch {
            recorded: 2,
            opened_with: 32
        }
    );
    assert_eq!(err.recovery(), Recovery::Reject);

    // A header from before the section existed is accepted.
    assert_eq!(default.compare_shape(&header_recording(None)), Ok(()));
}

#[test]
fn a_recorded_extent_that_does_not_read_is_refused() {
    let store = RegionStore::new("root");
    assert!(matches!(
        store.compare_shape(&header_recording(Some(&[1, 2]))),
        Err(RegionError::Codec(_))
    ));
    let mut long = Writer::new();
    long.u32(32);
    long.u8(0);
    assert!(matches!(
        store.compare_shape(&header_recording(Some(&long.finish()))),
        Err(RegionError::Codec(_))
    ));
}

#[test]
fn a_changed_write_skips_only_unchanged_regions_that_have_a_file() {
    assert!(should_write(Scope::Everything, false, true));
    assert!(should_write(Scope::Changed, true, true));
    assert!(should_write(Scope::Changed, false, false));
    assert!(!should_write(Scope::Changed, false, true));
    let report = WriteReport {
        written: vec![RegionCoord::new(0, 0)],
        skipped: vec![RegionCoord::new(1, 0), RegionCoord::new(2, 0)],
        bytes: 10,
    };
    assert_eq!(report.regions(), 3);
}

#[test]
fn a_region_is_dirty_when_any_resident_column_of_it_changed() {
    let mut world = built_world(9);
    let columns = vec![ChunkCoord::new(-1, -1), ChunkCoord::new(0, -1), ChunkCoord::new(5, 5)];
    assert!(!world.any_dirty(&columns), "freshly generated columns are clean");
    let stone = block(&world, "nexora:block/stone");
    world.set_block(BlockPos::new(0, 64, -20), stone).expect("inside");
    assert!(world.any_dirty(&columns));
    assert!(!world.any_dirty(&vec![ChunkCoord::new(1, 1), ChunkCoord::new(5, 5)]), "an absent column is not dirty");
    assert!(!world.any_dirty(&vec![]));
}

#[test]
fn columns_split_by_membership_keep_their_order() {
    let chunk = |x: i64, z: i64| Chunk::new(ChunkCoord::new(x, z), ChunkShape::cubic_default());
    let pending = vec![chunk(0, 0), chunk(3, 3), chunk(1, 0), chunk(4, 4), chunk(0, 1)];
    let members = vec![ChunkCoord::new(0, 1), ChunkCoord::new(0, 0), ChunkCoord::new(1, 0)];
    let (inside, outside) = split_columns(pending, &members);
    let coords = |v: &Vec<Chunk>| v.iter().map(|c| c.coord()).collect::<Vec<_>>();
    assert_eq!(coords(&inside), vec![ChunkCoord::new(0, 0), ChunkCoord::new(1, 0), ChunkCoord::new(0, 1)]);
    assert_eq!(coords(&outside), vec![ChunkCoord::new(3, 3), ChunkCoord::new(4, 4)]);
}
