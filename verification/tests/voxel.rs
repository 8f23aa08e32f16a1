use nexora::spatial::{ChunkShape, LocalPos};
use nexora::voxel::{
    air, bits_for, read_packed, word_count, write_packed, BlockStateId, Section, SectionParts,
    StorageKind, MAX_PALETTE_BITS, MAX_PALETTE_LEN,
};

const STONE: BlockStateId = BlockStateId(1);
const DIRT: BlockStateId = BlockStateId(2);
const GRASS: BlockStateId = BlockStateId(3);

fn shape() -> ChunkShape {
    ChunkShape::cubic_default()
}

#[test]
fn an_empty_section_costs_nothing_to_store() {
    let section = Section::empty(shape());
    assert_eq!(section.storage_kind(), StorageKind::Uniform);
    assert_eq!(section.storage_bytes(), 0, "an all-air section must not allocate cells");
    assert!(section.is_empty());
    assert_eq!(section.non_air_count(), 0);
    assert_eq!(section.get(LocalPos::new(5, 5, 5)).unwrap(), air());
}

#[test]
fn writing_the_same_state_keeps_the_section_uniform() {
    let mut section = Section::uniform(shape(), STONE);
    section.set(LocalPos::new(1, 2, 3), STONE).unwrap();
    assert_eq!(section.storage_kind(), StorageKind::Uniform);
    assert_eq!(section.non_air_count(), shape().volume() as u32);
}

#[test]
fn the_first_differing_write_grows_a_palette() {
    let mut section = Section::empty(shape());
    let previous = section.set(LocalPos::new(0, 0, 0), STONE).unwrap();

    assert_eq!(previous, air());
    assert_eq!(section.storage_kind(), StorageKind::Paletted);
    assert_eq!(section.get(LocalPos::new(0, 0, 0)).unwrap(), STONE);
    assert_eq!(section.get(LocalPos::new(0, 0, 1)).unwrap(), air());
    assert_eq!(section.non_air_count(), 1);
}

#[test]
fn every_cell_is_independently_addressable() {
    let shape = ChunkShape::new(7, 5, 13).unwrap();
    let mut section = Section::empty(shape);
    let mut expected = Vec::new();

    for y in 0..shape.size_y() {
        for z in 0..shape.size_z() {
            for x in 0..shape.size_x() {
                let state = BlockStateId((x + y * 3 + z * 7) % 11);
                section.set(LocalPos::new(x, y, z), state).unwrap();
                expected.push((LocalPos::new(x, y, z), state));
            }
        }
    }

    for (local, state) in expected {
        assert_eq!(section.get(local).unwrap(), state, "cell {local:?} was clobbered");
    }
}

#[test]
fn the_palette_widens_as_states_accumulate() {
    let mut section = Section::empty(shape());
    section.set(LocalPos::new(0, 0, 0), STONE).unwrap();
    section.set(LocalPos::new(1, 0, 0), DIRT).unwrap();
    section.set(LocalPos::new(2, 0, 0), GRASS).unwrap();
    for extra in 4..40u32 {
        section.set(LocalPos::new(extra % 32, 1, 0), BlockStateId(extra)).unwrap();
    }

    assert_eq!(section.get(LocalPos::new(0, 0, 0)).unwrap(), STONE);
    assert_eq!(section.get(LocalPos::new(1, 0, 0)).unwrap(), DIRT);
    assert_eq!(section.get(LocalPos::new(2, 0, 0)).unwrap(), GRASS);
    assert_eq!(section.storage_kind(), StorageKind::Paletted);
}

#[test]
fn bit_widths_cover_their_palette_size() {
    assert_eq!(bits_for(1), 1);
    assert_eq!(bits_for(2), 1);
    assert_eq!(bits_for(3), 2);
    assert_eq!(bits_for(4), 2);
    assert_eq!(bits_for(5), 3);
    assert_eq!(bits_for(256), 8);
    assert_eq!(bits_for(257), 9);
    assert_eq!(bits_for(MAX_PALETTE_LEN), MAX_PALETTE_BITS);
    assert_eq!(bits_for(MAX_PALETTE_LEN + 1), MAX_PALETTE_BITS);

    for len in 1..=MAX_PALETTE_LEN {
        let bits = bits_for(len);
        assert!(
            (1usize << bits) >= len || bits == MAX_PALETTE_BITS,
            "width {bits} cannot address {len} entries"
        );
    }
}

#[test]
fn packing_round_trips_at_every_supported_width() {
    for bits in 1..=MAX_PALETTE_BITS {
        let volume = 1000usize;
        let mut words = vec![0u64; word_count(volume, bits)];
        let max = (1u64 << bits) - 1;

        for index in 0..volume {
            write_packed(&mut words, bits, index, (index as u64) & max);
        }
        for index in 0..volume {
            assert_eq!(
                read_packed(&words, bits, index),
                (index as u64) & max,
                "width {bits} lost index {index}"
            );
        }
    }
}

#[test]
fn an_overfull_palette_promotes_to_direct_storage() {
    let shape = ChunkShape::new(64, 2, 64).unwrap();
    let mut section = Section::empty(shape);

    let mut written = Vec::new();
    let mut state = 1u32;
    'fill: for y in 0..shape.size_y() {
        for z in 0..shape.size_z() {
            for x in 0..shape.size_x() {
                let local = LocalPos::new(x, y, z);
                section.set(local, BlockStateId(state)).unwrap();
                written.push((local, BlockStateId(state)));
                state += 1;
                if state as usize > MAX_PALETTE_LEN + 16 {
                    break 'fill;
                }
            }
        }
    }

    assert_eq!(section.storage_kind(), StorageKind::Direct);
    for (local, expected) in written {
        assert_eq!(section.get(local).unwrap(), expected, "cell {local:?} lost its state");
    }
}

#[test]
fn non_air_count_tracks_writes_in_both_directions() {
    let mut section = Section::empty(shape());
    assert_eq!(section.non_air_count(), 0);

    section.set(LocalPos::new(0, 0, 0), STONE).unwrap();
    section.set(LocalPos::new(1, 0, 0), DIRT).unwrap();
    assert_eq!(section.non_air_count(), 2);

    section.set(LocalPos::new(0, 0, 0), GRASS).unwrap();
    assert_eq!(section.non_air_count(), 2);

    section.set(LocalPos::new(0, 0, 0), air()).unwrap();
    assert_eq!(section.non_air_count(), 1);
    section.set(LocalPos::new(1, 0, 0), air()).unwrap();
    assert_eq!(section.non_air_count(), 0);
    assert!(section.is_empty());
}

#[test]
fn compaction_collapses_a_refilled_section() {
    let mut section = Section::empty(shape());
    section.set(LocalPos::new(0, 0, 0), STONE).unwrap();
    assert_eq!(section.storage_kind(), StorageKind::Paletted);

    section.set(LocalPos::new(0, 0, 0), air()).unwrap();
    assert_eq!(section.storage_kind(), StorageKind::Paletted);

    section.compact();
    assert_eq!(section.storage_kind(), StorageKind::Uniform);
    assert_eq!(section.uniform_state(), Some(air()));
    assert_eq!(section.storage_bytes(), 0);
}

#[test]
fn compaction_drops_palette_entries_nothing_references() {
    let mut section = Section::empty(shape());
    for state in 1..20u32 {
        section.set(LocalPos::new(0, 0, 0), BlockStateId(state)).unwrap();
    }
    section.compact();
    assert_eq!(section.get(LocalPos::new(0, 0, 0)).unwrap(), BlockStateId(19));
    assert_eq!(section.get(LocalPos::new(1, 0, 0)).unwrap(), air());
    assert_eq!(section.storage_kind(), StorageKind::Paletted);
    assert!(section.storage_bytes() < shape().volume() * 4);
}

#[test]
fn out_of_bounds_access_is_refused() {
    let mut section = Section::empty(shape());
    assert!(section.get(LocalPos::new(32, 0, 0)).is_err());
    assert!(section.set(LocalPos::new(0, 99, 0), STONE).is_err());
}

#[test]
fn parts_round_trip_through_every_representation() {
    let shape = ChunkShape::new(8, 8, 8).unwrap();

    let uniform = Section::uniform(shape, STONE);
    let rebuilt = Section::from_parts(shape, uniform.to_parts()).unwrap();
    assert_eq!(rebuilt, uniform);

    let mut paletted = Section::empty(shape);
    paletted.set(LocalPos::new(1, 1, 1), STONE).unwrap();
    paletted.set(LocalPos::new(2, 2, 2), DIRT).unwrap();
    let rebuilt = Section::from_parts(shape, paletted.to_parts()).unwrap();
    assert_eq!(rebuilt, paletted);
    assert_eq!(rebuilt.non_air_count(), 2);

    let direct =
        Section::from_parts(shape, SectionParts::Direct(vec![STONE; shape.volume()])).unwrap();
    assert_eq!(direct.non_air_count(), shape.volume() as u32);
}

#[test]
fn malformed_parts_are_refused() {
    let shape = ChunkShape::new(8, 8, 8).unwrap();
    assert!(Section::from_parts(shape, SectionParts::Direct(vec![STONE; 7])).is_err());
    assert!(Section::from_parts(
        shape,
        SectionParts::Paletted { palette: vec![], bits: 1, words: vec![] }
    )
    .is_err());
    assert!(Section::from_parts(
        shape,
        SectionParts::Paletted { palette: vec![air()], bits: 1, words: vec![0; 3] }
    )
    .is_err());
}

#[test]
fn each_malformed_part_names_its_own_problem() {
    let shape = ChunkShape::new(8, 8, 8).unwrap();
    let direct = Section::from_parts(shape, SectionParts::Direct(vec![STONE; 7])).unwrap_err();
    assert!(direct.message().contains("cell count"), "{}", direct.message());
    let palette = Section::from_parts(
        shape,
        SectionParts::Paletted { palette: vec![], bits: 1, words: vec![] },
    )
    .unwrap_err();
    assert!(palette.message().contains("palette metadata"), "{}", palette.message());
    let packing = Section::from_parts(
        shape,
        SectionParts::Paletted { palette: vec![air()], bits: 1, words: vec![0; 3] },
    )
    .unwrap_err();
    assert!(packing.message().contains("packing"), "{}", packing.message());
}

#[test]
fn a_remap_rewrites_every_state_through_the_table() {
    let shape = ChunkShape::new(4, 4, 4).unwrap();
    let mut section = Section::empty(shape);
    section.set(LocalPos::new(1, 0, 0), STONE).unwrap();
    section.set(LocalPos::new(2, 0, 0), DIRT).unwrap();
    section.remap(&vec![air(), GRASS, STONE]).unwrap();
    assert_eq!(section.get(LocalPos::new(1, 0, 0)).unwrap(), GRASS);
    assert_eq!(section.get(LocalPos::new(2, 0, 0)).unwrap(), STONE);
    assert_eq!(section.get(LocalPos::new(0, 0, 0)).unwrap(), air());
    // A state the table does not cover is refused by its value.
    let refused = section.remap(&vec![air()]).unwrap_err();
    assert!(refused == GRASS.0 || refused == STONE.0, "{refused}");
}

#[test]
fn a_refilled_section_compacts_to_a_uniform_fill_that_costs_nothing() {
    let mut section = Section::empty(shape());
    section.set(LocalPos::new(1, 2, 3), STONE).unwrap();
    section.set(LocalPos::new(1, 2, 3), air()).unwrap();
    section.compact();
    assert_eq!(section.storage_kind(), StorageKind::Uniform);
    assert_eq!(section.storage_bytes(), 0);
}

#[test]
fn every_representation_rebuilds_from_its_parts() {
    let mut paletted = Section::uniform(shape(), STONE);
    paletted.set(LocalPos::new(0, 0, 0), DIRT).unwrap();
    let mut direct = Section::empty(shape());
    for i in 0..(MAX_PALETTE_LEN as u32 + 1) {
        direct
            .set(LocalPos::new(i % 32, (i / 32) % 32, i / 1024), BlockStateId(i + 1))
            .unwrap();
    }
    for section in [Section::uniform(shape(), GRASS), paletted, direct] {
        let rebuilt = Section::from_parts(shape(), section.to_parts()).unwrap();
        assert_eq!(rebuilt.storage_kind(), section.storage_kind());
        assert_eq!(rebuilt.storage_bytes(), section.storage_bytes());
        assert_eq!(rebuilt.non_air_count(), section.non_air_count());
        for index in [0_u32, 1, 31, 1024, 32767] {
            let local = LocalPos::new(index % 32, (index / 32) % 32, index / 1024);
            assert_eq!(rebuilt.get(local).unwrap(), section.get(local).unwrap());
        }
    }
}

#[test]
fn a_write_to_a_section_with_stale_indices_reads_back() {
    let shape = shape();
    let words = vec![u64::MAX; word_count(shape.volume(), 2)];
    let mut damaged = Section::from_parts(
        shape,
        SectionParts::Paletted { palette: vec![STONE, DIRT], bits: 2, words },
    )
    .expect("the parts are consistent with the shape");
    assert_eq!(damaged.get(LocalPos::new(1, 1, 1)).unwrap(), air(), "a stale index reads as air");
    assert_eq!(damaged.non_air_count(), 0);
    assert_eq!(damaged.set(LocalPos::new(1, 1, 1), DIRT).unwrap(), air());
    assert_eq!(damaged.get(LocalPos::new(1, 1, 1)).unwrap(), DIRT);
    assert_eq!(damaged.set(LocalPos::new(2, 2, 2), GRASS).unwrap(), air());
    assert_eq!(damaged.get(LocalPos::new(2, 2, 2)).unwrap(), GRASS);
    assert_eq!(damaged.get(LocalPos::new(1, 1, 1)).unwrap(), DIRT);
    assert_eq!(damaged.get(LocalPos::new(3, 3, 3)).unwrap(), air());
}
