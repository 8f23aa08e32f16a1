use nexora::hashing::{fnv1a64, Fnv1a64};
use nexora::ident::Identifier;
use nexora::spatial::{floor_div, floor_mod, BlockPos, ChunkShape, LocalPos, RegionShape, ChunkCoord};
use nexora::time::{CalendarConfig, TimeError, TimeScale, WorldClock, WorldTime};

#[test]
fn fnv1a_matches_the_published_vectors() {
    assert_eq!(fnv1a64(b""), 0xcbf2_9ce4_8422_2325);
    assert_eq!(fnv1a64(b"a"), 0xaf63_dc4c_8601_ec8c);
    assert_eq!(fnv1a64(b"foobar"), 0x8594_4171_f739_67e8);
    let mut hasher = Fnv1a64::new();
    hasher.write_str("foo");
    hasher.write(b"bar");
    assert_eq!(hasher.finish(), fnv1a64(b"foobar"));
}

#[test]
fn identifiers_are_a_namespace_and_a_path() {
    assert!(Identifier::parse("nexora:block/stone").is_ok());
    assert!(Identifier::parse("a.b-c_d:x/y.z").is_ok());
    assert!(Identifier::parse("nexora:block/stone/basalt").is_ok());
    for bad in ["", ":", "nexora:", ":path", "nexora", "Nexora:x", "a:b:c", "a/b:c", "a:b c", "a:é"] {
        assert!(Identifier::parse(bad).is_err(), "{bad}");
    }
    let id = Identifier::parse("example:block/ruby").unwrap();
    assert_eq!(id.as_str(), "example:block/ruby");
    assert!(id.same(&id.duplicate()));
}

#[test]
fn floor_division_rounds_toward_negative_infinity() {
    assert_eq!(floor_div(-1, 32), -1);
    assert_eq!(floor_div(-32, 32), -1);
    assert_eq!(floor_div(-33, 32), -2);
    assert_eq!(floor_div(31, 32), 0);
    assert_eq!(floor_mod(-1, 32), 31);
    assert_eq!(floor_mod(33, 32), 1);
}

#[test]
fn a_shape_locates_blocks_in_sections() {
    let shape = ChunkShape::cubic_default();
    let p = BlockPos::new(-1, 64, 33);
    let section = shape.section_of(p);
    assert_eq!((section.x, section.y, section.z), (-1, 2, 1));
    assert_eq!(shape.local_of(p), LocalPos::new(31, 0, 1));
    assert_eq!(section.column(), ChunkCoord::new(-1, 1));
    assert!(ChunkShape::new(0, 1, 1).is_err());
    assert!(ChunkShape::new(257, 1, 1).is_err());
    assert_eq!(shape.index_of(LocalPos::new(1, 2, 3)).unwrap(), (2 * 32 + 3) * 32 + 1);
    assert!(shape.index_of(LocalPos::new(32, 0, 0)).is_err());
    let regions = RegionShape::default_shape();
    let region = regions.region_of(ChunkCoord::new(-1, 40));
    assert_eq!((region.x, region.z), (-1, 1));
}

#[test]
fn a_clock_advances_by_calendar_units_and_refuses_to_wrap() {
    let calendar = CalendarConfig::earthlike();
    assert_eq!(calendar.ticks_in(TimeScale::Day), Some(20 * 60 * 60 * 24));
    let mut clock = WorldClock::new(calendar);
    clock.advance_by(TimeScale::Minute, 2).unwrap();
    assert_eq!(clock.now(), WorldTime(2400));
    let mut late = WorldClock::resumed_at(calendar, WorldTime(u64::MAX - 5));
    assert_eq!(late.advance_by(TimeScale::Second, 1), Err(TimeError::Overflow));
    assert_eq!(late.now(), WorldTime(u64::MAX - 5));
    assert!(CalendarConfig::new(20, 60, 60, 24, 0, 12, 4).is_err());
}
