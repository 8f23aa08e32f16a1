use nexora::texture::ChannelLayout;
use nexora::validator::{
    is_power_of_two, map_findings, Check, MapFinding, MapShape, Severity,
};

fn map(width: u32, height: u32, channels: ChannelLayout, natural: ChannelLayout) -> MapShape {
    MapShape { width, height, channels, natural }
}

#[test]
fn a_map_of_the_declared_power_of_two_size_and_usual_layout_passes() {
    let maps = vec![
        map(16, 16, ChannelLayout::Rgba, ChannelLayout::Rgba),
        map(16, 16, ChannelLayout::Rgb, ChannelLayout::Rgb),
    ];
    assert!(map_findings(16, 16, &maps).is_empty());
}

#[test]
fn each_structural_rule_is_reported_against_the_map_that_breaks_it() {
    let maps = vec![
        map(16, 16, ChannelLayout::Rgba, ChannelLayout::Rgba),
        map(24, 16, ChannelLayout::Grey, ChannelLayout::Rgb),
        map(32, 32, ChannelLayout::Grey, ChannelLayout::Grey),
    ];
    assert_eq!(
        map_findings(16, 16, &maps),
        vec![
            MapFinding { map: Some(1), check: Check::Resolution, severity: Severity::Failure },
            MapFinding { map: Some(1), check: Check::Dimensions, severity: Severity::Failure },
            MapFinding { map: Some(1), check: Check::Channels, severity: Severity::Warning },
            MapFinding { map: Some(2), check: Check::Resolution, severity: Severity::Failure },
            MapFinding { map: None, check: Check::MaterialIntegrity, severity: Severity::Failure },
        ]
    );
}

#[test]
fn powers_of_two_are_told_apart_from_their_neighbours() {
    for n in [1_u32, 2, 16, 1024, 1 << 31] {
        assert!(is_power_of_two(n), "{n}");
    }
    for n in [0_u32, 3, 24, 1023, u32::MAX] {
        assert!(!is_power_of_two(n), "{n}");
    }
}

#[test]
fn maps_of_differing_sizes_break_the_material_integrity() {
    let maps = vec![
        map(32, 32, ChannelLayout::Rgba, ChannelLayout::Rgba),
        map(32, 32, ChannelLayout::Rgb, ChannelLayout::Rgb),
        map(32, 16, ChannelLayout::Grey, ChannelLayout::Grey),
    ];
    let found = map_findings(32, 32, &maps);
    assert_eq!(found.last(), Some(&MapFinding { map: None, check: Check::MaterialIntegrity, severity: Severity::Failure }));
    assert_eq!(found.iter().filter(|f| f.check == Check::MaterialIntegrity).count(), 1);
}

#[test]
fn maps_all_of_one_wrong_size_are_each_refused_but_agree_with_one_another() {
    let maps = vec![
        map(64, 64, ChannelLayout::Rgba, ChannelLayout::Rgba),
        map(64, 64, ChannelLayout::Rgb, ChannelLayout::Rgb),
    ];
    let found = map_findings(32, 32, &maps);
    assert_eq!(
        found,
        vec![
            MapFinding { map: Some(0), check: Check::Resolution, severity: Severity::Failure },
            MapFinding { map: Some(1), check: Check::Resolution, severity: Severity::Failure },
        ]
    );
}
