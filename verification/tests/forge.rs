use nexora::batch::{
    check_manifest, contained, entry_seed, parse_seed as manifest_seed, settle_entry, triage,
    BatchReport, EntryRead, EntryReport, ManifestError, Policy, Problem, ProblemKind, Tally,
    Violation, MAX_ENTRIES,
};
use nexora::texture::MapRole;
use nexora::cli::{parse_seed, SeedError};
use nexora::color::{ColorError, Ramp, Rgba};
use nexora::forge::{decide_write, Existing, Outcome, WriteDecision, WriteStatus};
use nexora::ident::Identifier;
use nexora::noise::{wrap, Noise};
use nexora::preview::{reduction, PreviewRenderer, MAX_EDGE, TILES};
use nexora::error::Recovery;
use nexora::recipe_book::{
    cells, check_levels, check_schema, check_stops, course_rows, format_colour, octaves,
    parse_colour, reject_unknown, RecipeBook, RecipeError, StopError, MAX_CELLS, MAX_OCTAVES,
    MAX_RAMP_STOPS, RECIPE_SCHEMA,
};

#[test]
fn a_large_material_is_reduced_by_a_whole_number_and_never_exceeds_the_cap() {
    for edge in [16_u32, 64, 128, 256, 512, 1024] {
        let factor = reduction(edge);
        assert!(factor.is_power_of_two(), "{edge} gave {factor}");
        assert_eq!(edge * TILES % factor, 0, "{edge} does not divide by {factor}");
        assert!(
            edge * TILES / factor <= MAX_EDGE,
            "{edge} produced {} which is over the cap",
            edge * TILES / factor
        );
    }
    assert_eq!(reduction(64), 1);
    assert_eq!(reduction(128), 1);
    assert_eq!(reduction(256), 2);
}

#[test]
fn the_reduction_is_the_smallest_power_of_two_that_fits() {
    assert_eq!(reduction(0), 1);
    assert_eq!(reduction(129), 2);
    assert_eq!(reduction(4096), 32);
    assert_eq!(reduction(u32::MAX / 2), 1 << 24);
    let renderer = PreviewRenderer::new();
    assert_eq!(renderer, PreviewRenderer);
}

#[test]
fn named_streams_are_independent_of_each_other() {
    let base = Noise::new(7);
    let grain = base.stream("grain");
    let mottle = base.stream("mottle");
    assert_ne!(grain, mottle);
    assert_ne!(grain, base);
    assert_eq!(grain, Noise::new(7).stream("grain"));
}

#[test]
fn negative_lattice_coordinates_wrap_to_the_far_side_of_the_lattice() {
    let noise = Noise::new(21);
    assert_eq!(noise.lattice(-1, 0, 8, 8), noise.lattice(7, 0, 8, 8));
    assert_eq!(noise.lattice(0, -3, 8, 8), noise.lattice(0, 5, 8, 8));
    assert_eq!(noise.lattice(8, 8, 8, 8), noise.lattice(0, 0, 8, 8));
    assert_ne!(noise.lattice(1, 0, 8, 8), noise.lattice(0, 0, 8, 8));
    assert_eq!(wrap(-1, 8), 7);
    assert_eq!(wrap(17, 8), 1);
    assert_eq!(wrap(5, 0), 0);
}

#[test]
fn the_lattice_tiles_at_the_period_on_both_axes() {
    let noise = Noise::new(99);
    for x in -20..20i64 {
        for y in -3..3i64 {
            assert_eq!(noise.lattice(x, y, 16, 2), noise.lattice(x + 16, y, 16, 2));
            assert_eq!(noise.lattice(x, y, 16, 2), noise.lattice(x, y + 2, 16, 2));
        }
    }
}

#[test]
fn a_ramp_needs_at_least_two_stops_to_exist() {
    assert_eq!(Ramp::new(vec![Rgba::black()]), Err(ColorError::TooFewStops { stops: 1 }));
    assert!(Ramp::new(Vec::new()).is_err());
    let ramp = Ramp::new(vec![Rgba::black(), Rgba::opaque(255, 255, 255)]).unwrap();
    assert_eq!(ramp.len(), 2);
    assert!(!ramp.is_empty());
    assert_eq!(ramp.stops()[1], Rgba { r: 255, g: 255, b: 255, a: 255 });
}

#[test]
fn write_statuses_have_stable_names_and_say_whether_files_changed() {
    assert_eq!(WriteStatus::Written.as_str(), "written");
    assert_eq!(WriteStatus::Unchanged.as_str(), "unchanged");
    assert_eq!(WriteStatus::Refused.as_str(), "refused");
    assert_eq!(WriteStatus::Replaced.as_str(), "replaced");
    assert!(WriteStatus::Written.wrote_files());
    assert!(WriteStatus::Replaced.wrote_files());
    assert!(!WriteStatus::Unchanged.wrote_files());
    assert!(!WriteStatus::Refused.wrote_files());
}

#[test]
fn a_tally_counts_every_entry() {
    let tally = Tally { written: 3, unchanged: 2, replaced: 1, refused: 4, failed: 5 };
    assert_eq!(tally.total(), 15);
    assert_eq!(Tally::default().total(), 0);
}

#[test]
fn a_seed_is_decimal_or_hexadecimal() {
    assert_eq!(parse_seed("0"), Ok(0));
    assert_eq!(parse_seed("12345"), Ok(12345));
    assert_eq!(parse_seed("0xff"), Ok(255));
    assert_eq!(parse_seed("0xDEADbeef"), Ok(0xDEAD_BEEF));
    assert_eq!(parse_seed("18446744073709551615"), Ok(u64::MAX));
    assert_eq!(parse_seed("18446744073709551616"), Err(SeedError::NotASeed));
    assert_eq!(parse_seed("0x"), Err(SeedError::NotASeed));
    assert_eq!(parse_seed(""), Err(SeedError::NotASeed));
    assert_eq!(parse_seed("12a"), Err(SeedError::NotASeed));
    assert_eq!(parse_seed("-1"), Err(SeedError::NotASeed));
    assert_eq!(parse_seed("+7"), Ok(7));
}

#[test]
fn a_manifest_seed_is_prefixed_hexadecimal_of_bounded_length() {
    assert_eq!(manifest_seed("0x2a"), Ok(42));
    assert_eq!(manifest_seed("0xffffffffffffffff"), Ok(u64::MAX));
    assert_eq!(manifest_seed("0x1ffffffffffffffff"), Err(SeedError::NotASeed));
    assert_eq!(manifest_seed("42"), Err(SeedError::NotASeed));
    assert_eq!(manifest_seed("0x"), Err(SeedError::NotASeed));
    assert_eq!(manifest_seed("0xzz"), Err(SeedError::NotASeed));
}

#[test]
fn a_recipe_book_knows_its_root_or_has_none() {
    assert_eq!(RecipeBook::at("content/recipes").root(), Some("content/recipes"));
    assert_eq!(RecipeBook::empty().root(), None);
}

#[test]
fn a_colour_is_written_as_six_hex_digits() {
    assert_eq!(format_colour(Rgba::opaque(46, 30, 18)), "#2e1e12");
    assert_eq!(format_colour(Rgba::opaque(255, 0, 171)), "#ff00ab");
    assert_eq!(format_colour(Rgba::black()), "#000000");
}

#[test]
fn a_ramp_stop_is_read_as_six_hex_digits() {
    assert_eq!(parse_colour("#2e1e12"), Ok(Rgba::opaque(46, 30, 18)));
    assert_eq!(parse_colour("#FF00aB"), Ok(Rgba::opaque(255, 0, 171)));
    assert_eq!(parse_colour("2e1e12"), Err(StopError::NotHexRgb));
    assert_eq!(parse_colour("#2e1e1"), Err(StopError::NotHexRgb));
    assert_eq!(parse_colour("#2e1e1g"), Err(StopError::NotHexRgb));
    assert_eq!(parse_colour("#2e1e12f"), Err(StopError::NotHexRgb));
    for colour in [Rgba::opaque(1, 2, 3), Rgba::opaque(250, 128, 0)] {
        assert_eq!(parse_colour(&format_colour(colour)), Ok(colour));
    }
}

fn entry(status: Option<WriteStatus>) -> EntryReport {
    let id = Identifier::parse("nexora:material/stone").unwrap();
    EntryReport {
        id: Identifier::parse("nexora:material/stone").unwrap(),
        source: "stone.json".to_owned(),
        result: match status {
            Some(status) => Ok(Outcome {
                status,
                material: id,
                files: vec![("albedo.png".to_owned(), 100), ("material.json".to_owned(), 23)],
                refusal: None,
            }),
            None => Err("generation failed".to_owned()),
        },
    }
}

#[test]
fn a_batch_tally_counts_every_entry_once_and_a_refusal_is_not_success() {
    let report = BatchReport {
        entries: vec![
            entry(Some(WriteStatus::Written)),
            entry(Some(WriteStatus::Written)),
            entry(Some(WriteStatus::Unchanged)),
            entry(Some(WriteStatus::Replaced)),
        ],
    };
    let tally = report.tally();
    assert_eq!(
        tally,
        Tally { written: 2, unchanged: 1, replaced: 1, refused: 0, failed: 0 }
    );
    assert_eq!(tally.total(), 4);
    assert!(report.succeeded());

    let refused = BatchReport { entries: vec![entry(Some(WriteStatus::Refused))] };
    assert!(!refused.succeeded());
    let failed = BatchReport { entries: vec![entry(None), entry(Some(WriteStatus::Written))] };
    assert_eq!(failed.tally().failed, 1);
    assert!(!failed.succeeded());
    assert!(BatchReport::default().succeeded());
}

#[test]
fn an_entry_describes_itself_in_one_word() {
    assert_eq!(entry(Some(WriteStatus::Replaced)).status(), "replaced");
    assert_eq!(entry(None).status(), "failed");
}

#[test]
fn a_tally_summarises_in_one_line() {
    let tally = Tally { written: 2, unchanged: 1, replaced: 0, refused: 10, failed: 0 };
    assert_eq!(
        tally.summary(),
        "13 materials: 2 written, 1 unchanged, 0 replaced, 10 refused, 0 failed"
    );
}

#[test]
fn an_outcome_totals_the_bytes_it_wrote() {
    let outcome = entry(Some(WriteStatus::Written)).result.unwrap();
    assert_eq!(outcome.byte_len(), 123);
}

#[test]
fn a_recipe_outside_its_whole_number_ranges_names_what_is_wrong() {
    assert_eq!(check_schema(RECIPE_SCHEMA), Ok(()));
    assert_eq!(check_schema(0), Err(RecipeError::Schema { schema: 0 }));
    assert_eq!(check_schema(2), Err(RecipeError::Schema { schema: 2 }));
    assert_eq!(check_stops(MAX_RAMP_STOPS), Ok(()));
    assert_eq!(check_stops(33), Err(RecipeError::TooManyStops { stops: 33 }));
    assert_eq!(check_levels(0), Ok(0));
    assert_eq!(check_levels(33), Err(RecipeError::Levels { levels: 33 }));
    assert_eq!(cells("cells_x", MAX_CELLS), Ok(MAX_CELLS));
    assert_eq!(
        cells("cells_x", 0),
        Err(RecipeError::Cells { field: "cells_x".to_owned(), value: 0 })
    );
    assert_eq!(octaves("octaves", MAX_OCTAVES), Ok(MAX_OCTAVES));
    assert_eq!(
        octaves("octaves", 9),
        Err(RecipeError::Octaves { field: "octaves".to_owned(), value: 9 })
    );
    assert_eq!(course_rows(4), Ok(4));
    assert_eq!(course_rows(3), Err(RecipeError::OddCourses { rows: 3 }));
    assert_eq!(
        course_rows(0),
        Err(RecipeError::Cells { field: "rows".to_owned(), value: 0 })
    );
    assert_eq!(RecipeError::Levels { levels: 99 }.recovery(), Recovery::Reject);
}

#[test]
fn the_first_field_a_build_does_not_know_is_refused_by_name() {
    let known = vec!["rows", "columns", "mortar", "jitter"];
    let fine: Vec<String> = vec!["rows".to_owned(), "jitter".to_owned()];
    assert_eq!(reject_unknown(&fine, &known, "courses"), Ok(()));
    let odd: Vec<String> = vec!["rows".to_owned(), "colour".to_owned(), "bricks".to_owned()];
    assert_eq!(
        reject_unknown(&odd, &known, "courses"),
        Err(RecipeError::UnknownField { section: "courses".to_owned(), field: "colour".to_owned() })
    );
}

#[test]
fn a_manifest_with_a_newer_schema_or_no_entries_or_too_many_is_refused() {
    assert_eq!(check_manifest(1, 3), Ok(()));
    assert_eq!(check_manifest(2, 3), Err(ManifestError::Schema { schema: 2 }));
    assert_eq!(check_manifest(0, 0), Err(ManifestError::Schema { schema: 0 }));
    assert_eq!(check_manifest(1, 0), Err(ManifestError::NoEntries));
    assert_eq!(check_manifest(1, MAX_ENTRIES), Ok(()));
    assert_eq!(
        check_manifest(1, MAX_ENTRIES + 1),
        Err(ManifestError::TooManyEntries { entries: MAX_ENTRIES + 1 })
    );
}

#[test]
fn every_problem_is_reported_in_order_and_a_duplicate_names_the_first_entry() {
    let read = |raw: &str| EntryRead::Read { material: Identifier::parse(raw).unwrap() };
    let reads = vec![
        ("stone.json".to_owned(), read("nexora:material/stone")),
        ("broken.json".to_owned(), EntryRead::Failed { reason: "not JSON".to_owned() }),
        ("again.json".to_owned(), read("nexora:material/stone")),
        ("oak.json".to_owned(), read("nexora:material/oak")),
    ];
    let (accepted, problems) = triage(reads);
    assert_eq!(accepted, vec![0, 3]);
    assert_eq!(
        problems,
        vec![
            Problem {
                index: 1,
                definition: "broken.json".to_owned(),
                kind: ProblemKind::Unreadable { reason: "not JSON".to_owned() },
            },
            Problem {
                index: 2,
                definition: "again.json".to_owned(),
                kind: ProblemKind::Duplicate { material: "nexora:material/stone".to_owned(), first: 0 },
            },
        ]
    );
}

#[test]
fn the_first_generation_policy_is_sixteen_square_and_albedo_alone() {
    let policy = Policy::first_generation();
    assert_eq!(policy.resolution, Some((16, 16)));
    assert!(policy.violations((16, 16), &vec![]).is_empty());
    assert!(policy.violations((16, 16), &vec![MapRole::Albedo]).is_empty(), "albedo is always allowed");
    assert_eq!(
        policy.violations((32, 32), &vec![MapRole::Roughness]),
        vec![
            Violation::Resolution { width: 32, height: 32, pinned_width: 16, pinned_height: 16 },
            Violation::UnallowedMap(MapRole::Roughness),
        ],
        "size and map are separate violations"
    );
    assert!(Policy::default().violations((64, 8), &vec![MapRole::Normal, MapRole::Height]).is_empty());
}

#[test]
fn a_restricted_policy_refuses_each_map_it_leaves_out_in_the_order_wanted() {
    let policy = Policy { resolution: None, maps: Some(vec![MapRole::Normal]) };
    assert_eq!(
        policy.violations((64, 64), &vec![MapRole::Height, MapRole::Normal, MapRole::Metallic]),
        vec![Violation::UnallowedMap(MapRole::Height), Violation::UnallowedMap(MapRole::Metallic)]
    );
}

#[test]
fn the_manifest_seed_is_used_unless_an_entry_names_its_own() {
    assert_eq!(entry_seed(None, 0x2a), 0x2a);
    assert_eq!(entry_seed(Some(0x00C0_FFEE), 0x2a), 0x00C0_FFEE);
    let policy = Policy::default();
    assert_eq!(settle_entry(&policy, None, 0x2a, (16, 16), &vec![]), Ok(0x2a));
    assert_eq!(settle_entry(&policy, Some(0x00C0_FFEE), 0x2a, (16, 16), &vec![]), Ok(0x00C0_FFEE));
    for bad in ["42", "0x", "0xZZ", "0x11111111111111111"] {
        assert!(manifest_seed(bad).is_err(), "{bad}");
    }
}

#[test]
fn every_problem_is_reported_and_nothing_is_generated() {
    // The fixture: a good entry, one defining the same material, one of the
    // wrong size, one wanting maps the policy leaves out, one that is not
    // JSON, one whose file is absent, and one that leaves the manifest.
    let policy = Policy::first_generation();
    let settle = |written: &str, id: &str, size: (u32, u32), wanted: Vec<MapRole>| {
        let read = match contained(written) {
            Err(_) => EntryRead::Failed { reason: "the path leaves the manifest".to_owned() },
            Ok(_) => match settle_entry(&policy, None, 0x2a, size, &wanted) {
                Ok(_) => EntryRead::Read { material: Identifier::parse(id).unwrap() },
                Err(found) => EntryRead::Failed { reason: format!("{found:?}") },
            },
        };
        (written.to_owned(), read)
    };
    let reads = vec![
        settle("good.json", "nexora:material/good", (16, 16), vec![]),
        settle("twin.json", "nexora:material/good", (16, 16), vec![]),
        settle("big.json", "nexora:material/big", (64, 64), vec![]),
        settle("pbr.json", "nexora:material/pbr", (16, 16), vec![MapRole::Normal, MapRole::Height]),
        ("broken.json".to_owned(), EntryRead::Failed { reason: "not JSON".to_owned() }),
        ("absent.json".to_owned(), EntryRead::Failed { reason: "could not be read".to_owned() }),
        settle("../escape.json", "nexora:material/escape", (16, 16), vec![]),
    ];
    let (accepted, problems) = triage(reads);
    assert_eq!(accepted, vec![0]);
    let indices: Vec<usize> = problems.iter().map(|p| p.index).collect();
    assert_eq!(indices, [1, 2, 3, 4, 5, 6], "every problem, not the first");
    assert!(matches!(problems[0].kind, ProblemKind::Duplicate { first: 0, .. }));
    match &problems[1].kind {
        ProblemKind::Unreadable { reason } => assert!(reason.contains("64"), "{reason}"),
        other => panic!("{other:?}"),
    }
    match &problems[2].kind {
        ProblemKind::Unreadable { reason } => {
            assert!(reason.contains("Normal") && reason.contains("Height"), "{reason}")
        }
        other => panic!("{other:?}"),
    }
    assert_eq!(problems[5].definition, "../escape.json");
}

#[test]
fn the_forge_writes_new_keeps_identical_refuses_different_and_replaces_when_forced() {
    let on_disk = Existing { appearance_hash: 7, fingerprint: Some(9), revision: 3, maps_present: true };
    assert_eq!(decide_write(None, 7, 9, false), WriteDecision::Generate { replaces: None });
    assert_eq!(decide_write(None, 7, 9, false).status(), WriteStatus::Written);
    assert_eq!(decide_write(Some(on_disk), 7, 9, false), WriteDecision::Unchanged);
    assert_eq!(decide_write(Some(on_disk), 7, 9, true), WriteDecision::Unchanged, "force does not rewrite the same surface");
    assert_eq!(decide_write(Some(on_disk), 8, 9, false), WriteDecision::Refused { revision: 3 });
    assert_eq!(decide_write(Some(on_disk), 7, 10, false).status(), WriteStatus::Refused, "a different recipe is a different surface");
    let missing = Existing { maps_present: false, ..on_disk };
    assert_eq!(decide_write(Some(missing), 7, 9, false), WriteDecision::Refused { revision: 3 });
    let unrecorded = Existing { fingerprint: None, ..on_disk };
    assert_eq!(decide_write(Some(unrecorded), 7, 9, false), WriteDecision::Refused { revision: 3 });
    assert_eq!(decide_write(Some(on_disk), 8, 9, true), WriteDecision::Generate { replaces: Some(3) });
    assert_eq!(decide_write(Some(on_disk), 8, 9, true).status(), WriteStatus::Replaced);
}
