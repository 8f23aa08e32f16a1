use nexora::batch::{contained, EntryPathError};
use nexora::error::Recovery;
use nexora::ident::Identifier;
use nexora::layout::{
    check_naming, definition_file, map_file, material_dir, preview_file, split_segments,
    NamingError, DEFINITION_FILE, PREVIEW_FILE,
};
use nexora::recipe_book::recipe_file;

fn id(raw: &str) -> Identifier {
    Identifier::parse(raw).expect("test identifier must be valid")
}

#[test]
fn paths_are_derived_from_the_identifier_and_never_from_a_name() {
    let root = "/out";
    let stone = id("nexora:material/stone_rough");
    assert_eq!(material_dir(root, &stone), "/out/nexora/stone_rough");
    assert_eq!(
        map_file(root, &stone, "albedo"),
        "/out/nexora/stone_rough/albedo.png"
    );
    assert_eq!(
        definition_file(root, &stone),
        "/out/nexora/stone_rough/material.json"
    );
    assert_eq!(
        preview_file(root, &stone),
        "/out/nexora/stone_rough/preview.png"
    );
}

#[test]
fn a_nested_identifier_becomes_nested_directories() {
    let root = "/out";
    let nested = id("example:material/wood/oak/dark");
    assert_eq!(material_dir(root, &nested), "/out/example/wood/oak/dark");
}

#[test]
fn two_namespaces_cannot_collide_on_disk() {
    let root = "/out";
    assert_ne!(
        material_dir(root, &id("nexora:material/stone")),
        material_dir(root, &id("example:material/stone"))
    );
}

#[test]
fn a_segment_the_filesystem_would_interpret_is_refused() {
    // `Identifier` permits `.` and `-`, so `..` is reachable and would
    // escape the output root.
    let escaping = id("nexora:material/../../etc");
    let err = check_naming(&escaping).expect_err("`..` must never become a directory");
    assert_eq!(err.recovery(), Recovery::Reject);
    assert!(err.message().contains(".."), "{}", err.message());

    check_naming(&id("nexora:material/stone")).expect("an ordinary name is fine");
    check_naming(&id("nexora:material/wood/oak")).expect("nesting is fine");
    // A dot inside a segment is not a path segment of its own.
    check_naming(&id("nexora:material/v1.2/stone")).expect("a dotted segment is fine");
}

#[test]
fn recipe_paths_come_from_identifiers_and_cannot_escape() {
    let root = "/r";
    assert_eq!(
        recipe_file(root, &id("nexora:recipe/stone/basalt")).unwrap(),
        "/r/nexora/stone/basalt.json"
    );
    assert_eq!(
        recipe_file(root, &id("example:recipe/moss")).unwrap(),
        "/r/example/moss.json"
    );
    assert!(recipe_file(root, &id("nexora:recipe/../../etc")).is_err());
    if let Ok(bare) = Identifier::parse("nexora:recipe/") {
        assert!(
            recipe_file(root, &bare).is_err(),
            "no path beyond the prefix"
        );
    }
}

#[test]
fn a_path_is_contained_or_it_is_refused() {
    assert!(contained("a.json").is_ok());
    assert!(contained("stone/granite.json").is_ok());
    assert!(contained("./a.json").is_ok());
    for escaping in ["", "../a.json", "stone/../../a.json", "/etc/passwd"] {
        assert!(contained(escaping).is_err(), "`{escaping}` must be refused");
    }
}

#[test]
fn a_contained_path_comes_back_as_written_and_a_refusal_says_why() {
    assert_eq!(contained("./stone//granite.json"), Ok("./stone//granite.json".to_owned()));
    assert_eq!(contained("..a/b...json"), Ok("..a/b...json".to_owned()));
    assert_eq!(contained(""), Err(EntryPathError::Empty));
    assert_eq!(contained("a/.."), Err(EntryPathError::Escapes));
    assert_eq!(contained("/a"), Err(EntryPathError::Escapes));
}

#[test]
fn joining_onto_a_root_follows_the_path_buffer_rule() {
    let stone = id("nexora:material/stone");
    assert_eq!(material_dir("/out/", &stone), "/out/nexora/stone");
    assert_eq!(material_dir("", &stone), "nexora/stone");
    assert_eq!(material_dir("/", &stone), "/nexora/stone");
    // The prefix is only taken off where the path starts with it.
    assert_eq!(material_dir("/out", &id("nexora:stone")), "/out/nexora/stone");
    assert_eq!(
        material_dir("/out", &id("nexora:materials/stone")),
        "/out/nexora/materials/stone"
    );
    // Two slashes side by side collapse, as pushing an empty part does.
    assert_eq!(material_dir("/out", &id("nexora:material/a//b")), "/out/nexora/a/b");
    assert_eq!(DEFINITION_FILE, "material.json");
    assert_eq!(PREVIEW_FILE, "preview.png");
    assert_eq!(
        map_file("/out", &stone, "normal"),
        "/out/nexora/stone/normal.png"
    );
}

#[test]
fn the_first_unusable_segment_is_named_and_a_bare_prefix_has_no_path() {
    assert_eq!(
        check_naming(&id("nexora:material/a/./b/..")),
        Err(NamingError::Reserved { segment: ".".to_owned() })
    );
    assert_eq!(check_naming(&id("nexora:material/")), Err(NamingError::NoPath));
    assert_eq!(check_naming(&id("nexora:material/a//b")), Ok(()));
    assert_eq!(
        recipe_file("/r", &id("nexora:recipe/a//b")),
        Err(NamingError::Reserved { segment: String::new() })
    );
    assert_eq!(recipe_file("/r", &id("nexora:recipe/")), Err(NamingError::NoPath));
    assert_eq!(NamingError::NoPath.recovery(), Recovery::Reject);
}

#[test]
fn a_recipe_file_takes_the_place_of_the_last_extension() {
    assert_eq!(
        recipe_file("/r", &id("nexora:recipe/stone/v1.2")).unwrap(),
        "/r/nexora/stone/v1.json"
    );
    assert_eq!(
        recipe_file("/r", &id("nexora:recipe/.hidden")).unwrap(),
        "/r/nexora/.hidden.json"
    );
    assert_eq!(
        recipe_file("/r", &id("nexora:recipe/moss.")).unwrap(),
        "/r/nexora/moss.json"
    );
    assert_eq!(
        recipe_file("/r", &id("nexora:moss")).unwrap(),
        "/r/nexora/moss.json"
    );
}

#[test]
fn a_path_splits_into_the_pieces_between_its_slashes() {
    assert_eq!(split_segments("a/b"), vec!["a", "b"]);
    assert_eq!(split_segments(""), vec![""]);
    assert_eq!(split_segments("/a/"), vec!["", "a", ""]);
}

#[test]
fn an_identifier_splits_at_its_colon() {
    let oak = id("example:material/wood/oak");
    assert_eq!(oak.namespace(), "example");
    assert_eq!(oak.path(), "material/wood/oak");
}
