use nexora::cli::{parse_args, usage, ArgError, Backend, Command, Setup};

fn line(words: &[&str]) -> Vec<String> {
    words.iter().map(|w| (*w).to_owned()).collect()
}

fn default_setup() -> Setup {
    Setup {
        root: "assets/materials".to_owned(),
        recipes: "content/recipes".to_owned(),
        preview: true,
        backend: Backend::Procedural,
    }
}

#[test]
fn an_empty_line_or_help_asks_for_the_usage() {
    assert_eq!(parse_args(&line(&[])), Ok(None));
    assert_eq!(parse_args(&line(&["--help"])), Ok(None));
    assert_eq!(parse_args(&line(&["-h"])), Ok(None));
    assert_eq!(parse_args(&line(&["generate", "x.json", "-h"])), Ok(None));
}

#[test]
fn generate_takes_its_defaults() {
    match parse_args(&line(&["generate", "stone.json"])).unwrap().unwrap() {
        Command::Generate {
            definition,
            setup,
            seed,
            force,
        } => {
            assert_eq!(definition, "stone.json");
            assert_eq!(setup, default_setup());
            assert_eq!(seed, 0);
            assert!(!force);
        }
        other => panic!("unexpected command {other:?}"),
    }
}

#[test]
fn options_are_read_in_any_order() {
    let parsed = parse_args(&line(&[
        "generate",
        "--seed",
        "0x10",
        "wood.json",
        "--out",
        "out/dir",
        "--recipes",
        "r",
        "--force",
        "--no-preview",
        "--backend",
        "hybrid",
    ]))
    .unwrap()
    .unwrap();
    match parsed {
        Command::Generate {
            definition,
            setup,
            seed,
            force,
        } => {
            assert_eq!(definition, "wood.json");
            assert_eq!(seed, 16);
            assert!(force);
            assert_eq!(
                setup,
                Setup {
                    root: "out/dir".to_owned(),
                    recipes: "r".to_owned(),
                    preview: false,
                    backend: Backend::Hybrid,
                }
            );
        }
        other => panic!("unexpected command {other:?}"),
    }
}

#[test]
fn a_variant_needs_its_source_material() {
    let err = parse_args(&line(&["variant", "d.json"])).unwrap_err();
    assert_eq!(err, ArgError::VariantNeedsOf);
    assert_eq!(err.message(), "`variant` needs --of <material-id>");

    match parse_args(&line(&["variant", "d.json", "--of", "nexora:stone", "--index", "+3"]))
        .unwrap()
        .unwrap()
    {
        Command::Variant { of, index, .. } => {
            assert_eq!(of.as_str(), "nexora:stone");
            assert_eq!(index, 3);
        }
        other => panic!("unexpected command {other:?}"),
    }
}

#[test]
fn a_material_id_must_be_an_identifier() {
    let err = parse_args(&line(&["validate", "Not-An-Id"])).unwrap_err();
    assert_eq!(
        err,
        ArgError::NotAMaterialId {
            raw: "Not-An-Id".to_owned()
        }
    );
    assert!(err.message().starts_with("`Not-An-Id` is not a material id"));
}

#[test]
fn build_refuses_a_seed() {
    assert_eq!(
        parse_args(&line(&["build", "plan.json", "--seed", "4"])).unwrap_err(),
        ArgError::BuildTakesNoSeed
    );
}

#[test]
fn index_and_list_take_no_argument() {
    assert_eq!(
        parse_args(&line(&["list", "extra"])).unwrap_err().message(),
        "`list` takes no argument"
    );
    assert_eq!(
        parse_args(&line(&["index", "--out", "x"])).unwrap().unwrap(),
        Command::Index {
            root: "x".to_owned()
        }
    );
}

#[test]
fn mistakes_are_named() {
    assert_eq!(
        parse_args(&line(&["generate", "--out"])).unwrap_err().message(),
        "--out needs a path"
    );
    assert_eq!(
        parse_args(&line(&["generate", "--seed", "ten"])).unwrap_err().message(),
        "`ten` is not a seed; use a decimal or 0x-prefixed number"
    );
    assert_eq!(
        parse_args(&line(&["generate", "--backend", "gpu"])).unwrap_err().message(),
        "`gpu` is not a backend; use procedural, ai, hybrid"
    );
    assert_eq!(
        parse_args(&line(&["variant", "--index", "4294967296"])).unwrap_err().message(),
        "`4294967296` is not a variant index"
    );
    assert_eq!(
        parse_args(&line(&["generate", "--colour"])).unwrap_err().message(),
        "unknown option `--colour`"
    );
    assert_eq!(
        parse_args(&line(&["generate", "a", "b"])).unwrap_err().message(),
        "`generate` takes one argument"
    );
    assert_eq!(
        parse_args(&line(&["batch"])).unwrap_err().message(),
        "`batch` needs a manifest file"
    );
    assert_eq!(
        parse_args(&line(&["paint"])).unwrap_err().message(),
        "unknown command `paint`"
    );
}

#[test]
fn backends_are_named_as_on_the_command_line() {
    for backend in [Backend::Procedural, Backend::Ai, Backend::Hybrid] {
        assert_eq!(Backend::parse(backend.as_str()), Some(backend));
    }
    assert_eq!(Backend::parse("Procedural"), None);
}

#[test]
fn the_usage_names_every_command() {
    let text = usage();
    assert!(text.starts_with("usage: nexora-texture-forge <command> [options]\n"));
    for verb in [
        "generate", "batch", "build", "index", "variant", "repair", "validate", "inspect", "list",
    ] {
        assert!(text.contains(&format!("  {verb} ")), "{verb} is missing");
    }
    assert!(text.ends_with("2  the command line was wrong"));
}
