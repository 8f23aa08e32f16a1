use nexora::ident::Identifier;
use nexora::procedural::{ProceduralGenerator, PROCEDURAL_GENERATOR, PROCEDURAL_VERSION};

fn fnv(parts: &[&[u8]]) -> u64 {
    let mut state: u64 = 0xcbf2_9ce4_8422_2325;
    for part in parts {
        for byte in *part {
            state ^= u64::from(*byte);
            state = state.wrapping_mul(0x0000_0100_0000_01b3);
        }
    }
    state
}

fn oak() -> Identifier {
    Identifier::parse("nexora:material/oak").unwrap()
}

#[test]
fn the_generator_is_named_by_its_constant() {
    let generator = ProceduralGenerator::new().unwrap();
    assert_eq!(generator.id().as_str(), PROCEDURAL_GENERATOR);
}

#[test]
fn a_variant_seed_hashes_its_source_index_version_and_request() {
    let seed = ProceduralGenerator::variant_seed(&oak(), 3, 42);
    let expected = fnv(&[
        b"variant",
        b"nexora:material/oak",
        &3u64.to_le_bytes(),
        &u64::from(PROCEDURAL_VERSION).to_le_bytes(),
        &42u64.to_le_bytes(),
    ]);
    assert_eq!(seed, expected);
}

#[test]
fn variants_of_one_source_differ_from_each_other() {
    let seeds: Vec<u64> = (1..=4)
        .map(|index| ProceduralGenerator::variant_seed(&oak(), index, 0))
        .collect();
    for i in 0..seeds.len() {
        for j in i + 1..seeds.len() {
            assert_ne!(seeds[i], seeds[j]);
        }
    }
    assert_eq!(
        ProceduralGenerator::variant_seed(&oak(), 2, 0),
        ProceduralGenerator::variant_seed(&oak(), 2, 0)
    );
}

#[test]
fn two_materials_asked_for_with_the_same_seed_do_not_share_a_seed() {
    let stone = Identifier::parse("nexora:material/stone").unwrap();
    let a = ProceduralGenerator::effective_seed(&oak(), 7, 0);
    let b = ProceduralGenerator::effective_seed(&stone, 7, 0);
    assert_ne!(a, b);
    let expected = fnv(&[
        b"nexora:material/oak",
        &7u64.to_le_bytes(),
        &u64::from(PROCEDURAL_VERSION).to_le_bytes(),
        &0u64.to_le_bytes(),
    ]);
    assert_eq!(a, expected);
}
