use nexora::ident::Identifier;
use nexora::recovery::{
    apply, ColumnRecovery, Damage, EditRecord, PendingEdits, RecordError, Replay, SkipReason,
};
use nexora::spatial::{BlockPos, ChunkCoord, SectionCoord};
use nexora::time::CalendarConfig;
use nexora::voxel::air as air_state;
use nexora::world::{World, WorldDescriptor};

fn world() -> World {
    let descriptor = WorldDescriptor::new("recovery-test", 0xC0FFEE).expect("valid");
    let mut world = World::create(descriptor, CalendarConfig::earthlike()).expect("created");
    world.bring_online().expect("online");
    world
        .load_or_generate(ChunkCoord::new(0, 0))
        .expect("generated");
    world
}

fn stone() -> Identifier {
    Identifier::parse("nexora:block/stone").expect("valid")
}

fn air() -> Identifier {
    Identifier::parse("nexora:block/air").expect("valid")
}

fn replay_of(records: Vec<Vec<u8>>, damage: Option<Damage>) -> Replay {
    Replay { records, damage }
}

#[test]
fn an_edit_waiting_on_a_column_is_applied_when_the_column_arrives() {
    let mut world = world();
    let away = ChunkCoord::new(9, 9);
    let position = world
        .descriptor()
        .shape
        .section_origin(SectionCoord::new(9, 2, 9))
        .expect("in range");
    assert!(
        world.chunk(away).is_none(),
        "the fixture must start without the column this edit needs"
    );

    let record = EditRecord::SetBlock {
        position,
        block: stone(),
    };
    let report = apply(&mut world, &replay_of(vec![record.encode()], None)).expect("replayed");

    assert_eq!(report.applied, 0);
    assert_eq!(report.skipped.len(), 1);
    assert!(matches!(
        report.skipped[0].reason,
        SkipReason::NotWritable(_)
    ));
    let mut deferred = report.deferred;
    assert_eq!(deferred.len(), 1);
    assert_eq!(deferred.waiting_on(away), 1);
    assert_eq!(deferred.columns(), vec![away]);

    world.load_or_generate(away).expect("column arrives");
    let recovered = deferred.apply_column(&mut world, away).expect("applied");
    assert_eq!(recovered.applied, 1);
    assert!(recovered.refused.is_empty());
    assert!(deferred.is_empty());
    assert_eq!(deferred.applied(), 1);

    let found = world.get_block(position).expect("resident now");
    assert_eq!(
        world.block_identifier(found),
        Some(stone()),
        "the deferred edit did not land"
    );
}

#[test]
fn a_deferred_column_keeps_its_records_in_journal_order() {
    let mut world = world();
    let away = ChunkCoord::new(-3, 5);
    let position = world
        .descriptor()
        .shape
        .section_origin(SectionCoord::new(-3, 2, 5))
        .expect("in range");

    let first = EditRecord::SetBlock {
        position,
        block: stone(),
    };
    let last = EditRecord::SetBlock {
        position,
        block: air(),
    };
    let report = apply(
        &mut world,
        &replay_of(vec![first.encode(), last.encode()], None),
    )
    .expect("replayed");
    let mut deferred = report.deferred;
    assert_eq!(deferred.waiting_on(away), 2);

    world.load_or_generate(away).expect("column arrives");
    assert_eq!(
        deferred
            .apply_column(&mut world, away)
            .expect("applied")
            .applied,
        2
    );

    let found = world.get_block(position).expect("resident now");
    assert_eq!(
        world.block_identifier(found),
        Some(air()),
        "the second write must have landed over the first"
    );
}

#[test]
fn an_unknown_block_is_not_deferred_because_waiting_cannot_help() {
    let mut world = world();
    let record = EditRecord::SetBlock {
        position: BlockPos::new(1, 2, 3),
        block: Identifier::parse("nexora:block/not-a-real-block").expect("valid"),
    };
    let report = apply(&mut world, &replay_of(vec![record.encode()], None)).expect("replayed");

    assert_eq!(report.skipped.len(), 1);
    assert!(matches!(
        report.skipped[0].reason,
        SkipReason::UnknownBlock(_)
    ));
    assert!(
        report.deferred.is_empty(),
        "an unknown block is not waiting on residency"
    );
}

#[test]
fn a_column_with_nothing_waiting_recovers_nothing_and_says_so() {
    let mut world = world();
    let mut deferred = PendingEdits::default();
    let recovered = deferred
        .apply_column(&mut world, ChunkCoord::new(0, 0))
        .expect("no error");
    assert_eq!(recovered, ColumnRecovery::default());
    assert_eq!(deferred.applied(), 0);
}

#[test]
fn an_edit_record_round_trips() {
    let record = EditRecord::SetBlock {
        position: BlockPos::new(-4, 70, 9),
        block: stone(),
    };
    let decoded = EditRecord::decode(&record.encode()).expect("decodes");
    assert_eq!(decoded, record);
}

#[test]
fn a_truncated_record_is_refused_rather_than_partially_read() {
    let bytes = EditRecord::SetBlock {
        position: BlockPos::new(1, 2, 3),
        block: stone(),
    }
    .encode();
    assert!(EditRecord::decode(&bytes[..bytes.len() - 2]).is_err());
}

#[test]
fn an_unknown_tag_is_refused() {
    assert!(EditRecord::decode(&[0xFE]).is_err());
    assert_eq!(
        EditRecord::decode(&[0xFE]).unwrap_err(),
        RecordError::UnknownEditTag { tag: 0xFE }
    );
}

#[test]
fn replaying_a_journal_reapplies_the_edits_it_recorded() {
    let mut world = world();
    let position = BlockPos::new(3, 200, 3);
    assert_eq!(world.get_block(position).expect("resident"), air_state());

    let records = vec![EditRecord::SetBlock {
        position,
        block: stone(),
    }
    .encode()];

    let report = apply(&mut world, &replay_of(records, None)).expect("applied");
    assert_eq!(report.applied, 1);
    assert!(report.is_complete());
    assert_ne!(world.get_block(position).expect("resident"), air_state());
}

#[test]
fn edits_are_applied_in_order_so_the_last_write_wins() {
    let mut world = world();
    let position = BlockPos::new(5, 200, 5);
    let dirt = Identifier::parse("nexora:block/dirt").expect("valid");

    let records = vec![
        EditRecord::SetBlock {
            position,
            block: stone(),
        }
        .encode(),
        EditRecord::SetBlock {
            position,
            block: dirt.duplicate(),
        }
        .encode(),
    ];

    let report = apply(&mut world, &replay_of(records, None)).expect("applied");
    assert_eq!(report.applied, 2);
    let final_state = world.get_block(position).expect("resident");
    assert_eq!(world.block_identifier(final_state), Some(dirt));
}

#[test]
fn an_unregistered_block_is_reported_as_missing_content_not_guessed() {
    let mut world = world();
    let records = vec![EditRecord::SetBlock {
        position: BlockPos::new(1, 200, 1),
        block: Identifier::parse("removedmod:block/reactor").expect("valid"),
    }
    .encode()];

    let report = apply(&mut world, &replay_of(records, None)).expect("reported");
    assert_eq!(report.applied, 0);
    assert!(!report.is_complete());
    assert!(matches!(
        report.skipped.first().map(|s| &s.reason),
        Some(SkipReason::UnknownBlock(_))
    ));
}

#[test]
fn one_bad_record_does_not_cost_the_rest_of_the_journal() {
    let mut world = world();
    let good = BlockPos::new(7, 200, 7);
    let records = vec![
        vec![0xFE],
        EditRecord::SetBlock {
            position: good,
            block: stone(),
        }
        .encode(),
    ];

    let report = apply(&mut world, &replay_of(records, None)).expect("applied");
    assert_eq!(report.applied, 1, "the good record still landed");
    assert_eq!(report.skipped.len(), 1);
    assert_eq!(report.skipped[0].index, 0);
}

#[test]
fn an_edit_into_a_chunk_that_is_not_resident_is_reported() {
    let mut world = world();
    let far = BlockPos::new(500_000, 70, 500_000);
    let records = vec![EditRecord::SetBlock {
        position: far,
        block: stone(),
    }
    .encode()];

    let report = apply(&mut world, &replay_of(records, None)).expect("reported");
    assert_eq!(report.applied, 0);
    assert!(matches!(
        report.skipped.first().map(|s| &s.reason),
        Some(SkipReason::NotWritable(_))
    ));
}

#[test]
fn journal_damage_is_carried_into_the_recovery_report() {
    let mut world = world();
    let damage = Some(Damage::TornTail { trailing_bytes: 5 });
    let report = apply(&mut world, &replay_of(Vec::new(), damage)).expect("applied");
    assert_eq!(report.applied, 0);
    assert!(!report.is_complete());
    assert_eq!(report.damage, damage);
}

#[test]
fn a_torn_tail_is_what_a_crash_leaves_and_corruption_is_not() {
    assert!(Damage::TornTail { trailing_bytes: 3 }.is_expected_after_a_crash());
    assert!(!Damage::Corruption { offset: 40 }.is_expected_after_a_crash());
}

#[test]
fn an_edit_record_has_a_fixed_layout() {
    let bytes = EditRecord::SetBlock {
        position: BlockPos::new(1, -1, 2),
        block: Identifier::parse("a:b").unwrap(),
    }
    .encode();
    let mut expected = vec![1u8];
    expected.extend_from_slice(&1i64.to_le_bytes());
    expected.extend_from_slice(&(-1i64).to_le_bytes());
    expected.extend_from_slice(&2i64.to_le_bytes());
    expected.extend_from_slice(&[3, 0, 0, 0, b'a', b':', b'b']);
    assert_eq!(bytes, expected);
}

#[test]
fn a_record_with_trailing_bytes_or_a_bad_name_is_refused() {
    let mut bytes = EditRecord::SetBlock {
        position: BlockPos::new(0, 0, 0),
        block: stone(),
    }
    .encode();
    bytes.push(0);
    assert!(matches!(
        EditRecord::decode(&bytes),
        Err(RecordError::Codec(_))
    ));

    let mut bad = vec![1u8];
    bad.extend_from_slice(&[0u8; 24]);
    bad.extend_from_slice(&[2, 0, 0, 0, b'N', b'o']);
    assert!(matches!(
        EditRecord::decode(&bad),
        Err(RecordError::Ident(_))
    ));
}

#[test]
fn every_torn_prefix_of_an_edit_record_is_refused() {
    let record = EditRecord::SetBlock {
        position: BlockPos::new(-5, 70, 123),
        block: Identifier::parse("nexora:block/stone").unwrap(),
    };
    let bytes = record.encode();
    for k in 0..bytes.len() {
        assert!(EditRecord::decode(&bytes[..k]).is_err(), "prefix of {k} bytes");
    }
    assert!(EditRecord::decode(&bytes).is_ok());
}
