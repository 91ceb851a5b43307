use chrono::{TimeZone, Utc};
use contextdb::layout::{
    entry_columns, read_edges, read_ids, relation_rows, restore_entry, temporal_probe,
    TemporalProbe,
};
use contextdb::{ContextValue, Entry, StorageError, TemporalFilter, Timestamp};

const FIRST: u128 = 0x550e8400_e29b_41d4_a716_446655440000;
const SECOND: u128 = 0x00000000_0000_0000_0000_000000000002;

fn noon() -> Timestamp {
    let at = Utc.with_ymd_and_hms(2024, 6, 15, 12, 0, 0).unwrap();
    Timestamp { seconds: at.timestamp(), nanos: 0 }
}

fn texts(items: &[&str]) -> Vec<String> {
    items.iter().map(|s| s.to_string()).collect()
}

#[test]
fn test_entry_columns_write_id_and_instants() {
    let later = Timestamp { seconds: noon().seconds + 1, nanos: 500_000_000 };
    let entry = Entry::assemble(FIRST, noon(), vec![], "Test".to_string())
        .add_relation_at(SECOND, later);

    let columns = entry_columns(&entry).unwrap();

    assert_eq!(columns.id, "550e8400-e29b-41d4-a716-446655440000");
    assert_eq!(columns.created_at, "2024-06-15T12:00:00+00:00");
    assert_eq!(columns.updated_at, "2024-06-15T12:00:01.500+00:00");
}

#[test]
fn test_entry_columns_reject_an_instant_out_of_range() {
    let far = Timestamp { seconds: i64::MAX, nanos: 0 };
    let entry = Entry::assemble(FIRST, far, vec![], "Test".to_string());
    assert!(entry_columns(&entry).is_none());
}

#[test]
fn test_relation_rows_follow_the_relations() {
    let entry = Entry::assemble(FIRST, noon(), vec![], "Test".to_string())
        .add_relation_at(SECOND, noon())
        .add_relation_at(FIRST, noon());

    let rows = relation_rows(&entry);

    assert_eq!(
        rows,
        vec![
            (
                "550e8400-e29b-41d4-a716-446655440000".to_string(),
                "00000000-0000-0000-0000-000000000002".to_string()
            ),
            (
                "550e8400-e29b-41d4-a716-446655440000".to_string(),
                "550e8400-e29b-41d4-a716-446655440000".to_string()
            ),
        ]
    );
    assert!(relation_rows(&Entry::assemble(FIRST, noon(), vec![], String::new())).is_empty());
}

#[test]
fn test_temporal_probe_writes_the_bounds() {
    let start = noon();
    let end = Timestamp { seconds: noon().seconds + 60, nanos: 0 };

    match temporal_probe(&TemporalFilter::CreatedAfter(start)) {
        Some(TemporalProbe::CreatedAfter(text)) => assert_eq!(text, "2024-06-15T12:00:00+00:00"),
        _ => panic!("Expected a CreatedAfter probe"),
    }
    match temporal_probe(&TemporalFilter::CreatedBefore(end)) {
        Some(TemporalProbe::CreatedBefore(text)) => assert_eq!(text, "2024-06-15T12:01:00+00:00"),
        _ => panic!("Expected a CreatedBefore probe"),
    }
    match temporal_probe(&TemporalFilter::CreatedBetween(start, end)) {
        Some(TemporalProbe::CreatedBetween(first, second)) => {
            assert_eq!(first, "2024-06-15T12:00:00+00:00");
            assert_eq!(second, "2024-06-15T12:01:00+00:00");
        }
        _ => panic!("Expected a CreatedBetween probe"),
    }
    match temporal_probe(&TemporalFilter::UpdatedAfter(start)) {
        Some(TemporalProbe::UpdatedAfter(text)) => assert_eq!(text, "2024-06-15T12:00:00+00:00"),
        _ => panic!("Expected an UpdatedAfter probe"),
    }
    match temporal_probe(&TemporalFilter::UpdatedBefore(end)) {
        Some(TemporalProbe::UpdatedBefore(text)) => assert_eq!(text, "2024-06-15T12:01:00+00:00"),
        _ => panic!("Expected an UpdatedBefore probe"),
    }
}

#[test]
fn test_temporal_probe_rejects_a_bound_out_of_range() {
    let far = Timestamp { seconds: i64::MIN, nanos: 0 };
    assert!(temporal_probe(&TemporalFilter::UpdatedAfter(far)).is_none());
    assert!(temporal_probe(&TemporalFilter::CreatedBetween(noon(), far)).is_none());
    assert!(temporal_probe(&TemporalFilter::CreatedBetween(far, noon())).is_none());
}

fn serialization_message<T>(outcome: Result<T, StorageError>) -> String {
    match outcome {
        Err(StorageError::Serialization(message)) => message,
        Err(other) => panic!("Expected a serialization error, got {:?}", other),
        Ok(_) => panic!("Expected a serialization error"),
    }
}

#[test]
fn test_read_ids_needs_every_text_to_be_an_id() {
    let good = texts(&[
        "550e8400-e29b-41d4-a716-446655440000",
        "00000000000000000000000000000002",
    ]);
    assert_eq!(read_ids(&good).unwrap(), vec![FIRST, SECOND]);
    assert_eq!(read_ids(&texts(&[])).unwrap(), Vec::<u128>::new());

    let bad = texts(&["550e8400-e29b-41d4-a716-446655440000", "not an id", "nor this"]);
    assert_eq!(serialization_message(read_ids(&bad)), "Malformed id: not an id");
}

#[test]
fn test_read_edges() {
    let rows = vec![(
        "550e8400-e29b-41d4-a716-446655440000".to_string(),
        "00000000-0000-0000-0000-000000000002".to_string(),
    )];
    assert_eq!(read_edges(&rows).unwrap(), vec![(FIRST, SECOND)]);
    assert_eq!(read_edges(&vec![]).unwrap(), Vec::<(u128, u128)>::new());

    let broken = vec![
        (
            "550e8400-e29b-41d4-a716-446655440000".to_string(),
            "00000000-0000-0000-0000-000000000002".to_string(),
        ),
        ("00000000-0000-0000-0000-000000000002".to_string(), "?".to_string()),
        ("!".to_string(), "00000000-0000-0000-0000-000000000002".to_string()),
    ];
    assert_eq!(serialization_message(read_edges(&broken)), "Malformed id: ?");

    let both = vec![("first".to_string(), "second".to_string())];
    assert_eq!(serialization_message(read_edges(&both)), "Malformed id: first");
}

#[test]
fn test_restore_entry_reads_what_entry_columns_wrote() {
    let later = Timestamp { seconds: noon().seconds + 5, nanos: 123_456_789 };
    let entry = Entry::assemble(FIRST, noon(), vec![7, 8], "Round trip".to_string())
        .add_relation_at(SECOND, later);
    let columns = entry_columns(&entry).unwrap();
    let relations: Vec<String> = relation_rows(&entry).into_iter().map(|row| row.1).collect();

    let restored = restore_entry(
        FIRST,
        Ok(vec![7, 8]),
        "Round trip".to_string(),
        Ok(ContextValue::Bool(true)),
        &columns.created_at,
        &columns.updated_at,
        &relations,
    )
    .unwrap();

    assert_eq!(restored.id, FIRST);
    assert_eq!(restored.meaning, vec![7, 8]);
    assert_eq!(restored.expression, "Round trip");
    assert!(restored.context.equals(&ContextValue::Bool(true)));
    assert_eq!(restored.created_at, noon());
    assert_eq!(restored.updated_at, later);
    assert_eq!(restored.relations, vec![SECOND]);
}

#[test]
fn test_restore_entry_moves_instants_to_utc() {
    let restored = restore_entry(
        FIRST,
        Ok(vec![]),
        String::new(),
        Ok(ContextValue::Null),
        "2024-06-15T14:00:00+02:00",
        "2024-06-15T12:00:00Z",
        &texts(&["00000000-0000-0000-0000-000000000002"]),
    )
    .unwrap();

    assert_eq!(restored.created_at, noon());
    assert_eq!(restored.updated_at, noon());
    assert_eq!(restored.relations, vec![SECOND]);
}

#[test]
fn test_restore_entry_reports_unreadable_instants_as_malformed() {
    let first = restore_entry(
        FIRST,
        Ok(vec![]),
        String::new(),
        Ok(ContextValue::Null),
        "yesterday",
        "2024-06-15T12:00:00Z",
        &texts(&[]),
    );
    assert_eq!(serialization_message(first), "Malformed created_at: yesterday");

    let second = restore_entry(
        SECOND,
        Ok(vec![]),
        String::new(),
        Ok(ContextValue::Null),
        "2024-06-15T12:00:00Z",
        "",
        &texts(&[]),
    );
    assert_eq!(serialization_message(second), "Malformed updated_at: ");
}

#[test]
fn test_restore_entry_reports_an_undecoded_meaning_or_context_as_malformed() {
    let meaning = restore_entry(
        FIRST,
        Err("expected value at line 1 column 1".to_string()),
        String::new(),
        Err("also broken".to_string()),
        "yesterday",
        "2024-06-15T12:00:00Z",
        &texts(&["junk"]),
    );
    assert_eq!(
        serialization_message(meaning),
        "Malformed meaning: expected value at line 1 column 1"
    );

    let context = restore_entry(
        FIRST,
        Ok(vec![1]),
        String::new(),
        Err("trailing characters".to_string()),
        "yesterday",
        "2024-06-15T12:00:00Z",
        &texts(&[]),
    );
    assert_eq!(serialization_message(context), "Malformed context: trailing characters");
}

#[test]
fn test_restore_entry_reports_an_unreadable_relation_as_malformed() {
    let outcome = restore_entry(
        FIRST,
        Ok(vec![]),
        String::new(),
        Ok(ContextValue::Null),
        "2024-06-15T12:00:00Z",
        "2024-06-15T12:00:00Z",
        &texts(&["00000000-0000-0000-0000-000000000002", "junk"]),
    );
    assert_eq!(serialization_message(outcome), "Malformed id: junk");
}

#[test]
fn test_restore_entry_never_reports_a_found_row_as_missing() {
    for (created, updated, relation) in [
        ("bad", "2024-06-15T12:00:00Z", "00000000-0000-0000-0000-000000000002"),
        ("2024-06-15T12:00:00Z", "bad", "00000000-0000-0000-0000-000000000002"),
        ("2024-06-15T12:00:00Z", "2024-06-15T12:00:00Z", "bad"),
    ] {
        let outcome = restore_entry(
            FIRST,
            Ok(vec![]),
            String::new(),
            Ok(ContextValue::Null),
            created,
            updated,
            &texts(&[relation]),
        );
        assert!(matches!(outcome, Err(StorageError::Serialization(_))));
    }
}
