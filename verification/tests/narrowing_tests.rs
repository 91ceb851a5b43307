use contextdb::narrowing::ExpressionProbe;
use contextdb::layout::TemporalProbe;
use contextdb::narrowing::{fetch, gather, plan, Fetch};
use contextdb::{
    Entry, ExpressionFilter, Query, RelationFilter, RelationIndex, StorageError, TemporalFilter,
    Timestamp,
};

fn relation_query(filter: RelationFilter) -> Query {
    let mut query = Query::new();
    query.relations = Some(filter);
    query
}

fn sorted(mut ids: Vec<u128>) -> Vec<u128> {
    ids.sort();
    ids
}

#[test]
fn test_plan_of_the_empty_query_asks_nothing() {
    let asked = plan(&Query::new()).unwrap();
    assert!(asked.expression.is_none());
    assert!(asked.temporal.is_none());
    assert!(!asked.relations);
}

#[test]
fn test_plan_holds_a_probe_for_each_filter() {
    let mut query = Query::new()
        .with_expression(ExpressionFilter::Contains("Fox".to_string()))
        .with_temporal(TemporalFilter::UpdatedAfter(Timestamp { seconds: 0, nanos: 0 }));
    query.relations = Some(RelationFilter::HasRelations);

    let asked = plan(&query).unwrap();

    assert!(matches!(asked.expression, Some(ExpressionProbe::LoweredPart(ref s)) if s == "fox"));
    assert!(matches!(
        asked.temporal,
        Some(TemporalProbe::UpdatedAfter(ref s)) if s == "1970-01-01T00:00:00+00:00"
    ));
    assert!(asked.relations);
}

#[test]
fn test_plan_fails_on_an_invalid_regex() {
    let query = Query::new()
        .with_expression(ExpressionFilter::Matches("[".to_string()))
        .with_temporal(TemporalFilter::UpdatedAfter(Timestamp { seconds: i64::MAX, nanos: 0 }));
    match plan(&query) {
        Err(StorageError::Database(message)) => assert!(message.starts_with("Invalid regex: ")),
        _ => panic!("Expected invalid regex error"),
    }
}

#[test]
fn test_plan_fails_on_a_bound_out_of_range() {
    let query = Query::new()
        .with_temporal(TemporalFilter::CreatedBefore(Timestamp { seconds: i64::MAX, nanos: 0 }));
    match plan(&query) {
        Err(StorageError::Database(message)) => assert_eq!(message, "Timestamp out of range"),
        _ => panic!("Expected a range error"),
    }
}

#[test]
fn test_fetch_everything_without_filters() {
    let index = RelationIndex::build(vec![(1, 2)]);
    assert!(matches!(fetch(&Query::new(), &index, &vec![], None, None), Fetch::Everything));
}

#[test]
fn test_fetch_intersects_what_the_filters_found() {
    let index = RelationIndex::build(vec![(1, 2), (2, 3)]);
    let query = relation_query(RelationFilter::WithinDistance { from: 1, max_hops: 2 });

    match fetch(&query, &index, &vec![], Some(vec![3, 4, 2, 3]), Some(vec![1, 3])) {
        Fetch::Ids(ids) => assert_eq!(ids, vec![3]),
        _ => panic!("Expected ids"),
    }
    match fetch(&Query::new(), &index, &vec![], Some(vec![5, 5, 6]), None) {
        Fetch::Ids(ids) => assert_eq!(ids, vec![5, 6]),
        _ => panic!("Expected ids"),
    }
    match fetch(&query, &index, &vec![], None, None) {
        Fetch::Ids(ids) => assert_eq!(sorted(ids), vec![2, 3]),
        _ => panic!("Expected ids"),
    }
}

#[test]
fn test_fetch_nothing_when_a_filter_finds_nothing() {
    let index = RelationIndex::build(vec![(1, 2)]);
    assert!(matches!(
        fetch(&Query::new(), &index, &vec![], Some(vec![]), None),
        Fetch::Nothing
    ));
    assert!(matches!(
        fetch(&Query::new(), &index, &vec![], Some(vec![1]), Some(vec![2])),
        Fetch::Nothing
    ));
    let zero = relation_query(RelationFilter::WithinDistance { from: 1, max_hops: 0 });
    assert!(matches!(fetch(&zero, &index, &vec![], None, None), Fetch::Nothing));
}

#[test]
fn test_fetch_no_relations_within_the_universe() {
    let index = RelationIndex::build(vec![(1, 2)]);
    let query = relation_query(RelationFilter::NoRelations);
    match fetch(&query, &index, &vec![1, 2, 3, 4], None, None) {
        Fetch::Ids(ids) => assert_eq!(ids, vec![3, 4]),
        _ => panic!("Expected ids"),
    }
    assert!(matches!(fetch(&query, &index, &vec![1, 2], None, None), Fetch::Nothing));
}

fn stored(id: u128) -> Result<Entry, StorageError> {
    Ok(Entry::assemble(id, Timestamp { seconds: 0, nanos: 0 }, vec![], format!("Entry {}", id)))
}

#[test]
fn test_gather_passes_over_ids_without_an_entry() {
    let loaded = vec![stored(1), Err(StorageError::NotFound(9)), stored(2), Err(StorageError::NotFound(8))];
    let entries = gather(loaded).unwrap();
    let ids: Vec<u128> = entries.iter().map(|e| e.id).collect();
    assert_eq!(ids, vec![1, 2]);
    assert!(gather(vec![]).unwrap().is_empty());
    assert!(gather(vec![Err(StorageError::NotFound(1))]).unwrap().is_empty());
}

#[test]
fn test_gather_fails_on_the_first_other_failure() {
    let loaded = vec![
        stored(1),
        Err(StorageError::NotFound(9)),
        Err(StorageError::Serialization("Malformed context: x".to_string())),
        Err(StorageError::Database("locked".to_string())),
        stored(2),
    ];
    match gather(loaded) {
        Err(StorageError::Serialization(message)) => assert_eq!(message, "Malformed context: x"),
        _ => panic!("Expected the serialization error"),
    }
    assert!(matches!(
        gather(vec![Err(StorageError::InvalidDimensions), stored(1)]),
        Err(StorageError::InvalidDimensions)
    ));
}

#[test]
fn test_fetch_has_relations_within_the_universe() {
    let index = RelationIndex::build(vec![(1, 2), (2, 77)]);
    let query = relation_query(RelationFilter::HasRelations);
    match fetch(&query, &index, &vec![1, 2, 3], None, None) {
        Fetch::Ids(ids) => assert_eq!(ids, vec![1, 2]),
        _ => panic!("Expected ids"),
    }
    assert!(matches!(fetch(&query, &index, &vec![3], None, None), Fetch::Nothing));
}
