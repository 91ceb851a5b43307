use chrono::{DateTime, TimeZone, Utc};
use contextdb::engine::{
    generate_explanation, matches_context, matches_expression, matches_temporal,
};
use contextdb::{
    ContextFilter, ContextValue, Entry, ExpressionFilter, MeaningFilter, Number, Query,
    RelationFilter, Score, StorageError, TemporalFilter, Timestamp,
};

fn bits(vector: &[f32]) -> Vec<u32> {
    vector.iter().map(|x| x.to_bits()).collect()
}

fn stamp(dt: DateTime<Utc>) -> Timestamp {
    Timestamp { seconds: dt.timestamp(), nanos: dt.timestamp_subsec_nanos() }
}

fn create_test_entry(meaning: Vec<f32>, expression: &str) -> Entry {
    Entry::new(bits(&meaning), expression.to_string())
}

fn object(members: Vec<(&str, ContextValue)>) -> ContextValue {
    ContextValue::Object(members.into_iter().map(|(k, v)| (k.to_string(), v)).collect())
}

fn text(s: &str) -> ContextValue {
    ContextValue::Text(s.to_string())
}

fn whole(n: u64) -> ContextValue {
    ContextValue::Number(Number::PosInt(n))
}

// ==================== Expression Filter Tests ====================

#[test]
fn test_matches_expression_equals() {
    let filter = ExpressionFilter::Equals("exact match".to_string());
    assert!(matches_expression("exact match", &filter).unwrap());
    assert!(!matches_expression("Exact Match", &filter).unwrap());
    assert!(!matches_expression("exact match ", &filter).unwrap());
}

#[test]
fn test_matches_expression_contains_case_insensitive() {
    let filter = ExpressionFilter::Contains("test".to_string());
    assert!(matches_expression("This is a test", &filter).unwrap());
    assert!(matches_expression("TEST", &filter).unwrap());
    assert!(matches_expression("Testing", &filter).unwrap());
    assert!(!matches_expression("No match here", &filter).unwrap());
}

#[test]
fn test_matches_expression_contains_lowers_the_filter_too() {
    let filter = ExpressionFilter::Contains("TeSt".to_string());
    assert!(matches_expression("a test", &filter).unwrap());
    assert!(matches_expression("A TEST", &filter).unwrap());
    let accented = ExpressionFilter::Contains("ÉCOLE".to_string());
    assert!(matches_expression("une école", &accented).unwrap());
}

#[test]
fn test_matches_expression_starts_with() {
    let filter = ExpressionFilter::StartsWith("Hello".to_string());
    assert!(matches_expression("Hello World", &filter).unwrap());
    assert!(matches_expression("Hello", &filter).unwrap());
    assert!(!matches_expression("hello world", &filter).unwrap()); // case sensitive
    assert!(!matches_expression("Say Hello", &filter).unwrap());
}

#[test]
fn test_matches_expression_empty_texts() {
    assert!(matches_expression("", &ExpressionFilter::Equals(String::new())).unwrap());
    assert!(matches_expression("abc", &ExpressionFilter::StartsWith(String::new())).unwrap());
    assert!(matches_expression("abc", &ExpressionFilter::Contains(String::new())).unwrap());
    assert!(!matches_expression("", &ExpressionFilter::StartsWith("a".to_string())).unwrap());
}

#[test]
fn test_matches_expression_matches_pattern() {
    let filter = ExpressionFilter::Matches("error".to_string());
    assert!(matches_expression("An error occurred", &filter).unwrap());
    assert!(matches_expression("error", &filter).unwrap());
    assert!(!matches_expression("An Error occurred", &filter).unwrap()); // case sensitive
}

#[test]
fn test_matches_expression_matches_is_a_true_pattern_test() {
    let filter = ExpressionFilter::Matches("^a.c$".to_string());
    assert!(matches_expression("abc", &filter).unwrap());
    assert!(!matches_expression("a.c d", &filter).unwrap());
}

#[test]
fn test_matches_expression_invalid_regex() {
    let filter = ExpressionFilter::Matches("[".to_string());
    let result = matches_expression("anything", &filter);
    assert!(result.is_err());
}

#[test]
fn test_matches_expression_invalid_regex_message() {
    let filter = ExpressionFilter::Matches("[".to_string());
    let expected = format!("Invalid regex: {}", regex::Regex::new("[").unwrap_err());
    match matches_expression("anything", &filter) {
        Err(StorageError::Database(message)) => assert_eq!(message, expected),
        _ => panic!("Expected invalid regex error"),
    }
}

// ==================== Context Filter Tests ====================

#[test]
fn test_matches_context_path_exists() {
    let context = object(vec![("foo", object(vec![("bar", text("value"))]))]);

    let filter = ContextFilter::PathExists("/foo/bar".to_string());
    assert!(matches_context(&context, &filter));

    let filter_missing = ContextFilter::PathExists("/foo/baz".to_string());
    assert!(!matches_context(&context, &filter_missing));
}

#[test]
fn test_matches_context_path_equals() {
    let context = object(vec![("status", text("active")), ("count", whole(42))]);

    let filter = ContextFilter::PathEquals("/status".to_string(), text("active"));
    assert!(matches_context(&context, &filter));

    let filter_wrong = ContextFilter::PathEquals("/status".to_string(), text("inactive"));
    assert!(!matches_context(&context, &filter_wrong));

    let filter_int = ContextFilter::PathEquals("/count".to_string(), whole(42));
    assert!(matches_context(&context, &filter_int));
}

#[test]
fn test_matches_context_path_contains() {
    let context = object(vec![(
        "tags",
        ContextValue::Array(vec![text("rust"), text("database"), text("embedded")]),
    )]);

    let filter = ContextFilter::PathContains("/tags".to_string(), text("rust"));
    assert!(matches_context(&context, &filter));

    let filter_missing = ContextFilter::PathContains("/tags".to_string(), text("python"));
    assert!(!matches_context(&context, &filter_missing));
}

#[test]
fn test_matches_context_path_contains_non_array() {
    let context = object(vec![("name", text("test"))]);

    let filter = ContextFilter::PathContains("/name".to_string(), text("test"));
    assert!(!matches_context(&context, &filter)); // Not an array
}

#[test]
fn test_matches_context_and() {
    let context = object(vec![("a", whole(1)), ("b", whole(2))]);

    let filter = ContextFilter::And(vec![
        ContextFilter::PathExists("/a".to_string()),
        ContextFilter::PathExists("/b".to_string()),
    ]);
    assert!(matches_context(&context, &filter));

    let filter_partial = ContextFilter::And(vec![
        ContextFilter::PathExists("/a".to_string()),
        ContextFilter::PathExists("/c".to_string()),
    ]);
    assert!(!matches_context(&context, &filter_partial));
}

#[test]
fn test_matches_context_or() {
    let context = object(vec![("a", whole(1))]);

    let filter = ContextFilter::Or(vec![
        ContextFilter::PathExists("/a".to_string()),
        ContextFilter::PathExists("/b".to_string()),
    ]);
    assert!(matches_context(&context, &filter));

    let filter_none = ContextFilter::Or(vec![
        ContextFilter::PathExists("/x".to_string()),
        ContextFilter::PathExists("/y".to_string()),
    ]);
    assert!(!matches_context(&context, &filter_none));
}

#[test]
fn test_matches_context_empty_and_or() {
    let context = ContextValue::Null;
    assert!(matches_context(&context, &ContextFilter::And(vec![])));
    assert!(!matches_context(&context, &ContextFilter::Or(vec![])));
}

#[test]
fn test_matches_context_nested_and_or() {
    let context = object(vec![("type", text("user")), ("status", text("active"))]);

    // (type exists AND (status = active OR status = pending))
    let filter = ContextFilter::And(vec![
        ContextFilter::PathExists("/type".to_string()),
        ContextFilter::Or(vec![
            ContextFilter::PathEquals("/status".to_string(), text("active")),
            ContextFilter::PathEquals("/status".to_string(), text("pending")),
        ]),
    ]);
    assert!(matches_context(&context, &filter));
}

// ==================== Temporal Filter Tests ====================

#[test]
fn test_matches_temporal_created_after() {
    let entry = create_test_entry(vec![0.1], "Test");
    let past = stamp(Utc.with_ymd_and_hms(2020, 1, 1, 0, 0, 0).unwrap());
    let future = stamp(Utc.with_ymd_and_hms(2030, 1, 1, 0, 0, 0).unwrap());

    assert!(matches_temporal(&entry, &TemporalFilter::CreatedAfter(past)));
    assert!(!matches_temporal(&entry, &TemporalFilter::CreatedAfter(future)));
}

#[test]
fn test_matches_temporal_created_before() {
    let entry = create_test_entry(vec![0.1], "Test");
    let past = stamp(Utc.with_ymd_and_hms(2020, 1, 1, 0, 0, 0).unwrap());
    let future = stamp(Utc.with_ymd_and_hms(2030, 1, 1, 0, 0, 0).unwrap());

    assert!(!matches_temporal(&entry, &TemporalFilter::CreatedBefore(past)));
    assert!(matches_temporal(&entry, &TemporalFilter::CreatedBefore(future)));
}

#[test]
fn test_matches_temporal_created_between() {
    let entry = create_test_entry(vec![0.1], "Test");
    let past = stamp(Utc.with_ymd_and_hms(2020, 1, 1, 0, 0, 0).unwrap());
    let future = stamp(Utc.with_ymd_and_hms(2030, 1, 1, 0, 0, 0).unwrap());

    assert!(matches_temporal(&entry, &TemporalFilter::CreatedBetween(past, future)));

    let narrow_start = stamp(Utc.with_ymd_and_hms(2020, 1, 1, 0, 0, 0).unwrap());
    let narrow_end = stamp(Utc.with_ymd_and_hms(2020, 1, 2, 0, 0, 0).unwrap());
    assert!(!matches_temporal(
        &entry,
        &TemporalFilter::CreatedBetween(narrow_start, narrow_end)
    ));
}

#[test]
fn test_matches_temporal_updated_after() {
    let entry = create_test_entry(vec![0.1], "Test");
    let past = stamp(Utc.with_ymd_and_hms(2020, 1, 1, 0, 0, 0).unwrap());

    assert!(matches_temporal(&entry, &TemporalFilter::UpdatedAfter(past)));
}

#[test]
fn test_matches_temporal_updated_before() {
    let entry = create_test_entry(vec![0.1], "Test");
    let future = stamp(Utc.with_ymd_and_hms(2030, 1, 1, 0, 0, 0).unwrap());

    assert!(matches_temporal(&entry, &TemporalFilter::UpdatedBefore(future)));
}

#[test]
fn test_matches_temporal_bounds_are_exclusive() {
    let made = Timestamp { seconds: 1_000, nanos: 500 };
    let entry = Entry::assemble(1, made, vec![], "Test".to_string());
    let just_before = Timestamp { seconds: 1_000, nanos: 499 };
    let just_after = Timestamp { seconds: 1_000, nanos: 501 };

    assert!(!matches_temporal(&entry, &TemporalFilter::CreatedAfter(made)));
    assert!(!matches_temporal(&entry, &TemporalFilter::CreatedBefore(made)));
    assert!(!matches_temporal(&entry, &TemporalFilter::UpdatedAfter(made)));
    assert!(!matches_temporal(&entry, &TemporalFilter::UpdatedBefore(made)));
    assert!(!matches_temporal(&entry, &TemporalFilter::CreatedBetween(made, just_after)));
    assert!(!matches_temporal(&entry, &TemporalFilter::CreatedBetween(just_before, made)));
    assert!(matches_temporal(&entry, &TemporalFilter::CreatedBetween(just_before, just_after)));
    assert!(matches_temporal(&entry, &TemporalFilter::CreatedAfter(just_before)));
    assert!(matches_temporal(&entry, &TemporalFilter::UpdatedBefore(just_after)));
}

// ==================== Explanation Tests ====================

#[test]
fn test_generate_explanation_includes_all_filters() {
    let query = Query {
        meaning: Some(MeaningFilter {
            vector: bits(&[0.1]),
            threshold: Some(0.8f32.to_bits()),
            top_k: None,
        }),
        expression: Some(ExpressionFilter::Contains("test".to_string())),
        context: Some(ContextFilter::PathExists("/meta".to_string())),
        relations: Some(RelationFilter::HasRelations),
        temporal: Some(TemporalFilter::CreatedAfter(stamp(Utc::now()))),
        limit: None,
        explain: true,
    };
    let score = Score { bits: 0.85f32.to_bits(), percent: format!("{:.2}", 0.85f32 * 100.0) };

    let explanation = generate_explanation(&query, Some(&score));

    assert!(explanation.contains("Semantic similarity"));
    assert!(explanation.contains("expression filter"));
    assert!(explanation.contains("context filter"));
    assert!(explanation.contains("temporal filter"));
    assert!(explanation.contains("relation filter"));
    assert_eq!(
        explanation,
        "Semantic similarity: 85.00%, Matched expression filter, Matched context filter, \
         Matched temporal filter, Matched relation filter"
    );
}

#[test]
fn test_generate_explanation_without_score() {
    let query = Query::new()
        .with_context(ContextFilter::PathExists("/meta".to_string()))
        .with_temporal(TemporalFilter::UpdatedAfter(Timestamp { seconds: 0, nanos: 0 }));

    assert_eq!(
        generate_explanation(&query, None),
        "Matched context filter, Matched temporal filter"
    );
    assert_eq!(generate_explanation(&Query::new(), None), "");
}
