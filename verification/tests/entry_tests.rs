use chrono::Utc;
use contextdb::{ContextValue, Entry, Number, Timestamp};

fn bits(vector: &[f32]) -> Vec<u32> {
    vector.iter().map(|x| x.to_bits()).collect()
}

fn now() -> Timestamp {
    let dt = Utc::now();
    Timestamp { seconds: dt.timestamp(), nanos: dt.timestamp_subsec_nanos() }
}

fn at_least(a: &Timestamp, b: &Timestamp) -> bool {
    !a.is_before(b)
}

fn object(members: Vec<(&str, ContextValue)>) -> ContextValue {
    ContextValue::Object(members.into_iter().map(|(k, v)| (k.to_string(), v)).collect())
}

fn text(s: &str) -> ContextValue {
    ContextValue::Text(s.to_string())
}

fn whole(n: u64) -> ContextValue {
    ContextValue::Number(Number::PosInt(n))
}

// ==================== Entry Creation Tests ====================

#[test]
fn test_entry_creation() {
    let entry = Entry::new(bits(&[0.1, 0.2, 0.3]), "Test entry".to_string());

    assert_eq!(entry.expression, "Test entry");
    assert_eq!(entry.meaning.len(), 3);
    assert!(entry.context.equals(&ContextValue::Null));
    assert!(entry.relations.is_empty());
}

#[test]
fn test_entry_has_unique_id() {
    let entry1 = Entry::new(bits(&[0.1]), "Entry 1".to_string());
    let entry2 = Entry::new(bits(&[0.1]), "Entry 2".to_string());
    assert_ne!(entry1.id, entry2.id);
}

#[test]
fn test_entry_timestamps_initialized() {
    let before = now();
    let entry = Entry::new(bits(&[0.1]), "Test".to_string());
    let after = now();

    assert!(at_least(&entry.created_at, &before) && at_least(&after, &entry.created_at));
    assert!(at_least(&entry.updated_at, &before) && at_least(&after, &entry.updated_at));
    assert_eq!(entry.created_at, entry.updated_at);
}

#[test]
fn test_entry_with_empty_expression() {
    let entry = Entry::new(bits(&[0.1]), String::new());
    assert!(entry.expression.is_empty());
}

#[test]
fn test_entry_with_empty_meaning() {
    let entry = Entry::new(vec![], "No embedding".to_string());
    assert!(entry.meaning.is_empty());
}

#[test]
fn test_entry_assemble_uses_what_it_is_given() {
    let made = Timestamp { seconds: 1_700_000_000, nanos: 5 };
    let entry = Entry::assemble(42, made, bits(&[1.0]), "Given".to_string());

    assert_eq!(entry.id, 42);
    assert_eq!(entry.created_at, made);
    assert_eq!(entry.updated_at, made);
    assert_eq!(entry.meaning, vec![1.0f32.to_bits()]);
    assert_eq!(entry.expression, "Given");
    assert!(entry.relations.is_empty());
}

// ==================== Entry Context Tests ====================

#[test]
fn test_entry_with_context() {
    let context = object(vec![("source", text("user")), ("priority", whole(1))]);
    let same = object(vec![("source", text("user")), ("priority", whole(1))]);

    let entry = Entry::new(bits(&[0.1]), "Test".to_string()).with_context(context);

    assert!(entry.context.equals(&same));
}

#[test]
fn test_entry_context_can_be_replaced() {
    let context1 = object(vec![("version", whole(1))]);
    let context2 = object(vec![("version", whole(2))]);

    let entry = Entry::new(bits(&[0.1]), "Test".to_string())
        .with_context(context1)
        .with_context(context2);

    assert!(entry.context.equals(&object(vec![("version", whole(2))])));
    assert!(!entry.context.equals(&object(vec![("version", whole(1))])));
}

#[test]
fn test_entry_with_nested_context() {
    let context = object(vec![(
        "metadata",
        object(vec![
            ("tags", ContextValue::Array(vec![text("tag1"), text("tag2")])),
            ("nested", object(vec![("deep", ContextValue::Bool(true))])),
        ]),
    )]);

    let entry = Entry::new(bits(&[0.1]), "Test".to_string()).with_context(context);

    assert!(entry.context.pointer("/metadata/tags/0").unwrap().equals(&text("tag1")));
    assert!(entry
        .context
        .pointer("/metadata/nested/deep")
        .unwrap()
        .equals(&ContextValue::Bool(true)));
}

// ==================== Entry Relations Tests ====================

#[test]
fn test_entry_add_relation() {
    let other_id = uuid::Uuid::new_v4().as_u128();
    let entry = Entry::new(bits(&[0.1]), "Test".to_string()).add_relation(other_id);

    assert_eq!(entry.relations.len(), 1);
    assert!(entry.relations.contains(&other_id));
}

#[test]
fn test_entry_add_multiple_relations() {
    let id1 = uuid::Uuid::new_v4().as_u128();
    let id2 = uuid::Uuid::new_v4().as_u128();
    let id3 = uuid::Uuid::new_v4().as_u128();

    let entry = Entry::new(bits(&[0.1]), "Test".to_string())
        .add_relation(id1)
        .add_relation(id2)
        .add_relation(id3);

    assert_eq!(entry.relations.len(), 3);
    assert!(entry.relations.contains(&id1));
    assert!(entry.relations.contains(&id2));
    assert!(entry.relations.contains(&id3));
}

#[test]
fn test_entry_add_duplicate_relation_ignored() {
    let other_id = uuid::Uuid::new_v4().as_u128();
    let entry = Entry::new(bits(&[0.1]), "Test".to_string())
        .add_relation(other_id)
        .add_relation(other_id);

    assert_eq!(entry.relations.len(), 1);
}

fn wait_for_the_clock(after: &Timestamp) {
    while !now().is_after(after) {
        std::hint::spin_loop();
    }
}

#[test]
fn test_entry_add_relation_updates_timestamp() {
    let entry = Entry::new(bits(&[0.1]), "Test".to_string());
    let original_updated = entry.updated_at;

    wait_for_the_clock(&original_updated);

    let other_id = uuid::Uuid::new_v4().as_u128();
    let entry = entry.add_relation(other_id);

    assert!(entry.updated_at.is_after(&original_updated));
}

#[test]
fn test_entry_add_duplicate_relation_no_timestamp_update() {
    let other_id = uuid::Uuid::new_v4().as_u128();
    let entry = Entry::new(bits(&[0.1]), "Test".to_string()).add_relation(other_id);
    let updated_at_after_first = entry.updated_at;

    wait_for_the_clock(&updated_at_after_first);

    let entry = entry.add_relation(other_id);

    // Timestamp should not change for duplicate
    assert_eq!(entry.updated_at, updated_at_after_first);
}

#[test]
fn test_entry_add_relation_at_updates_timestamp() {
    let made = Timestamp { seconds: 100, nanos: 0 };
    let later = Timestamp { seconds: 100, nanos: 1 };
    let entry = Entry::assemble(1, made, bits(&[0.1]), "Test".to_string());

    let entry = entry.add_relation_at(2, later);

    assert_eq!(entry.created_at, made);
    assert_eq!(entry.updated_at, later);
    assert!(entry.updated_at.is_after(&made));
    assert_eq!(entry.relations, vec![2]);
}

#[test]
fn test_entry_add_duplicate_relation_at_keeps_timestamp() {
    let made = Timestamp { seconds: 100, nanos: 0 };
    let first = Timestamp { seconds: 101, nanos: 0 };
    let second = Timestamp { seconds: 102, nanos: 0 };
    let entry = Entry::assemble(1, made, bits(&[0.1]), "Test".to_string())
        .add_relation_at(2, first)
        .add_relation_at(2, second);

    assert_eq!(entry.created_at, made);
    assert_eq!(entry.updated_at, first);
    assert_eq!(entry.relations, vec![2]);
}

#[test]
fn test_entry_may_relate_to_itself() {
    let made = Timestamp { seconds: 100, nanos: 0 };
    let entry = Entry::assemble(1, made, vec![], String::new()).add_relation_at(1, made);

    assert_eq!(entry.relations, vec![1]);
}

#[test]
fn test_timestamp_order() {
    let a = Timestamp { seconds: 5, nanos: 999_999_999 };
    let b = Timestamp { seconds: 6, nanos: 0 };
    let c = Timestamp { seconds: -1, nanos: 7 };

    assert!(a.is_before(&b));
    assert!(b.is_after(&a));
    assert!(!a.is_before(&a));
    assert!(!a.is_after(&a));
    assert!(c.is_before(&a));
}
