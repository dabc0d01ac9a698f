use lau_vibe_field::agents::Reader;
use lau_vibe_field::registry::FieldRegistry;

#[test]
fn test_engine_create_field() {
    let mut fields: FieldRegistry<Vec<f64>> = FieldRegistry::new();
    fields.insert("test", vec![0.0; 100]);
    assert_eq!(fields.len(), 1);
}

#[test]
fn test_engine_deposit_missing_field() {
    let fields: FieldRegistry<Vec<f64>> = FieldRegistry::new();
    assert_eq!(fields.position("nope"), None);
}

#[test]
fn test_engine_snapshot_missing() {
    let fields: FieldRegistry<Vec<f64>> = FieldRegistry::new();
    assert!(fields.get("nope").is_none());
}

#[test]
fn insert_replaces_existing_name() {
    let mut fields: FieldRegistry<u32> = FieldRegistry::new();
    fields.insert("a", 1);
    fields.insert("b", 2);
    fields.insert("a", 3);
    assert_eq!(fields.len(), 2);
    assert_eq!(fields.get("a"), Some(&3));
    assert_eq!(fields.get("b"), Some(&2));
    assert_eq!(fields.position("a"), Some(0));
    assert_eq!(fields.position("b"), Some(1));
    assert_eq!(fields.name_at(1), "b");
}

#[test]
fn field_at_mut_changes_one_field() {
    let mut fields: FieldRegistry<u32> = FieldRegistry::new();
    fields.insert("x", 10);
    fields.insert("y", 20);
    *fields.field_at_mut(1) += 5;
    assert_eq!(*fields.field_at(0), 10);
    assert_eq!(*fields.field_at(1), 25);
    assert_eq!(fields.get("y"), Some(&25));
}

#[test]
fn reader_clone_keeps_fields() {
    let r = Reader { id: "eye".to_string(), position: (3, 4), radius: 2 };
    let c = r.clone();
    assert_eq!(c.id, "eye");
    assert_eq!(c.position, (3, 4));
    assert_eq!(c.radius, 2);
}
