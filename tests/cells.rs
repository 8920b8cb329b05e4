use channel_store::cells::{CellStore, LookupError, Value, ValueKind};

#[test]
fn typed_get_of_missing_key_is_not_found() {
    let mut s = CellStore::new();
    assert!(matches!(s.get_as(&1, ValueKind::Int), Err(LookupError::NotFound)));
    s.insert(2, Value::Int(5));
    s.insert(3, Value::Flag(true));
    assert!(matches!(s.get_as(&1, ValueKind::Int), Err(LookupError::NotFound)));
    assert!(matches!(s.get_as(&1, ValueKind::Text), Err(LookupError::NotFound)));
}

#[test]
fn typed_get_of_other_type_is_wrong_type() {
    let mut s = CellStore::new();
    s.insert(1, Value::Text("hi".to_string()));
    assert!(matches!(s.get_as(&1, ValueKind::Int), Err(LookupError::WrongType)));
    assert!(matches!(s.get_as(&1, ValueKind::Flag), Err(LookupError::WrongType)));
    assert!(matches!(s.get_as(&1, ValueKind::Text), Ok(Value::Text(t)) if t == "hi"));
}

#[test]
fn typed_get_after_replacing_value() {
    let mut s = CellStore::new();
    s.insert(1, Value::Int(-3));
    assert!(matches!(s.get_as(&1, ValueKind::Int), Ok(Value::Int(-3))));
    s.insert(1, Value::Flag(false));
    assert!(matches!(s.get_as(&1, ValueKind::Int), Err(LookupError::WrongType)));
    assert!(matches!(s.get_as(&1, ValueKind::Flag), Ok(Value::Flag(false))));
    assert_eq!(s.cells.len(), 1);
}

#[test]
fn value_kind_matches_variant() {
    assert_eq!(Value::Int(0).kind(), ValueKind::Int);
    assert_eq!(Value::Text(String::new()).kind(), ValueKind::Text);
    assert_eq!(Value::Flag(true).kind(), ValueKind::Flag);
}
