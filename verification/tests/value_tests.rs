use mustache_processor::value::{Value, ValueMap};

#[test]
fn is_truthy_null_and_bool() {
    assert!(!Value::Null.is_truthy());
    assert!(!Value::Bool(false).is_truthy());
    assert!(Value::Bool(true).is_truthy());
}

#[test]
fn is_truthy_array() {
    assert!(!Value::Array(vec![]).is_truthy());
    assert!(Value::Array(vec![Value::Null]).is_truthy());
}

#[test]
fn is_truthy_empty_string_and_empty_map_are_truthy() {
    assert!(Value::String(String::new()).is_truthy());
    assert!(Value::Object(ValueMap::new()).is_truthy());
}

#[test]
fn is_truthy_numbers_including_zero() {
    assert!(Value::Integer(0).is_truthy());
    assert!(Value::Float("0.0".to_string()).is_truthy());
    assert!(Value::Integer(-1).is_truthy());
}

#[test]
fn get_on_map_and_non_map() {
    let mut map = ValueMap::new();
    map.insert("k", Value::Integer(1));
    let v = Value::Object(map);
    assert_eq!(v.get("k"), Some(&Value::Integer(1)));
    assert_eq!(v.get("missing"), None);
    assert_eq!(Value::Integer(1).get("k"), None);
}

#[test]
fn iter_on_array_and_non_array() {
    let v = Value::Array(vec![Value::Integer(1), Value::Integer(2)]);
    let collected: Vec<&Value> = v.iter().unwrap().iter().collect();
    assert_eq!(collected, vec![&Value::Integer(1), &Value::Integer(2)]);
    assert!(Value::Integer(1).iter().is_none());
}

#[test]
fn map_preserves_insertion_order() {
    let mut map = ValueMap::new();
    map.insert("z", Value::Integer(1));
    map.insert("a", Value::Integer(2));
    map.insert("m", Value::Integer(3));
    let keys: Vec<&str> = map.iter().iter().map(|(k, _)| k.as_str()).collect();
    assert_eq!(keys, vec!["z", "a", "m"]);
}

#[test]
fn map_insert_overwrites_existing_key_without_reordering() {
    let mut map = ValueMap::new();
    map.insert("a", Value::Integer(1));
    map.insert("b", Value::Integer(2));
    let old = map.insert("a", Value::Integer(99));
    assert_eq!(old, Some(Value::Integer(1)));
    let keys: Vec<&str> = map.iter().iter().map(|(k, _)| k.as_str()).collect();
    assert_eq!(keys, vec!["a", "b"]);
    assert_eq!(map.get("a"), Some(&Value::Integer(99)));
}

#[test]
fn map_len_and_is_empty() {
    let mut map = ValueMap::new();
    assert!(map.is_empty());
    assert_eq!(map.len(), 0);
    map.insert("a", Value::Null);
    map.insert("a", Value::Bool(true));
    assert!(!map.is_empty());
    assert_eq!(map.len(), 1);
}

#[test]
fn clone_copies_nested_values() {
    let mut inner = ValueMap::new();
    inner.insert("n", Value::Integer(2));
    inner.insert("s", Value::String("x".to_string()));
    let mut outer = ValueMap::new();
    outer.insert("obj", Value::Object(inner));
    outer.insert(
        "list",
        Value::Array(vec![Value::Float("1.5".to_string()), Value::Null, Value::Bool(true)]),
    );
    let v = Value::Object(outer);
    let c = v.clone();
    assert_eq!(c, v);

    let m = match &v {
        Value::Object(m) => m.clone(),
        _ => unreachable!(),
    };
    let keys: Vec<&str> = m.iter().iter().map(|(k, _)| k.as_str()).collect();
    assert_eq!(keys, vec!["obj", "list"]);
}
