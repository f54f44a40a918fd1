use iqdb::float::Double;
use iqdb::payload::{text, Payload, PayloadValue};

#[test]
fn new_is_empty() {
    let p = Payload::new();
    assert!(p.is_empty());
    assert_eq!(p.len(), 0);
}

#[test]
fn insert_then_get_round_trip() {
    let mut p = Payload::new();
    let prior = p.insert("title".to_string(), text("Rust"));
    assert!(prior.is_none());
    let value = p.get("title").unwrap();
    assert_eq!(value.as_text(), Some("Rust"));
}

#[test]
fn insert_replacing_returns_prior() {
    let mut p = Payload::new();
    assert!(p.insert("k".to_string(), text("a")).is_none());
    let prior = p.insert("k".to_string(), text("b")).unwrap();
    assert_eq!(prior.as_text(), Some("a"));
    assert_eq!(p.get("k").and_then(PayloadValue::as_text), Some("b"));
}

#[test]
fn remove_returns_prior_value() {
    let mut p = Payload::new();
    p.insert("k".to_string(), text("v"));
    let removed = p.remove("k").unwrap();
    assert_eq!(removed.as_text(), Some("v"));
    assert!(p.is_empty());
}

#[test]
fn remove_absent_returns_none() {
    let mut p = Payload::new();
    assert!(p.remove("missing").is_none());
}

#[test]
fn contains_key_reflects_presence() {
    let mut p = Payload::new();
    p.insert("k".to_string(), PayloadValue::from(true));
    assert!(p.contains_key("k"));
    assert!(!p.contains_key("missing"));
}

#[test]
fn iter_is_ordered_by_key() {
    let mut p = Payload::new();
    p.insert("c".to_string(), PayloadValue::from(3_i64));
    p.insert("a".to_string(), PayloadValue::from(1_i64));
    p.insert("b".to_string(), PayloadValue::from(2_i64));
    let order: Vec<&str> = p.iter().map(|(k, _)| k.as_str()).collect();
    assert_eq!(order, vec!["a", "b", "c"]);
}

#[test]
fn typed_accessors_return_none_for_wrong_variant() {
    let pv = PayloadValue::Text("hi".to_string());
    assert!(pv.as_bool().is_none());
    assert!(pv.as_int().is_none());
    assert!(pv.as_float().is_none());
    assert!(pv.as_bytes().is_none());
}

#[test]
fn from_iter_collects_into_payload() {
    let p = Payload::from_pairs(vec![
        ("a".to_string(), PayloadValue::from(1_i64)),
        ("b".to_string(), PayloadValue::from(2_i64)),
    ]);
    assert_eq!(p.len(), 2);
    assert_eq!(p.get("a").and_then(PayloadValue::as_int), Some(1));
}

#[test]
fn from_conversions_cover_primitive_types() {
    assert!(matches!(PayloadValue::from(true), PayloadValue::Bool(true)));
    assert!(matches!(PayloadValue::from(42_i64), PayloadValue::Int(42)));
    assert!(matches!(PayloadValue::from(42_i32), PayloadValue::Int(42)));
    assert!(matches!(
        PayloadValue::Float(Double(1.5_f64.to_bits())),
        PayloadValue::Float(Double(v)) if (f64::from_bits(v) - 1.5).abs() < 1e-9
    ));
    assert!(matches!(
        PayloadValue::Float(Double(f64::from(1.5_f32).to_bits())),
        PayloadValue::Float(Double(v)) if (f64::from_bits(v) - 1.5).abs() < 1e-6
    ));
    assert!(matches!(text("hi"), PayloadValue::Text(s) if s == "hi"));
    assert!(matches!(
        PayloadValue::from("hi".to_string()),
        PayloadValue::Text(s) if s == "hi"
    ));
    assert!(matches!(
        PayloadValue::from(vec![1_u8, 2, 3]),
        PayloadValue::Bytes(b) if b == vec![1, 2, 3]
    ));
}

#[test]
fn type_predicates_match_active_variant() {
    assert!(PayloadValue::Null.is_null());
    assert!(PayloadValue::Bool(true).is_bool());
    assert!(PayloadValue::Int(1).is_int());
    assert!(PayloadValue::Float(Double(1.0f64.to_bits())).is_float());
    assert!(PayloadValue::Text("a".to_string()).is_text());
    assert!(PayloadValue::Bytes(vec![0]).is_bytes());
    assert!(PayloadValue::Array(Vec::new()).is_array());
    assert!(PayloadValue::Object(Payload::new()).is_object());
}

#[test]
fn into_iter_by_ref_yields_field_pairs() {
    let mut p = Payload::new();
    p.insert("k".to_string(), PayloadValue::from(1_i64));
    for (key, value) in p.iter() {
        assert_eq!(key.as_str(), "k");
        assert_eq!(value.as_int(), Some(1));
    }
}

#[test]
fn into_iter_by_value_consumes_payload() {
    let mut p = Payload::new();
    p.insert("k".to_string(), PayloadValue::from(1_i64));
    let collected: Vec<(String, PayloadValue)> = p.into_entries();
    assert_eq!(collected.len(), 1);
}

#[test]
fn from_pairs_keeps_the_last_of_a_repeated_key() {
    let p = Payload::from_pairs(vec![
        ("k".to_string(), PayloadValue::from(1_i64)),
        ("a".to_string(), PayloadValue::Null),
        ("k".to_string(), PayloadValue::from(2_i64)),
    ]);
    assert_eq!(p.len(), 2);
    assert_eq!(p.get("k").and_then(PayloadValue::as_int), Some(2));
    let keys: Vec<&str> = p.as_map().iter().map(|(k, _)| k.as_str()).collect();
    assert_eq!(keys, vec!["a", "k"]);
}

#[test]
fn keys_order_by_utf8_bytes() {
    let mut p = Payload::new();
    p.insert("é".to_string(), PayloadValue::Null);
    p.insert("z".to_string(), PayloadValue::Null);
    p.insert("Z".to_string(), PayloadValue::Null);
    p.insert("".to_string(), PayloadValue::Null);
    p.insert("zz".to_string(), PayloadValue::Null);
    let keys: Vec<&str> = p.as_map().iter().map(|(k, _)| k.as_str()).collect();
    assert_eq!(keys, vec!["", "Z", "z", "zz", "é"]);
}

#[test]
fn remove_keeps_the_other_keys() {
    let mut p = Payload::new();
    p.insert("a".to_string(), PayloadValue::Int(1));
    p.insert("b".to_string(), PayloadValue::Int(2));
    p.insert("c".to_string(), PayloadValue::Int(3));
    assert_eq!(p.remove("b").and_then(|v| v.as_int()), Some(2));
    assert_eq!(p.len(), 2);
    assert_eq!(p.get("a").and_then(PayloadValue::as_int), Some(1));
    assert_eq!(p.get("c").and_then(PayloadValue::as_int), Some(3));
    assert!(p.get("b").is_none());
}

#[test]
fn typed_accessors_return_the_value() {
    assert_eq!(PayloadValue::Bool(true).as_bool(), Some(true));
    assert_eq!(PayloadValue::Int(-3).as_int(), Some(-3));
    assert_eq!(PayloadValue::Float(Double(7)).as_float(), Some(7));
    assert_eq!(PayloadValue::Bytes(vec![9]).as_bytes(), Some(&[9u8][..]));
    assert!(PayloadValue::Null.as_text().is_none());
    assert!(!PayloadValue::Null.is_bool());
}

#[test]
fn clone_copies_nested_values() {
    let mut inner = Payload::new();
    inner.insert("x".to_string(), PayloadValue::Array(vec![PayloadValue::Int(1)]));
    let v = PayloadValue::Object(inner);
    let c = v.clone();
    assert_eq!(c, v);
    let p = Payload::from_pairs(vec![("v".to_string(), v)]);
    assert_eq!(p.clone(), p);
}
