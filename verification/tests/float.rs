use iqdb::float::{double_equal, single_equal, Double, Single};
use iqdb::payload::PayloadValue;
use iqdb::record::RecordId;
use iqdb::search::SearchResult;
use iqdb::types::Value;
use iqdb::vector::Vector;

fn vector(xs: &[f32]) -> Vector {
    Vector::from_bits(xs.iter().map(|x| x.to_bits()).collect()).expect("finite")
}

#[test]
fn doubles_compare_as_floats() {
    assert!(double_equal(0.0f64.to_bits(), (-0.0f64).to_bits()));
    assert!(double_equal(1.5f64.to_bits(), 1.5f64.to_bits()));
    assert!(!double_equal(1.5f64.to_bits(), 2.5f64.to_bits()));
    assert!(!double_equal(f64::NAN.to_bits(), f64::NAN.to_bits()));
    assert!(double_equal(f64::INFINITY.to_bits(), f64::INFINITY.to_bits()));
    assert!(!double_equal(f64::INFINITY.to_bits(), f64::NEG_INFINITY.to_bits()));
    assert_eq!(Double(0.0f64.to_bits()), Double((-0.0f64).to_bits()));
    assert_ne!(Double(f64::NAN.to_bits()), Double(f64::NAN.to_bits()));
}

#[test]
fn singles_compare_as_floats() {
    assert!(single_equal(0.0f32.to_bits(), (-0.0f32).to_bits()));
    assert!(!single_equal(f32::NAN.to_bits(), f32::NAN.to_bits()));
    assert!(!single_equal(1.0f32.to_bits(), 2.0f32.to_bits()));
    assert_eq!(Single(3.0f32.to_bits()), Single(3.0f32.to_bits()));
}

#[test]
fn metadata_floats_compare_as_floats() {
    assert_eq!(Value::Float(Double(0.0f64.to_bits())), Value::Float(Double((-0.0f64).to_bits())));
    assert_ne!(Value::Float(Double(f64::NAN.to_bits())), Value::Float(Double(f64::NAN.to_bits())));
    assert_eq!(
        PayloadValue::Array(vec![PayloadValue::Float(Double((-0.0f64).to_bits()))]),
        PayloadValue::Array(vec![PayloadValue::Float(Double(0.0f64.to_bits()))])
    );
    assert_ne!(
        PayloadValue::Float(Double(f64::NAN.to_bits())),
        PayloadValue::Float(Double(f64::NAN.to_bits()))
    );
}

#[test]
fn vectors_compare_component_wise_as_floats() {
    assert_eq!(vector(&[0.0, 1.0]), vector(&[-0.0, 1.0]));
    assert_ne!(vector(&[1.0, 2.0]), vector(&[1.0, 3.0]));
    assert_ne!(vector(&[1.0]), vector(&[1.0, 1.0]));
}

#[test]
fn search_results_compare_scores_as_floats() {
    let hit = |score: f32| SearchResult { id: RecordId::new(1), score: Single(score.to_bits()), payload: None };
    assert_eq!(hit(0.0), hit(-0.0));
    assert_ne!(hit(f32::NAN), hit(f32::NAN));
    assert_ne!(hit(1.0), hit(2.0));
}
