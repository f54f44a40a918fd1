use iqdb::record::RecordId;

#[test]
fn record_id_round_trips_through_u64() {
    let id = RecordId::new(42);
    let raw: u64 = id.into();
    assert_eq!(raw, 42);
    let back: RecordId = raw.into();
    assert_eq!(back, id);
}

#[test]
fn record_id_orders_lexicographically_on_u64() {
    assert!(RecordId::new(1) < RecordId::new(2));
    assert!(RecordId::new(u64::MAX) > RecordId::new(0));
}

#[test]
fn record_id_display_is_raw_u64() {
    let s = RecordId::new(123).to_decimal_string();
    assert_eq!(s, "123");
}

#[test]
fn record_id_get_returns_the_raw_value() {
    assert_eq!(RecordId::new(7).get(), 7);
    assert_eq!(RecordId::new(0).to_decimal_string(), "0");
    assert_eq!(RecordId::new(u64::MAX).to_decimal_string(), "18446744073709551615");
}

use iqdb::payload::{text, Payload};
use iqdb::record::Record;
use iqdb::vector::{Vector, VectorError};

fn vector(components: Vec<f32>) -> Vector {
    Vector::from_bits(components.into_iter().map(f32::to_bits).collect()).unwrap()
}

#[test]
fn record_new_has_no_payload() {
    let r = Record::new(RecordId::from(1_u64), vector(vec![0.0, 1.0]));
    assert!(r.payload().is_none());
    assert_eq!(r.id().get(), 1);
    assert_eq!(r.vector().dim(), 2);
}

#[test]
fn record_with_payload_carries_metadata() {
    let mut p = Payload::new();
    p.insert("k".to_string(), text("v"));
    let r = Record::with_payload(RecordId::new(1), vector(vec![0.0, 1.0]), p);
    let payload = r.payload().expect("payload set");
    assert!(payload.contains_key("k"));
}

#[test]
fn into_parts_decomposes_without_clone() {
    let r = Record::new(RecordId::new(7), vector(vec![1.0, 2.0, 3.0]));
    let (id, vec, payload) = r.into_parts();
    assert_eq!(id.get(), 7);
    assert_eq!(vec.dim(), 3);
    assert!(payload.is_none());
}

#[test]
fn new_rejects_empty_vector() {
    assert_eq!(Vector::from_bits(Vec::new()).unwrap_err(), VectorError::Empty);
}

#[test]
fn new_rejects_nan_component() {
    let err = Vector::from_bits(vec![1.0f32.to_bits(), f32::NAN.to_bits()]).unwrap_err();
    assert_eq!(err, VectorError::NonFinite);
}

#[test]
fn new_rejects_positive_infinity() {
    let err = Vector::from_bits(vec![f32::INFINITY.to_bits()]).unwrap_err();
    assert_eq!(err, VectorError::NonFinite);
}

#[test]
fn new_rejects_negative_infinity() {
    let err = Vector::from_bits(vec![f32::NEG_INFINITY.to_bits()]).unwrap_err();
    assert_eq!(err, VectorError::NonFinite);
}

#[test]
fn dim_matches_input_length() {
    assert_eq!(vector(vec![1.0, 2.0, 3.0, 4.0]).dim(), 4);
}

#[test]
fn as_slice_and_as_ref_agree() {
    let v = vector(vec![0.5, -1.0]);
    let bits = v.as_bits().to_vec();
    assert_eq!(v.clone().into_bits(), bits);
    assert_eq!(bits, vec![0.5f32.to_bits(), (-1.0f32).to_bits()]);
}

#[test]
fn vector_clone_is_independent() {
    let v = vector(vec![1.0, 2.0]);
    let c = v.clone();
    drop(v);
    assert_eq!(c.dim(), 2);
}

#[test]
fn subnormal_and_max_components_are_finite() {
    assert!(Vector::from_bits(vec![1, f32::MAX.to_bits(), f32::MIN_POSITIVE.to_bits()]).is_ok());
    assert_eq!(
        VectorError::NonFinite.reason(),
        "vector contains a non-finite value"
    );
}

#[test]
fn into_inner_returns_box() {
    let v = vector(vec![3.0]);
    assert_eq!(v.into_bits(), vec![3.0f32.to_bits()]);
}

#[test]
fn from_slice_copies_input() {
    let input = [1.0f32.to_bits(), 2.0f32.to_bits()];
    let v = Vector::from_slice(&input).unwrap();
    assert_eq!(v.as_bits(), &input[..]);
    assert_eq!(Vector::from_slice(&[]).unwrap_err(), VectorError::Empty);
}

#[test]
fn try_from_vec_works() {
    let v = Vector::from_bits(vec![1.0f32.to_bits(), 2.0f32.to_bits()]).unwrap();
    assert_eq!(v.dim(), 2);
}

#[test]
fn try_from_slice_works() {
    let v = Vector::from_slice(&[1.0f32.to_bits(), 2.0f32.to_bits(), 3.0f32.to_bits()]).unwrap();
    assert_eq!(v.dim(), 3);
}

#[test]
fn record_id_comparisons_follow_the_raw_value() {
    assert_eq!(RecordId::new(5).partial_cmp(&RecordId::new(9)), Some(std::cmp::Ordering::Less));
    assert_eq!(RecordId::new(9).partial_cmp(&RecordId::new(9)), Some(std::cmp::Ordering::Equal));
    assert_eq!(RecordId::new(9).partial_cmp(&RecordId::new(5)), Some(std::cmp::Ordering::Greater));
    assert!(RecordId::new(0) <= RecordId::new(0));
    assert!(!(RecordId::new(3) < RecordId::new(3)));
}
