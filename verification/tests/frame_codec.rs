use iqdb::float::Double;
use iqdb::bytes::Cursor;
use iqdb::codec::{read_payload_value, write_payload_value};
use iqdb::codec::{crc32, read_header, write_header, Corruption};

#[test]
fn crc32_matches_known_vector() {
    // CRC-32/IEEE-802.3 of the empty string is 0.
    assert_eq!(crc32(&[]), 0);
    // CRC of ASCII "123456789" is the well-known 0xCBF43926.
    assert_eq!(crc32(b"123456789"), 0xCBF4_3926);
}

#[test]
fn header_round_trip() {
    let mut buf = Vec::new();
    write_header(&mut buf);
    assert_eq!(read_header(&buf).unwrap(), 8);
}

#[test]
fn header_rejects_bad_magic() {
    let buf = b"XXXX\x01\x00\x00\x00".to_vec();
    let err = read_header(&buf).unwrap_err();
    assert_eq!(err, Corruption::BadMagic);
}

#[test]
fn header_rejects_unknown_version() {
    let mut buf = Vec::new();
    buf.extend_from_slice(b"IQDB");
    buf.extend_from_slice(&999u32.to_le_bytes());
    let err = read_header(&buf).unwrap_err();
    assert_eq!(err, Corruption::UnknownVersion);
}

#[test]
fn header_rejects_truncated_input() {
    assert_eq!(read_header(b"IQDB").unwrap_err(), Corruption::TruncatedHeader);
    assert_eq!(Corruption::TruncatedHeader.reason(), "truncated header");
}

#[test]
fn header_is_magic_then_little_endian_version() {
    let mut buf = vec![0xAA];
    write_header(&mut buf);
    assert_eq!(buf, vec![0xAA, b'I', b'Q', b'D', b'B', 1, 0, 0, 0]);
}

#[test]
fn crc32_detects_a_flipped_bit() {
    let a = crc32(b"hello world");
    let b = crc32(b"hello worle");
    assert_ne!(a, b);
    // Standard check value of "The quick brown fox jumps over the lazy dog".
    assert_eq!(crc32(b"The quick brown fox jumps over the lazy dog"), 0x414F_A339);
}

use iqdb::codec::{decode_body, read_frame, write_frame, Op};
use iqdb::payload::{text, Payload, PayloadValue};
use iqdb::record::{Record, RecordId};
use iqdb::vector::Vector;

fn vector(components: Vec<f32>) -> Vector {
    Vector::from_bits(components.into_iter().map(f32::to_bits).collect()).expect("finite")
}

fn upsert_record(id: u64, components: Vec<f32>, payload: Option<Payload>) -> Record {
    let v = vector(components);
    match payload {
        None => Record::new(RecordId::new(id), v),
        Some(p) => Record::with_payload(RecordId::new(id), v, p),
    }
}

#[test]
fn upsert_frame_round_trip_no_payload() {
    let record = upsert_record(1, vec![0.1, 0.2, 0.3], None);
    let mut buf = Vec::new();
    write_frame(&mut buf, &Op::Upsert(record.clone()));
    let (op, consumed) = read_frame(&buf).unwrap().unwrap();
    assert_eq!(consumed, buf.len());
    match op {
        Op::Upsert(decoded) => {
            assert_eq!(decoded.id(), record.id());
            assert_eq!(decoded.vector().as_bits(), record.vector().as_bits());
            assert!(decoded.payload().is_none());
        }
        _ => panic!("expected upsert"),
    }
}

#[test]
fn upsert_frame_round_trip_with_payload() {
    let mut p = Payload::new();
    let _ = p.insert("kind".to_string(), text("doc"));
    let _ = p.insert("year".to_string(), PayloadValue::from(2026_i64));
    let _ = p.insert("score".to_string(), PayloadValue::Float(Double(0.97_f64.to_bits())));
    let _ = p.insert("verified".to_string(), PayloadValue::from(true));
    let _ = p.insert("blob".to_string(), PayloadValue::Bytes(vec![1, 2, 3, 4]));
    let _ = p.insert(
        "tags".to_string(),
        PayloadValue::Array(vec![text("rust"), text("db")]),
    );

    let record = upsert_record(7, vec![0.5, -0.25, 0.75], Some(p));
    let mut buf = Vec::new();
    write_frame(&mut buf, &Op::Upsert(record.clone()));
    let (op, consumed) = read_frame(&buf).unwrap().unwrap();
    assert_eq!(consumed, buf.len());
    match op {
        Op::Upsert(decoded) => {
            assert_eq!(decoded.id(), record.id());
            assert_eq!(decoded.vector().as_bits(), record.vector().as_bits());
            assert_eq!(decoded.payload(), record.payload());
        }
        _ => panic!("expected upsert"),
    }
}

#[test]
fn delete_frame_round_trip() {
    let mut buf = Vec::new();
    write_frame(&mut buf, &Op::Delete(RecordId::new(42)));
    let (op, _) = read_frame(&buf).unwrap().unwrap();
    assert!(matches!(op, Op::Delete(id) if id.get() == 42));
}

#[test]
fn multiple_frames_concatenated_decode_in_order() {
    let mut buf = Vec::new();
    write_frame(&mut buf, &Op::Upsert(upsert_record(1, vec![1.0, 0.0], None)));
    write_frame(&mut buf, &Op::Delete(RecordId::new(2)));
    write_frame(&mut buf, &Op::Upsert(upsert_record(3, vec![0.0, 1.0], None)));

    let mut offset = 0;
    let mut ops = Vec::new();
    while let Some((op, consumed)) = read_frame(&buf[offset..]).unwrap() {
        offset += consumed;
        ops.push(op);
    }
    assert_eq!(ops.len(), 3);
    assert!(matches!(ops[0], Op::Upsert(_)));
    assert!(matches!(ops[1], Op::Delete(_)));
    assert!(matches!(ops[2], Op::Upsert(_)));
}

#[test]
fn empty_input_yields_none() {
    let out = read_frame(&[]).unwrap();
    assert!(out.is_none());
}

#[test]
fn truncated_frame_returns_corrupt() {
    let mut buf = Vec::new();
    write_frame(&mut buf, &Op::Delete(RecordId::new(1)));
    buf.truncate(buf.len() - 2);
    let err = read_frame(&buf).unwrap_err();
    assert_eq!(err, Corruption::TruncatedFrameBody);
}

#[test]
fn corrupted_body_fails_crc() {
    let mut buf = Vec::new();
    write_frame(&mut buf, &Op::Delete(RecordId::new(1)));
    buf[5] ^= 0xFF;
    let err = read_frame(&buf).unwrap_err();
    assert!(err.reason().contains("crc"));
}

#[test]
fn unknown_op_kind_is_rejected() {
    let mut body = vec![255u8];
    body.extend_from_slice(&0u64.to_le_bytes());
    let mut buf = Vec::new();
    buf.extend_from_slice(&(body.len() as u32).to_le_bytes());
    buf.extend_from_slice(&body);
    let crc = crc32(&body);
    buf.extend_from_slice(&crc.to_le_bytes());

    let err = read_frame(&buf).unwrap_err();
    assert!(err.reason().contains("op"));
}

#[test]
fn payload_nested_object_round_trip() {
    let mut inner = Payload::new();
    let _ = inner.insert("a".to_string(), PayloadValue::Int(1));
    let _ = inner.insert("b".to_string(), PayloadValue::Text("two".to_string()));

    let mut p = Payload::new();
    let _ = p.insert("outer".to_string(), PayloadValue::Object(inner.clone()));

    let record = upsert_record(1, vec![1.0], Some(p.clone()));
    let mut buf = Vec::new();
    write_frame(&mut buf, &Op::Upsert(record));
    let (op, _) = read_frame(&buf).unwrap().unwrap();
    match op {
        Op::Upsert(decoded) => {
            assert_eq!(decoded.payload(), Some(&p));
        }
        _ => panic!("expected upsert"),
    }
}

#[test]
fn delete_frame_has_the_documented_layout() {
    let mut buf = Vec::new();
    write_frame(&mut buf, &Op::Delete(RecordId::new(0x0102)));
    let mut body = vec![1u8];
    body.extend_from_slice(&0x0102u64.to_le_bytes());
    let mut expected = Vec::new();
    expected.extend_from_slice(&9u32.to_le_bytes());
    expected.extend_from_slice(&body);
    expected.extend_from_slice(&crc32(&body).to_le_bytes());
    assert_eq!(buf, expected);
}

#[test]
fn frame_appends_after_existing_bytes() {
    let mut buf = vec![0xAA, 0xBB];
    write_frame(&mut buf, &Op::Delete(RecordId::new(5)));
    assert_eq!(&buf[..2], &[0xAA, 0xBB]);
    let (op, consumed) = read_frame(&buf[2..]).unwrap().unwrap();
    assert_eq!(consumed, buf.len() - 2);
    assert!(matches!(op, Op::Delete(id) if id.get() == 5));
}

#[test]
fn short_length_prefix_is_corrupt() {
    assert_eq!(read_frame(&[1, 2, 3]).unwrap_err(), Corruption::TruncatedFrameLength);
    assert_eq!(
        Corruption::TruncatedFrameLength.reason(),
        "truncated frame length"
    );
}

fn framed(body: &[u8]) -> Vec<u8> {
    let mut buf = Vec::new();
    buf.extend_from_slice(&(body.len() as u32).to_le_bytes());
    buf.extend_from_slice(body);
    buf.extend_from_slice(&crc32(body).to_le_bytes());
    buf
}

#[test]
fn trailing_bytes_after_delete_are_rejected() {
    let mut body = vec![1u8];
    body.extend_from_slice(&3u64.to_le_bytes());
    body.push(0);
    assert_eq!(read_frame(&framed(&body)).unwrap_err(), Corruption::TrailingDeleteBytes);
    assert_eq!(decode_body(&body).unwrap_err(), Corruption::TrailingDeleteBytes);
}

fn upsert_body(dim: u32, components: &[u32], tail: &[u8]) -> Vec<u8> {
    let mut body = vec![0u8];
    body.extend_from_slice(&9u64.to_le_bytes());
    body.extend_from_slice(&dim.to_le_bytes());
    for c in components {
        body.extend_from_slice(&c.to_le_bytes());
    }
    body.extend_from_slice(tail);
    body
}

#[test]
fn zero_dim_vector_is_rejected() {
    let body = upsert_body(0, &[], &[0]);
    assert_eq!(decode_body(&body).unwrap_err(), Corruption::ZeroDimVector);
}

#[test]
fn non_finite_component_is_rejected() {
    let body = upsert_body(2, &[1.0f32.to_bits(), f32::NAN.to_bits()], &[0]);
    assert_eq!(decode_body(&body).unwrap_err(), Corruption::NonFiniteVector);
    let body = upsert_body(1, &[f32::INFINITY.to_bits()], &[0]);
    assert_eq!(decode_body(&body).unwrap_err(), Corruption::NonFiniteVector);
}

#[test]
fn bad_payload_flag_is_rejected() {
    let body = upsert_body(1, &[1.0f32.to_bits()], &[2]);
    assert_eq!(decode_body(&body).unwrap_err(), Corruption::BadPayloadTag);
}

#[test]
fn trailing_bytes_after_upsert_are_rejected() {
    let body = upsert_body(1, &[1.0f32.to_bits()], &[0, 0]);
    assert_eq!(decode_body(&body).unwrap_err(), Corruption::TrailingUpsertBytes);
}

#[test]
fn short_upsert_vector_is_truncated_bytes() {
    let body = upsert_body(2, &[1.0f32.to_bits()], &[]);
    assert_eq!(decode_body(&body).unwrap_err(), Corruption::TruncatedBytes);
}

#[test]
fn short_id_is_truncated_u64() {
    assert_eq!(decode_body(&[1, 0, 0]).unwrap_err(), Corruption::TruncatedU64);
    assert_eq!(decode_body(&[]).unwrap_err(), Corruption::TruncatedU8);
}

#[test]
fn unknown_payload_value_tag_is_rejected() {
    // One field: key "k", value tag 9.
    let mut tail = vec![1u8];
    tail.extend_from_slice(&1u32.to_le_bytes());
    tail.extend_from_slice(&1u32.to_le_bytes());
    tail.push(b'k');
    tail.push(9);
    let body = upsert_body(1, &[1.0f32.to_bits()], &tail);
    assert_eq!(decode_body(&body).unwrap_err(), Corruption::UnknownPayloadTag);
}

#[test]
fn non_utf8_key_is_rejected() {
    let mut tail = vec![1u8];
    tail.extend_from_slice(&1u32.to_le_bytes());
    tail.extend_from_slice(&1u32.to_le_bytes());
    tail.push(0xFF);
    tail.push(0);
    let body = upsert_body(1, &[1.0f32.to_bits()], &tail);
    assert_eq!(decode_body(&body).unwrap_err(), Corruption::NonUtf8Key);
    assert_eq!(Corruption::NonUtf8Key.reason(), "non-utf8 payload key");
}

#[test]
fn repeated_payload_key_keeps_the_last_value() {
    let mut tail = vec![1u8];
    tail.extend_from_slice(&2u32.to_le_bytes());
    for value in [1i64, 2i64] {
        tail.extend_from_slice(&1u32.to_le_bytes());
        tail.push(b'k');
        tail.push(2);
        tail.extend_from_slice(&value.to_le_bytes());
    }
    let body = upsert_body(1, &[1.0f32.to_bits()], &tail);
    match decode_body(&body).unwrap() {
        Op::Upsert(r) => {
            let p = r.payload().unwrap();
            assert_eq!(p.len(), 1);
            assert_eq!(p.get("k").and_then(PayloadValue::as_int), Some(2));
        }
        _ => panic!("expected upsert"),
    }
}

#[test]
fn every_value_kind_round_trips() {
    let mut nested = Payload::new();
    let _ = nested.insert("z".to_string(), PayloadValue::Null);
    let mut p = Payload::new();
    let _ = p.insert("n".to_string(), PayloadValue::Null);
    let _ = p.insert("f".to_string(), PayloadValue::Bool(false));
    let _ = p.insert("i".to_string(), PayloadValue::Int(-5));
    let _ = p.insert("x".to_string(), PayloadValue::Float(Double((-0.0f64).to_bits())));
    let _ = p.insert("t".to_string(), text("héllo"));
    let _ = p.insert("b".to_string(), PayloadValue::Bytes(Vec::new()));
    let _ = p.insert(
        "a".to_string(),
        PayloadValue::Array(vec![PayloadValue::Array(Vec::new()), PayloadValue::Object(nested)]),
    );
    let record = upsert_record(u64::MAX, vec![-0.0], Some(p.clone()));
    let mut buf = Vec::new();
    write_frame(&mut buf, &Op::Upsert(record));
    match read_frame(&buf).unwrap().unwrap().0 {
        Op::Upsert(decoded) => {
            assert_eq!(decoded.id().get(), u64::MAX);
            assert_eq!(decoded.payload(), Some(&p));
            let x = decoded.payload().unwrap().get("x").and_then(PayloadValue::as_float);
            assert_eq!(x, Some((-0.0f64).to_bits()));
        }
        _ => panic!("expected upsert"),
    }
}

#[test]
fn a_nan_keeps_its_bits_but_equals_nothing() {
    let mut p = Payload::new();
    let _ = p.insert("x".to_string(), PayloadValue::Float(Double(f64::NAN.to_bits())));
    let record = upsert_record(7, vec![1.0], Some(p.clone()));
    let mut buf = Vec::new();
    write_frame(&mut buf, &Op::Upsert(record));
    match read_frame(&buf).unwrap().unwrap().0 {
        Op::Upsert(decoded) => {
            let back = decoded.payload().unwrap();
            let x = back.get("x").and_then(PayloadValue::as_float);
            assert_eq!(x, Some(f64::NAN.to_bits()));
            assert_ne!(back, &p);
        }
        _ => panic!("expected upsert"),
    }
}

#[test]
fn single_value_reads_back_as_written() {
    let mut inner = Payload::new();
    let _ = inner.insert("a".to_string(), PayloadValue::Int(1));
    let _ = inner.insert("b".to_string(), PayloadValue::Array(vec![text("two"), PayloadValue::Null]));
    let v = PayloadValue::Array(vec![PayloadValue::Object(inner), PayloadValue::Bytes(vec![7, 8])]);
    let mut buf = Vec::new();
    write_payload_value(&mut buf, &v);
    buf.push(0xEE);
    let mut c = Cursor::new(&buf);
    let w = read_payload_value(&mut c).unwrap();
    assert_eq!(w, v);
    assert_eq!(c.pos(), buf.len() - 1);
}
