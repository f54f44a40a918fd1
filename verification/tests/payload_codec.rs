use iqdb::float::Double;
use iqdb::bytes::Cursor;
use iqdb::engine::codec::{decode_kind, encode_kind};
use iqdb::config::{HnswConfig, IndexKind, IvfConfig};
use iqdb::engine::codec::{decode, encode, Decoded, PayloadError, Field};
use iqdb::engine::store::RowStore;
use iqdb::types::{DistanceMetric, Metadata, Value, VectorId};

fn bits(xs: &[f32]) -> Vec<u32> {
    xs.iter().map(|x| x.to_bits()).collect()
}

fn round_trip(kind: IndexKind, dim: usize, metric: DistanceMetric, store: &RowStore) -> Decoded {
    let bytes = encode(kind, dim, metric, store.rows()).unwrap();
    decode(&bytes).unwrap()
}

#[test]
fn empty_store_round_trips() {
    let store = RowStore::new();
    let d = round_trip(IndexKind::Flat, 4, DistanceMetric::Cosine, &store);
    assert_eq!(d.dim, 4);
    assert_eq!(d.metric, DistanceMetric::Cosine);
    assert_eq!(d.kind, IndexKind::Flat);
    assert!(d.rows.is_empty());
}

#[test]
fn hnsw_and_ivf_kinds_round_trip() {
    let store = RowStore::new();
    let hnsw = IndexKind::Hnsw(HnswConfig::default().with_m(24).with_ef_search(80));
    assert_eq!(
        round_trip(hnsw, 8, DistanceMetric::Euclidean, &store).kind,
        hnsw
    );

    let ivf = IndexKind::Ivf(
        IvfConfig::default()
            .with_n_clusters(64)
            .with_use_pq(true)
            .with_pq_subvectors(Some(8)),
    );
    assert_eq!(
        round_trip(ivf, 8, DistanceMetric::Euclidean, &store).kind,
        ivf
    );
}

#[test]
fn bytes_id_and_full_metadata_round_trip() {
    let mut store = RowStore::new();
    let meta = Metadata::from_pairs(vec![
        ("title".to_string(), Value::String("intro".to_string())),
        ("year".to_string(), Value::Int(2026)),
        ("score".to_string(), Value::Float(Double(0.5f64.to_bits()))),
        ("ok".to_string(), Value::Bool(true)),
        ("nil".to_string(), Value::Null),
    ]);
    let bytes_id = VectorId::from_bytes(vec![0xde, 0xad, 0xbe, 0xef]).unwrap();
    assert!(store.upsert(
        bytes_id.duplicate(),
        bits(&[1.0, 2.0, 3.0]),
        Some(meta.duplicate())
    ));

    let d = round_trip(IndexKind::Flat, 3, DistanceMetric::Cosine, &store);
    assert_eq!(d.rows.len(), 1);
    assert_eq!(d.rows[0].id, bytes_id);
    assert_eq!(d.rows[0].vector, bits(&[1.0, 2.0, 3.0]));
    assert_eq!(d.rows[0].meta.as_ref(), Some(&meta));
}

#[test]
fn bad_magic_is_rejected() {
    let bytes = [0u8; 32];
    let err = decode(&bytes).unwrap_err();
    assert_eq!(err, PayloadError::MagicMismatch);
}

#[test]
fn payload_layout_is_little_endian_and_tagged() {
    let mut store = RowStore::new();
    assert!(store.upsert(VectorId::from_u64(7), vec![0x3f80_0000], None));
    let bytes = encode(IndexKind::Flat, 1, DistanceMetric::Euclidean, store.rows()).unwrap();
    let mut want = Vec::new();
    want.extend_from_slice(b"IQDC");
    want.extend_from_slice(&1u32.to_le_bytes());
    want.push(0); // flat
    want.extend_from_slice(&1u64.to_le_bytes()); // dim
    want.push(2); // euclidean
    want.extend_from_slice(&1u64.to_le_bytes()); // one row
    want.push(0); // u64 id
    want.extend_from_slice(&7u64.to_le_bytes());
    want.extend_from_slice(&0x3f80_0000u32.to_le_bytes());
    want.push(0); // no metadata
    assert_eq!(bytes, want);
}

#[test]
fn decode_reports_each_error() {
    let mut store = RowStore::new();
    assert!(store.upsert(VectorId::from_u64(1), vec![1, 2], None));
    let good = encode(IndexKind::Flat, 2, DistanceMetric::Cosine, store.rows()).unwrap();

    // Truncated anywhere: unexpected end.
    assert_eq!(decode(&good[..good.len() - 1]).unwrap_err(), PayloadError::UnexpectedEof);
    assert_eq!(decode(&good[..2]).unwrap_err(), PayloadError::UnexpectedEof);

    // Wrong version.
    let mut v = good.clone();
    v[4] = 2;
    assert_eq!(decode(&v).unwrap_err(), PayloadError::UnsupportedVersion);

    // Unknown kind tag.
    let mut k = good.clone();
    k[8] = 9;
    assert_eq!(decode(&k).unwrap_err(), PayloadError::UnknownKindTag);

    // Unknown metric tag.
    let mut m = good.clone();
    m[17] = 7;
    assert_eq!(decode(&m).unwrap_err(), PayloadError::InvalidMetric { tag: 7 });

    // Unknown id tag.
    let mut i = good.clone();
    i[26] = 5;
    assert_eq!(decode(&i).unwrap_err(), PayloadError::UnknownIdTag);

    // Unknown metadata presence tag.
    let mut t = good.clone();
    let last = t.len() - 1;
    t[last] = 3;
    assert_eq!(decode(&t).unwrap_err(), PayloadError::UnknownMetadataTag);

    // Trailing bytes are not read.
    let mut extra = good.clone();
    extra.push(0xFF);
    assert_eq!(decode(&extra).unwrap().rows.len(), 1);
}

#[test]
fn empty_bytes_id_and_invalid_utf8_are_rejected() {
    let mut store = RowStore::new();
    let mut meta = Metadata::new();
    meta.insert("k".to_string(), Value::String("v".to_string()));
    assert!(store.upsert(VectorId::Bytes(Vec::new()), vec![1], Some(meta)));
    let bytes = encode(IndexKind::Flat, 1, DistanceMetric::Cosine, store.rows()).unwrap();
    assert_eq!(decode(&bytes).unwrap_err(), PayloadError::EmptyBytesId);

    let mut store = RowStore::new();
    let mut meta = Metadata::new();
    meta.insert("k".to_string(), Value::String("v".to_string()));
    assert!(store.upsert(VectorId::from_u64(1), vec![1], Some(meta)));
    let mut bytes = encode(IndexKind::Flat, 1, DistanceMetric::Cosine, store.rows()).unwrap();
    // The key's single byte `k` becomes a lone continuation byte.
    let pos = bytes.iter().rposition(|&b| b == b'k').unwrap();
    bytes[pos] = 0x80;
    assert_eq!(decode(&bytes).unwrap_err(), PayloadError::InvalidUtf8);
    assert_eq!(PayloadError::OutOfRange { field: Field::Dim }.reason(), "dim");
}

#[test]
fn kind_encodes_and_decodes_on_its_own() {
    let kinds = [
        IndexKind::Flat,
        IndexKind::Hnsw(HnswConfig::default().with_m(24).with_ef_search(80)),
        IndexKind::Ivf(
            IvfConfig::default()
                .with_n_clusters(64)
                .with_use_pq(true)
                .with_pq_subvectors(Some(8)),
        ),
    ];
    for kind in kinds {
        let mut bytes = Vec::new();
        encode_kind(&mut bytes, kind);
        let mut c = Cursor::new(&bytes);
        assert_eq!(decode_kind(&mut c).unwrap(), kind);
        assert!(c.is_at_end());
    }
    let mut c = Cursor::new(&[3u8]);
    assert_eq!(decode_kind(&mut c).unwrap_err(), PayloadError::UnknownKindTag);
}

fn meta_bytes(pairs: Vec<(String, Value)>) -> Vec<u8> {
    let mut store = RowStore::new();
    assert!(store.upsert(VectorId::from_u64(1), vec![1], Some(Metadata::from_pairs(pairs))));
    encode(IndexKind::Flat, 1, DistanceMetric::Cosine, store.rows()).unwrap()
}

#[test]
fn decoded_metadata_is_kept_in_key_order() {
    let mut bytes = meta_bytes(vec![
        ("a".to_string(), Value::Int(1)),
        ("b".to_string(), Value::Int(2)),
    ]);
    // Rename `a` to `c`: the stored keys are now out of order.
    let pos = bytes.iter().position(|&b| b == b'a').unwrap();
    bytes[pos] = b'c';
    let d = decode(&bytes).unwrap();
    let meta = d.rows[0].meta.as_ref().unwrap();
    let keys: Vec<&str> = meta.entries().iter().map(|(k, _)| k.as_str()).collect();
    assert_eq!(keys, vec!["b", "c"]);
    assert_eq!(meta.get("c"), Some(&Value::Int(1)));
    assert_eq!(meta.get("b"), Some(&Value::Int(2)));
}

#[test]
fn decoded_metadata_keeps_the_last_value_of_a_repeated_key() {
    let mut bytes = meta_bytes(vec![
        ("a".to_string(), Value::Int(1)),
        ("b".to_string(), Value::Int(2)),
    ]);
    // Rename `b` to `a`: the key is now stored twice.
    let pos = bytes.iter().position(|&b| b == b'b').unwrap();
    bytes[pos] = b'a';
    let d = decode(&bytes).unwrap();
    let meta = d.rows[0].meta.as_ref().unwrap();
    assert_eq!(meta.len(), 1);
    assert_eq!(meta.get("a"), Some(&Value::Int(2)));
}

#[test]
fn metadata_from_pairs_orders_keys_and_keeps_last_values() {
    let meta = Metadata::from_pairs(vec![
        ("b".to_string(), Value::Int(1)),
        ("a".to_string(), Value::Int(2)),
        ("b".to_string(), Value::Int(3)),
    ]);
    let keys: Vec<&str> = meta.entries().iter().map(|(k, _)| k.as_str()).collect();
    assert_eq!(keys, vec!["a", "b"]);
    assert_eq!(meta.get("b"), Some(&Value::Int(3)));
    assert_eq!(meta.get("c"), None);
}

#[test]
fn metadata_insert_replaces_and_reports_the_prior_value() {
    let mut meta = Metadata::new();
    assert_eq!(meta.insert("k".to_string(), Value::Bool(true)), None);
    assert_eq!(meta.insert("k".to_string(), Value::Null), Some(Value::Bool(true)));
    assert_eq!(meta.len(), 1);
    assert_eq!(meta.get("k"), Some(&Value::Null));
}
