use iqdb::search::{check_dimensions, DimensionMismatch};
use iqdb::payload::{text, Payload};
use iqdb::record::{Record, RecordId};
use iqdb::search::{flat_search, rank_of};
use iqdb::store::MemoryStore;
use iqdb::vector::Vector;

fn vector(xs: &[f32]) -> Vector {
    Vector::from_bits(xs.iter().map(|x| x.to_bits()).collect()).expect("finite")
}

fn build_store(records: &[(u64, Vec<f32>)]) -> MemoryStore {
    let mut store = MemoryStore::new();
    for (id, components) in records {
        store.upsert(Record::new(RecordId::new(*id), vector(components)));
    }
    store
}

fn l2(a: &[u32], b: &[f32]) -> f32 {
    a.iter()
        .zip(b)
        .map(|(x, y)| {
            let d = f32::from_bits(*x) - y;
            d * d
        })
        .sum::<f32>()
        .sqrt()
}

fn cosine(a: &[u32], b: &[f32]) -> f32 {
    let (mut dot, mut na, mut nb) = (0.0f32, 0.0f32, 0.0f32);
    for (x, y) in a.iter().zip(b) {
        let x = f32::from_bits(*x);
        dot += x * y;
        na += x * x;
        nb += y * y;
    }
    let denom = (na * nb).sqrt();
    if denom == 0.0 {
        f32::NAN
    } else {
        1.0 - dot / denom
    }
}

fn scores_with(
    store: &MemoryStore,
    q: &[f32],
    metric: fn(&[u32], &[f32]) -> f32,
    keep: impl Fn(&Record) -> bool,
) -> Vec<Option<u32>> {
    store
        .records()
        .iter()
        .map(|r| keep(r).then(|| metric(r.vector().as_bits(), q).to_bits()))
        .collect()
}

fn all(_: &Record) -> bool {
    true
}

#[test]
fn k_zero_returns_empty() {
    let store = build_store(&[(1, vec![1.0, 0.0])]);
    let scores = scores_with(&store, &[1.0, 0.0], l2, all);
    assert!(flat_search(&store, &scores, 0).is_empty());
}

#[test]
fn empty_store_returns_empty() {
    let store = MemoryStore::new();
    assert!(flat_search(&store, &[], 5).is_empty());
}

#[test]
fn returns_at_most_k_results() {
    let store = build_store(&[
        (1, vec![1.0, 0.0]),
        (2, vec![0.0, 1.0]),
        (3, vec![0.5, 0.5]),
        (4, vec![1.0, 1.0]),
    ]);
    let scores = scores_with(&store, &[1.0, 0.0], l2, all);
    assert_eq!(flat_search(&store, &scores, 2).len(), 2);
}

#[test]
fn k_larger_than_store_returns_all() {
    let store = build_store(&[(1, vec![1.0, 0.0]), (2, vec![0.0, 1.0])]);
    let scores = scores_with(&store, &[1.0, 0.0], l2, all);
    assert_eq!(flat_search(&store, &scores, 100).len(), 2);
}

#[test]
fn results_are_sorted_ascending_by_score() {
    let store = build_store(&[(1, vec![10.0, 0.0]), (2, vec![1.0, 0.0]), (3, vec![5.0, 0.0])]);
    let scores = scores_with(&store, &[0.0, 0.0], l2, all);
    let out = flat_search(&store, &scores, 3);
    assert_eq!(out.len(), 3);
    assert_eq!(out[0].id, RecordId::new(2));
    assert_eq!(out[1].id, RecordId::new(3));
    assert_eq!(out[2].id, RecordId::new(1));
    assert!(f32::from_bits(out[0].score.0) <= f32::from_bits(out[1].score.0));
    assert!(f32::from_bits(out[1].score.0) <= f32::from_bits(out[2].score.0));
}

#[test]
fn filter_excludes_records_before_admission() {
    let store = build_store(&[(1, vec![1.0, 0.0]), (2, vec![0.99, 0.0]), (3, vec![0.5, 0.0])]);
    let scores = scores_with(&store, &[1.0, 0.0], l2, |r| r.id().get() != 1);
    let out = flat_search(&store, &scores, 2);
    assert_eq!(out.len(), 2);
    assert!(out.iter().all(|r| r.id != RecordId::new(1)));
}

#[test]
fn cosine_against_zero_vector_yields_nan_at_tail() {
    let store = build_store(&[(1, vec![1.0, 0.0]), (2, vec![0.0, 0.0]), (3, vec![0.5, 0.5])]);
    let scores = scores_with(&store, &[1.0, 0.0], cosine, all);
    let out = flat_search(&store, &scores, 3);
    assert_eq!(out.len(), 3);
    assert_eq!(out[2].id, RecordId::new(2));
    assert!(f32::from_bits(out[2].score.0).is_nan());
    assert!(f32::from_bits(out[0].score.0).is_finite());
    assert!(f32::from_bits(out[1].score.0).is_finite());
    assert!(f32::from_bits(out[0].score.0) <= f32::from_bits(out[1].score.0));
}

#[test]
fn tie_break_by_id_is_deterministic() {
    let store = build_store(&[(10, vec![1.0, 0.0]), (5, vec![1.0, 0.0]), (20, vec![1.0, 0.0])]);
    let scores = scores_with(&store, &[1.0, 0.0], l2, all);
    let out = flat_search(&store, &scores, 3);
    let ids: Vec<u64> = out.iter().map(|r| r.id.get()).collect();
    assert_eq!(ids, vec![5, 10, 20]);
}

#[test]
fn payload_is_attached_to_results() {
    let mut store = MemoryStore::new();
    let mut payload = Payload::new();
    payload.insert("kind".to_string(), text("doc"));
    store.upsert(Record::with_payload(RecordId::new(1), vector(&[1.0, 0.0]), payload));
    let scores = scores_with(&store, &[1.0, 0.0], l2, all);
    let out = flat_search(&store, &scores, 1);
    let attached = out[0].payload.as_ref().expect("payload attached");
    assert!(attached.contains_key("kind"));
}

#[test]
fn ranks_follow_float_order() {
    let values = [
        f32::NEG_INFINITY,
        -3.5,
        -1e-30,
        0.0,
        1e-45,
        2.0,
        f32::MAX,
        f32::INFINITY,
    ];
    for w in values.windows(2) {
        assert!(rank_of(w[0].to_bits()) < rank_of(w[1].to_bits()), "{} < {}", w[0], w[1]);
    }
    assert_eq!(rank_of((-0.0f32).to_bits()), rank_of(0.0f32.to_bits()));
    assert!(rank_of(f32::NAN.to_bits()) > rank_of(f32::INFINITY.to_bits()));
    assert_eq!(rank_of(f32::NAN.to_bits()), rank_of((-f32::NAN).to_bits()));
}

#[test]
fn top_k_keeps_the_best_across_replacements() {
    let store = build_store(&[
        (1, vec![9.0]),
        (2, vec![7.0]),
        (3, vec![1.0]),
        (4, vec![8.0]),
        (5, vec![2.0]),
        (6, vec![3.0]),
    ]);
    let scores = scores_with(&store, &[0.0], l2, all);
    let ids: Vec<u64> = flat_search(&store, &scores, 3).iter().map(|r| r.id.get()).collect();
    assert_eq!(ids, vec![3, 5, 6]);
}

#[test]
fn dimension_mismatch_returns_error() {
    let store = build_store(&[(1, vec![1.0, 0.0])]);
    assert_eq!(
        check_dimensions(&store, 3).unwrap_err(),
        DimensionMismatch { left: 3, right: 2 }
    );
    assert!(check_dimensions(&store, 2).is_ok());
    assert!(check_dimensions(&MemoryStore::new(), 7).is_ok());
}
