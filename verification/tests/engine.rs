use iqdb::config::{IndexKind, IvfConfig};
use iqdb::engine::codec::decode;
use iqdb::engine::{IndexStep, IqdbCore, SearchPlan};
use iqdb::error::IndexError;
use iqdb::types::{DistanceMetric, Metadata, Value, VectorId};

fn v(xs: &[f32]) -> Vec<u32> {
    xs.iter().map(|x| x.to_bits()).collect()
}

fn flat(dim: usize) -> IqdbCore {
    IqdbCore::new(dim, DistanceMetric::Euclidean, IndexKind::Flat, false)
}

#[test]
fn upsert_replaces_in_index_not_duplicates() {
    let mut c = flat(2);
    assert_eq!(
        c.insert(VectorId::from_u64(1), v(&[0.0, 0.0]), None, false).unwrap(),
        IndexStep::Insert
    );
    assert_eq!(
        c.insert(VectorId::from_u64(1), v(&[5.0, 5.0]), None, false).unwrap(),
        IndexStep::ReplaceThenInsert
    );
    assert_eq!(c.len(), 1);
    let (got, _) = c.get_row(&VectorId::from_u64(1)).unwrap();
    assert_eq!(got, v(&[5.0, 5.0]));
}

#[test]
fn delete_is_idempotent() {
    let mut c = flat(1);
    c.insert(VectorId::from_u64(1), v(&[1.0]), None, false).unwrap();
    assert!(c.contains(&VectorId::from_u64(1)));
    assert_eq!(c.delete(&VectorId::from_u64(1), false), (true, IndexStep::Delete));
    assert_eq!(c.delete(&VectorId::from_u64(1), false), (false, IndexStep::Delete)); // no error on absent
    assert_eq!(c.len(), 0);
}

#[test]
fn wrong_dimension_is_refused_and_changes_nothing() {
    let mut c = flat(3);
    let err = c.insert(VectorId::from_u64(1), v(&[1.0, 0.0]), None, false).unwrap_err();
    assert!(matches!(err, IndexError::DimensionMismatch { expected: 3, found: 2 }));
    assert!(c.is_empty());
}

#[test]
fn ivf_defers_writes_until_a_rebuild() {
    let kind = IndexKind::Ivf(IvfConfig::default().with_n_clusters(2).with_n_probes(2));
    let mut c = IqdbCore::new(2, DistanceMetric::Euclidean, kind, true);
    assert!(c.needs_materialization());
    // A stale index over an empty store needs no rebuild; a search answers nothing.
    assert!(!c.rebuild_needed());
    assert_eq!(c.search_plan(), SearchPlan::Empty);

    assert_eq!(
        c.insert(VectorId::from_u64(0), v(&[0.0, 0.0]), None, true).unwrap(),
        IndexStep::Deferred
    );
    assert_eq!(c.len(), 1); // authoritative even before materialization
    assert!(c.rebuild_needed());
    assert_eq!(c.search_plan(), SearchPlan::RebuildFirst);
    c.finish_rebuild();
    assert!(!c.needs_materialization());
    assert_eq!(c.search_plan(), SearchPlan::Direct);

    // Optimize marks an IVF index for retraining.
    c.optimize();
    assert!(c.rebuild_needed());
}

#[test]
fn optimize_is_a_no_op_for_flat() {
    let mut c = flat(1);
    c.insert(VectorId::from_u64(1), v(&[1.0]), None, false).unwrap();
    c.optimize();
    assert!(!c.needs_materialization());
    assert_eq!(c.search_plan(), SearchPlan::Direct);
}

#[test]
fn save_then_load_restores_the_rows_in_order() {
    let mut c = flat(2);
    let mut meta = Metadata::new();
    meta.insert("kind".to_string(), Value::String("doc".to_string()));
    c.insert(VectorId::from_u64(3), v(&[3.0, 0.0]), Some(meta), false).unwrap();
    c.insert(VectorId::from_u64(1), v(&[1.0, 0.0]), None, false).unwrap();
    let bytes = c.save().unwrap();
    let d = decode(&bytes).unwrap();
    let restored = IqdbCore::from_decoded(d, false);
    assert_eq!(restored.len(), 2);
    assert_eq!(restored.dim(), 2);
    assert_eq!(restored.metric(), DistanceMetric::Euclidean);
    assert_eq!(restored.kind(), IndexKind::Flat);
    let ids: Vec<_> = restored.rows().iter().map(|r| r.id.duplicate()).collect();
    assert_eq!(ids, vec![VectorId::from_u64(3), VectorId::from_u64(1)]);
    let (_, meta) = restored.get_row(&VectorId::from_u64(3)).unwrap();
    assert_eq!(meta.unwrap().entries()[0].0, "kind");
}
