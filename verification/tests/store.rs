use iqdb::engine::store::RowStore;
use iqdb::types::VectorId;

fn v(xs: &[f32]) -> Vec<u32> {
    xs.iter().map(|x| x.to_bits()).collect()
}

#[test]
fn upsert_insert_then_replace_keeps_len_and_position() {
    let mut s = RowStore::new();
    assert!(s.upsert(VectorId::from_u64(1), v(&[1.0, 0.0]), None));
    assert!(s.upsert(VectorId::from_u64(2), v(&[0.0, 1.0]), None));
    assert_eq!(s.len(), 2);

    // Replacing id 1 keeps len at 2 and does not move it to the end.
    assert!(!s.upsert(VectorId::from_u64(1), v(&[2.0, 2.0]), None));
    assert_eq!(s.len(), 2);
    let order: Vec<_> = s.rows().iter().map(|r| r.id.duplicate()).collect();
    assert_eq!(order, vec![VectorId::from_u64(1), VectorId::from_u64(2)]);
    assert_eq!(
        s.get(&VectorId::from_u64(1)).unwrap().vector,
        v(&[2.0, 2.0])
    );
}

#[test]
fn remove_returns_false_when_absent_and_repairs_index() {
    let mut s = RowStore::new();
    assert!(s.upsert(VectorId::from_u64(1), v(&[1.0]), None));
    assert!(s.upsert(VectorId::from_u64(2), v(&[2.0]), None));
    assert!(s.upsert(VectorId::from_u64(3), v(&[3.0]), None));

    // Remove the middle id; the later row must still be findable.
    assert!(s.remove(&VectorId::from_u64(2)));
    assert!(!s.remove(&VectorId::from_u64(2)));
    assert_eq!(s.len(), 2);
    assert_eq!(s.get(&VectorId::from_u64(3)).unwrap().vector, v(&[3.0]));
    assert!(!s.contains(&VectorId::from_u64(2)));
}

#[test]
fn get_absent_is_none() {
    let s = RowStore::new();
    assert!(s.get(&VectorId::from_u64(9)).is_none());
    assert!(s.is_empty());
}

#[test]
fn remove_keeps_insertion_order() {
    let mut s = RowStore::with_capacity(4);
    for id in 1..=4u64 {
        assert!(s.upsert(VectorId::from_u64(id), vec![id as u32], None));
    }
    assert!(s.remove(&VectorId::from_u64(1)));
    let order: Vec<_> = s.rows().iter().map(|r| r.id.duplicate()).collect();
    assert_eq!(
        order,
        vec![VectorId::from_u64(2), VectorId::from_u64(3), VectorId::from_u64(4)]
    );
    // Removing a middle row shifts the later rows down.
    assert!(s.remove(&VectorId::from_u64(3)));
    let order: Vec<_> = s.rows().iter().map(|r| r.id.duplicate()).collect();
    assert_eq!(order, vec![VectorId::from_u64(2), VectorId::from_u64(4)]);
    assert_eq!(s.get(&VectorId::from_u64(4)).unwrap().vector, vec![4]);
}

#[test]
fn bytes_and_u64_ids_are_distinct_keys() {
    let mut s = RowStore::new();
    assert!(s.upsert(VectorId::from_u64(1), vec![1], None));
    assert!(s.upsert(VectorId::from_bytes(vec![1]).unwrap(), vec![2], None));
    assert!(!s.upsert(VectorId::from_bytes(vec![1]).unwrap(), vec![3], None));
    assert_eq!(s.len(), 2);
    assert_eq!(s.get(&VectorId::from_bytes(vec![1]).unwrap()).unwrap().vector, vec![3]);
    assert!(VectorId::from_bytes(Vec::new()).is_err());
}
