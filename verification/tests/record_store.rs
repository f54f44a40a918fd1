use iqdb::codec::{write_frame, write_header, Corruption, Op};
use iqdb::file_store::{load_snapshot, replay_wal, write_snapshot};
use iqdb::payload::{text, Payload, PayloadValue};
use iqdb::record::{Record, RecordId};
use iqdb::store::MemoryStore;
use iqdb::vector::Vector;

fn record(id: u64, components: Vec<f32>) -> Record {
    let v = Vector::from_bits(components.into_iter().map(f32::to_bits).collect()).unwrap();
    Record::new(RecordId::new(id), v)
}

fn bits(xs: &[f32]) -> Vec<u32> {
    xs.iter().map(|x| x.to_bits()).collect()
}

#[test]
fn new_store_is_empty() {
    let s = MemoryStore::new();
    assert!(s.is_empty());
    assert_eq!(s.len(), 0);
}

#[test]
fn upsert_inserts_new_record() {
    let mut s = MemoryStore::new();
    s.upsert(record(1, vec![0.1, 0.2]));
    assert_eq!(s.len(), 1);
    let got = s.get(RecordId::new(1)).expect("present");
    assert_eq!(got.vector().as_bits(), &bits(&[0.1, 0.2])[..]);
}

#[test]
fn store_upsert_replaces_existing_record() {
    let mut s = MemoryStore::new();
    assert!(s.upsert(record(1, vec![0.1, 0.2])).is_none());
    let prev = s.upsert(record(1, vec![0.9, 0.8])).expect("replaced");
    assert_eq!(prev.vector().as_bits(), &bits(&[0.1, 0.2])[..]);
    assert_eq!(s.len(), 1);
    let got = s.get(RecordId::new(1)).expect("present");
    assert_eq!(got.vector().as_bits(), &bits(&[0.9, 0.8])[..]);
}

#[test]
fn store_get_returns_none_for_missing_id() {
    let s = MemoryStore::new();
    assert!(s.get(RecordId::new(99)).is_none());
}

#[test]
fn delete_removes_existing_record() {
    let mut s = MemoryStore::new();
    s.upsert(record(1, vec![0.1, 0.2]));
    assert!(s.delete(RecordId::new(1)));
    assert!(s.is_empty());
}

#[test]
fn delete_returns_false_when_absent() {
    let mut s = MemoryStore::new();
    assert!(!s.delete(RecordId::new(99)));
}

#[test]
fn len_reflects_distinct_ids() {
    let mut s = MemoryStore::new();
    s.upsert(record(1, vec![0.0]));
    s.upsert(record(2, vec![0.0]));
    s.upsert(record(3, vec![0.0]));
    s.upsert(record(2, vec![1.0]));
    assert_eq!(s.len(), 3);
}

#[test]
fn delete_keeps_the_other_records() {
    let mut s = MemoryStore::new();
    for id in 1..=4u64 {
        s.upsert(record(id, vec![id as f32]));
    }
    assert!(s.delete(RecordId::new(2)));
    assert_eq!(s.len(), 3);
    for id in [1u64, 3, 4] {
        assert_eq!(s.get(RecordId::new(id)).unwrap().id().get(), id);
    }
    assert!(!s.contains(RecordId::new(2)));
}

fn wal_of(ops: &[Op]) -> Vec<u8> {
    let mut buf = Vec::new();
    for op in ops {
        write_frame(&mut buf, op);
    }
    buf
}

#[test]
fn upsert_persists_across_reopen() {
    let wal = wal_of(&[Op::Upsert(record(1, vec![0.1, 0.2, 0.3]))]);
    let mut store = MemoryStore::new();
    assert_eq!(replay_wal(&wal, &mut store), wal.len());
    let hit = store.get(RecordId::new(1)).expect("present");
    assert_eq!(hit.vector().as_bits(), &bits(&[0.1, 0.2, 0.3])[..]);
}

#[test]
fn file_store_delete_persists_across_reopen() {
    let wal = wal_of(&[
        Op::Upsert(record(1, vec![1.0, 0.0])),
        Op::Upsert(record(2, vec![0.0, 1.0])),
        Op::Delete(RecordId::new(1)),
    ]);
    let mut store = MemoryStore::new();
    assert_eq!(replay_wal(&wal, &mut store), wal.len());
    assert!(store.get(RecordId::new(1)).is_none());
    assert!(store.get(RecordId::new(2)).is_some());
}

#[test]
fn compact_truncates_wal_and_preserves_state() {
    let mut store = MemoryStore::new();
    store.upsert(record(1, vec![1.0, 2.0]));
    store.upsert(record(2, vec![3.0, 4.0]));
    let snap = write_snapshot(&store);
    let mut reopened = MemoryStore::new();
    assert_eq!(load_snapshot(&snap, &mut reopened), Ok(()));
    assert_eq!(replay_wal(&[], &mut reopened), 0);
    assert_eq!(reopened.len(), 2);
    assert!(reopened.get(RecordId::new(1)).is_some());
}

#[test]
fn payload_round_trips_through_persistence() {
    let mut p = Payload::new();
    let _ = p.insert("kind".to_string(), text("doc"));
    let _ = p.insert("year".to_string(), PayloadValue::from(2026_i64));
    let v = Vector::from_bits(bits(&[0.5, 0.5, 0.5])).unwrap();
    let mut store = MemoryStore::new();
    store.upsert(Record::with_payload(RecordId::new(7), v, p));
    let snap = write_snapshot(&store);

    let mut reopened = MemoryStore::new();
    load_snapshot(&snap, &mut reopened).unwrap();
    let hit = reopened.get(RecordId::new(7)).expect("present");
    let payload = hit.payload().expect("payload preserved");
    assert!(payload.contains_key("kind"));
    assert!(payload.contains_key("year"));
}

#[test]
fn corrupt_wal_tail_truncates_to_last_good_offset() {
    let mut wal = wal_of(&[Op::Upsert(record(1, vec![1.0]))]);
    let good = wal.len();
    wal.extend_from_slice(&[0xFFu8; 32]);
    let mut store = MemoryStore::new();
    assert_eq!(replay_wal(&wal, &mut store), good);
    assert!(store.get(RecordId::new(1)).is_some());
}

#[test]
fn snapshot_with_bad_magic_is_rejected() {
    let mut store = MemoryStore::new();
    let err = load_snapshot(b"XXXX\x01\x00\x00\x00", &mut store).unwrap_err();
    assert_eq!(err, Corruption::BadMagic);
}

#[test]
fn empty_snapshot_is_an_empty_store() {
    let mut store = MemoryStore::new();
    assert_eq!(load_snapshot(&[], &mut store), Ok(()));
    assert!(store.is_empty());
}

#[test]
fn delete_frame_in_snapshot_is_rejected() {
    let mut snap = Vec::new();
    write_header(&mut snap);
    write_frame(&mut snap, &Op::Upsert(record(1, vec![1.0])));
    write_frame(&mut snap, &Op::Delete(RecordId::new(1)));
    let mut store = MemoryStore::new();
    let err = load_snapshot(&snap, &mut store).unwrap_err();
    assert_eq!(err, Corruption::DeleteInSnapshot);
    assert_eq!(err.reason(), "delete frame in snapshot");
    // What loaded before the delete stays.
    assert!(store.contains(RecordId::new(1)));
}

#[test]
fn corrupt_snapshot_frame_is_an_error() {
    let mut snap = Vec::new();
    write_header(&mut snap);
    write_frame(&mut snap, &Op::Upsert(record(1, vec![1.0])));
    let last = snap.len() - 1;
    snap[last] ^= 1;
    let mut store = MemoryStore::new();
    assert_eq!(load_snapshot(&snap, &mut store), Err(Corruption::CrcMismatch));
}

#[test]
fn wal_replays_on_top_of_the_snapshot() {
    let mut store = MemoryStore::new();
    store.upsert(record(1, vec![1.0]));
    store.upsert(record(2, vec![2.0]));
    let snap = write_snapshot(&store);
    let wal = wal_of(&[
        Op::Delete(RecordId::new(1)),
        Op::Upsert(record(2, vec![5.0])),
        Op::Upsert(record(3, vec![3.0])),
    ]);
    let mut reopened = MemoryStore::new();
    load_snapshot(&snap, &mut reopened).unwrap();
    assert_eq!(replay_wal(&wal, &mut reopened), wal.len());
    assert_eq!(reopened.len(), 2);
    assert!(!reopened.contains(RecordId::new(1)));
    assert_eq!(
        reopened.get(RecordId::new(2)).unwrap().vector().as_bits(),
        &bits(&[5.0])[..]
    );
}

#[test]
fn replay_stops_at_a_frame_with_a_bad_checksum() {
    let mut wal = wal_of(&[Op::Upsert(record(1, vec![1.0]))]);
    let good = wal.len();
    let mut second = wal_of(&[Op::Upsert(record(2, vec![2.0]))]);
    let n = second.len();
    second[n - 1] ^= 0x01;
    wal.extend_from_slice(&second);
    wal.extend_from_slice(&wal_of(&[Op::Upsert(record(3, vec![3.0]))]));
    let mut store = MemoryStore::new();
    assert_eq!(replay_wal(&wal, &mut store), good);
    assert_eq!(store.len(), 1);
    assert!(!store.contains(RecordId::new(3)));
}
