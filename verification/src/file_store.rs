//! What the durable store computes from its files' bytes.
//!
//! The store keeps a snapshot file (a header, then one upsert frame per
//! record) and a write-ahead log (frames with no header). Opening loads
//! the snapshot, then replays the log on top of it. Replay applies every
//! frame that reads cleanly and stops at the first corrupt one, reporting
//! how far it got so the log can be cut back there; a snapshot must be
//! clean throughout and may not hold a delete.

use vstd::prelude::*;

use crate::bytes::u32_at;
use crate::codec::{
    e_frame, f_frame, file_magic, header_bytes, law_frame_roundtrip, lemma_frame_len, op_ok,
    read_frame, write_frame, write_header, Corruption, Op, OpView, FORMAT_VERSION,
};
use crate::record::RecordView;
use crate::store::{map_of, MemoryStore};

verus! {

/// The state after one entry.
pub open spec fn apply_op(m: Map<u64, RecordView>, op: OpView) -> Map<u64, RecordView> {
    match op {
        OpView::Upsert(r) => m.insert(r.id, r),
        OpView::Delete(id) => m.remove(id),
    }
}

/// What one replayed entry does to the records: an upsert stores its
/// record under its id, a delete leaves its id absent whatever else is
/// stored, and no other id is touched either way.
pub proof fn law_entry_effect(m: Map<u64, RecordView>, op: OpView, other: u64)
    ensures
        op matches OpView::Upsert(r) ==> apply_op(m, op).contains_key(r.id) && apply_op(m, op)[r.id]
            == r,
        op matches OpView::Delete(id) ==> !apply_op(m, op).contains_key(id),
        (match op {
            OpView::Upsert(r) => r.id,
            OpView::Delete(id) => id,
        }) != other ==> (apply_op(m, op).contains_key(other) == m.contains_key(other) && (
        m.contains_key(other) ==> apply_op(m, op)[other] == m[other])),
{
}

/// Replaying a clean log whose last entry deletes an id leaves that id
/// absent, whatever the log did before: a deleted record stays deleted
/// when the store is opened again.
pub proof fn law_replayed_delete_stays_deleted(ops: Seq<OpView>, m: Map<u64, RecordView>, id: u64)
    requires
        forall|i: int| 0 <= i < ops.len() ==> op_ok(#[trigger] ops[i]),
        ops.len() > 0,
        ops.last() == OpView::Delete(id),
    ensures
        !wal_replay(e_ops(ops), 0, m).0.contains_key(id),
{
    law_clean_log_replays_fully(ops, m);
    law_entry_effect(apply_all(m, ops.drop_last()), ops.last(), id);
}

/// The state after `ops`, in order.
pub open spec fn apply_all(m: Map<u64, RecordView>, ops: Seq<OpView>) -> Map<u64, RecordView>
    decreases ops.len(),
{
    if ops.len() == 0 {
        m
    } else {
        apply_op(apply_all(m, ops.drop_last()), ops.last())
    }
}

/// `ops` framed one after another.
pub open spec fn e_ops(ops: Seq<OpView>) -> Seq<u8>
    decreases ops.len(),
{
    if ops.len() == 0 {
        Seq::empty()
    } else {
        e_ops(ops.drop_last()) + e_frame(ops.last())
    }
}

/// An upsert of each record.
pub open spec fn upserts_of(s: Seq<RecordView>) -> Seq<OpView> {
    s.map_values(|r: RecordView| OpView::Upsert(r))
}

/// Replaying the log `b` from `off` onto `m`: each frame that reads
/// cleanly is applied; the end of the bytes or the first corrupt frame
/// stops replay. Gives the state and the offset reached.
pub open spec fn wal_replay(b: Seq<u8>, off: int, m: Map<u64, RecordView>) -> (Map<u64, RecordView>, int)
    decreases b.len() - off,
{
    if off < 0 || off > b.len() {
        (m, off)
    } else {
        match f_frame(b.subrange(off, b.len() as int)) {
            Ok(Some((op, n))) => if 0 < n && off + n <= b.len() {
                wal_replay(b, off + n, apply_op(m, op))
            } else {
                (m, off)
            },
            _ => (m, off),
        }
    }
}

/// Loading the frames of a snapshot `b` from `off` onto `m`: upserts are
/// applied until the bytes end; a corrupt frame or a delete stops loading
/// with an error. Gives the state reached and the outcome.
pub open spec fn snap_frames(b: Seq<u8>, off: int, m: Map<u64, RecordView>) -> (Map<u64, RecordView>, Result<(), Corruption>)
    decreases b.len() - off,
{
    if off < 0 || off > b.len() {
        (m, Ok(()))
    } else {
        match f_frame(b.subrange(off, b.len() as int)) {
            Ok(None) => (m, Ok(())),
            Err(e) => (m, Err(e)),
            Ok(Some((op, n))) => match op {
                OpView::Upsert(r) => if 0 < n && off + n <= b.len() {
                    snap_frames(b, off + n, m.insert(r.id, r))
                } else {
                    (m, Ok(()))
                },
                OpView::Delete(_) => (m, Err(Corruption::DeleteInSnapshot)),
            },
        }
    }
}

/// Loading a snapshot onto `m`: an empty file is an empty snapshot;
/// otherwise the header is checked, then the frames are loaded.
pub open spec fn snap_load(b: Seq<u8>, m: Map<u64, RecordView>) -> (Map<u64, RecordView>, Result<(), Corruption>) {
    if b.len() == 0 {
        (m, Ok(()))
    } else if b.len() < 8 {
        (m, Err(Corruption::TruncatedHeader))
    } else if b.subrange(0, 4) != file_magic() {
        (m, Err(Corruption::BadMagic))
    } else if u32_at(b, 4) != FORMAT_VERSION {
        (m, Err(Corruption::UnknownVersion))
    } else {
        snap_frames(b, 8, m)
    }
}

/// Applies one entry to the store.
pub fn apply(store: &mut MemoryStore, op: Op)
    ensures
        final(store)@ == apply_op(old(store)@, op@),
{
    match op {
        Op::Upsert(r) => {
            let _previous = store.upsert(r);
        },
        Op::Delete(id) => {
            let _removed = store.delete(id);
        },
    }
}

/// Replays the log `bytes` onto `store`, returning the offset up to which
/// the log read cleanly (the log is to be cut back to it).
pub fn replay_wal(bytes: &[u8], store: &mut MemoryStore) -> (valid: usize)
    ensures
        (final(store)@, valid as int) == wal_replay(bytes@, 0, old(store)@),
{
    let mut offset: usize = 0;
    loop
        invariant
            offset <= bytes@.len(),
            wal_replay(bytes@, 0, old(store)@) == wal_replay(bytes@, offset as int, store@),
        decreases bytes@.len() - offset,
    {
        let rest = vstd::slice::slice_subrange(bytes, offset, bytes.len());
        proof {
            lemma_frame_len(rest@);
        }
        match read_frame(rest) {
            Ok(Some((op, consumed))) => {
                offset = offset + consumed;
                apply(store, op);
            },
            _ => {
                return offset;
            },
        }
    }
}

/// Loads the snapshot `bytes` onto `store`. On an error, the records
/// loaded before it stay in the store.
pub fn load_snapshot(bytes: &[u8], store: &mut MemoryStore) -> (r: Result<(), Corruption>)
    ensures
        (final(store)@, r) == snap_load(bytes@, old(store)@),
{
    if bytes.len() == 0 {
        return Ok(());
    }
    let mut offset = match crate::codec::read_header(bytes) {
        Ok(n) => n,
        Err(e) => {
            return Err(e);
        },
    };
    loop
        invariant
            8 <= offset <= bytes@.len(),
            snap_load(bytes@, old(store)@) == snap_frames(bytes@, offset as int, store@),
        decreases bytes@.len() - offset,
    {
        let rest = vstd::slice::slice_subrange(bytes, offset, bytes.len());
        proof {
            lemma_frame_len(rest@);
        }
        match read_frame(rest) {
            Ok(None) => {
                return Ok(());
            },
            Err(e) => {
                return Err(e);
            },
            Ok(Some((op, consumed))) => {
                match op {
                    Op::Upsert(record) => {
                        offset = offset + consumed;
                        let _previous = store.upsert(record);
                    },
                    Op::Delete(_) => {
                        return Err(Corruption::DeleteInSnapshot);
                    },
                }
            },
        }
    }
}

/// The snapshot of `store`: the header, then an upsert frame for each
/// record in storage order.
pub fn write_snapshot(store: &MemoryStore) -> (bytes: Vec<u8>)
    ensures
        bytes@ == header_bytes() + e_ops(upserts_of(store.entries())),
{
    let records = store.records();
    let ghost s = store.entries();
    let mut buf: Vec<u8> = Vec::new();
    write_header(&mut buf);
    let mut i: usize = 0;
    while i < records.len()
        invariant
            i <= records@.len(),
            s.len() == records@.len(),
            forall|j: int| 0 <= j < s.len() ==> #[trigger] s[j] == records@[j]@,
            buf@ == header_bytes() + e_ops(upserts_of(s.subrange(0, i as int))),
        decreases records.len() - i,
    {
        let record = records[i].clone();
        write_frame(&mut buf, &Op::Upsert(record));
        proof {
            let pre = upserts_of(s.subrange(0, i + 1));
            assert(pre.drop_last() =~= upserts_of(s.subrange(0, i as int)));
            assert(pre.last() == OpView::Upsert(s[i as int]));
        }
        i = i + 1;
        assert(buf@ =~= header_bytes() + e_ops(upserts_of(s.subrange(0, i as int))));
    }
    assert(s.subrange(0, s.len() as int) =~= s);
    buf
}

// ---------------------------------------------------------------------
// Reading back what was written.
// ---------------------------------------------------------------------

proof fn lemma_e_ops_split(ops: Seq<OpView>, k: int)
    requires
        0 <= k <= ops.len(),
    ensures
        e_ops(ops) == e_ops(ops.subrange(0, k)) + e_ops(ops.subrange(k, ops.len() as int)),
    decreases ops.len(),
{
    if k == ops.len() {
        assert(ops.subrange(0, k) =~= ops);
        assert(ops.subrange(k, ops.len() as int) =~= Seq::<OpView>::empty());
        assert(e_ops(ops) + Seq::<u8>::empty() =~= e_ops(ops));
    } else {
        let init = ops.drop_last();
        lemma_e_ops_split(init, k);
        assert(init.subrange(0, k) =~= ops.subrange(0, k));
        let t = ops.subrange(k, ops.len() as int);
        assert(t.drop_last() =~= init.subrange(k, init.len() as int));
        assert(t.last() == ops.last());
        assert(e_ops(ops) =~= e_ops(ops.subrange(0, k)) + e_ops(t));
    }
}

/// The frames of `ops` are the frames of the first `k`, then the frame of
/// `ops[k]`, then the frames of the rest.
proof fn lemma_ops_layout(ops: Seq<OpView>, k: int)
    requires
        0 <= k < ops.len(),
    ensures
        e_ops(ops) == e_ops(ops.subrange(0, k)) + e_frame(ops[k]) + e_ops(
            ops.subrange(k + 1, ops.len() as int),
        ),
        e_ops(ops.subrange(0, k + 1)) == e_ops(ops.subrange(0, k)) + e_frame(ops[k]),
{
    let t = ops.subrange(k, ops.len() as int);
    lemma_e_ops_split(ops, k);
    lemma_e_ops_split(t, 1);
    assert(t.subrange(0, 1).drop_last() =~= Seq::<OpView>::empty());
    assert(t.subrange(0, 1).last() == ops[k]);
    assert(t.subrange(1, t.len() as int) =~= ops.subrange(k + 1, ops.len() as int));
    assert(ops.subrange(0, k + 1).drop_last() =~= ops.subrange(0, k));
    assert(ops.subrange(0, k + 1).last() == ops[k]);
    assert(e_ops(t.subrange(0, 1).drop_last()) == Seq::<u8>::empty());
    assert(e_ops(t.subrange(0, 1)) =~= e_frame(ops[k]));
    assert(e_ops(ops) =~= e_ops(ops.subrange(0, k)) + e_frame(ops[k]) + e_ops(
        ops.subrange(k + 1, ops.len() as int),
    ));
}

/// Where the frames of `ops` stand in `b`: after those of the first `k`
/// comes the frame of `ops[k]`.
proof fn lemma_frame_at(ops: Seq<OpView>, tail: Seq<u8>, k: int)
    requires
        0 <= k < ops.len(),
        op_ok(ops[k]),
    ensures
        ({
            let b = e_ops(ops) + tail;
            let off = e_ops(ops.subrange(0, k)).len() as int;
            &&& 0 <= off <= b.len()
            &&& f_frame(b.subrange(off, b.len() as int)) == Ok::<Option<(OpView, int)>, Corruption>(
                Some((ops[k], e_frame(ops[k]).len() as int)),
            )
            &&& e_ops(ops.subrange(0, k + 1)).len() == off + e_frame(ops[k]).len()
        }),
{
    lemma_ops_layout(ops, k);
    let b = e_ops(ops) + tail;
    let pre = e_ops(ops.subrange(0, k));
    let f = e_frame(ops[k]);
    let rest = e_ops(ops.subrange(k + 1, ops.len() as int)) + tail;
    let off = pre.len() as int;
    assert(b =~= pre + (f + rest));
    assert(b.subrange(off, b.len() as int) =~= f + rest);
    law_frame_roundtrip(ops[k], rest);
}

proof fn lemma_replay_upto(ops: Seq<OpView>, tail: Seq<u8>, m: Map<u64, RecordView>, k: int)
    requires
        0 <= k <= ops.len(),
        forall|i: int| 0 <= i < ops.len() ==> op_ok(#[trigger] ops[i]),
    ensures
        wal_replay(e_ops(ops) + tail, 0, m) == wal_replay(
            e_ops(ops) + tail,
            e_ops(ops.subrange(0, k)).len() as int,
            apply_all(m, ops.subrange(0, k)),
        ),
    decreases k,
{
    if k == 0 {
        assert(ops.subrange(0, 0) =~= Seq::<OpView>::empty());
    } else {
        lemma_replay_upto(ops, tail, m, k - 1);
        lemma_frame_at(ops, tail, k - 1);
        let pre = ops.subrange(0, k);
        assert(pre.drop_last() =~= ops.subrange(0, k - 1));
        assert(pre.last() == ops[k - 1]);
    }
}

/// Replay recovers every entry written before the point it reached: the
/// log `ops` framed one after another, whatever follows them, replays as
/// `ops` applied in order and then whatever follows, read from the end of
/// their frames.
pub proof fn law_replay_recovers_written_entries(
    ops: Seq<OpView>,
    tail: Seq<u8>,
    m: Map<u64, RecordView>,
)
    requires
        forall|i: int| 0 <= i < ops.len() ==> op_ok(#[trigger] ops[i]),
    ensures
        wal_replay(e_ops(ops) + tail, 0, m) == wal_replay(
            e_ops(ops) + tail,
            e_ops(ops).len() as int,
            apply_all(m, ops),
        ),
{
    lemma_replay_upto(ops, tail, m, ops.len() as int);
    assert(ops.subrange(0, ops.len() as int) =~= ops);
}

/// A clean log replays in full: every entry is applied and the whole log
/// is valid.
pub proof fn law_clean_log_replays_fully(ops: Seq<OpView>, m: Map<u64, RecordView>)
    requires
        forall|i: int| 0 <= i < ops.len() ==> op_ok(#[trigger] ops[i]),
    ensures
        wal_replay(e_ops(ops), 0, m) == (apply_all(m, ops), e_ops(ops).len() as int),
{
    law_replay_recovers_written_entries(ops, Seq::empty(), m);
    let b = e_ops(ops) + Seq::<u8>::empty();
    assert(b =~= e_ops(ops));
    assert(b.subrange(b.len() as int, b.len() as int) =~= Seq::<u8>::empty());
}

#[verifier::rlimit(60)]
#[verifier::spinoff_prover]
proof fn lemma_snap_upto(s: Seq<RecordView>, m: Map<u64, RecordView>, k: int)
    requires
        0 <= k <= s.len(),
        forall|i: int| 0 <= i < s.len() ==> op_ok(OpView::Upsert(#[trigger] s[i])),
    ensures
        ({
            let ops = upserts_of(s);
            let b = header_bytes() + e_ops(ops);
            snap_frames(b, 8, m) == snap_frames(
                b,
                8 + e_ops(ops.subrange(0, k)).len() as int,
                apply_all(m, ops.subrange(0, k)),
            )
        }),
    decreases k,
{
    let ops = upserts_of(s);
    if k == 0 {
        assert(ops.subrange(0, 0) =~= Seq::<OpView>::empty());
    } else {
        lemma_snap_upto(s, m, k - 1);
        assert(ops[k - 1] == OpView::Upsert(s[k - 1]));
        lemma_frame_at(ops, Seq::empty(), k - 1);
        let b = header_bytes() + e_ops(ops);
        let b2 = e_ops(ops) + Seq::<u8>::empty();
        assert(b2 =~= e_ops(ops));
        let off = e_ops(ops.subrange(0, k - 1)).len() as int;
        assert(b.subrange(8 + off, b.len() as int) =~= b2.subrange(off, b2.len() as int));
        let pre = ops.subrange(0, k);
        assert(pre.drop_last() =~= ops.subrange(0, k - 1));
        assert(pre.last() == ops[k - 1]);
    }
}

proof fn lemma_apply_upserts(s: Seq<RecordView>)
    ensures
        apply_all(Map::empty(), upserts_of(s)) == map_of(s),
    decreases s.len(),
{
    if s.len() > 0 {
        lemma_apply_upserts(s.drop_last());
        assert(upserts_of(s).drop_last() =~= upserts_of(s.drop_last()));
    }
}

/// A snapshot loads back as the records it was written from: loading
/// the header and an upsert frame for each record, onto an empty store,
/// succeeds with every record stored under its id.
pub proof fn law_snapshot_roundtrip(s: Seq<RecordView>)
    requires
        forall|i: int| 0 <= i < s.len() ==> op_ok(OpView::Upsert(#[trigger] s[i])),
    ensures
        snap_load(header_bytes() + e_ops(upserts_of(s)), Map::empty()) == (
            map_of(s),
            Ok::<(), Corruption>(()),
        ),
{
    let ops = upserts_of(s);
    let b = header_bytes() + e_ops(ops);
    lemma_snap_upto(s, Map::empty(), s.len() as int);
    assert(ops.subrange(0, s.len() as int) =~= ops);
    lemma_apply_upserts(s);
    assert(b.subrange(0, 4) =~= file_magic());
    crate::bytes::lemma_u32_roundtrip(FORMAT_VERSION);
    assert(b.subrange(4, 8) =~= crate::bytes::le_u32(FORMAT_VERSION));
    crate::bytes::lemma_u32_at(b, 4, FORMAT_VERSION);
    assert(b.subrange(b.len() as int, b.len() as int) =~= Seq::<u8>::empty());
}

/// A frame reads the same from any prefix that still holds it.
proof fn lemma_frame_prefix(x: Seq<u8>, j: int)
    requires
        f_frame(x) matches Ok(Some((_, n))) && n <= j <= x.len(),
    ensures
        f_frame(x.subrange(0, j)) == f_frame(x),
{
    let y = x.subrange(0, j);
    let n = u32_at(x, 0) as int;
    assert(y[0] == x[0] && y[1] == x[1] && y[2] == x[2] && y[3] == x[3]);
    assert(u32_at(y, 0) == u32_at(x, 0));
    assert(y.subrange(4, 4 + n) =~= x.subrange(4, 4 + n));
    assert(y[4 + n] == x[4 + n] && y[5 + n] == x[5 + n] && y[6 + n] == x[6 + n] && y[7 + n] == x[7 + n]);
    assert(u32_at(y, 4 + n) == u32_at(x, 4 + n));
}

/// Replay only moves forward, and never past the end.
proof fn lemma_replay_bounds(b: Seq<u8>, off: int, m: Map<u64, RecordView>)
    requires
        0 <= off <= b.len(),
    ensures
        off <= wal_replay(b, off, m).1 <= b.len(),
    decreases b.len() - off,
{
    match f_frame(b.subrange(off, b.len() as int)) {
        Ok(Some((op, n))) => {
            if 0 < n && off + n <= b.len() {
                lemma_replay_bounds(b, off + n, apply_op(m, op));
            }
        },
        _ => {},
    }
}

proof fn lemma_replay_cut(b: Seq<u8>, off: int, m: Map<u64, RecordView>)
    requires
        0 <= off <= b.len(),
    ensures
        wal_replay(b.subrange(0, wal_replay(b, off, m).1), off, m) == wal_replay(b, off, m),
    decreases b.len() - off,
{
    lemma_replay_bounds(b, off, m);
    let o = wal_replay(b, off, m).1;
    let t = b.subrange(0, o);
    let x = b.subrange(off, b.len() as int);
    let y = t.subrange(off, t.len() as int);
    assert(y =~= x.subrange(0, o - off));
    match f_frame(x) {
        Ok(Some((op, n))) => {
            if 0 < n && off + n <= b.len() {
                let m2 = apply_op(m, op);
                lemma_replay_bounds(b, off + n, m2);
                lemma_frame_prefix(x, o - off);
                lemma_replay_cut(b, off + n, m2);
                assert(t.subrange(0, o) =~= t);
            } else {
                assert(y.len() == 0);
            }
        },
        _ => {
            assert(y =~= Seq::<u8>::empty());
        },
    }
}

/// Cutting the log back to where replay stopped loses nothing: replaying
/// the cut log gives the same state, and finds it clean to its end.
pub proof fn law_replay_after_cut(b: Seq<u8>, m: Map<u64, RecordView>)
    ensures
        wal_replay(b.subrange(0, wal_replay(b, 0, m).1), 0, m) == wal_replay(b, 0, m),
        wal_replay(b, 0, m).1 <= b.len(),
{
    lemma_replay_cut(b, 0, m);
    lemma_replay_bounds(b, 0, m);
}

} // verus!
