//! The durable core engine.
//!
//! [`IqdbCore`] holds the authoritative [`RowStore`](store::RowStore) (the
//! single source of truth for `len`, for durability and for rebuilds), the
//! fixed `dim`, metric and index kind, and the lifecycle flag of the derived
//! search index.
//!
//! ## Two index lifecycles
//!
//! Flat and HNSW accept incremental inserts, so a write updates both the
//! store and the index. IVF must be trained before it accepts data: while it
//! is untrained a write only touches the store and marks the index stale,
//! and the index is rebuilt from the store the first time a search needs it.
//! The index itself is driven by the caller: every write returns the
//! [`IndexStep`] that keeps the index in step with the store, and
//! [`IqdbCore::rebuild_needed`] / [`IqdbCore::finish_rebuild`] bracket a
//! rebuild.

pub mod codec;
pub mod store;

use vstd::prelude::*;

use crate::config::IndexKind;
use crate::error::IndexError;
use crate::types::{duplicate_meta, meta_view, DistanceMetric, IdView, Metadata, VectorId};
use codec::{
    decoded_ok, e_payload, id_ok, law_payload_roundtrip, meta_sorted, p_payload, rows_error, rows_view,
    DecodedView, PayloadError,
};
use store::{
    has_id, ids_unique, lemma_pos_of_unique, lemma_upsert_keeps_unique, lookup, remove_rows,
    upsert_rows, Row, RowStore, RowView,
};

verus! {

/// What the caller must do to the derived index so that it matches the
/// store after a write.
#[derive(Debug, Clone, Copy, PartialEq, Eq, Structural)]
pub enum IndexStep {
    /// Nothing now: the index is untrained and is marked stale; it is
    /// rebuilt from the store before the next search.
    Deferred,
    /// Insert the new row into the index.
    Insert,
    /// Drop the index's entry for the id (an absent entry is no error), then
    /// insert the new row.
    ReplaceThenInsert,
    /// Drop the index's entry for the id (an absent entry is no error).
    Delete,
}

/// How a search must proceed.
#[derive(Debug, Clone, Copy, PartialEq, Eq, Structural)]
pub enum SearchPlan {
    /// The store is empty: the answer is no hits.
    Empty,
    /// Search the index as it is.
    Direct,
    /// Rebuild the index from the store first, then search.
    RebuildFirst,
}

/// Inserting `rows` one after another, each replacing an earlier row with
/// the same id in place.
pub open spec fn upsert_all(s: Seq<RowView>, rows: Seq<RowView>) -> Seq<RowView>
    decreases rows.len(),
{
    if rows.len() == 0 {
        s
    } else {
        upsert_rows(upsert_all(s, rows.drop_last()), rows.last())
    }
}

/// Loading rows with distinct ids into an empty store keeps them as they
/// are, in order.
pub proof fn lemma_upsert_all_distinct(rows: Seq<RowView>)
    requires
        ids_unique(rows),
    ensures
        upsert_all(Seq::empty(), rows) == rows,
    decreases rows.len(),
{
    if rows.len() > 0 {
        let init = rows.drop_last();
        assert forall|i: int, j: int|
            0 <= i < init.len() && 0 <= j < init.len() && i != j implies init[i].id
            != init[j].id by {
            assert(init[i] == rows[i] && init[j] == rows[j]);
        }
        lemma_upsert_all_distinct(init);
        assert forall|i: int| 0 <= i < init.len() implies init[i].id != rows.last().id by {
            assert(init[i] == rows[i]);
        }
        assert(!has_id(init, rows.last().id));
        assert(init.push(rows.last()) =~= rows);
    }
}

/// The database state: what [`IqdbCore`] is, as a mathematical value.
pub struct CoreView {
    pub dim: usize,
    pub metric: DistanceMetric,
    pub kind: IndexKind,
    pub rows: Seq<RowView>,
    pub stale: bool,
}

/// The engine's invariant: ids are unique, every row has `dim` components.
pub open spec fn core_wf(v: CoreView) -> bool {
    &&& ids_unique(v.rows)
    &&& forall|i: int| 0 <= i < v.rows.len() ==> #[trigger] v.rows[i].vector.len() == v.dim
}

/// The authoritative core engine of one database.
pub struct IqdbCore {
    dim: usize,
    metric: DistanceMetric,
    kind: IndexKind,
    store: RowStore,
    stale: bool,
}

impl View for IqdbCore {
    type V = CoreView;

    closed spec fn view(&self) -> CoreView {
        CoreView {
            dim: self.dim,
            metric: self.metric,
            kind: self.kind,
            rows: self.store@,
            stale: self.stale,
        }
    }
}

impl IqdbCore {
    pub closed spec fn wf(&self) -> bool {
        core_wf(self@) && self.store.wf()
    }

    /// An empty database. `index_needs_training` says whether the freshly
    /// built index must be trained before it holds data (an IVF index); if
    /// so the index starts out stale.
    pub fn new(dim: usize, metric: DistanceMetric, kind: IndexKind, index_needs_training: bool) -> (c:
        Self)
        ensures
            c.wf(),
            c@ == (CoreView {
                dim,
                metric,
                kind,
                rows: Seq::empty(),
                stale: index_needs_training,
            }),
    {
        IqdbCore { dim, metric, kind, store: RowStore::new(), stale: index_needs_training }
    }

    /// Number of stored rows (authoritative, whatever state the index is in).
    pub fn len(&self) -> (n: usize)
        ensures
            n == self@.rows.len(),
    {
        self.store.len()
    }

    /// `true` if no row is stored.
    pub fn is_empty(&self) -> (b: bool)
        ensures
            b <==> self@.rows.len() == 0,
    {
        self.store.is_empty()
    }

    /// The fixed dimensionality.
    pub fn dim(&self) -> (d: usize)
        ensures
            d == self@.dim,
    {
        self.dim
    }

    /// The fixed distance metric.
    pub fn metric(&self) -> (m: DistanceMetric)
        ensures
            m == self@.metric,
    {
        self.metric
    }

    /// The fixed index kind.
    pub fn kind(&self) -> (k: IndexKind)
        ensures
            k == self@.kind,
    {
        self.kind
    }

    /// `true` if a search must first rebuild the index from the store.
    pub fn needs_materialization(&self) -> (b: bool)
        ensures
            b == self@.stale,
    {
        self.stale
    }

    /// `true` if `id` is stored.
    pub fn contains(&self, id: &VectorId) -> (b: bool)
        ensures
            b <==> has_id(self@.rows, id@),
    {
        self.store.contains(id)
    }

    /// A copy of the components and metadata stored under `id`, if any.
    pub fn get_row(&self, id: &VectorId) -> (r: Option<(Vec<u32>, Option<Metadata>)>)
        requires
            self.wf(),
        ensures
            match r {
                Some((v, m)) => lookup(self@.rows, id@) matches Some(row) && row.vector == v@
                    && row.meta == meta_view(m),
                None => lookup(self@.rows, id@) is None,
            },
    {
        match self.store.get(id) {
            Some(row) => Some((store::copy_words(&row.vector), duplicate_meta(&row.meta))),
            None => None,
        }
    }

    /// The stored rows in storage order (what a rebuild inserts, in order).
    pub fn rows(&self) -> (r: &Vec<Row>)
        ensures
            rows_view(r@) == self@.rows,
    {
        self.store.rows()
    }

    /// Inserts or replaces the row for `id`.
    ///
    /// A vector whose length is not `dim` is refused and nothing changes.
    /// Otherwise the store is updated, and the result says what the index
    /// needs: nothing while it is untrained (it is then marked stale), an
    /// insert for a new id, or a drop and an insert for a replaced one.
    pub fn insert(
        &mut self,
        id: VectorId,
        vector: Vec<u32>,
        meta: Option<Metadata>,
        index_needs_training: bool,
    ) -> (r: Result<IndexStep, IndexError>)
        requires
            old(self).wf(),
        ensures
            final(self).wf(),
            vector@.len() != old(self)@.dim ==> r == Err::<IndexStep, IndexError>(
                IndexError::DimensionMismatch { expected: old(self)@.dim, found: vector@.len() as usize },
            ) && final(self)@ == old(self)@,
            vector@.len() == old(self)@.dim ==> {
                &&& final(self)@.rows == upsert_rows(
                    old(self)@.rows,
                    RowView { id: id@, vector: vector@, meta: meta_view(meta) },
                )
                &&& final(self)@.dim == old(self)@.dim
                &&& final(self)@.metric == old(self)@.metric
                &&& final(self)@.kind == old(self)@.kind
                &&& final(self)@.stale == (old(self)@.stale || index_needs_training)
                &&& r == Ok::<IndexStep, IndexError>(
                    if index_needs_training {
                        IndexStep::Deferred
                    } else if has_id(old(self)@.rows, id@) {
                        IndexStep::ReplaceThenInsert
                    } else {
                        IndexStep::Insert
                    },
                )
            },
    {
        if vector.len() != self.dim {
            return Err(IndexError::DimensionMismatch { expected: self.dim, found: vector.len() });
        }
        let ghost row = RowView { id: id@, vector: vector@, meta: meta_view(meta) };
        let ghost before = self.store@;
        let newly = self.store.upsert(id, vector, meta);
        proof {
            let after = self.store@;
            assert forall|i: int| 0 <= i < after.len() implies #[trigger] after[i].vector.len()
                == self.dim by {
                if has_id(before, row.id) {
                    if i != store::pos_of(before, row.id) {
                        assert(after[i] == before[i]);
                    }
                } else if i < before.len() {
                    assert(after[i] == before[i]);
                }
            }
        }
        if index_needs_training {
            self.stale = true;
            return Ok(IndexStep::Deferred);
        }
        if newly {
            Ok(IndexStep::Insert)
        } else {
            Ok(IndexStep::ReplaceThenInsert)
        }
    }

    /// Removes the row for `id`. Returns whether it was stored, and what the
    /// index needs: nothing while it is untrained (it is then marked stale),
    /// otherwise a drop of the id.
    pub fn delete(&mut self, id: &VectorId, index_needs_training: bool) -> (r: (bool, IndexStep))
        requires
            old(self).wf(),
        ensures
            final(self).wf(),
            r.0 <==> has_id(old(self)@.rows, id@),
            final(self)@.rows == remove_rows(old(self)@.rows, id@),
            final(self)@.dim == old(self)@.dim,
            final(self)@.metric == old(self)@.metric,
            final(self)@.kind == old(self)@.kind,
            final(self)@.stale == (old(self)@.stale || index_needs_training),
            r.1 == if index_needs_training {
                IndexStep::Deferred
            } else {
                IndexStep::Delete
            },
    {
        let ghost before = self.store@;
        let existed = self.store.remove(id);
        proof {
            let after = self.store@;
            if has_id(before, id@) {
                let p = store::pos_of(before, id@);
                assert forall|i: int| 0 <= i < after.len() implies #[trigger] after[i].vector.len()
                    == self.dim by {
                    if i < p {
                        assert(after[i] == before[i]);
                    } else {
                        assert(after[i] == before[i + 1]);
                    }
                }
            }
        }
        if index_needs_training {
            self.stale = true;
            return (existed, IndexStep::Deferred);
        }
        (existed, IndexStep::Delete)
    }

    /// `true` when the index is stale and there is data to rebuild it from.
    /// A stale index over an empty store is left as it is.
    pub fn rebuild_needed(&self) -> (b: bool)
        ensures
            b <==> self@.stale && self@.rows.len() > 0,
    {
        self.stale && !self.store.is_empty()
    }

    /// Records that the index was rebuilt from the current rows.
    pub fn finish_rebuild(&mut self)
        requires
            old(self).wf(),
        ensures
            final(self).wf(),
            final(self)@ == (CoreView { stale: false, ..old(self)@ }),
    {
        self.stale = false;
    }

    /// Marks an IVF index for retraining over the current vectors; the flat
    /// and HNSW kinds need none. The caller then rebuilds if
    /// [`rebuild_needed`](Self::rebuild_needed).
    pub fn optimize(&mut self)
        requires
            old(self).wf(),
        ensures
            final(self).wf(),
            final(self)@ == (CoreView {
                stale: old(self)@.stale || old(self)@.kind is Ivf,
                ..old(self)@
            }),
    {
        if self.kind.is_ivf() {
            self.stale = true;
        }
    }

    /// How a search must proceed: no hits on an empty store, a rebuild
    /// first if the index is stale, otherwise straight to the index.
    pub fn search_plan(&self) -> (p: SearchPlan)
        ensures
            p == if self@.rows.len() == 0 {
                SearchPlan::Empty
            } else if self@.stale {
                SearchPlan::RebuildFirst
            } else {
                SearchPlan::Direct
            },
    {
        if self.store.is_empty() {
            SearchPlan::Empty
        } else if self.stale {
            SearchPlan::RebuildFirst
        } else {
            SearchPlan::Direct
        }
    }

    /// Serializes the database: index kind, `dim`, metric and every row.
    pub fn save(&self) -> (r: Result<Vec<u8>, PayloadError>)
        ensures
            match rows_error(self@.rows) {
                None => r matches Ok(bytes) && bytes@ == e_payload(
                    self@.kind,
                    self@.dim,
                    self@.metric,
                    self@.rows,
                ),
                Some(f) => r == Err::<Vec<u8>, PayloadError>(
                    PayloadError::OutOfRange { field: f },
                ),
            },
    {
        codec::encode(self.kind, self.dim, self.metric, self.store.rows())
    }

    /// Rebuilds the database from a decoded payload: the rows are stored in
    /// order, a later row replacing an earlier one with the same id.
    /// `index_needs_training` says whether the index built for the decoded
    /// kind must be trained first; if so it starts out stale.
    pub fn from_decoded(d: codec::Decoded, index_needs_training: bool) -> (c: Self)
        requires
            decoded_ok(d@),
        ensures
            c.wf(),
            c@ == (CoreView {
                dim: d@.dim,
                metric: d@.metric,
                kind: d@.kind,
                rows: upsert_all(Seq::empty(), d@.rows),
                stale: index_needs_training,
            }),
    {
        let codec::Decoded { kind, dim, metric, rows } = d;
        let ghost all = rows_view(rows@);
        let n = rows.len();
        // Take the rows off the back, then off the back again, so that they
        // come out in the order they were stored without copying.
        let mut rows = rows;
        let mut rev: Vec<Row> = Vec::new();
        while rows.len() > 0
            invariant
                rows@.len() + rev@.len() == n,
                n == all.len(),
                rows_view(rows@) == all.subrange(0, rows@.len() as int),
                forall|j: int| 0 <= j < rev@.len() ==> #[trigger] rev@[j]@ == all[n - 1 - j],
            decreases rows@.len(),
        {
            let ghost k = rows@.len();
            let ghost pre = rows@;
            let row = rows.pop().unwrap();
            assert(row@ == all[k - 1]) by {
                assert(rows_view(pre)[k - 1] == all.subrange(0, k as int)[k - 1]);
            }
            rev.push(row);
            assert(rows_view(rows@) =~= all.subrange(0, rows@.len() as int)) by {
                assert forall|j: int| 0 <= j < rows@.len() implies rows_view(rows@)[j] == all[j] by {
                    assert(rows@[j] == pre[j]);
                    assert(rows_view(pre)[j] == all.subrange(0, k as int)[j]);
                }
            }
        }
        let mut store = RowStore::with_capacity(n);
        let mut i: usize = 0;
        assert(all.subrange(0, 0) =~= Seq::<RowView>::empty());
        while i < n
            invariant
                i <= n,
                n == all.len(),
                rev@.len() == n - i,
                forall|j: int| 0 <= j < rev@.len() ==> #[trigger] rev@[j]@ == all[n - 1 - j],
                store.wf(),
                store@ == upsert_all(Seq::empty(), all.subrange(0, i as int)),
                forall|j: int| 0 <= j < all.len() ==> #[trigger] all[j].vector.len() == dim,
                forall|j: int| 0 <= j < store@.len() ==> #[trigger] store@[j].vector.len() == dim,
            decreases n - i,
        {
            let ghost before = store@;
            let row = rev.pop().unwrap();
            assert(row@ == all[i as int]);
            let Row { id, vector, meta } = row;
            let _ = store.upsert(id, vector, meta);
            proof {
                let sub = all.subrange(0, i + 1);
                assert(sub.drop_last() =~= all.subrange(0, i as int));
                assert(sub.last() == all[i as int]);
                let after = store@;
                assert forall|j: int| 0 <= j < after.len() implies #[trigger] after[j].vector.len()
                    == dim by {
                    if has_id(before, all[i as int].id) {
                        if j != store::pos_of(before, all[i as int].id) {
                            assert(after[j] == before[j]);
                        }
                    } else if j < before.len() {
                        assert(after[j] == before[j]);
                    }
                }
            }
            i = i + 1;
        }
        assert(all.subrange(0, n as int) =~= all);
        IqdbCore { dim, metric, kind, store, stale: index_needs_training }
    }
}


/// What a save and a load do together: a database saved and loaded back
/// has the same index kind, `dim`, metric and rows, in the same order.
///
/// It holds for every database whose `Bytes` ids are non-empty, whose
/// metadata keys are in order (as every `Metadata` keeps them), and whose
/// lengths fit the format (what [`IqdbCore::save`] accepts).
pub proof fn law_save_then_load(v: CoreView)
    requires
        core_wf(v),
        v.rows.len() <= usize::MAX,
        rows_error(v.rows) is None,
        forall|i: int| 0 <= i < v.rows.len() ==> id_ok(#[trigger] v.rows[i].id),
        forall|i: int| 0 <= i < v.rows.len() ==> meta_sorted(#[trigger] v.rows[i].meta),
    ensures
        p_payload(e_payload(v.kind, v.dim, v.metric, v.rows)) == Ok::<DecodedView, PayloadError>(
            DecodedView { kind: v.kind, dim: v.dim, metric: v.metric, rows: v.rows },
        ),
        upsert_all(Seq::empty(), v.rows) == v.rows,
{
    law_payload_roundtrip(v.kind, v.dim, v.metric, v.rows);
    lemma_upsert_all_distinct(v.rows);
}

} // verus!
