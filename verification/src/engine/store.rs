//! The authoritative row store.
//!
//! The database owns its vectors: durability and index rebuilds both read
//! from this store, never from the derived index. It is an
//! insertion-ordered, id-keyed sequence of rows. Replacing a row keeps its
//! position and removing a row shifts the later rows down, so the rows stay
//! in insertion order and a save, load and rebuild replays inserts in that
//! order.

use vstd::prelude::*;

use crate::types::{duplicate_meta, meta_view, EntryView, IdView, Metadata, VectorId};

verus! {

/// One stored vector: its id, its components (as IEEE-754 bit patterns),
/// and optional metadata.
#[derive(Debug, PartialEq)]
pub struct Row {
    pub id: VectorId,
    pub vector: Vec<u32>,
    pub meta: Option<Metadata>,
}

/// What a [`Row`] is, as a mathematical value.
pub struct RowView {
    pub id: IdView,
    pub vector: Seq<u32>,
    pub meta: Option<Seq<EntryView>>,
}

impl View for Row {
    type V = RowView;

    open spec fn view(&self) -> RowView {
        RowView { id: self.id@, vector: self.vector@, meta: meta_view(self.meta) }
    }
}

/// Copies a vector of bit patterns.
pub fn copy_words(v: &Vec<u32>) -> (r: Vec<u32>)
    ensures
        r@ == v@,
{
    let mut out: Vec<u32> = Vec::new();
    let mut i: usize = 0;
    while i < v.len()
        invariant
            i <= v.len(),
            out@ == v@.subrange(0, i as int),
        decreases v.len() - i,
    {
        out.push(v[i]);
        i = i + 1;
        assert(out@ =~= v@.subrange(0, i as int));
    }
    assert(v@.subrange(0, v.len() as int) =~= v@);
    out
}

impl Row {
    /// A copy of this row.
    pub fn duplicate(&self) -> (r: Row)
        ensures
            r@ == self@,
    {
        Row {
            id: self.id.duplicate(),
            vector: copy_words(&self.vector),
            meta: duplicate_meta(&self.meta),
        }
    }
}


// ---------------------------------------------------------------------
// The store as a sequence of rows.
// ---------------------------------------------------------------------

/// `id` is stored at some position of `s`.
pub open spec fn has_id(s: Seq<RowView>, id: IdView) -> bool {
    exists|i: int| 0 <= i < s.len() && s[i].id == id
}

/// No id occurs twice.
pub open spec fn ids_unique(s: Seq<RowView>) -> bool {
    forall|i: int, j: int| 0 <= i < s.len() && 0 <= j < s.len() && i != j ==> s[i].id != s[j].id
}

/// The position of `id` in `s` (meaningful when [`has_id`]).
pub open spec fn pos_of(s: Seq<RowView>, id: IdView) -> int {
    choose|i: int| 0 <= i < s.len() && s[i].id == id
}

/// The row stored under `id`, if any.
pub open spec fn lookup(s: Seq<RowView>, id: IdView) -> Option<RowView> {
    if has_id(s, id) {
        Some(s[pos_of(s, id)])
    } else {
        None
    }
}

/// Insert-or-replace: a present id is replaced in place, a new id is
/// appended.
pub open spec fn upsert_rows(s: Seq<RowView>, row: RowView) -> Seq<RowView> {
    if has_id(s, row.id) {
        s.update(pos_of(s, row.id), row)
    } else {
        s.push(row)
    }
}

/// Removes `id` if present; the rows after it move down one place, so
/// the others keep their order.
pub open spec fn remove_rows(s: Seq<RowView>, id: IdView) -> Seq<RowView> {
    if has_id(s, id) {
        s.remove(pos_of(s, id))
    } else {
        s
    }
}

/// Where ids are unique, the position of a stored id is the only one.
pub proof fn lemma_pos_of_unique(s: Seq<RowView>, i: int)
    requires
        ids_unique(s),
        0 <= i < s.len(),
    ensures
        has_id(s, s[i].id),
        pos_of(s, s[i].id) == i,
{
    assert(has_id(s, s[i].id));
    let j = pos_of(s, s[i].id);
    assert(0 <= j < s.len() && s[j].id == s[i].id);
}

/// An upsert keeps the ids unique.
pub proof fn lemma_upsert_keeps_unique(s: Seq<RowView>, row: RowView)
    requires
        ids_unique(s),
    ensures
        ids_unique(upsert_rows(s, row)),
{
    if has_id(s, row.id) {
        let p = pos_of(s, row.id);
        let t = upsert_rows(s, row);
        assert forall|i: int, j: int|
            0 <= i < t.len() && 0 <= j < t.len() && i != j implies t[i].id != t[j].id by {
            if i == p {
                assert(s[p].id == row.id);
            } else if j == p {
                assert(s[p].id == row.id);
            }
        }
    }
}

/// A removal keeps the ids unique.
pub proof fn lemma_remove_keeps_unique(s: Seq<RowView>, id: IdView)
    requires
        ids_unique(s),
    ensures
        ids_unique(remove_rows(s, id)),
{
    if has_id(s, id) {
        let p = pos_of(s, id);
        let t = remove_rows(s, id);
        assert forall|i: int, j: int|
            0 <= i < t.len() && 0 <= j < t.len() && i != j implies t[i].id != t[j].id by {
            let li = if i < p { i } else { i + 1 };
            let lj = if j < p { j } else { j + 1 };
            assert(t[i] == s[li]);
            assert(t[j] == s[lj]);
        }
    }
}

/// Every operation keeps the store's invariant: no id is stored twice.
pub proof fn law_operations_keep_ids_unique(s: Seq<RowView>, row: RowView, id: IdView)
    requires
        ids_unique(s),
    ensures
        ids_unique(upsert_rows(s, row)),
        ids_unique(remove_rows(s, id)),
{
    lemma_upsert_keeps_unique(s, row);
    lemma_remove_keeps_unique(s, id);
}

/// A read gives back the last write: after an upsert of `row`, looking up
/// its id gives `row`, and every other id reads as before.
pub proof fn law_lookup_after_upsert(s: Seq<RowView>, row: RowView, other: IdView)
    requires
        ids_unique(s),
        other != row.id,
    ensures
        lookup(upsert_rows(s, row), row.id) == Some(row),
        lookup(upsert_rows(s, row), other) == lookup(s, other),
{
    lemma_upsert_keeps_unique(s, row);
    let t = upsert_rows(s, row);
    if has_id(s, row.id) {
        let p = pos_of(s, row.id);
        lemma_pos_of_unique(t, p);
        if has_id(s, other) {
            let q = pos_of(s, other);
            assert(t[q] == s[q]);
            lemma_pos_of_unique(t, q);
        } else {
            assert forall|i: int| 0 <= i < t.len() implies t[i].id != other by {
                if i != p {
                    assert(t[i] == s[i]);
                }
            }
        }
    } else {
        lemma_pos_of_unique(t, s.len() as int);
        if has_id(s, other) {
            let q = pos_of(s, other);
            assert(t[q] == s[q]);
            lemma_pos_of_unique(t, q);
        } else {
            assert forall|i: int| 0 <= i < t.len() implies t[i].id != other by {
                if i < s.len() {
                    assert(t[i] == s[i]);
                }
            }
        }
    }
}

/// After a removal the id is absent, and every other id reads as before.
pub proof fn law_lookup_after_remove(s: Seq<RowView>, id: IdView, other: IdView)
    requires
        ids_unique(s),
        other != id,
    ensures
        lookup(remove_rows(s, id), id) is None,
        lookup(remove_rows(s, id), other) == lookup(s, other),
{
    lemma_remove_keeps_unique(s, id);
    let t = remove_rows(s, id);
    if has_id(s, id) {
        let p = pos_of(s, id);
        assert forall|i: int| 0 <= i < t.len() implies t[i].id != id by {
            let li = if i < p { i } else { i + 1 };
            assert(t[i] == s[li]);
            assert(li != p);
        }
        if has_id(s, other) {
            let q = pos_of(s, other);
            let nq = if q < p { q } else { q - 1 };
            assert(q != p);
            assert(t[nq] == s[q]);
            lemma_pos_of_unique(t, nq);
        } else {
            assert forall|i: int| 0 <= i < t.len() implies t[i].id != other by {
                let li = if i < p { i } else { i + 1 };
                assert(t[i] == s[li]);
            }
        }
    }
}

/// Counting: an upsert grows the store by one exactly when the id is new;
/// a removal shrinks it by one exactly when the id was present.
pub proof fn law_len_counts_distinct_ids(s: Seq<RowView>, row: RowView, id: IdView)
    ensures
        upsert_rows(s, row).len() == s.len() + if has_id(s, row.id) { 0int } else { 1int },
        remove_rows(s, id).len() == s.len() - if has_id(s, id) { 1int } else { 0int },
{
}

/// Removal keeps the insertion order: the rows that stay are the rows
/// before the removed one, then the rows after it, each in order.
pub proof fn law_remove_keeps_order(s: Seq<RowView>, id: IdView)
    requires
        has_id(s, id),
    ensures
        remove_rows(s, id) == s.subrange(0, pos_of(s, id)) + s.subrange(pos_of(s, id) + 1, s.len() as int),
{
    let p = pos_of(s, id);
    assert(remove_rows(s, id) =~= s.subrange(0, p) + s.subrange(p + 1, s.len() as int));
}

/// Replacing a stored id keeps it at its position.
pub proof fn law_replace_keeps_position(s: Seq<RowView>, row: RowView)
    requires
        ids_unique(s),
        has_id(s, row.id),
    ensures
        upsert_rows(s, row)[pos_of(s, row.id)] == row,
        pos_of(upsert_rows(s, row), row.id) == pos_of(s, row.id),
{
    lemma_upsert_keeps_unique(s, row);
    lemma_pos_of_unique(upsert_rows(s, row), pos_of(s, row.id));
}

// ---------------------------------------------------------------------
// The executable store.
// ---------------------------------------------------------------------

/// An insertion-ordered, id-keyed store of rows. No id occurs twice, and
/// removals keep the order of the rows that stay.
pub struct RowStore {
    rows: Vec<Row>,
}

impl View for RowStore {
    type V = Seq<RowView>;

    closed spec fn view(&self) -> Seq<RowView> {
        self.rows@.map_values(|r: Row| r@)
    }
}

impl RowStore {
    /// The store's invariant: no id occurs twice.
    pub open spec fn wf(&self) -> bool {
        ids_unique(self@)
    }

    /// An empty store.
    pub fn new() -> (s: Self)
        ensures
            s.wf(),
            s@ == Seq::<RowView>::empty(),
    {
        let s = RowStore { rows: Vec::new() };
        assert(s@ =~= Seq::<RowView>::empty());
        s
    }

    /// An empty store pre-sized for `cap` rows.
    pub fn with_capacity(cap: usize) -> (s: Self)
        ensures
            s.wf(),
            s@ == Seq::<RowView>::empty(),
    {
        let s = RowStore { rows: Vec::with_capacity(cap) };
        assert(s@ =~= Seq::<RowView>::empty());
        s
    }

    /// Number of rows.
    pub fn len(&self) -> (n: usize)
        ensures
            n == self@.len(),
    {
        self.rows.len()
    }

    /// `true` when no row is stored.
    pub fn is_empty(&self) -> (b: bool)
        ensures
            b <==> self@.len() == 0,
    {
        self.rows.len() == 0
    }

    /// The stored rows, in storage order.
    pub fn rows(&self) -> (r: &Vec<Row>)
        ensures
            r@.map_values(|x: Row| x@) == self@,
    {
        &self.rows
    }

    /// The position of `id`, if stored.
    fn find(&self, id: &VectorId) -> (r: Option<usize>)
        ensures
            match r {
                Some(i) => i < self@.len() && self@[i as int].id == id@,
                None => !has_id(self@, id@),
            },
    {
        let mut i: usize = 0;
        while i < self.rows.len()
            invariant
                i <= self.rows@.len(),
                forall|j: int| 0 <= j < i ==> #[trigger] self@[j].id != id@,
            decreases self.rows.len() - i,
        {
            if self.rows[i].id.same(id) {
                return Some(i);
            }
            i = i + 1;
        }
        None
    }

    /// `true` if `id` is stored.
    pub fn contains(&self, id: &VectorId) -> (b: bool)
        ensures
            b <==> has_id(self@, id@),
    {
        self.find(id).is_some()
    }

    /// The row stored under `id`, if any.
    pub fn get(&self, id: &VectorId) -> (r: Option<&Row>)
        requires
            self.wf(),
        ensures
            match r {
                Some(row) => lookup(self@, id@) == Some(row@),
                None => lookup(self@, id@) is None,
            },
    {
        match self.find(id) {
            Some(i) => {
                proof {
                    lemma_pos_of_unique(self@, i as int);
                }
                Some(&self.rows[i])
            },
            None => None,
        }
    }

    /// Inserts or replaces the row for `id`. Returns `true` if the id was
    /// new (the row is appended), `false` if an existing row was replaced in
    /// place, keeping its position.
    pub fn upsert(&mut self, id: VectorId, vector: Vec<u32>, meta: Option<Metadata>) -> (newly:
        bool)
        requires
            old(self).wf(),
        ensures
            final(self).wf(),
            newly <==> !has_id(old(self)@, id@),
            final(self)@ == upsert_rows(
                old(self)@,
                RowView { id: id@, vector: vector@, meta: meta_view(meta) },
            ),
    {
        let ghost row = RowView { id: id@, vector: vector@, meta: meta_view(meta) };
        proof {
            lemma_upsert_keeps_unique(self@, row);
        }
        match self.find(&id) {
            Some(i) => {
                proof {
                    lemma_pos_of_unique(self@, i as int);
                }
                self.rows.set(i, Row { id, vector, meta });
                assert(self@ =~= upsert_rows(old(self)@, row));
                false
            },
            None => {
                self.rows.push(Row { id, vector, meta });
                assert(self@ =~= upsert_rows(old(self)@, row));
                true
            },
        }
    }

    /// Removes the row for `id`; the rows after it move down one place.
    /// Returns `true` if a row was removed, `false` if `id` was absent.
    pub fn remove(&mut self, id: &VectorId) -> (existed: bool)
        requires
            old(self).wf(),
        ensures
            final(self).wf(),
            existed <==> has_id(old(self)@, id@),
            final(self)@ == remove_rows(old(self)@, id@),
            existed ==> final(self)@ == old(self)@.remove(pos_of(old(self)@, id@)),
            !existed ==> final(self)@ == old(self)@,
    {
        proof {
            lemma_remove_keeps_unique(self@, id@);
        }
        match self.find(id) {
            Some(i) => {
                proof {
                    lemma_pos_of_unique(self@, i as int);
                }
                let _removed = self.rows.remove(i);
                assert(self@ =~= remove_rows(old(self)@, id@));
                true
            },
            None => false,
        }
    }
}

} // verus!
