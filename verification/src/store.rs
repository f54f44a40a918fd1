//! The record store: records keyed by their id.
//!
//! Records are kept in a vector in which no id occurs twice; the store is
//! viewed as the map from each id to its record. Upserting an id that is
//! present replaces its record in place; a new id is appended; deleting
//! moves the last record into the freed slot.

use vstd::prelude::*;

use crate::record::{Record, RecordId, RecordView};

verus! {

/// The records of a sequence, viewed.
pub open spec fn recs_view(v: Seq<Record>) -> Seq<RecordView> {
    v.map_values(|r: Record| r@)
}

/// No id occurs twice.
pub open spec fn ids_unique(s: Seq<RecordView>) -> bool {
    forall|i: int, j: int| 0 <= i < j < s.len() ==> s[i].id != s[j].id
}

/// The map from id to record that a sequence of records describes (a
/// later record with the same id wins).
pub open spec fn map_of(s: Seq<RecordView>) -> Map<u64, RecordView>
    decreases s.len(),
{
    if s.len() == 0 {
        Map::empty()
    } else {
        map_of(s.drop_last()).insert(s.last().id, s.last())
    }
}

/// With distinct ids, the map holds exactly the ids of the sequence, each
/// mapped to its record, and has as many entries as the sequence.
pub proof fn lemma_map_of(s: Seq<RecordView>)
    requires
        ids_unique(s),
    ensures
        map_of(s).dom().finite(),
        map_of(s).dom().len() == s.len(),
        forall|k: u64| #[trigger] map_of(s).contains_key(k) <==> exists|i: int| 0 <= i < s.len() && s[i].id == k,
        forall|i: int| 0 <= i < s.len() ==> #[trigger] map_of(s)[s[i].id] == s[i],
    decreases s.len(),
{
    if s.len() > 0 {
        let t = s.drop_last();
        assert(ids_unique(t)) by {
            assert forall|i: int, j: int| 0 <= i < j < t.len() implies t[i].id != t[j].id by {
                assert(t[i] == s[i] && t[j] == s[j]);
            }
        }
        lemma_map_of(t);
        let x = s.last();
        assert(!map_of(t).contains_key(x.id)) by {
            if map_of(t).contains_key(x.id) {
                let i = choose|i: int| 0 <= i < t.len() && t[i].id == x.id;
                assert(s[i] == t[i]);
                assert(s[s.len() - 1] == x);
            }
        }
        assert forall|k: u64| #[trigger] map_of(s).contains_key(k) <==> exists|i: int| 0 <= i < s.len() && s[i].id == k by {
            if map_of(s).contains_key(k) && k != x.id {
                let i = choose|i: int| 0 <= i < t.len() && t[i].id == k;
                assert(s[i] == t[i]);
            }
            if k == x.id {
                assert(s[s.len() - 1].id == k);
            }
            if exists|i: int| 0 <= i < s.len() && s[i].id == k {
                let i = choose|i: int| 0 <= i < s.len() && s[i].id == k;
                if i < s.len() - 1 {
                    assert(t[i] == s[i]);
                }
            }
        }
        assert forall|i: int| 0 <= i < s.len() implies #[trigger] map_of(s)[s[i].id] == s[i] by {
            if i < s.len() - 1 {
                assert(t[i] == s[i]);
                assert(s[i].id != s[s.len() - 1].id);
            }
        }
    }
}

/// Records keyed by id.
#[derive(Debug)]
pub struct MemoryStore {
    records: Vec<Record>,
}

impl View for MemoryStore {
    type V = Map<u64, RecordView>;

    closed spec fn view(&self) -> Map<u64, RecordView> {
        map_of(recs_view(self.records@))
    }
}

impl MemoryStore {
    #[verifier::type_invariant]
    spec fn distinct_ids(self) -> bool {
        ids_unique(recs_view(self.records@))
    }

    /// The records in storage order, with distinct ids, making up the map.
    pub closed spec fn entries(&self) -> Seq<RecordView> {
        recs_view(self.records@)
    }

    /// An empty store.
    pub fn new() -> (s: MemoryStore)
        ensures
            s@ == Map::<u64, RecordView>::empty(),
            s.entries() == Seq::<RecordView>::empty(),
    {
        let s = MemoryStore { records: Vec::new() };
        assert(recs_view(s.records@) =~= Seq::<RecordView>::empty());
        s
    }

    /// The position of `id`, if present.
    fn find(&self, id: u64) -> (r: Option<usize>)
        ensures
            match r {
                Some(i) => i < self.records@.len() && self.records@[i as int]@.id == id,
                None => !self@.contains_key(id),
            },
            self@.contains_key(id) <==> r is Some,
    {
        proof {
            use_type_invariant(self);
            lemma_map_of(recs_view(self.records@));
        }
        let mut i: usize = 0;
        while i < self.records.len()
            invariant
                i <= self.records@.len(),
                forall|j: int| 0 <= j < i ==> (#[trigger] self.records@[j])@.id != id,
            decreases self.records.len() - i,
        {
            if self.records[i].id().get() == id {
                proof {
                    use_type_invariant(self);
                    lemma_map_of(recs_view(self.records@));
                    assert(recs_view(self.records@)[i as int].id == id);
                    assert(map_of(recs_view(self.records@)).contains_key(id));
                }
                return Some(i);
            }
            i = i + 1;
        }
        proof {
            assert forall|j: int| 0 <= j < recs_view(self.records@).len() implies #[trigger] recs_view(self.records@)[j].id != id by {
                assert(recs_view(self.records@)[j] == self.records@[j]@);
            }
        }
        None
    }

    /// The number of records.
    pub fn len(&self) -> (n: usize)
        ensures
            n == self@.dom().len(),
    {
        proof {
            use_type_invariant(self);
            lemma_map_of(recs_view(self.records@));
        }
        self.records.len()
    }

    pub fn is_empty(&self) -> (b: bool)
        ensures
            b == (self@.dom().len() == 0),
    {
        proof {
            use_type_invariant(self);
            lemma_map_of(recs_view(self.records@));
        }
        self.records.len() == 0
    }

    /// The record stored under `id`.
    pub fn get(&self, id: RecordId) -> (r: Option<&Record>)
        ensures
            match r {
                Some(x) => self@.contains_key(id.value()) && x@ == self@[id.value()],
                None => !self@.contains_key(id.value()),
            },
    {
        proof {
            use_type_invariant(self);
            lemma_map_of(recs_view(self.records@));
        }
        match self.find(id.get()) {
            Some(i) => {
                proof {
                    assert(recs_view(self.records@)[i as int] == self.records@[i as int]@);
                }
                Some(&self.records[i])
            },
            None => None,
        }
    }

    /// Whether `id` is stored.
    pub fn contains(&self, id: RecordId) -> (b: bool)
        ensures
            b == self@.contains_key(id.value()),
    {
        self.find(id.get()).is_some()
    }

    /// Inserts or replaces the record stored under its id, returning the
    /// record it replaced.
    pub fn upsert(&mut self, record: Record) -> (prev: Option<Record>)
        ensures
            final(self)@ == old(self)@.insert(record@.id, record@),
            match prev {
                Some(p) => old(self)@.contains_key(record@.id) && p@ == old(self)@[record@.id],
                None => !old(self)@.contains_key(record@.id),
            },
    {
        proof {
            use_type_invariant(&*self);
            lemma_map_of(recs_view(self.records@));
        }
        let ghost s = recs_view(self.records@);
        let ghost rv = record@;
        let id = record.id().get();
        let mut records: Vec<Record> = Vec::new();
        std::mem::swap(&mut records, &mut self.records);
        let prev = match find_in(&records, id) {
            Some(i) => {
                let old_rec = records.remove(i);
                records.insert(i, record);
                proof {
                    assert(recs_view(records@) =~= s.update(i as int, rv));
                    lemma_update_keeps_unique(s, i as int, rv);
                    lemma_map_of(s.update(i as int, rv));
                    assert(map_of(recs_view(records@)) =~= map_of(s).insert(rv.id, rv)) by {
                        assert forall|k: u64| #[trigger] map_of(recs_view(records@)).contains_key(k) implies map_of(s).insert(rv.id, rv).contains_key(k) by {
                            let j = choose|j: int| 0 <= j < s.len() && s.update(i as int, rv)[j].id == k;
                            if j != i {
                                assert(s[j].id == k);
                            }
                        }
                        assert forall|k: u64| #[trigger] map_of(s).insert(rv.id, rv).contains_key(k) implies map_of(recs_view(records@)).contains_key(k) by {
                            if k != rv.id {
                                let j = choose|j: int| 0 <= j < s.len() && s[j].id == k;
                                assert(s.update(i as int, rv)[j].id == k);
                            } else {
                                assert(s.update(i as int, rv)[i as int].id == k);
                            }
                        }
                        assert forall|k: u64| #[trigger] map_of(recs_view(records@)).contains_key(k) implies map_of(recs_view(records@))[k] == map_of(s).insert(rv.id, rv)[k] by {
                            let j = choose|j: int| 0 <= j < s.len() && s.update(i as int, rv)[j].id == k;
                            assert(map_of(s.update(i as int, rv))[s.update(i as int, rv)[j].id] == s.update(i as int, rv)[j]);
                        }
                    }
                }
                Some(old_rec)
            },
            None => {
                records.push(record);
                proof {
                    assert(recs_view(records@) =~= s.push(rv));
                    assert(recs_view(records@).drop_last() =~= s);
                    assert forall|i: int, j: int| 0 <= i < j < s.push(rv).len() implies s.push(rv)[i].id != s.push(rv)[j].id by {
                        if j == s.len() {
                            assert(s[i].id != rv.id) by {
                                if s[i].id == rv.id {
                                    assert(map_of(s).contains_key(rv.id));
                                }
                            }
                        }
                    }
                }
                None
            },
        };
        self.records = records;
        prev
    }

    /// Removes the record stored under `id`, returning whether there was one.
    pub fn delete(&mut self, id: RecordId) -> (removed: bool)
        ensures
            final(self)@ == old(self)@.remove(id.value()),
            removed == old(self)@.contains_key(id.value()),
    {
        proof {
            use_type_invariant(&*self);
            lemma_map_of(recs_view(self.records@));
        }
        let ghost s = recs_view(self.records@);
        let k = id.get();
        match self.find(k) {
            None => {
                assert(self@ =~= self@.remove(k));
                false
            },
            Some(i) => {
                let mut records: Vec<Record> = Vec::new();
                std::mem::swap(&mut records, &mut self.records);
                let ghost before = records@;
                let _gone = records.swap_remove(i);
                proof {
                    let t = recs_view(records@);
                    assert(s[i as int].id == k);
                    lemma_swap_remove_view(before, i as int);
                    lemma_swap_remove_unique(s, i as int);
                    lemma_map_of(t);
                    assert(map_of(t) =~= map_of(s).remove(k)) by {
                        assert forall|q: u64| #[trigger] map_of(t).contains_key(q) implies map_of(s).remove(k).contains_key(q) by {
                            let j = choose|j: int| 0 <= j < t.len() && t[j].id == q;
                            lemma_swap_remove_index(s, i as int, j);
                        }
                        assert forall|q: u64| #[trigger] map_of(s).remove(k).contains_key(q) implies map_of(t).contains_key(q) by {
                            let j = choose|j: int| 0 <= j < s.len() && s[j].id == q;
                            assert(j != i);
                            if j == s.len() - 1 {
                                assert(t[i as int] == s[j]);
                            } else {
                                assert(t[j] == s[j]);
                            }
                        }
                        assert forall|q: u64| #[trigger] map_of(t).contains_key(q) implies map_of(t)[q] == map_of(s).remove(k)[q] by {
                            let j = choose|j: int| 0 <= j < t.len() && t[j].id == q;
                            lemma_swap_remove_index(s, i as int, j);
                        }
                    }
                }
                self.records = records;
                true
            },
        }
    }

    /// The records, in storage order.
    pub fn records(&self) -> (r: &[Record])
        ensures
            recs_view(r@) == self.entries(),
            ids_unique(self.entries()),
            map_of(self.entries()) == self@,
    {
        proof {
            use_type_invariant(self);
        }
        self.records.as_slice()
    }
}

/// The position of `id` in `records`, if present.
fn find_in(records: &Vec<Record>, id: u64) -> (r: Option<usize>)
    requires
        ids_unique(recs_view(records@)),
    ensures
        match r {
            Some(i) => i < records@.len() && recs_view(records@)[i as int].id == id,
            None => !map_of(recs_view(records@)).contains_key(id),
        },
{
    proof {
        lemma_map_of(recs_view(records@));
    }
    let mut i: usize = 0;
    while i < records.len()
        invariant
            i <= records@.len(),
            forall|j: int| 0 <= j < i ==> (#[trigger] records@[j])@.id != id,
        decreases records.len() - i,
    {
        if records[i].id().get() == id {
            return Some(i);
        }
        i = i + 1;
    }
    proof {
        assert forall|j: int| 0 <= j < recs_view(records@).len() implies #[trigger] recs_view(records@)[j].id != id by {
            assert(recs_view(records@)[j] == records@[j]@);
        }
    }
    None
}

proof fn lemma_update_keeps_unique(s: Seq<RecordView>, i: int, r: RecordView)
    requires
        ids_unique(s),
        0 <= i < s.len(),
        s[i].id == r.id,
    ensures
        ids_unique(s.update(i, r)),
{
    let t = s.update(i, r);
    assert forall|a: int, b: int| 0 <= a < b < t.len() implies t[a].id != t[b].id by {
        assert(t[a].id == s[a].id && t[b].id == s[b].id);
    }
}

proof fn lemma_swap_remove_view(v: Seq<Record>, i: int)
    requires
        0 <= i < v.len(),
    ensures
        recs_view(v.update(i, v.last()).drop_last()) == recs_view(v).update(i, recs_view(v).last()).drop_last(),
{
    assert(recs_view(v.update(i, v.last()).drop_last()) =~= recs_view(v).update(i, recs_view(v).last()).drop_last());
}

/// Where each record of `s` stands after the record at `i` is swapped out.
proof fn lemma_swap_remove_index(s: Seq<RecordView>, i: int, j: int)
    requires
        ids_unique(s),
        0 <= i < s.len(),
        0 <= j < s.len() - 1,
    ensures
        ({
            let t = s.update(i, s.last()).drop_last();
            &&& j != i ==> t[j] == s[j]
            &&& j == i ==> t[j] == s[s.len() - 1]
            &&& t[j].id != s[i].id
            &&& map_of(s)[t[j].id] == t[j]
        }),
{
    lemma_map_of(s);
    let t = s.update(i, s.last()).drop_last();
    if j == i {
        assert(s[s.len() - 1].id != s[i].id);
        assert(map_of(s)[s[s.len() - 1].id] == s[s.len() - 1]);
    } else {
        assert(map_of(s)[s[j].id] == s[j]);
    }
}

proof fn lemma_swap_remove_unique(s: Seq<RecordView>, i: int)
    requires
        ids_unique(s),
        0 <= i < s.len(),
    ensures
        ids_unique(s.update(i, s.last()).drop_last()),
{
    let t = s.update(i, s.last()).drop_last();
    assert forall|a: int, b: int| 0 <= a < b < t.len() implies t[a].id != t[b].id by {
        let la = if a == i { s.len() - 1 } else { a };
        let lb = if b == i { s.len() - 1 } else { b };
        assert(t[a] == s[la] && t[b] == s[lb]);
    }
}

} // verus!
