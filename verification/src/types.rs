//! The shared vocabulary: vector ids, metadata values and the distance
//! metric, held as plain values.
//!
//! Vector components and `Float` metadata values are kept as their IEEE-754
//! bit patterns (`u32` / `u64`): the database stores and encodes them bit for
//! bit, compares them as floats, and never does arithmetic on them.

use vstd::prelude::*;

use crate::float::Double;
use crate::payload::{
    compare_keys, field_find, field_insert, insert_all, key_lt, last_value, law_insert_all_last_wins,
    lemma_insert_sorted, lemma_lower_bound_split, lower_bound, sorted_fields, KeyOrder,
};

verus! {

/// A stable vector identifier: a compact `U64`, or an opaque byte key.
/// A `Bytes` key built through [`VectorId::from_bytes`] is never empty.
#[derive(Debug, PartialEq, Eq)]
pub enum VectorId {
    U64(u64),
    Bytes(Vec<u8>),
}

/// What a [`VectorId`] is, as a mathematical value.
pub enum IdView {
    U64(u64),
    Bytes(Seq<u8>),
}

impl View for VectorId {
    type V = IdView;

    open spec fn view(&self) -> IdView {
        match self {
            VectorId::U64(n) => IdView::U64(*n),
            VectorId::Bytes(b) => IdView::Bytes(b@),
        }
    }
}

/// Why a byte key was refused as an id.
#[derive(Debug, PartialEq, Eq)]
pub enum IdError {
    /// A `Bytes` key must hold at least one byte.
    EmptyBytes,
}

/// Copies a byte vector element for element.
pub fn copy_bytes(v: &Vec<u8>) -> (r: Vec<u8>)
    ensures
        r@ == v@,
{
    let mut out: Vec<u8> = Vec::new();
    let mut i: usize = 0;
    while i < v.len()
        invariant
            i <= v.len(),
            out@ == v@.subrange(0, i as int),
        decreases v.len() - i,
    {
        out.push(v[i]);
        i = i + 1;
        assert(out@ =~= v@.subrange(0, i as int));
    }
    assert(v@.subrange(0, v.len() as int) =~= v@);
    out
}

/// `true` when both byte vectors hold the same bytes.
pub fn bytes_equal(a: &Vec<u8>, b: &Vec<u8>) -> (r: bool)
    ensures
        r <==> a@ == b@,
{
    if a.len() != b.len() {
        return false;
    }
    let mut i: usize = 0;
    while i < a.len()
        invariant
            i <= a.len(),
            a.len() == b.len(),
            a@.subrange(0, i as int) == b@.subrange(0, i as int),
        decreases a.len() - i,
    {
        if a[i] != b[i] {
            assert(a@[i as int] != b@[i as int]);
            return false;
        }
        assert(a@.subrange(0, i + 1) =~= a@.subrange(0, i as int).push(a@[i as int]));
        assert(b@.subrange(0, i + 1) =~= b@.subrange(0, i as int).push(b@[i as int]));
        i = i + 1;
    }
    assert(a@ =~= a@.subrange(0, a.len() as int));
    assert(b@ =~= b@.subrange(0, b.len() as int));
    true
}

impl VectorId {
    /// An id from a `u64`.
    pub fn from_u64(n: u64) -> (id: Self)
        ensures
            id@ == IdView::U64(n),
    {
        VectorId::U64(n)
    }

    /// An id from a byte key; refuses an empty key.
    pub fn from_bytes(bytes: Vec<u8>) -> (r: Result<Self, IdError>)
        ensures
            bytes@.len() == 0 ==> r == Err::<Self, IdError>(IdError::EmptyBytes),
            bytes@.len() > 0 ==> (r matches Ok(id) && id@ == IdView::Bytes(bytes@)),
    {
        if bytes.len() == 0 {
            Err(IdError::EmptyBytes)
        } else {
            Ok(VectorId::Bytes(bytes))
        }
    }

    /// A copy of this id.
    pub fn duplicate(&self) -> (r: Self)
        ensures
            r@ == self@,
    {
        match self {
            VectorId::U64(n) => VectorId::U64(*n),
            VectorId::Bytes(b) => VectorId::Bytes(copy_bytes(b)),
        }
    }

    /// `true` when both ids are the same value.
    pub fn same(&self, other: &Self) -> (b: bool)
        ensures
            b <==> self@ == other@,
    {
        match self {
            VectorId::U64(a) => match other {
                VectorId::U64(b) => *a == *b,
                VectorId::Bytes(_) => false,
            },
            VectorId::Bytes(a) => match other {
                VectorId::U64(_) => false,
                VectorId::Bytes(b) => bytes_equal(a, b),
            },
        }
    }
}

/// A scalar metadata value. `Float` holds the IEEE-754 bits of an `f64`, and
/// two of them are equal as the floats are.
#[derive(Debug, PartialEq)]
pub enum Value {
    String(String),
    Int(i64),
    Float(Double),
    Bool(bool),
    Null,
}

/// What a [`Value`] is, as a mathematical value.
pub enum ValueView {
    String(Seq<char>),
    Int(i64),
    Float(u64),
    Bool(bool),
    Null,
}

impl View for Value {
    type V = ValueView;

    open spec fn view(&self) -> ValueView {
        match self {
            Value::String(s) => ValueView::String(s@),
            Value::Int(i) => ValueView::Int(*i),
            Value::Float(f) => ValueView::Float(f.0),
            Value::Bool(b) => ValueView::Bool(*b),
            Value::Null => ValueView::Null,
        }
    }
}

impl Value {
    /// A copy of this value.
    pub fn duplicate(&self) -> (r: Self)
        ensures
            r@ == self@,
    {
        match self {
            Value::String(s) => Value::String(s.clone()),
            Value::Int(i) => Value::Int(*i),
            Value::Float(f) => Value::Float(*f),
            Value::Bool(b) => Value::Bool(*b),
            Value::Null => Value::Null,
        }
    }
}

/// The view of one metadata entry: key characters and value.
pub type EntryView = (Seq<char>, ValueView);

/// Metadata attached to a vector: a map from string keys to scalar values,
/// kept in key order (the byte order of the keys' UTF-8, which is the order
/// of `str`). No key occurs twice.
#[derive(Debug, PartialEq)]
pub struct Metadata {
    entries: Vec<(String, Value)>,
}

pub open spec fn entry_view(e: (String, Value)) -> EntryView {
    (e.0@, e.1@)
}

impl View for Metadata {
    type V = Seq<EntryView>;

    closed spec fn view(&self) -> Seq<EntryView> {
        self.entries@.map_values(|e: (String, Value)| entry_view(e))
    }
}

/// The entries of a sequence of pairs, viewed.
pub open spec fn pairs_view(v: Seq<(String, Value)>) -> Seq<EntryView> {
    v.map_values(|e: (String, Value)| entry_view(e))
}

impl Metadata {
    #[verifier::type_invariant]
    spec fn keys_sorted(self) -> bool {
        sorted_fields(pairs_view(self.entries@))
    }

    /// Metadata with no entries.
    pub fn new() -> (m: Self)
        ensures
            m@ == Seq::<EntryView>::empty(),
    {
        let m = Metadata { entries: Vec::new() };
        assert(m@ =~= Seq::<EntryView>::empty());
        m
    }

    /// The first position whose key is not smaller than `key`.
    fn position(&self, key: &str) -> (i: usize)
        ensures
            i == lower_bound(self@, key@),
            i <= self@.len(),
    {
        proof {
            use_type_invariant(self);
            lemma_lower_bound_split(self@, key@);
        }
        let ghost s = self@;
        let mut i: usize = 0;
        while i < self.entries.len()
            invariant
                s == self@,
                s == pairs_view(self.entries@),
                sorted_fields(s),
                0 <= lower_bound(s, key@) <= s.len(),
                forall|j: int| 0 <= j < lower_bound(s, key@) ==> key_lt(#[trigger] s[j].0, key@),
                forall|j: int| lower_bound(s, key@) <= j < s.len() ==> !key_lt(#[trigger] s[j].0, key@),
                i <= lower_bound(s, key@),
            decreases self.entries.len() - i,
        {
            let c = compare_keys(self.entries[i].0.as_str(), key);
            assert(s[i as int].0 == self.entries@[i as int].0@);
            match c {
                KeyOrder::Less => {
                    i = i + 1;
                },
                _ => {
                    return i;
                },
            }
        }
        i
    }

    /// Maps `key` to `value`, returning the value it had before.
    pub fn insert(&mut self, key: String, value: Value) -> (r: Option<Value>)
        ensures
            final(self)@ == field_insert(old(self)@, key@, value@),
            match field_find(old(self)@, key@) {
                Some(v) => r matches Some(x) && x@ == v,
                None => r is None,
            },
    {
        proof {
            use_type_invariant(&*self);
        }
        let i = self.position(key.as_str());
        let ghost s = self@;
        let ghost kv = (key@, value@);
        let mut entries: Vec<(String, Value)> = Vec::new();
        std::mem::swap(&mut entries, &mut self.entries);
        let found = if i < entries.len() {
            compare_keys(entries[i].0.as_str(), key.as_str()) == KeyOrder::Equal
        } else {
            false
        };
        let ghost before = entries@;
        assert(pairs_view(before) == s);
        let r = if found {
            let (_, prior) = entries.remove(i);
            entries.insert(i, (key, value));
            proof {
                assert(pairs_view(entries@) =~= s.update(i as int, kv));
            }
            Some(prior)
        } else {
            entries.insert(i, (key, value));
            proof {
                assert(pairs_view(entries@) =~= s.insert(i as int, kv));
            }
            None
        };
        proof {
            lemma_insert_sorted(s, kv.0, kv.1);
        }
        self.entries = entries;
        r
    }

    /// Metadata holding `pairs`, inserted in order (a repeated key keeps
    /// its last value), as collecting pairs into a map does.
    pub fn from_pairs(pairs: Vec<(String, Value)>) -> (m: Metadata)
        ensures
            m@ == insert_all(pairs_view(pairs@)),
            forall|k: Seq<char>| #[trigger] field_find(m@, k) == last_value(pairs_view(pairs@), k),
    {
        proof {
            assert forall|k: Seq<char>| #[trigger] field_find(insert_all(pairs_view(pairs@)), k) == last_value(pairs_view(pairs@), k) by {
                law_insert_all_last_wins(pairs_view(pairs@), k);
            }
        }
        let ghost all = pairs_view(pairs@);
        let mut m = Metadata::new();
        let mut i: usize = 0;
        let n = pairs.len();
        let mut rest = pairs;
        while rest.len() > 0
            invariant
                all.len() == n,
                i + rest@.len() == n,
                forall|j: int| 0 <= j < rest@.len() ==> entry_view(rest@[j]) == #[trigger] all[i + j],
                m@ == insert_all(all.subrange(0, i as int)),
            decreases rest.len(),
        {
            let ghost before = rest@;
            let (k, v) = rest.remove(0);
            proof {
                assert(entry_view(before[0]) == all[i + 0]);
                assert(before[0] == (k, v));
                assert forall|j: int| 0 <= j < rest@.len() implies entry_view(rest@[j]) == #[trigger] all[i + 1 + j] by {
                    assert(rest@[j] == before[j + 1]);
                    assert(entry_view(before[j + 1]) == all[i + (j + 1)]);
                }
                let pre = all.subrange(0, i + 1);
                assert(pre.drop_last() =~= all.subrange(0, i as int));
            }
            m.insert(k, v);
            i = i + 1;
        }
        assert(all.subrange(0, i as int) =~= all);
        m
    }

    /// The value stored under `key`.
    pub fn get(&self, key: &str) -> (r: Option<&Value>)
        ensures
            match field_find(self@, key@) {
                Some(v) => r matches Some(x) && x@ == v,
                None => r is None,
            },
    {
        proof {
            use_type_invariant(self);
        }
        let i = self.position(key);
        if i < self.entries.len() && compare_keys(self.entries[i].0.as_str(), key) == KeyOrder::Equal {
            assert(self@[i as int] == entry_view(self.entries@[i as int]));
            Some(&self.entries[i].1)
        } else {
            proof {
                if i < self@.len() {
                    assert(self@[i as int] == entry_view(self.entries@[i as int]));
                }
            }
            None
        }
    }

    /// Number of entries.
    pub fn len(&self) -> (n: usize)
        ensures
            n == self@.len(),
    {
        self.entries.len()
    }

    /// The entries, in key order.
    pub fn entries(&self) -> (r: &[(String, Value)])
        ensures
            pairs_view(r@) == self@,
            sorted_fields(self@),
    {
        proof {
            use_type_invariant(self);
        }
        self.entries.as_slice()
    }

    /// A copy of this metadata.
    pub fn duplicate(&self) -> (r: Self)
        ensures
            r@ == self@,
    {
        proof {
            use_type_invariant(self);
        }
        let mut out: Vec<(String, Value)> = Vec::new();
        let mut i: usize = 0;
        while i < self.entries.len()
            invariant
                i <= self@.len(),
                self@ == pairs_view(self.entries@),
                pairs_view(out@) == self@.subrange(0, i as int),
            decreases self.entries.len() - i,
        {
            let e = &self.entries[i];
            let k = e.0.clone();
            let v = e.1.duplicate();
            let ghost prior = out@;
            proof {
                assert(self@[i as int] == entry_view(self.entries@[i as int]));
                assert(entry_view((k, v)) == self@[i as int]);
            }
            out.push((k, v));
            proof {
                assert(out@ == prior.push((k, v)));
                assert(pairs_view(out@) =~= pairs_view(prior).push(entry_view((k, v))));
                assert(self@.subrange(0, i + 1) =~= self@.subrange(0, i as int).push(self@[i as int]));
            }
            i = i + 1;
        }
        assert(self@.subrange(0, self@.len() as int) =~= self@);
        Metadata { entries: out }
    }
}

/// Copies optional metadata.
pub fn duplicate_meta(m: &Option<Metadata>) -> (r: Option<Metadata>)
    ensures
        meta_view(r) == meta_view(*m),
{
    match m {
        None => None,
        Some(md) => Some(md.duplicate()),
    }
}

/// The view of optional metadata.
pub open spec fn meta_view(m: Option<Metadata>) -> Option<Seq<EntryView>> {
    match m {
        None => None,
        Some(md) => Some(md@),
    }
}

/// The distance a database ranks by. Every metric sorts smaller-is-nearer.
#[derive(Debug, Clone, Copy, PartialEq, Eq, Structural)]
pub enum DistanceMetric {
    Cosine,
    DotProduct,
    Euclidean,
    Manhattan,
    Hamming,
}

} // verus!
