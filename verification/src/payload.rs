//! Typed record metadata.
//!
//! A [`Payload`] is a string-keyed map of [`PayloadValue`]s kept in key
//! order (the byte order of the keys' UTF-8, which is the order of `str`),
//! so iterating it, and encoding it, is deterministic. Values are a closed
//! set: null, bool, integer, float (held as its IEEE-754 bits), text,
//! bytes, arrays and nested objects.

use vstd::prelude::*;
use vstd::utf8::*;

use crate::float::Double;

verus! {

/// A metadata value. `Float` holds the IEEE-754 bits of an `f64`, and two
/// of them are equal as the floats are.
#[derive(Debug, PartialEq)]
pub enum PayloadValue {
    Null,
    Bool(bool),
    Int(i64),
    Float(Double),
    Text(String),
    Bytes(Vec<u8>),
    Array(Vec<PayloadValue>),
    Object(Payload),
}

/// A string-keyed map of values, iterated in key order.
#[derive(Debug, PartialEq)]
pub struct Payload {
    fields: Vec<(String, PayloadValue)>,
}

/// What a [`PayloadValue`] is, as a mathematical value.
pub enum PvView {
    Null,
    Bool(bool),
    Int(i64),
    Float(u64),
    Text(Seq<char>),
    Bytes(Seq<u8>),
    Array(Seq<PvView>),
    Object(Seq<(Seq<char>, PvView)>),
}

pub type FieldView = (Seq<char>, PvView);

pub closed spec fn pv_view(v: PayloadValue) -> PvView
    decreases v,
{
    match v {
        PayloadValue::Null => PvView::Null,
        PayloadValue::Bool(b) => PvView::Bool(b),
        PayloadValue::Int(i) => PvView::Int(i),
        PayloadValue::Float(f) => PvView::Float(f.0),
        PayloadValue::Text(s) => PvView::Text(s@),
        PayloadValue::Bytes(b) => PvView::Bytes(b@),
        PayloadValue::Array(items) => PvView::Array(pv_seq_view(items@)),
        PayloadValue::Object(p) => PvView::Object(pv_fields_view(p.fields@)),
    }
}

pub closed spec fn pv_seq_view(s: Seq<PayloadValue>) -> Seq<PvView>
    decreases s,
{
    if s.len() == 0 {
        Seq::empty()
    } else {
        pv_seq_view(s.drop_last()).push(pv_view(s.last()))
    }
}

pub closed spec fn pv_fields_view(s: Seq<(String, PayloadValue)>) -> Seq<FieldView>
    decreases s,
{
    if s.len() == 0 {
        Seq::empty()
    } else {
        pv_fields_view(s.drop_last()).push((s.last().0@, pv_view(s.last().1)))
    }
}

impl View for PayloadValue {
    type V = PvView;

    open spec fn view(&self) -> PvView {
        pv_view(*self)
    }
}

impl View for Payload {
    type V = Seq<FieldView>;

    closed spec fn view(&self) -> Seq<FieldView> {
        pv_fields_view(self.fields@)
    }
}

pub proof fn lemma_seq_view_push(s: Seq<PayloadValue>, x: PayloadValue)
    ensures
        pv_seq_view(s.push(x)) == pv_seq_view(s).push(pv_view(x)),
{
    assert(s.push(x).drop_last() =~= s);
}

proof fn lemma_fields_view_len(s: Seq<(String, PayloadValue)>)
    ensures
        pv_fields_view(s).len() == s.len(),
    decreases s.len(),
{
    if s.len() > 0 {
        lemma_fields_view_len(s.drop_last());
    }
}

proof fn lemma_fields_view_index(s: Seq<(String, PayloadValue)>, i: int)
    requires
        0 <= i < s.len(),
    ensures
        pv_fields_view(s)[i] == (s[i].0@, pv_view(s[i].1)),
    decreases s.len(),
{
    lemma_fields_view_len(s);
    if i < s.len() - 1 {
        lemma_fields_view_index(s.drop_last(), i);
        lemma_fields_view_len(s.drop_last());
    }
}

/// The view of a field sequence, element by element.
pub proof fn lemma_fields_view(s: Seq<(String, PayloadValue)>)
    ensures
        pv_fields_view(s).len() == s.len(),
        forall|i: int| 0 <= i < s.len() ==> #[trigger] pv_fields_view(s)[i] == (s[i].0@, pv_view(s[i].1)),
{
    lemma_fields_view_len(s);
    assert forall|i: int| 0 <= i < s.len() implies #[trigger] pv_fields_view(s)[i] == (s[i].0@, pv_view(s[i].1)) by {
        lemma_fields_view_index(s, i);
    }
}

pub proof fn lemma_fields_view_ext(a: Seq<(String, PayloadValue)>, b: Seq<(String, PayloadValue)>, v: Seq<FieldView>)
    requires
        a.len() == v.len(),
        forall|i: int| 0 <= i < a.len() ==> (a[i].0@, pv_view(a[i].1)) == #[trigger] v[i],
    ensures
        pv_fields_view(a) == v,
{
    lemma_fields_view(a);
    assert(pv_fields_view(a) =~= v);
}

// ---------------------------------------------------------------------
// Key order.
// ---------------------------------------------------------------------

/// Lexicographic byte order: a proper prefix sorts first.
pub open spec fn bytes_lt(a: Seq<u8>, b: Seq<u8>) -> bool
    decreases a.len(),
{
    if a.len() == 0 {
        b.len() > 0
    } else if b.len() == 0 {
        false
    } else if a[0] != b[0] {
        a[0] < b[0]
    } else {
        bytes_lt(a.drop_first(), b.drop_first())
    }
}

/// The order of keys: the byte order of their UTF-8 encodings, which is
/// how `str` orders.
pub open spec fn key_lt(a: Seq<char>, b: Seq<char>) -> bool {
    bytes_lt(encode_utf8(a), encode_utf8(b))
}

pub proof fn lemma_bytes_lt_irreflexive(a: Seq<u8>)
    ensures
        !bytes_lt(a, a),
    decreases a.len(),
{
    if a.len() > 0 {
        lemma_bytes_lt_irreflexive(a.drop_first());
    }
}

pub proof fn lemma_bytes_lt_transitive(a: Seq<u8>, b: Seq<u8>, c: Seq<u8>)
    requires
        bytes_lt(a, b),
        bytes_lt(b, c),
    ensures
        bytes_lt(a, c),
    decreases a.len(),
{
    if a.len() > 0 && b.len() > 0 && c.len() > 0 && a[0] == b[0] && b[0] == c[0] {
        lemma_bytes_lt_transitive(a.drop_first(), b.drop_first(), c.drop_first());
    }
}

pub proof fn lemma_bytes_lt_total(a: Seq<u8>, b: Seq<u8>)
    ensures
        a == b || bytes_lt(a, b) || bytes_lt(b, a),
    decreases a.len(),
{
    if a.len() > 0 && b.len() > 0 && a[0] == b[0] {
        lemma_bytes_lt_total(a.drop_first(), b.drop_first());
        if a.drop_first() == b.drop_first() {
            assert(a =~= seq![a[0]] + a.drop_first());
            assert(b =~= seq![b[0]] + b.drop_first());
        }
    } else if a.len() == 0 && b.len() == 0 {
        assert(a =~= b);
    }
}

pub proof fn lemma_bytes_lt_asymmetric(a: Seq<u8>, b: Seq<u8>)
    requires
        bytes_lt(a, b),
    ensures
        !bytes_lt(b, a),
{
    if bytes_lt(b, a) {
        lemma_bytes_lt_transitive(a, b, a);
        lemma_bytes_lt_irreflexive(a);
    }
}

/// Distinct keys have distinct encodings.
pub proof fn lemma_encode_injective(a: Seq<char>, b: Seq<char>)
    requires
        encode_utf8(a) == encode_utf8(b),
    ensures
        a == b,
{
    encode_utf8_decode_utf8(a);
    encode_utf8_decode_utf8(b);
}

pub proof fn lemma_key_lt_facts()
    ensures
        forall|a: Seq<char>| !#[trigger] key_lt(a, a),
        forall|a: Seq<char>, b: Seq<char>, c: Seq<char>|
            #[trigger] key_lt(a, b) && #[trigger] key_lt(b, c) ==> key_lt(a, c),
        forall|a: Seq<char>, b: Seq<char>| a == b || #[trigger] key_lt(a, b) || #[trigger] key_lt(b, a),
{
    assert forall|a: Seq<char>| !#[trigger] key_lt(a, a) by {
        lemma_bytes_lt_irreflexive(encode_utf8(a));
    }
    assert forall|a: Seq<char>, b: Seq<char>, c: Seq<char>|
        #[trigger] key_lt(a, b) && #[trigger] key_lt(b, c) implies key_lt(a, c) by {
        lemma_bytes_lt_transitive(encode_utf8(a), encode_utf8(b), encode_utf8(c));
    }
    assert forall|a: Seq<char>, b: Seq<char>| a == b || #[trigger] key_lt(a, b) || #[trigger] key_lt(b, a) by {
        lemma_bytes_lt_total(encode_utf8(a), encode_utf8(b));
        if encode_utf8(a) == encode_utf8(b) {
            lemma_encode_injective(a, b);
        }
    }
}

/// How two keys compare.
#[derive(Debug, Clone, Copy, PartialEq, Eq, Structural)]
pub enum KeyOrder {
    Less,
    Equal,
    Greater,
}

/// Compares two keys in `str` order.
pub fn compare_keys(a: &str, b: &str) -> (r: KeyOrder)
    ensures
        r == KeyOrder::Less <==> key_lt(a@, b@),
        r == KeyOrder::Equal <==> a@ == b@,
        r == KeyOrder::Greater <==> key_lt(b@, a@),
{
    let x = a.as_bytes();
    let y = b.as_bytes();
    proof {
        lemma_key_lt_facts();
        assert(x@ == encode_utf8(a@));
        assert(y@ == encode_utf8(b@));
        assert(x@.subrange(0, x@.len() as int) =~= x@);
        assert(y@.subrange(0, y@.len() as int) =~= y@);
    }
    let mut i: usize = 0;
    while i < x.len() && i < y.len()
        invariant
            x@ == encode_utf8(a@),
            y@ == encode_utf8(b@),
            i <= x@.len(),
            i <= y@.len(),
            x@.subrange(0, i as int) == y@.subrange(0, i as int),
            bytes_lt(x@, y@) == bytes_lt(x@.subrange(i as int, x@.len() as int), y@.subrange(i as int, y@.len() as int)),
            bytes_lt(y@, x@) == bytes_lt(y@.subrange(i as int, y@.len() as int), x@.subrange(i as int, x@.len() as int)),
        decreases x.len() - i,
    {
        let ghost xs = x@.subrange(i as int, x@.len() as int);
        let ghost ys = y@.subrange(i as int, y@.len() as int);
        if x[i] != y[i] {
            assert(xs[0] == x@[i as int] && ys[0] == y@[i as int]);
            assert(xs.len() > 0 && ys.len() > 0);
            assert(x@ != y@);
            assert(a@ != b@);
            if x[i] < y[i] {
                proof {
                    lemma_bytes_lt_asymmetric(x@, y@);
                }
                return KeyOrder::Less;
            } else {
                proof {
                    lemma_bytes_lt_asymmetric(y@, x@);
                }
                return KeyOrder::Greater;
            }
        }
        assert(xs.drop_first() =~= x@.subrange(i + 1, x@.len() as int));
        assert(ys.drop_first() =~= y@.subrange(i + 1, y@.len() as int));
        assert(x@.subrange(0, i + 1) =~= x@.subrange(0, i as int).push(x@[i as int]));
        assert(y@.subrange(0, i + 1) =~= y@.subrange(0, i as int).push(y@[i as int]));
        i = i + 1;
    }
    let ghost xs = x@.subrange(i as int, x@.len() as int);
    let ghost ys = y@.subrange(i as int, y@.len() as int);
    if x.len() == y.len() {
        assert(x@ =~= x@.subrange(0, i as int));
        assert(y@ =~= y@.subrange(0, i as int));
        proof {
            lemma_encode_injective(a@, b@);
            lemma_bytes_lt_irreflexive(x@);
        }
        KeyOrder::Equal
    } else if x.len() < y.len() {
        assert(xs.len() == 0 && ys.len() > 0);
        proof {
            lemma_bytes_lt_asymmetric(x@, y@);
        }
        KeyOrder::Less
    } else {
        assert(ys.len() == 0 && xs.len() > 0);
        proof {
            lemma_bytes_lt_asymmetric(y@, x@);
        }
        KeyOrder::Greater
    }
}


// ---------------------------------------------------------------------
// The map.
// ---------------------------------------------------------------------

/// Keys strictly increase.
pub open spec fn sorted_fields<V>(s: Seq<(Seq<char>, V)>) -> bool {
    forall|i: int, j: int| 0 <= i < j < s.len() ==> key_lt(s[i].0, s[j].0)
}

/// The number of leading keys smaller than `k`: where `k` is, or belongs.
pub open spec fn lower_bound<V>(s: Seq<(Seq<char>, V)>, k: Seq<char>) -> int
    decreases s.len(),
{
    if s.len() == 0 {
        0
    } else if key_lt(s[0].0, k) {
        1 + lower_bound(s.drop_first(), k)
    } else {
        0
    }
}

/// The value stored under `k`.
pub open spec fn field_find<V>(s: Seq<(Seq<char>, V)>, k: Seq<char>) -> Option<V> {
    let i = lower_bound(s, k);
    if i < s.len() && s[i].0 == k {
        Some(s[i].1)
    } else {
        None
    }
}

/// `k` mapped to `v`: a present key is replaced in place, a new key is
/// inserted at its place in key order.
pub open spec fn field_insert<V>(s: Seq<(Seq<char>, V)>, k: Seq<char>, v: V) -> Seq<(Seq<char>, V)> {
    let i = lower_bound(s, k);
    if i < s.len() && s[i].0 == k {
        s.update(i, (k, v))
    } else {
        s.insert(i, (k, v))
    }
}

/// `k` removed.
pub open spec fn field_remove<V>(s: Seq<(Seq<char>, V)>, k: Seq<char>) -> Seq<(Seq<char>, V)> {
    let i = lower_bound(s, k);
    if i < s.len() && s[i].0 == k {
        s.remove(i)
    } else {
        s
    }
}

/// The fields `kvs` inserted one after another into an empty payload.
pub open spec fn insert_all<V>(kvs: Seq<(Seq<char>, V)>) -> Seq<(Seq<char>, V)>
    decreases kvs.len(),
{
    if kvs.len() == 0 {
        Seq::empty()
    } else {
        field_insert(insert_all(kvs.drop_last()), kvs.last().0, kvs.last().1)
    }
}

/// The value last paired with `k` in `kvs`, if any.
pub open spec fn last_value<V>(kvs: Seq<(Seq<char>, V)>, k: Seq<char>) -> Option<V>
    decreases kvs.len(),
{
    if kvs.len() == 0 {
        None
    } else if kvs.last().0 == k {
        Some(kvs.last().1)
    } else {
        last_value(kvs.drop_last(), k)
    }
}

/// Collecting pairs into a map: the keys come out strictly increasing, a
/// key that occurs is found with the value it was paired with last, and a
/// key that does not occur is not found.
pub proof fn law_insert_all_last_wins<V>(kvs: Seq<(Seq<char>, V)>, k: Seq<char>)
    ensures
        sorted_fields(insert_all(kvs)),
        field_find(insert_all(kvs), k) == last_value(kvs, k),
    decreases kvs.len(),
{
    if kvs.len() > 0 {
        let t = kvs.drop_last();
        law_insert_all_last_wins(t, k);
        let s = insert_all(t);
        let lk = kvs.last().0;
        let lv = kvs.last().1;
        lemma_insert_sorted(s, lk, lv);
        if lk == k {
            let other = k.push('a');
            assert(other.len() != k.len());
            lemma_insert_members(s, k, lv, other);
        } else {
            lemma_insert_members(s, lk, lv, k);
        }
    }
}

/// Inserting keys that already increase, one after another, gives them
/// back unchanged.
pub proof fn lemma_insert_all_sorted<V>(s: Seq<(Seq<char>, V)>)
    requires
        sorted_fields(s),
    ensures
        insert_all(s) == s,
    decreases s.len(),
{
    if s.len() > 0 {
        let t = s.drop_last();
        assert(sorted_fields(t)) by {
            assert forall|i: int, j: int| 0 <= i < j < t.len() implies key_lt(t[i].0, t[j].0) by {
                assert(t[i] == s[i] && t[j] == s[j]);
            }
        }
        lemma_insert_all_sorted(t);
        let k = s.last().0;
        assert forall|j: int| 0 <= j < t.len() implies key_lt(#[trigger] t[j].0, k) by {
            assert(t[j] == s[j]);
        }
        lemma_lower_bound(t, k, t.len() as int);
        assert(t.insert(t.len() as int, s.last()) =~= s);
    }
}

/// `lower_bound` is the first position whose key is not smaller than `k`.
pub proof fn lemma_lower_bound<V>(s: Seq<(Seq<char>, V)>, k: Seq<char>, i: int)
    requires
        0 <= i <= s.len(),
        forall|j: int| 0 <= j < i ==> key_lt(#[trigger] s[j].0, k),
        i == s.len() || !key_lt(s[i].0, k),
    ensures
        lower_bound(s, k) == i,
    decreases s.len(),
{
    if s.len() > 0 && i > 0 {
        let t = s.drop_first();
        assert forall|j: int| 0 <= j < i - 1 implies key_lt(#[trigger] t[j].0, k) by {
            assert(t[j] == s[j + 1]);
        }
        if i < s.len() {
            assert(t[i - 1] == s[i]);
        }
        lemma_lower_bound(t, k, i - 1);
    }
}

/// In a sorted sequence every key before `lower_bound` is smaller than
/// `k`, and every key from it on is not.
pub proof fn lemma_lower_bound_split<V>(s: Seq<(Seq<char>, V)>, k: Seq<char>)
    requires
        sorted_fields(s),
    ensures
        0 <= lower_bound(s, k) <= s.len(),
        forall|j: int| 0 <= j < lower_bound(s, k) ==> key_lt(#[trigger] s[j].0, k),
        forall|j: int| lower_bound(s, k) <= j < s.len() ==> !key_lt(#[trigger] s[j].0, k),
    decreases s.len(),
{
    lemma_key_lt_facts();
    if s.len() > 0 {
        let t = s.drop_first();
        assert(sorted_fields(t)) by {
            assert forall|i: int, j: int| 0 <= i < j < t.len() implies key_lt(t[i].0, t[j].0) by {
                assert(t[i] == s[i + 1] && t[j] == s[j + 1]);
            }
        }
        lemma_lower_bound_split(t, k);
        if key_lt(s[0].0, k) {
            assert forall|j: int| 0 <= j < lower_bound(s, k) implies key_lt(#[trigger] s[j].0, k) by {
                if j > 0 {
                    assert(s[j] == t[j - 1]);
                }
            }
            assert forall|j: int| lower_bound(s, k) <= j < s.len() implies !key_lt(#[trigger] s[j].0, k) by {
                assert(s[j] == t[j - 1]);
            }
        } else {
            assert forall|j: int| 0 <= j < s.len() implies !key_lt(#[trigger] s[j].0, k) by {
                if j > 0 {
                    assert(key_lt(s[0].0, s[j].0));
                    if key_lt(s[j].0, k) {
                        assert(key_lt(s[0].0, k));
                    }
                }
            }
        }
    }
}

/// An insertion keeps the keys sorted.
pub proof fn lemma_insert_sorted<V>(s: Seq<(Seq<char>, V)>, k: Seq<char>, v: V)
    requires
        sorted_fields(s),
    ensures
        sorted_fields(field_insert(s, k, v)),
{
    lemma_key_lt_facts();
    lemma_lower_bound_split(s, k);
    let i = lower_bound(s, k);
    let t = field_insert(s, k, v);
    if i < s.len() && s[i].0 == k {
        assert forall|a: int, b: int| 0 <= a < b < t.len() implies key_lt(t[a].0, t[b].0) by {
            assert(t[a].0 == s[a].0 && t[b].0 == s[b].0);
        }
    } else {
        assert forall|a: int, b: int| 0 <= a < b < t.len() implies key_lt(t[a].0, t[b].0) by {
            if b < i {
                assert(t[a] == s[a] && t[b] == s[b]);
            } else if b == i {
                assert(t[a] == s[a]);
            } else if a == i {
                assert(t[b] == s[b - 1]);
                assert(!key_lt(s[b - 1].0, k));
                assert(s[b - 1].0 != k) by {
                    if b - 1 > i {
                        assert(key_lt(s[i].0, s[b - 1].0));
                    }
                }
            } else if a < i {
                assert(t[a] == s[a] && t[b] == s[b - 1]);
                if a < b - 1 {
                    assert(key_lt(s[a].0, s[b - 1].0));
                }
            } else {
                assert(t[a] == s[a - 1] && t[b] == s[b - 1]);
            }
        }
    }
}

/// A removal keeps the keys sorted.
pub proof fn lemma_remove_sorted<V>(s: Seq<(Seq<char>, V)>, k: Seq<char>)
    requires
        sorted_fields(s),
    ensures
        sorted_fields(field_remove(s, k)),
{
    lemma_lower_bound_split(s, k);
    let i = lower_bound(s, k);
    let t = field_remove(s, k);
    if i < s.len() && s[i].0 == k {
        assert forall|a: int, b: int| 0 <= a < b < t.len() implies key_lt(t[a].0, t[b].0) by {
            let la = if a < i { a } else { a + 1 };
            let lb = if b < i { b } else { b + 1 };
            assert(t[a] == s[la]);
            assert(t[b] == s[lb]);
            assert(key_lt(s[la].0, s[lb].0));
        }
    }
}

/// The entries of `field_insert(s, k, v)`, by position in `s`.
proof fn lemma_insert_members<V>(s: Seq<(Seq<char>, V)>, k: Seq<char>, v: V, other: Seq<char>)
    requires
        sorted_fields(s),
        other != k,
    ensures
        field_find(field_insert(s, k, v), k) == Some(v),
        field_find(field_insert(s, k, v), other) == field_find(s, other),
{
    lemma_key_lt_facts();
    lemma_insert_sorted(s, k, v);
    lemma_lower_bound_split(s, k);
    let t = field_insert(s, k, v);
    lemma_find_is_member(s, other);
    lemma_find_is_member(t, other);
    lemma_find_is_member(t, k);
    let i = lower_bound(s, k);
    let present = i < s.len() && s[i].0 == k;
    assert(t[i] == (k, v));
    assert forall|j: int| 0 <= j < t.len() && t[j].0 == other implies s.contains(#[trigger] t[j]) by {
        if present {
            assert(t[j] == s[j]);
        } else if j < i {
            assert(t[j] == s[j]);
        } else {
            assert(t[j] == s[j - 1]);
        }
    }
    assert forall|m: int| 0 <= m < s.len() && s[m].0 == other implies t.contains(#[trigger] s[m]) by {
        if present {
            assert(t[m] == s[m]);
        } else if m < i {
            assert(t[m] == s[m]);
        } else {
            assert(t[m + 1] == s[m]);
        }
    }
}

/// The entries of `field_remove(s, k)`, by position in `s`.
proof fn lemma_remove_members<V>(s: Seq<(Seq<char>, V)>, k: Seq<char>, other: Seq<char>)
    requires
        sorted_fields(s),
        other != k,
    ensures
        field_find(field_remove(s, k), k) is None,
        field_find(field_remove(s, k), other) == field_find(s, other),
{
    lemma_key_lt_facts();
    lemma_remove_sorted(s, k);
    lemma_lower_bound_split(s, k);
    let r = field_remove(s, k);
    lemma_find_is_member(s, other);
    lemma_find_is_member(s, k);
    lemma_find_is_member(r, other);
    lemma_find_is_member(r, k);
    let i = lower_bound(s, k);
    let present = i < s.len() && s[i].0 == k;
    assert forall|j: int| 0 <= j < r.len() implies r[j].0 != k by {
        if present {
            let lj = if j < i { j } else { j + 1 };
            assert(r[j] == s[lj]);
        } else {
            assert(r[j] == s[j]);
        }
    }
    assert forall|j: int| 0 <= j < r.len() && r[j].0 == other implies s.contains(#[trigger] r[j]) by {
        if present {
            let lj = if j < i { j } else { j + 1 };
            assert(r[j] == s[lj]);
        } else {
            assert(r[j] == s[j]);
        }
    }
    assert forall|m: int| 0 <= m < s.len() && s[m].0 == other implies r.contains(#[trigger] s[m]) by {
        if present {
            if m < i {
                assert(r[m] == s[m]);
            } else {
                assert(r[m - 1] == s[m]);
            }
        } else {
            assert(r[m] == s[m]);
        }
    }
}

/// A read gives back the last write: after `k` is mapped to `v`, finding
/// `k` gives `v`; every other key is found as before; removing `k` leaves
/// it absent and every other key as before.
pub proof fn law_find_after_insert_and_remove<V>(
    s: Seq<(Seq<char>, V)>,
    k: Seq<char>,
    v: V,
    other: Seq<char>,
)
    requires
        sorted_fields(s),
        other != k,
    ensures
        field_find(field_insert(s, k, v), k) == Some(v),
        field_find(field_insert(s, k, v), other) == field_find(s, other),
        field_find(field_remove(s, k), k) is None,
        field_find(field_remove(s, k), other) == field_find(s, other),
{
    lemma_insert_members(s, k, v, other);
    lemma_remove_members(s, k, other);
}

/// In a sorted sequence, finding `k` gives the value of the (only) entry
/// with key `k`, if there is one.
pub proof fn lemma_find_is_member<V>(s: Seq<(Seq<char>, V)>, k: Seq<char>)
    requires
        sorted_fields(s),
    ensures
        field_find(s, k) is None <==> forall|j: int| 0 <= j < s.len() ==> s[j].0 != k,
        forall|j: int| 0 <= j < s.len() && s[j].0 == k ==> field_find(s, k) == Some(s[j].1),
{
    lemma_key_lt_facts();
    lemma_lower_bound_split(s, k);
    let i = lower_bound(s, k);
    assert forall|j: int| 0 <= j < s.len() && s[j].0 == k implies j == i by {
        if j < i {
            assert(key_lt(s[j].0, k));
        } else if j > i {
            assert(!key_lt(s[i].0, k));
            assert(key_lt(s[i].0, s[j].0));
        }
    }
}


// ---------------------------------------------------------------------
// The view, one level at a time.
// ---------------------------------------------------------------------

/// What each variant is viewed as.
pub proof fn lemma_pv_view(v: PayloadValue)
    ensures
        match v {
            PayloadValue::Null => v@ == PvView::Null,
            PayloadValue::Bool(b) => v@ == PvView::Bool(b),
            PayloadValue::Int(i) => v@ == PvView::Int(i),
            PayloadValue::Float(f) => v@ == PvView::Float(f.0),
            PayloadValue::Text(s) => v@ == PvView::Text(s@),
            PayloadValue::Bytes(b) => v@ == PvView::Bytes(b@),
            PayloadValue::Array(items) => v@ == PvView::Array(pv_seq_view(items@)),
            PayloadValue::Object(p) => v@ == PvView::Object(p@),
        },
{
}

pub proof fn lemma_seq_view_len(s: Seq<PayloadValue>)
    ensures
        pv_seq_view(s).len() == s.len(),
    decreases s.len(),
{
    if s.len() > 0 {
        lemma_seq_view_len(s.drop_last());
    }
}

pub proof fn lemma_seq_view_index(s: Seq<PayloadValue>, i: int)
    requires
        0 <= i < s.len(),
    ensures
        pv_seq_view(s)[i] == pv_view(s[i]),
    decreases s.len(),
{
    lemma_seq_view_len(s);
    if i < s.len() - 1 {
        lemma_seq_view_index(s.drop_last(), i);
        lemma_seq_view_len(s.drop_last());
    }
}

pub proof fn lemma_seq_view_empty()
    ensures
        pv_seq_view(Seq::<PayloadValue>::empty()) == Seq::<PvView>::empty(),
{
}

// ---------------------------------------------------------------------
// Values.
// ---------------------------------------------------------------------

impl PayloadValue {
    pub fn is_null(&self) -> (r: bool)
        ensures
            r == (self@ is Null),
    {
        matches!(self, PayloadValue::Null)
    }

    pub fn is_bool(&self) -> (r: bool)
        ensures
            r == (self@ is Bool),
    {
        matches!(self, PayloadValue::Bool(_))
    }

    pub fn is_int(&self) -> (r: bool)
        ensures
            r == (self@ is Int),
    {
        matches!(self, PayloadValue::Int(_))
    }

    pub fn is_float(&self) -> (r: bool)
        ensures
            r == (self@ is Float),
    {
        matches!(self, PayloadValue::Float(_))
    }

    pub fn is_text(&self) -> (r: bool)
        ensures
            r == (self@ is Text),
    {
        matches!(self, PayloadValue::Text(_))
    }

    pub fn is_bytes(&self) -> (r: bool)
        ensures
            r == (self@ is Bytes),
    {
        matches!(self, PayloadValue::Bytes(_))
    }

    pub fn is_array(&self) -> (r: bool)
        ensures
            r == (self@ is Array),
    {
        matches!(self, PayloadValue::Array(_))
    }

    pub fn is_object(&self) -> (r: bool)
        ensures
            r == (self@ is Object),
    {
        matches!(self, PayloadValue::Object(_))
    }

    /// The boolean, if this is one.
    pub fn as_bool(&self) -> (r: Option<bool>)
        ensures
            r == (match self@ {
                PvView::Bool(b) => Some(b),
                _ => None,
            }),
    {
        match self {
            PayloadValue::Bool(b) => Some(*b),
            _ => None,
        }
    }

    /// The integer, if this is one.
    pub fn as_int(&self) -> (r: Option<i64>)
        ensures
            r == (match self@ {
                PvView::Int(i) => Some(i),
                _ => None,
            }),
    {
        match self {
            PayloadValue::Int(i) => Some(*i),
            _ => None,
        }
    }

    /// The float's IEEE-754 bits, if this is one.
    pub fn as_float(&self) -> (r: Option<u64>)
        ensures
            r == (match self@ {
                PvView::Float(f) => Some(f),
                _ => None,
            }),
    {
        match self {
            PayloadValue::Float(f) => Some(f.0),
            _ => None,
        }
    }

    /// The text, if this is text.
    pub fn as_text(&self) -> (r: Option<&str>)
        ensures
            match self@ {
                PvView::Text(t) => r matches Some(x) && x@ == t,
                _ => r is None,
            },
    {
        match self {
            PayloadValue::Text(s) => Some(s.as_str()),
            _ => None,
        }
    }

    /// The bytes, if this is a byte buffer.
    pub fn as_bytes(&self) -> (r: Option<&[u8]>)
        ensures
            match self@ {
                PvView::Bytes(b) => r matches Some(x) && x@ == b,
                _ => r is None,
            },
    {
        match self {
            PayloadValue::Bytes(b) => Some(b.as_slice()),
            _ => None,
        }
    }
}

impl From<bool> for PayloadValue {
    fn from(value: bool) -> (r: Self) {
        PayloadValue::Bool(value)
    }
}

impl vstd::std_specs::convert::FromSpecImpl<bool> for PayloadValue {
    open spec fn obeys_from_spec() -> bool {
        true
    }

    open spec fn from_spec(v: bool) -> Self {
        PayloadValue::Bool(v)
    }
}

impl From<i64> for PayloadValue {
    fn from(value: i64) -> (r: Self) {
        PayloadValue::Int(value)
    }
}

impl vstd::std_specs::convert::FromSpecImpl<i64> for PayloadValue {
    open spec fn obeys_from_spec() -> bool {
        true
    }

    open spec fn from_spec(v: i64) -> Self {
        PayloadValue::Int(v)
    }
}

impl From<i32> for PayloadValue {
    fn from(value: i32) -> (r: Self)
        ensures
            r matches PayloadValue::Int(x) && x as int == value as int,
    {
        PayloadValue::Int(value as i64)
    }
}

impl vstd::std_specs::convert::FromSpecImpl<i32> for PayloadValue {
    open spec fn obeys_from_spec() -> bool {
        true
    }

    open spec fn from_spec(v: i32) -> Self {
        PayloadValue::Int(v as i64)
    }
}

impl From<String> for PayloadValue {
    fn from(value: String) -> (r: Self) {
        PayloadValue::Text(value)
    }
}

impl vstd::std_specs::convert::FromSpecImpl<String> for PayloadValue {
    open spec fn obeys_from_spec() -> bool {
        true
    }

    open spec fn from_spec(v: String) -> Self {
        PayloadValue::Text(v)
    }
}

impl From<Vec<u8>> for PayloadValue {
    fn from(value: Vec<u8>) -> (r: Self) {
        PayloadValue::Bytes(value)
    }
}

impl vstd::std_specs::convert::FromSpecImpl<Vec<u8>> for PayloadValue {
    open spec fn obeys_from_spec() -> bool {
        true
    }

    open spec fn from_spec(v: Vec<u8>) -> Self {
        PayloadValue::Bytes(v)
    }
}

impl From<Vec<PayloadValue>> for PayloadValue {
    fn from(value: Vec<PayloadValue>) -> (r: Self) {
        PayloadValue::Array(value)
    }
}

impl vstd::std_specs::convert::FromSpecImpl<Vec<PayloadValue>> for PayloadValue {
    open spec fn obeys_from_spec() -> bool {
        true
    }

    open spec fn from_spec(v: Vec<PayloadValue>) -> Self {
        PayloadValue::Array(v)
    }
}

impl From<Payload> for PayloadValue {
    fn from(value: Payload) -> (r: Self) {
        PayloadValue::Object(value)
    }
}

impl vstd::std_specs::convert::FromSpecImpl<Payload> for PayloadValue {
    open spec fn obeys_from_spec() -> bool {
        true
    }

    open spec fn from_spec(v: Payload) -> Self {
        PayloadValue::Object(v)
    }
}

/// Converting a number or a flag keeps it: a `bool` becomes `Bool` of the
/// same flag, and an `i64` or an `i32` becomes `Int` of the same integer
/// (an `i32` widened with its sign), as `as_int` then reads back.
pub proof fn law_from_keeps_value(flag: bool, wide: i64, narrow: i32)
    ensures
        <PayloadValue as vstd::std_specs::convert::FromSpec<bool>>::from_spec(flag)@ == PvView::Bool(flag),
        <PayloadValue as vstd::std_specs::convert::FromSpec<i64>>::from_spec(wide)@ matches PvView::Int(x)
            && x as int == wide as int,
        <PayloadValue as vstd::std_specs::convert::FromSpec<i32>>::from_spec(narrow)@ matches PvView::Int(x)
            && x as int == narrow as int,
{
}

/// Text from a string slice.
pub fn text(value: &str) -> (r: PayloadValue)
    ensures
        r@ == PvView::Text(value@),
{
    PayloadValue::Text(value.to_owned())
}

// ---------------------------------------------------------------------
// The map.
// ---------------------------------------------------------------------

impl Payload {
    #[verifier::type_invariant]
    spec fn keys_sorted(self) -> bool {
        sorted_fields(pv_fields_view(self.fields@))
    }

    /// An empty payload.
    pub fn new() -> (p: Payload)
        ensures
            p@ == Seq::<FieldView>::empty(),
    {
        let p = Payload { fields: Vec::new() };
        assert(p@ =~= Seq::<FieldView>::empty());
        p
    }

    /// The number of top-level fields.
    pub fn len(&self) -> (n: usize)
        ensures
            n == self@.len(),
    {
        proof {
            lemma_fields_view(self.fields@);
        }
        self.fields.len()
    }

    pub fn is_empty(&self) -> (r: bool)
        ensures
            r == (self@.len() == 0),
    {
        proof {
            lemma_fields_view(self.fields@);
        }
        self.fields.len() == 0
    }

    /// The first position whose key is not smaller than `key`.
    fn position(&self, key: &str) -> (i: usize)
        ensures
            i == lower_bound(self@, key@),
            i <= self@.len(),
    {
        proof {
            use_type_invariant(self);
            lemma_fields_view(self.fields@);
            lemma_lower_bound_split(self@, key@);
        }
        let ghost s = self@;
        let mut i: usize = 0;
        while i < self.fields.len()
            invariant
                s == self@,
                s.len() == self.fields@.len(),
                sorted_fields(s),
                0 <= lower_bound(s, key@) <= s.len(),
                forall|j: int| 0 <= j < lower_bound(s, key@) ==> key_lt(#[trigger] s[j].0, key@),
                forall|j: int| lower_bound(s, key@) <= j < s.len() ==> !key_lt(#[trigger] s[j].0, key@),
                forall|j: int| 0 <= j < s.len() ==> #[trigger] s[j] == (self.fields@[j].0@, pv_view(self.fields@[j].1)),
                i <= lower_bound(s, key@),
            decreases self.fields.len() - i,
        {
            let c = compare_keys(self.fields[i].0.as_str(), key);
            assert(s[i as int].0 == self.fields@[i as int].0@);
            match c {
                KeyOrder::Less => {
                    i = i + 1;
                },
                _ => {
                    return i;
                },
            }
        }
        i
    }

    /// The value stored under `key`.
    pub fn get(&self, key: &str) -> (r: Option<&PayloadValue>)
        ensures
            match field_find(self@, key@) {
                Some(v) => r matches Some(x) && x@ == v,
                None => r is None,
            },
    {
        proof {
            lemma_fields_view(self.fields@);
        }
        let i = self.position(key);
        if i < self.fields.len() {
            let same = compare_keys(self.fields[i].0.as_str(), key);
            if same == KeyOrder::Equal {
                return Some(&self.fields[i].1);
            }
        }
        None
    }

    /// Whether `key` has a value.
    pub fn contains_key(&self, key: &str) -> (r: bool)
        ensures
            r == (field_find(self@, key@) is Some),
    {
        proof {
            lemma_fields_view(self.fields@);
        }
        let i = self.position(key);
        if i < self.fields.len() {
            let same = compare_keys(self.fields[i].0.as_str(), key);
            same == KeyOrder::Equal
        } else {
            false
        }
    }

    /// Maps `key` to `value`, returning the value it had before.
    pub fn insert(&mut self, key: String, value: PayloadValue) -> (r: Option<PayloadValue>)
        ensures
            final(self)@ == field_insert(old(self)@, key@, value@),
            match field_find(old(self)@, key@) {
                Some(v) => r matches Some(x) && x@ == v,
                None => r is None,
            },
    {
        proof {
            use_type_invariant(&*self);
            lemma_fields_view(self.fields@);
        }
        let i = self.position(key.as_str());
        let ghost s = self@;
        let ghost kv = (key@, value@);
        let mut fields: Vec<(String, PayloadValue)> = Vec::new();
        std::mem::swap(&mut fields, &mut self.fields);
        let found = if i < fields.len() {
            compare_keys(fields[i].0.as_str(), key.as_str()) == KeyOrder::Equal
        } else {
            false
        };
        let ghost before = fields@;
        let r = if found {
            let (_, prior) = fields.remove(i);
            fields.insert(i, (key, value));
            proof {
                assert(fields@ =~= before.update(i as int, fields@[i as int]));
                lemma_fields_view_ext(fields@, before, s.update(i as int, kv));
            }
            Some(prior)
        } else {
            fields.insert(i, (key, value));
            proof {
                assert forall|j: int| 0 <= j < fields@.len() implies (fields@[j].0@, pv_view(fields@[j].1)) == #[trigger] s.insert(i as int, kv)[j] by {
                    if j < i {
                        assert(fields@[j] == before[j]);
                    } else if j > i {
                        assert(fields@[j] == before[j - 1]);
                    }
                }
                lemma_fields_view_ext(fields@, before, s.insert(i as int, kv));
            }
            None
        };
        proof {
            lemma_insert_sorted(s, kv.0, kv.1);
        }
        self.fields = fields;
        r
    }

    /// Removes `key`, returning the value it had.
    pub fn remove(&mut self, key: &str) -> (r: Option<PayloadValue>)
        ensures
            final(self)@ == field_remove(old(self)@, key@),
            match field_find(old(self)@, key@) {
                Some(v) => r matches Some(x) && x@ == v,
                None => r is None,
            },
    {
        proof {
            use_type_invariant(&*self);
            lemma_fields_view(self.fields@);
        }
        let i = self.position(key);
        let ghost s = self@;
        if i < self.fields.len() {
            if compare_keys(self.fields[i].0.as_str(), key) == KeyOrder::Equal {
                let mut fields: Vec<(String, PayloadValue)> = Vec::new();
                std::mem::swap(&mut fields, &mut self.fields);
                let ghost before = fields@;
                let (_, prior) = fields.remove(i);
                proof {
                    assert forall|j: int| 0 <= j < fields@.len() implies (fields@[j].0@, pv_view(fields@[j].1)) == #[trigger] s.remove(i as int)[j] by {
                        if j < i {
                            assert(fields@[j] == before[j]);
                        } else {
                            assert(fields@[j] == before[j + 1]);
                        }
                    }
                    lemma_fields_view_ext(fields@, before, s.remove(i as int));
                    lemma_remove_sorted(s, key@);
                }
                self.fields = fields;
                return Some(prior);
            }
        }
        None
    }

    /// The fields, in key order, by value.
    pub fn into_entries(self) -> (r: Vec<(String, PayloadValue)>)
        ensures
            pv_fields_view(r@) == self@,
            sorted_fields(self@),
    {
        proof {
            use_type_invariant(&self);
        }
        self.fields
    }

    /// A payload holding `pairs`, inserted in order (a repeated key keeps
    /// its last value).
    pub fn from_pairs(pairs: Vec<(String, PayloadValue)>) -> (r: Payload)
        ensures
            r@ == insert_all(pv_fields_view(pairs@)),
    {
        let ghost all = pv_fields_view(pairs@);
        proof {
            lemma_fields_view(pairs@);
        }
        assert(all.len() <= usize::MAX) by {
            assert(pairs@.len() == pairs.len());
        }
        let mut p = Payload::new();
        let mut rest = pairs;
        let mut i: usize = 0;
        while rest.len() > 0
            invariant
                all.len() == i + rest@.len(),
                all.len() <= usize::MAX,
                forall|j: int| 0 <= j < rest@.len() ==> (rest@[j].0@, pv_view(rest@[j].1)) == #[trigger] all[i + j],
                p@ == insert_all(all.subrange(0, i as int)),
            decreases rest.len(),
        {
            let ghost before = rest@;
            let (k, v) = rest.remove(0);
            proof {
                assert((k@, v@) == all[i as int]) by {
                    assert(before[0] == (k, v));
                    assert((before[0].0@, pv_view(before[0].1)) == all[i + 0]);
                }
                assert forall|j: int| 0 <= j < rest@.len() implies (rest@[j].0@, pv_view(rest@[j].1)) == #[trigger] all[i + 1 + j] by {
                    assert(rest@[j] == before[j + 1]);
                    assert((before[j + 1].0@, pv_view(before[j + 1].1)) == all[i + (j + 1)]);
                }
                let pre = all.subrange(0, i + 1);
                assert(pre.drop_last() =~= all.subrange(0, i as int));
            }
            p.insert(k, v);
            i = i + 1;
        }
        assert(all.subrange(0, i as int) =~= all);
        p
    }

    /// An iterator over the fields, in key order.
    pub fn iter(&self) -> (r: std::slice::Iter<'_, (String, PayloadValue)>)
        ensures
            pv_fields_view(vstd::std_specs::slice::into_iter_elts(r)) == self@,
            sorted_fields(self@),
    {
        proof {
            use_type_invariant(self);
            broadcast use vstd::std_specs::slice::axiom_spec_slice_iter;
        }
        let r = self.fields.as_slice().iter();
        assert(vstd::std_specs::slice::into_iter_elts(r) =~= self.fields@);
        r
    }

    /// The fields, in key order.
    pub fn as_map(&self) -> (r: &[(String, PayloadValue)])
        ensures
            pv_fields_view(r@) == self@,
            sorted_fields(self@),
    {
        proof {
            use_type_invariant(self);
        }
        self.fields.as_slice()
    }
}

// ---------------------------------------------------------------------
// Copies.
// ---------------------------------------------------------------------

/// A copy of `v`, all the way down.
fn clone_value(v: &PayloadValue) -> (r: PayloadValue)
    ensures
        r@ == v@,
    decreases v@,
{
    match v {
        PayloadValue::Null => PayloadValue::Null,
        PayloadValue::Bool(b) => PayloadValue::Bool(*b),
        PayloadValue::Int(i) => PayloadValue::Int(*i),
        PayloadValue::Float(f) => PayloadValue::Float(*f),
        PayloadValue::Text(t) => PayloadValue::Text(t.clone()),
        PayloadValue::Bytes(b) => PayloadValue::Bytes(crate::types::copy_bytes(b)),
        PayloadValue::Array(items) => {
            let ghost iv = pv_seq_view(items@);
            proof {
                lemma_seq_view_len(items@);
            }
            let mut out: Vec<PayloadValue> = Vec::new();
            let mut i: usize = 0;
            while i < items.len()
                invariant
                    i <= items@.len(),
                    iv == pv_seq_view(items@),
                    iv.len() == items@.len(),
                    v@ == PvView::Array(iv),
                    pv_seq_view(out@) == iv.subrange(0, i as int),
                decreases items.len() - i,
            {
                proof {
                    lemma_seq_view_index(items@, i as int);
                    assert(decreases_to!(v@ => v@->Array_0));
                    assert(decreases_to!(iv => iv[i as int]));
                }
                let c = clone_value(&items[i]);
                let ghost cv = c;
                let ghost before = out@;
                out.push(c);
                proof {
                    lemma_seq_view_push(before, cv);
                    assert(before.push(cv) =~= out@);
                    assert(iv.subrange(0, i as int).push(iv[i as int]) =~= iv.subrange(0, i + 1));
                }
                i = i + 1;
            }
            assert(iv.subrange(0, items@.len() as int) =~= iv);
            PayloadValue::Array(out)
        },
        PayloadValue::Object(p) => {
            proof {
                use_type_invariant(p);
                assert(decreases_to!(v@ => v@->Object_0));
            }
            PayloadValue::Object(Payload { fields: clone_fields(&p.fields) })
        },
    }
}

/// A copy of `fields`, all the way down.
fn clone_fields(fields: &Vec<(String, PayloadValue)>) -> (r: Vec<(String, PayloadValue)>)
    ensures
        pv_fields_view(r@) == pv_fields_view(fields@),
    decreases pv_fields_view(fields@),
{
    let ghost fv = pv_fields_view(fields@);
    proof {
        lemma_fields_view(fields@);
    }
    let mut out: Vec<(String, PayloadValue)> = Vec::new();
    let mut i: usize = 0;
    while i < fields.len()
        invariant
            i <= fields@.len(),
            fv == pv_fields_view(fields@),
            fv.len() == fields@.len(),
            forall|j: int| 0 <= j < fields@.len() ==> #[trigger] fv[j] == (fields@[j].0@, pv_view(fields@[j].1)),
            out@.len() == i,
            forall|j: int| 0 <= j < i ==> (out@[j].0@, pv_view(out@[j].1)) == #[trigger] fv[j],
        decreases fields.len() - i,
    {
        proof {
            assert(decreases_to!(fv => fv[i as int]));
            assert(decreases_to!(fv[i as int] => fv[i as int].1));
        }
        let k = fields[i].0.clone();
        let c = clone_value(&fields[i].1);
        out.push((k, c));
        i = i + 1;
    }
    proof {
        lemma_fields_view_ext(out@, out@, fv);
    }
    out
}

impl Clone for PayloadValue {
    fn clone(&self) -> (r: Self)
        ensures
            r@ == self@,
    {
        clone_value(self)
    }
}

impl Clone for Payload {
    fn clone(&self) -> (r: Self)
        ensures
            r@ == self@,
    {
        proof {
            use_type_invariant(self);
        }
        Payload { fields: clone_fields(&self.fields) }
    }
}

} // verus!
