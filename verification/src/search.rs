//! Exact top-k selection over scored records.
//!
//! Scores are distances (lower is better), kept as the bits of an `f32`
//! and ranked as `f32` compares them, with NaN ranked worst of all and
//! both zeros ranked equal. Ties on rank go to the smaller id, so the
//! order of hits is total and the selection deterministic. Computing the
//! distances themselves is floating-point work done by the caller; this
//! module selects and orders.

use vstd::prelude::*;

use crate::float::{
    lemma_magnitude_order, lemma_single_fields, scaled_magnitude, single_exponent, single_is_nan,
    single_mantissa, single_value, Single,
};
use crate::payload::{FieldView, Payload};
use crate::record::{RecordId, RecordView};
use crate::store::{ids_unique, lemma_map_of, map_of, MemoryStore};

verus! {

/// The rank of an `f32` score given by its bits: every NaN ranks above
/// everything else, both zeros rank alike, and otherwise the rank follows
/// the value.
pub open spec fn score_rank(s: u32) -> int {
    if (s >> 23u32) & 0xffu32 == 0xffu32 && s & 0x7f_ffffu32 != 0 {
        0x1_0000_0000
    } else if s & 0x7fff_ffffu32 == 0 {
        0x8000_0000
    } else if s & 0x8000_0000u32 != 0 {
        (!s) as int
    } else {
        (s | 0x8000_0000u32) as int
    }
}

/// The rank of a score, computed.
pub fn rank_of(s: u32) -> (r: u64)
    ensures
        r == score_rank(s),
{
    if (s >> 23u32) & 0xffu32 == 0xffu32 && s & 0x7f_ffffu32 != 0 {
        0x1_0000_0000
    } else if s & 0x7fff_ffffu32 == 0 {
        0x8000_0000
    } else if s & 0x8000_0000u32 != 0 {
        (!s) as u64
    } else {
        (s | 0x8000_0000u32) as u64
    }
}

/// The rank of a score by its fields: a NaN ranks last, the zeros rank at
/// `2^31`, a positive score `2^31 + t` and a negative one `2^31 - 1 - t`,
/// where `t` is the exponent and mantissa read as one number.
proof fn lemma_rank_parts(s: u32)
    ensures
        single_is_nan(s) ==> score_rank(s) == 0x1_0000_0000,
        !single_is_nan(s) ==> score_rank(s) == ({
            let t: int = (single_exponent(s) * 0x80_0000 + single_mantissa(s)) as int;
            if t == 0 {
                0x8000_0000int
            } else if s & 0x8000_0000u32 != 0 {
                0x8000_0000 - 1 - t
            } else {
                0x8000_0000 + t
            }
        }),
{
    lemma_single_fields(s, s);
    assert(((s >> 23u32) & 0xffu32 == 0xffu32 && s & 0x7f_ffffu32 != 0) <==> ((s & 0x7f80_0000u32)
        == 0x7f80_0000u32 && (s & 0x007f_ffffu32) != 0)) by (bit_vector);
    assert(s & 0x7fff_ffffu32 == ((s >> 23u32) & 0xffu32) * 0x80_0000u32 + (s & 0x007f_ffffu32))
        by (bit_vector);
    assert(s & 0x8000_0000u32 == 0 ==> (s | 0x8000_0000u32) == s + 0x8000_0000u32 && s == s
        & 0x7fff_ffffu32) by (bit_vector);
    assert(s & 0x8000_0000u32 != 0 ==> !s == 0xffff_ffffu32 - s && s == 0x8000_0000u32 + (s
        & 0x7fff_ffffu32)) by (bit_vector);
}

/// Scores rank as the floats they hold. Of two scores that are not NaN,
/// one ranks below the other exactly when its value is smaller, and they
/// rank alike exactly when their values are equal (so `+0` and `-0` rank
/// alike, and the id decides between them); a NaN ranks after every score
/// that is not one.
pub proof fn law_rank_follows_value(a: u32, b: u32)
    ensures
        !single_is_nan(a) && !single_is_nan(b) ==> (score_rank(a) < score_rank(b) <==> single_value(a)
            < single_value(b)),
        !single_is_nan(a) && !single_is_nan(b) ==> (score_rank(a) == score_rank(b) <==> single_value(a)
            == single_value(b)),
        single_is_nan(a) && !single_is_nan(b) ==> score_rank(b) < score_rank(a),
{
    lemma_rank_parts(a);
    lemma_rank_parts(b);
    lemma_single_fields(a, b);
    lemma_single_fields(b, a);
    let ea = single_exponent(a);
    let ma = single_mantissa(a);
    let eb = single_exponent(b);
    let mb = single_mantissa(b);
    lemma_magnitude_order(ea, ma, eb, mb, 23);
    lemma_magnitude_order(ea, ma, 0, 0, 23);
    lemma_magnitude_order(eb, mb, 0, 0, 23);
    vstd::arithmetic::power2::lemma2_to64();
    let ta: int = (ea * 0x80_0000 + ma) as int;
    let tb: int = (eb * 0x80_0000 + mb) as int;
    assert(crate::float::fields_lt(ea, ma, eb, mb) <==> ta < tb);
    assert(ta == 0 <==> (ea == 0 && ma == 0));
    assert(tb == 0 <==> (eb == 0 && mb == 0));
    assert(ta < 0x8000_0000 && tb < 0x8000_0000);
}

/// Sorted hits come closest first, by value: of two hits, the earlier has
/// the smaller score or an equal one and the smaller id, and no hit with a
/// NaN score comes before one without.
pub proof fn law_hits_in_value_order(r: Seq<HitView>, i: int, j: int)
    requires
        hits_sorted(r),
        0 <= i < j < r.len(),
    ensures
        single_is_nan(r[i].0) ==> single_is_nan(r[j].0),
        !single_is_nan(r[j].0) ==> (single_value(r[i].0) < single_value(r[j].0) || (single_value(r[i].0)
            == single_value(r[j].0) && r[i].1 < r[j].1)),
{
    law_rank_follows_value(r[i].0, r[j].0);
    law_rank_follows_value(r[j].0, r[i].0);
    lemma_rank_parts(r[i].0);
    lemma_rank_parts(r[j].0);
    assert(hit_lt(r[i], r[j]));
}

/// A hit: score bits and record id.
pub type HitView = (u32, u64);

/// `a` comes before `b`: a lower rank, or the same rank and a smaller id.
pub open spec fn hit_lt(a: HitView, b: HitView) -> bool {
    score_rank(a.0) < score_rank(b.0) || (score_rank(a.0) == score_rank(b.0) && a.1 < b.1)
}

/// The hits of the records whose score is present (a missing score is a
/// record filtered out), in storage order.
pub open spec fn candidates(entries: Seq<RecordView>, scores: Seq<Option<u32>>) -> Seq<HitView>
    decreases scores.len(),
{
    if scores.len() == 0 || entries.len() == 0 {
        Seq::empty()
    } else {
        let rest = candidates(entries.drop_last(), scores.drop_last());
        match scores.last() {
            Some(s) => rest.push((s, entries.last().id)),
            None => rest,
        }
    }
}

/// Hits in strictly increasing order.
pub open spec fn hits_sorted(r: Seq<HitView>) -> bool {
    forall|i: int, j: int| 0 <= i < j < r.len() ==> hit_lt(r[i], r[j])
}

/// `r` is the best `k` of `c`, best first: as many as `k` allows, each a
/// candidate, in order, and every candidate left out comes after all of
/// them.
pub open spec fn is_top_k(r: Seq<HitView>, c: Seq<HitView>, k: nat) -> bool {
    &&& r.len() == if k < c.len() { k } else { c.len() }
    &&& hits_sorted(r)
    &&& forall|i: int| 0 <= i < r.len() ==> c.contains(#[trigger] r[i])
    &&& forall|x: HitView| c.contains(x) && !r.contains(x) ==> forall|i: int| 0 <= i < r.len() ==> hit_lt(#[trigger] r[i], x)
}

/// A search hit: the record's id, its score (the bits of an `f32`) and a
/// copy of its metadata.
#[derive(Debug, PartialEq)]
pub struct SearchResult {
    pub id: RecordId,
    pub score: Single,
    pub payload: Option<Payload>,
}

/// The hit of each result.
pub open spec fn hits_of(r: Seq<SearchResult>) -> Seq<HitView> {
    r.map_values(|x: SearchResult| (x.score.0, x.id.value()))
}

/// The metadata of a result, viewed.
pub open spec fn payload_view(p: Option<Payload>) -> Option<Seq<FieldView>> {
    match p {
        Some(q) => Some(q@),
        None => None,
    }
}

/// The candidates are exactly the records the filter admitted, each with
/// its own score: every record given a score is a candidate under that
/// score, and every candidate is a record given that score.
pub proof fn law_candidates_are_admitted_records(entries: Seq<RecordView>, scores: Seq<Option<u32>>)
    requires
        scores.len() == entries.len(),
    ensures
        forall|j: int|
            0 <= j < entries.len() && #[trigger] scores[j] is Some ==> candidates(entries, scores).contains(
                (scores[j]->0, entries[j].id),
            ),
        forall|h: HitView|
            #[trigger] candidates(entries, scores).contains(h) ==> exists|j: int|
                0 <= j < entries.len() && entries[j].id == h.1 && scores[j] == Some(h.0),
    decreases scores.len(),
{
    if scores.len() > 0 {
        let e2 = entries.drop_last();
        let s2 = scores.drop_last();
        law_candidates_are_admitted_records(e2, s2);
        let rest = candidates(e2, s2);
        let c = candidates(entries, scores);
        let n = scores.len() - 1;
        assert forall|j: int| 0 <= j < entries.len() && #[trigger] scores[j] is Some implies c.contains(
            (scores[j]->0, entries[j].id),
        ) by {
            if j < n {
                assert(scores[j] == s2[j] && entries[j] == e2[j]);
                assert(rest.contains((s2[j]->0, e2[j].id)));
                let k = choose|k: int| 0 <= k < rest.len() && rest[k] == (s2[j]->0, e2[j].id);
                assert(c[k] == rest[k]);
            } else {
                assert(c[rest.len() as int] == (scores[j]->0, entries[j].id));
            }
        }
        assert forall|h: HitView| #[trigger] c.contains(h) implies exists|j: int|
            0 <= j < entries.len() && entries[j].id == h.1 && scores[j] == Some(h.0) by {
            let k = choose|k: int| 0 <= k < c.len() && c[k] == h;
            if k < rest.len() {
                assert(c[k] == rest[k]);
                assert(rest.contains(h));
                let j = choose|j: int| 0 <= j < e2.len() && e2[j].id == h.1 && s2[j] == Some(h.0);
                assert(entries[j] == e2[j] && scores[j] == s2[j]);
            } else {
                assert(entries[n] == entries.last());
            }
        }
    }
}

proof fn lemma_hit_order()
    ensures
        forall|a: HitView| !#[trigger] hit_lt(a, a),
        forall|a: HitView, b: HitView, c: HitView|
            #[trigger] hit_lt(a, b) && #[trigger] hit_lt(b, c) ==> hit_lt(a, c),
        forall|a: HitView, b: HitView| a.1 != b.1 ==> #[trigger] hit_lt(a, b) || #[trigger] hit_lt(b, a),
        forall|a: HitView, b: HitView| #[trigger] hit_lt(a, b) ==> !#[trigger] hit_lt(b, a),
{
}

/// The ids of the candidates are ids of records, at most once each.
proof fn lemma_candidates(entries: Seq<RecordView>, scores: Seq<Option<u32>>)
    requires
        scores.len() == entries.len(),
        ids_unique(entries),
    ensures
        forall|i: int, j: int| 0 <= i < j < candidates(entries, scores).len() ==> candidates(entries, scores)[i].1 != candidates(entries, scores)[j].1,
        forall|i: int| 0 <= i < candidates(entries, scores).len() ==> exists|j: int| 0 <= j < entries.len() && entries[j].id == (#[trigger] candidates(entries, scores)[i]).1 && scores[j] == Some(candidates(entries, scores)[i].0),
    decreases scores.len(),
{
    if scores.len() > 0 {
        let e2 = entries.drop_last();
        let s2 = scores.drop_last();
        assert(ids_unique(e2)) by {
            assert forall|i: int, j: int| 0 <= i < j < e2.len() implies e2[i].id != e2[j].id by {
                assert(e2[i] == entries[i] && e2[j] == entries[j]);
            }
        }
        lemma_candidates(e2, s2);
        let rest = candidates(e2, s2);
        let c = candidates(entries, scores);
        assert forall|i: int| 0 <= i < c.len() implies exists|j: int| 0 <= j < entries.len() && entries[j].id == (#[trigger] c[i]).1 && scores[j] == Some(c[i].0) by {
            if i < rest.len() {
                assert(c[i] == rest[i]);
                let j = choose|j: int| 0 <= j < e2.len() && e2[j].id == rest[i].1 && s2[j] == Some(rest[i].0);
                assert(entries[j] == e2[j] && scores[j] == s2[j]);
            } else {
                assert(entries[entries.len() - 1].id == c[i].1);
            }
        }
        assert forall|i: int, j: int| 0 <= i < j < c.len() implies c[i].1 != c[j].1 by {
            if j < rest.len() {
                assert(c[i] == rest[i] && c[j] == rest[j]);
            } else {
                assert(c[i] == rest[i]);
                let m = choose|m: int| 0 <= m < e2.len() && e2[m].id == rest[i].1 && s2[m] == Some(rest[i].0);
                assert(entries[m] == e2[m]);
                assert(entries[entries.len() - 1].id == c[j].1);
            }
        }
    }
}

/// Inserts `x` into the sorted `v` at its place.
fn insert_sorted(v: &mut Vec<(u32, u64, usize)>, x: (u32, u64, usize))
    requires
        hits_sorted(old(v)@.map_values(|e: (u32, u64, usize)| (e.0, e.1))),
        forall|i: int| 0 <= i < old(v)@.len() ==> (#[trigger] old(v)@[i]).1 != x.1,
    ensures
        hits_sorted(final(v)@.map_values(|e: (u32, u64, usize)| (e.0, e.1))),
        exists|p: int| 0 <= p <= old(v)@.len() && final(v)@ == old(v)@.insert(p, x),
{
    proof {
        lemma_hit_order();
    }
    let ghost h = old(v)@.map_values(|e: (u32, u64, usize)| (e.0, e.1));
    let rx = rank_of(x.0);
    let mut p: usize = 0;
    while p < v.len()
        invariant
            v@ == old(v)@,
            h == v@.map_values(|e: (u32, u64, usize)| (e.0, e.1)),
            p <= v@.len(),
            rx == score_rank(x.0),
            forall|i: int| 0 <= i < p ==> hit_lt(#[trigger] h[i], (x.0, x.1)),
        ensures
            v@ == old(v)@,
            p <= v@.len(),
            forall|i: int| 0 <= i < p ==> hit_lt(#[trigger] h[i], (x.0, x.1)),
            p < v@.len() ==> !hit_lt(h[p as int], (x.0, x.1)),
        decreases v.len() - p,
    {
        let e = v[p];
        let re = rank_of(e.0);
        assert(h[p as int] == (e.0, e.1));
        if re < rx || (re == rx && e.1 < x.1) {
            p = p + 1;
        } else {
            break;
        }
    }
    let ghost before = v@;
    v.insert(p, x);
    proof {
        let h2 = v@.map_values(|e: (u32, u64, usize)| (e.0, e.1));
        assert(h2 =~= h.insert(p as int, (x.0, x.1)));
        if p < h.len() {
            assert(hit_lt((x.0, x.1), h[p as int])) by {
                assert(before[p as int].1 != x.1);
            }
        }
        assert forall|i: int, j: int| 0 <= i < j < h2.len() implies hit_lt(h2[i], h2[j]) by {
            if j < p {
                assert(h2[i] == h[i] && h2[j] == h[j]);
            } else if j == p {
                assert(h2[i] == h[i]);
            } else if i == p {
                assert(h2[j] == h[j - 1]);
                if j - 1 > p {
                    assert(hit_lt(h[p as int], h[j - 1]));
                }
            } else if i < p {
                assert(h2[i] == h[i] && h2[j] == h[j - 1]);
                assert(hit_lt(h[i], (x.0, x.1)));
                if p < h.len() {
                    assert(hit_lt((x.0, x.1), h[p as int]));
                    if j - 1 > p {
                        assert(hit_lt(h[p as int], h[j - 1]));
                    }
                }
            } else {
                assert(h2[i] == h[i - 1] && h2[j] == h[j - 1]);
            }
        }
    }
}

/// The hits of the entries kept so far.
pub open spec fn kept_hits(v: Seq<(u32, u64, usize)>) -> Seq<HitView> {
    v.map_values(|e: (u32, u64, usize)| (e.0, e.1))
}

/// A new candidate while fewer than `k` are kept: it is kept too.
proof fn lemma_admit(r: Seq<HitView>, c: Seq<HitView>, k: nat, x: HitView, r2: Seq<HitView>, p: int)
    requires
        is_top_k(r, c, k),
        r.len() < k,
        forall|y: HitView| c.contains(y) ==> r.contains(y),
        0 <= p <= r.len(),
        r2 == r.insert(p, x),
        hits_sorted(r2),
    ensures
        is_top_k(r2, c.push(x), k),
        forall|y: HitView| c.push(x).contains(y) ==> r2.contains(y),
{
    let c2 = c.push(x);
    assert(r2[p] == x);
    assert forall|i: int| 0 <= i < r2.len() implies c2.contains(#[trigger] r2[i]) by {
        if i < p {
            assert(r2[i] == r[i]);
            assert(c.contains(r[i]));
            let j = choose|j: int| 0 <= j < c.len() && c[j] == r[i];
            assert(c2[j] == c[j]);
        } else if i == p {
            assert(c2[c.len() as int] == x);
        } else {
            assert(r2[i] == r[i - 1]);
            assert(c.contains(r[i - 1]));
            let j = choose|j: int| 0 <= j < c.len() && c[j] == r[i - 1];
            assert(c2[j] == c[j]);
        }
    }
    assert forall|y: HitView| c2.contains(y) implies r2.contains(y) by {
        let j = choose|j: int| 0 <= j < c2.len() && c2[j] == y;
        if j < c.len() {
            assert(c[j] == y);
            assert(c.contains(y));
            let m = choose|m: int| 0 <= m < r.len() && r[m] == y;
            if m < p {
                assert(r2[m] == y);
            } else {
                assert(r2[m + 1] == y);
            }
        } else {
            assert(r2[p] == y);
        }
    }
}

/// A new candidate that beats the worst of `k` kept: the worst leaves,
/// the candidate joins.
proof fn lemma_replace(r: Seq<HitView>, c: Seq<HitView>, k: nat, x: HitView, r2: Seq<HitView>, p: int)
    requires
        is_top_k(r, c, k),
        k > 0,
        r.len() == k,
        forall|i: int| 0 <= i < c.len() ==> (#[trigger] c[i]).1 != x.1,
        hit_lt(x, r.last()),
        0 <= p <= r.len() - 1,
        r2 == r.drop_last().insert(p, x),
        hits_sorted(r2),
    ensures
        is_top_k(r2, c.push(x), k),
{
    lemma_hit_order();
    let c2 = c.push(x);
    let r1 = r.drop_last();
    let last = r.last();
    assert(r2[p] == x);
    assert forall|i: int| 0 <= i < r2.len() implies c2.contains(#[trigger] r2[i]) by {
        if i == p {
            assert(c2[c.len() as int] == x);
        } else {
            let m = if i < p { i } else { i - 1 };
            assert(r2[i] == r[m]);
            assert(c.contains(r[m]));
            let j = choose|j: int| 0 <= j < c.len() && c[j] == r[m];
            assert(c2[j] == c[j]);
        }
    }
    assert forall|y: HitView| c2.contains(y) && !r2.contains(y) implies forall|i: int| 0 <= i < r2.len() ==> hit_lt(#[trigger] r2[i], y) by {
        let j = choose|j: int| 0 <= j < c2.len() && c2[j] == y;
        if j == c.len() {
            assert(r2[p] == y);
        }
        assert(c[j] == y);
        assert(c.contains(y));
        assert(y.1 != x.1);
        // y is the dropped worst, or was left out before.
        let was_kept = r.contains(y);
        assert forall|i: int| 0 <= i < r2.len() implies hit_lt(#[trigger] r2[i], y) by {
            if was_kept {
                let m = choose|m: int| 0 <= m < r.len() && r[m] == y;
                if m < r.len() - 1 {
                    if m < p {
                        assert(r2[m] == y);
                    } else {
                        assert(r2[m + 1] == y);
                    }
                }
                assert(y == last);
                if i == p {
                } else {
                    let q = if i < p { i } else { i - 1 };
                    assert(r2[i] == r[q]);
                    assert(hit_lt(r[q], r[r.len() - 1]));
                }
            } else {
                if i == p {
                    assert(hit_lt(r[r.len() - 1], y));
                } else {
                    let q = if i < p { i } else { i - 1 };
                    assert(r2[i] == r[q]);
                }
            }
        }
    }
}

/// A new candidate no better than the worst of `k` kept: it is left out.
proof fn lemma_reject(r: Seq<HitView>, c: Seq<HitView>, k: nat, x: HitView)
    requires
        is_top_k(r, c, k),
        k > 0,
        r.len() == k,
        forall|i: int| 0 <= i < c.len() ==> (#[trigger] c[i]).1 != x.1,
        !hit_lt(x, r.last()),
    ensures
        is_top_k(r, c.push(x), k),
{
    lemma_hit_order();
    let c2 = c.push(x);
    let last = r.last();
    assert(c.contains(last));
    let jl = choose|j: int| 0 <= j < c.len() && c[j] == last;
    assert(c[jl].1 != x.1);
    assert(hit_lt(last, x));
    assert forall|i: int| 0 <= i < r.len() implies c2.contains(#[trigger] r[i]) by {
        assert(c.contains(r[i]));
        let j = choose|j: int| 0 <= j < c.len() && c[j] == r[i];
        assert(c2[j] == c[j]);
    }
    assert forall|y: HitView| c2.contains(y) && !r.contains(y) implies forall|i: int| 0 <= i < r.len() ==> hit_lt(#[trigger] r[i], y) by {
        let j = choose|j: int| 0 <= j < c2.len() && c2[j] == y;
        if j < c.len() {
            assert(c[j] == y);
            assert(c.contains(y));
        } else {
            assert(y == x);
            assert forall|i: int| 0 <= i < r.len() implies hit_lt(#[trigger] r[i], y) by {
                if i < r.len() - 1 {
                    assert(hit_lt(r[i], r[r.len() - 1]));
                }
            }
        }
    }
}

/// The best `k` records by score, best first, each with a copy of its
/// metadata. `scores[i]` is the score of the `i`-th record in storage
/// order, or `None` for a record the caller's filter left out.
pub fn flat_search(store: &MemoryStore, scores: &[Option<u32>], k: usize) -> (r: Vec<SearchResult>)
    requires
        scores@.len() == store.entries().len(),
    ensures
        is_top_k(hits_of(r@), candidates(store.entries(), scores@), k as nat),
        forall|i: int|
            0 <= i < r@.len() ==> store@.contains_key((#[trigger] r@[i]).id.value())
                && payload_view(r@[i].payload) == store@[r@[i].id.value()].payload,
{
    let records = store.records();
    let ghost ents = store.entries();
    let ghost sc = scores@;
    if k == 0 {
        let r: Vec<SearchResult> = Vec::new();
        assert(hits_of(r@) =~= Seq::<HitView>::empty());
        return r;
    }
    let mut best: Vec<(u32, u64, usize)> = Vec::new();
    let mut i: usize = 0;
    proof {
        assert(ents.subrange(0, 0) =~= Seq::<RecordView>::empty());
        assert(kept_hits(best@) =~= Seq::<HitView>::empty());
    }
    while i < records.len()
        invariant
            k > 0,
            ents == store.entries(),
            sc == scores@,
            ids_unique(ents),
            ents.len() == records@.len(),
            sc.len() == ents.len(),
            forall|j: int| 0 <= j < ents.len() ==> #[trigger] ents[j] == records@[j]@,
            i <= records@.len(),
            is_top_k(kept_hits(best@), candidates(ents.subrange(0, i as int), sc.subrange(0, i as int)), k as nat),
            best@.len() < k ==> forall|y: HitView| candidates(ents.subrange(0, i as int), sc.subrange(0, i as int)).contains(y) ==> kept_hits(best@).contains(y),
            forall|j: int| 0 <= j < best@.len() ==> (#[trigger] best@[j]).2 < i && ents[best@[j].2 as int].id == best@[j].1 && sc[best@[j].2 as int] == Some(best@[j].0),
        decreases records.len() - i,
    {
        let ghost c = candidates(ents.subrange(0, i as int), sc.subrange(0, i as int));
        let ghost e1 = ents.subrange(0, i + 1);
        let ghost s1 = sc.subrange(0, i + 1);
        proof {
            assert(e1.drop_last() =~= ents.subrange(0, i as int));
            assert(s1.drop_last() =~= sc.subrange(0, i as int));
            assert(e1.last() == ents[i as int]);
            assert(s1.last() == sc[i as int]);
        }
        match scores[i] {
            None => {},
            Some(s) => {
                let id = records[i].id().get();
                let ghost x: HitView = (s, id);
                let ghost r = kept_hits(best@);
                proof {
                    assert(ents[i as int].id == id);
                    assert(ids_unique(ents.subrange(0, i as int))) by {
                        let t = ents.subrange(0, i as int);
                        assert forall|a: int, b: int| 0 <= a < b < t.len() implies t[a].id != t[b].id by {
                            assert(t[a] == ents[a] && t[b] == ents[b]);
                        }
                    }
                    lemma_candidates(ents.subrange(0, i as int), sc.subrange(0, i as int));
                    assert forall|q: int| 0 <= q < c.len() implies (#[trigger] c[q]).1 != x.1 by {
                        let j = choose|j: int| 0 <= j < i && ents.subrange(0, i as int)[j].id == c[q].1 && sc.subrange(0, i as int)[j] == Some(c[q].0);
                        assert(ents[j] == ents.subrange(0, i as int)[j]);
                    }
                    assert forall|q: int| 0 <= q < best@.len() implies (#[trigger] best@[q]).1 != id by {
                        assert(r[q] == (best@[q].0, best@[q].1));
                        assert(c.contains(r[q]));
                        let j = choose|j: int| 0 <= j < c.len() && c[j] == r[q];
                    }
                }
                let cand = (s, id, i);
                if best.len() < k {
                    let ghost before = best@;
                    insert_sorted(&mut best, cand);
                    proof {
                        let p = choose|p: int| 0 <= p <= before.len() && best@ == before.insert(p, cand);
                        assert(kept_hits(best@) =~= r.insert(p, x));
                        lemma_admit(r, c, k as nat, x, kept_hits(best@), p);
                        assert forall|j: int| 0 <= j < best@.len() implies (#[trigger] best@[j]).2 < i + 1 && ents[best@[j].2 as int].id == best@[j].1 && sc[best@[j].2 as int] == Some(best@[j].0) by {
                            if j < p {
                                assert(best@[j] == before[j]);
                            } else if j > p {
                                assert(best@[j] == before[j - 1]);
                            }
                        }
                    }
                } else {
                    let last = best[best.len() - 1];
                    let rl = rank_of(last.0);
                    let rc = rank_of(s);
                    proof {
                        assert(r.last() == (last.0, last.1));
                    }
                    if rc < rl || (rc == rl && id < last.1) {
                        let ghost before = best@;
                        best.pop();
                        let ghost popped = best@;
                        proof {
                            assert(popped =~= before.drop_last());
                            assert(kept_hits(popped) =~= r.drop_last());
                            assert forall|q: int, w: int| 0 <= q < w < kept_hits(popped).len() implies hit_lt(kept_hits(popped)[q], kept_hits(popped)[w]) by {
                                assert(kept_hits(popped)[q] == r[q] && kept_hits(popped)[w] == r[w]);
                            }
                        }
                        insert_sorted(&mut best, cand);
                        proof {
                            let p = choose|p: int| 0 <= p <= popped.len() && best@ == popped.insert(p, cand);
                            assert(kept_hits(best@) =~= r.drop_last().insert(p, x));
                            lemma_replace(r, c, k as nat, x, kept_hits(best@), p);
                            assert forall|j: int| 0 <= j < best@.len() implies (#[trigger] best@[j]).2 < i + 1 && ents[best@[j].2 as int].id == best@[j].1 && sc[best@[j].2 as int] == Some(best@[j].0) by {
                                if j < p {
                                    assert(best@[j] == popped[j]);
                                    assert(popped[j] == before[j]);
                                } else if j > p {
                                    assert(best@[j] == popped[j - 1]);
                                    assert(popped[j - 1] == before[j - 1]);
                                }
                            }
                        }
                    } else {
                        proof {
                            lemma_reject(r, c, k as nat, x);
                        }
                    }
                }
            },
        }
        i = i + 1;
    }
    proof {
        assert(ents.subrange(0, i as int) =~= ents);
        assert(sc.subrange(0, i as int) =~= sc);
        lemma_map_of(ents);
    }
    let mut out: Vec<SearchResult> = Vec::new();
    let mut j: usize = 0;
    while j < best.len()
        invariant
            ents == store.entries(),
            ids_unique(ents),
            map_of(ents) == store@,
            forall|q: int| 0 <= q < ents.len() ==> #[trigger] ents[q] == records@[q]@,
            ents.len() == records@.len(),
            forall|q: int| 0 <= q < best@.len() ==> (#[trigger] best@[q]).2 < ents.len() && ents[best@[q].2 as int].id == best@[q].1,
            j <= best@.len(),
            hits_of(out@) == kept_hits(best@).subrange(0, j as int),
            forall|q: int|
                0 <= q < out@.len() ==> store@.contains_key((#[trigger] out@[q]).id.value())
                    && payload_view(out@[q].payload) == store@[out@[q].id.value()].payload,
        decreases best.len() - j,
    {
        let (s, id, idx) = best[j];
        let payload = match records[idx].payload() {
            Some(p) => Some(p.clone()),
            None => None,
        };
        let res = SearchResult { id: RecordId::new(id), score: Single(s), payload };
        proof {
            lemma_map_of(ents);
            assert(ents[idx as int] == records@[idx as int]@);
            assert(map_of(ents)[ents[idx as int].id] == ents[idx as int]);
        }
        let ghost before = out@;
        out.push(res);
        proof {
            assert(hits_of(out@) =~= hits_of(before).push((s, id)));
            assert(kept_hits(best@).subrange(0, j + 1) =~= kept_hits(best@).subrange(0, j as int).push((s, id)));
            assert forall|q: int| 0 <= q < out@.len() implies store@.contains_key((#[trigger] out@[q]).id.value())
                && payload_view(out@[q].payload) == store@[out@[q].id.value()].payload by {
                if q < before.len() {
                    assert(out@[q] == before[q]);
                }
            }
        }
        j = j + 1;
    }
    assert(kept_hits(best@).subrange(0, best@.len() as int) =~= kept_hits(best@));
    out
}

/// The selection is determined by the candidates alone: with distinct
/// ids, any two best-`k` lists of the same candidates are the same list,
/// whatever order the candidates were visited in.
pub proof fn law_top_k_is_unique(r1: Seq<HitView>, r2: Seq<HitView>, c: Seq<HitView>, k: nat)
    requires
        is_top_k(r1, c, k),
        is_top_k(r2, c, k),
        forall|i: int, j: int| 0 <= i < j < c.len() ==> c[i].1 != c[j].1,
    ensures
        r1 == r2,
{
    lemma_hit_order();
    assert forall|i: int| 0 <= i < r1.len() implies r1[i] == r2[i] by {
        lemma_top_k_agree(r1, r2, c, k, i);
    }
    assert(r1 =~= r2);
}

proof fn lemma_distinct_ids_total(c: Seq<HitView>, a: HitView, b: HitView)
    requires
        forall|i: int, j: int| 0 <= i < j < c.len() ==> c[i].1 != c[j].1,
        c.contains(a),
        c.contains(b),
        a != b,
    ensures
        hit_lt(a, b) || hit_lt(b, a),
{
    let i = choose|i: int| 0 <= i < c.len() && c[i] == a;
    let j = choose|j: int| 0 <= j < c.len() && c[j] == b;
    assert(i != j);
    if i < j {
        assert(c[i].1 != c[j].1);
    } else {
        assert(c[j].1 != c[i].1);
    }
}

proof fn lemma_top_k_agree(r1: Seq<HitView>, r2: Seq<HitView>, c: Seq<HitView>, k: nat, n: int)
    requires
        is_top_k(r1, c, k),
        is_top_k(r2, c, k),
        forall|i: int, j: int| 0 <= i < j < c.len() ==> c[i].1 != c[j].1,
        0 <= n < r1.len(),
    ensures
        r1[n] == r2[n],
    decreases n,
{
    lemma_hit_order();
    if n > 0 {
        lemma_top_k_agree(r1, r2, c, k, n - 1);
    }
    assert forall|i: int| 0 <= i < n implies r1[i] == r2[i] by {
        if i < n {
            lemma_top_k_agree(r1, r2, c, k, i);
        }
    }
    if r1[n] != r2[n] {
        assert(c.contains(r1[n]));
        assert(c.contains(r2[n]));
        lemma_distinct_ids_total(c, r1[n], r2[n]);
        if hit_lt(r1[n], r2[n]) {
            // r1[n] is not kept in r2, or r2 would be out of order.
            if r2.contains(r1[n]) {
                let j = choose|j: int| 0 <= j < r2.len() && r2[j] == r1[n];
                if j < n {
                    assert(r2[j] == r1[j]);
                    assert(hit_lt(r1[j], r1[n]));
                } else if j > n {
                    assert(hit_lt(r2[n], r2[j]));
                }
            }
            assert(hit_lt(r2[n], r1[n]));
        } else {
            if r1.contains(r2[n]) {
                let j = choose|j: int| 0 <= j < r1.len() && r1[j] == r2[n];
                if j < n {
                    assert(r2[j] == r1[j]);
                    assert(hit_lt(r2[j], r2[n]));
                } else if j > n {
                    assert(hit_lt(r1[n], r1[j]));
                }
            }
            assert(hit_lt(r1[n], r2[n]));
        }
    }
}

/// A query whose dimension differs from a stored vector's: `left` is the
/// query's, `right` the stored vector's.
#[derive(Debug, Clone, Copy, PartialEq, Eq, Structural)]
pub struct DimensionMismatch {
    pub left: usize,
    pub right: usize,
}

/// Checks that every stored vector has `dim` components; otherwise
/// reports the first record, in storage order, that does not.
pub fn check_dimensions(store: &MemoryStore, dim: usize) -> (r: Result<(), DimensionMismatch>)
    ensures
        r is Ok <==> forall|i: int|
            0 <= i < store.entries().len() ==> (#[trigger] store.entries()[i]).vector.len() == dim,
        r matches Err(e) ==> e.left == dim && exists|i: int|
            0 <= i < store.entries().len() && (#[trigger] store.entries()[i]).vector.len() == e.right
                && e.right != dim && forall|j: int| 0 <= j < i ==> (#[trigger] store.entries()[j]).vector.len() == dim,
{
    let records = store.records();
    let ghost ents = store.entries();
    let mut i: usize = 0;
    while i < records.len()
        invariant
            ents == store.entries(),
            ents.len() == records@.len(),
            forall|q: int| 0 <= q < ents.len() ==> #[trigger] ents[q] == records@[q]@,
            i <= records@.len(),
            forall|j: int| 0 <= j < i ==> (#[trigger] ents[j]).vector.len() == dim,
        decreases records.len() - i,
    {
        let n = records[i].vector().dim();
        proof {
            assert(ents[i as int] == records@[i as int]@);
        }
        if n != dim {
            return Err(DimensionMismatch { left: dim, right: n });
        }
        i = i + 1;
    }
    Ok(())
}

} // verus!
