//! Record identity and the [`Record`] aggregate.
//!
//! [`RecordId`] is a transparent newtype around `u64`: callers pull ids
//! from any source (hashed strings, counters, snowflake ids) and convert
//! with `From<u64>` / `Into<u64>`, while the newtype keeps ids from mixing
//! with other numeric keys. A [`Record`] bundles an id, a [`Vector`] and an
//! optional [`Payload`].

use core::cmp::Ordering;
use vstd::prelude::*;
use vstd::std_specs::cmp::{PartialOrdSpec, PartialOrdSpecImpl};

use vstd::utf8::{
    encode_utf8, encode_utf8_decode_utf8, encode_utf8_valid_utf8, is_ascii_chars,
    is_ascii_chars_encode_utf8,
};

use crate::engine::codec::string_from_utf8;
use crate::payload::{FieldView, Payload};
use crate::vector::Vector;

verus! {

/// Caller-supplied unique identifier of a stored record, transparent over
/// `u64` and ordered as the `u64` is.
#[derive(Debug, Clone, Copy, PartialEq, Eq, Hash, Ord, Structural)]
pub struct RecordId(u64);

impl RecordId {
    pub closed spec fn value(&self) -> u64 {
        self.0
    }

    /// Wraps a raw `u64`.
    pub fn new(id: u64) -> (r: Self)
        ensures
            r.value() == id,
    {
        RecordId(id)
    }

    /// The underlying `u64`.
    pub fn get(self) -> (v: u64)
        ensures
            v == self.value(),
    {
        self.0
    }

    /// The id written in decimal, as `Display` of the raw `u64` writes it.
    pub fn to_decimal_string(&self) -> (s: String)
        ensures
            s@ == decimal_chars(self.value() as nat),
    {
        let mut bytes: Vec<u8> = Vec::new();
        push_decimal(&mut bytes, self.0);
        let ghost chars = decimal_chars(self.value() as nat);
        proof {
            lemma_decimal_is_ascii(self.value() as nat);
            is_ascii_chars_encode_utf8(chars);
            assert(bytes@ =~= encode_utf8(chars));
            encode_utf8_valid_utf8(chars);
        }
        match string_from_utf8(bytes) {
            Some(s) => {
                proof {
                    encode_utf8_decode_utf8(s@);
                    encode_utf8_decode_utf8(chars);
                }
                s
            },
            None => String::new(),
        }
    }
}

/// Two ids are equal exactly when their raw values are.
pub proof fn lemma_record_id_eq(a: RecordId, b: RecordId)
    ensures
        a == b <==> a.value() == b.value(),
{
}

impl PartialOrd for RecordId {
    fn partial_cmp(&self, other: &Self) -> (r: Option<Ordering>) {
        if self.0 < other.0 {
            Some(Ordering::Less)
        } else if self.0 == other.0 {
            Some(Ordering::Equal)
        } else {
            Some(Ordering::Greater)
        }
    }
}

impl PartialOrdSpecImpl for RecordId {
    open spec fn obeys_partial_cmp_spec() -> bool {
        true
    }

    open spec fn partial_cmp_spec(&self, other: &Self) -> Option<Ordering> {
        if self.value() < other.value() {
            Some(Ordering::Less)
        } else if self.value() == other.value() {
            Some(Ordering::Equal)
        } else {
            Some(Ordering::Greater)
        }
    }
}

/// Ids are ordered as their raw values are: one is smaller, equal or
/// greater exactly when its `u64` is.
pub proof fn law_record_id_order(a: RecordId, b: RecordId)
    ensures
        PartialOrdSpec::partial_cmp_spec(&a, &b) == Some(Ordering::Less) <==> a.value() < b.value(),
        PartialOrdSpec::partial_cmp_spec(&a, &b) == Some(Ordering::Equal) <==> a.value() == b.value(),
        PartialOrdSpec::partial_cmp_spec(&a, &b) == Some(Ordering::Greater) <==> a.value() > b.value(),
{
}

impl From<u64> for RecordId {
    fn from(value: u64) -> (r: Self) {
        RecordId(value)
    }
}

impl vstd::std_specs::convert::FromSpecImpl<u64> for RecordId {
    open spec fn obeys_from_spec() -> bool {
        true
    }

    closed spec fn from_spec(v: u64) -> Self {
        RecordId(v)
    }
}

impl From<RecordId> for u64 {
    fn from(value: RecordId) -> (r: Self) {
        value.0
    }
}

impl vstd::std_specs::convert::FromSpecImpl<RecordId> for u64 {
    open spec fn obeys_from_spec() -> bool {
        true
    }

    closed spec fn from_spec(v: RecordId) -> u64 {
        v.0
    }
}

/// An id and its raw `u64` convert into each other without loss: a raw
/// value made an id and taken back is the same value, and an id taken to
/// its raw value and back is the same id.
pub proof fn law_record_id_u64_round_trip(x: u64, id: RecordId)
    ensures
        <u64 as vstd::std_specs::convert::FromSpec<RecordId>>::from_spec(
            <RecordId as vstd::std_specs::convert::FromSpec<u64>>::from_spec(x),
        ) == x,
        <RecordId as vstd::std_specs::convert::FromSpec<u64>>::from_spec(
            <u64 as vstd::std_specs::convert::FromSpec<RecordId>>::from_spec(id),
        ) == id,
        <RecordId as vstd::std_specs::convert::FromSpec<u64>>::from_spec(x).value() == x,
{
}

/// The ASCII character of a decimal digit.
pub open spec fn digit_char(d: nat) -> char {
    (('0' as u32) + d) as char
}

/// The decimal digits of `n`, most significant first, with no leading
/// zeros (`0` is written `"0"`).
pub open spec fn decimal_chars(n: nat) -> Seq<char>
    decreases n,
{
    if n < 10 {
        seq![digit_char(n)]
    } else {
        decimal_chars(n / 10).push(digit_char(n % 10))
    }
}

/// The number a string of decimal digits stands for, read most
/// significant digit first.
pub open spec fn decimal_value(s: Seq<char>) -> int
    decreases s.len(),
{
    if s.len() == 0 {
        0
    } else {
        10 * decimal_value(s.drop_last()) + (s.last() as int - '0' as int)
    }
}

/// Writing an id in decimal is faithful: the text is non-empty, made of
/// the digits `0` to `9`, has no leading zero unless the value is zero,
/// and reads back as the value.
pub proof fn law_decimal_reads_back(n: nat)
    ensures
        decimal_chars(n).len() > 0,
        forall|i: int| 0 <= i < decimal_chars(n).len() ==> '0' <= #[trigger] decimal_chars(n)[i] <= '9',
        decimal_chars(n)[0] == '0' ==> n == 0,
        decimal_value(decimal_chars(n)) == n,
    decreases n,
{
    if n >= 10 {
        law_decimal_reads_back(n / 10);
        let s = decimal_chars(n / 10);
        let t = s.push(digit_char(n % 10));
        assert(t.drop_last() =~= s);
        assert forall|i: int| 0 <= i < t.len() implies '0' <= #[trigger] t[i] <= '9' by {
            if i < s.len() {
                assert(t[i] == s[i]);
            }
        }
        assert(t[0] == s[0]);
        assert(digit_char(n % 10) as int == 48 + n % 10);
        assert(n == 10 * (n / 10) + n % 10);
        assert(decimal_value(t) == 10 * decimal_value(s) + (digit_char(n % 10) as int - 48));
    } else {
        let t = seq![digit_char(n)];
        assert(digit_char(n) as int == 48 + n);
        assert(t.drop_last() =~= Seq::<char>::empty());
        assert(decimal_value(t) == 10 * decimal_value(Seq::<char>::empty()) + (digit_char(n) as int - 48));
    }
}

/// The byte of each ASCII character.
pub open spec fn ascii_bytes(chars: Seq<char>) -> Seq<u8> {
    chars.map_values(|c: char| c as u8)
}

/// Decimal digits are ASCII.
proof fn lemma_decimal_is_ascii(n: nat)
    ensures
        is_ascii_chars(decimal_chars(n)),
    decreases n,
{
    if n >= 10 {
        lemma_decimal_is_ascii(n / 10);
        let s = decimal_chars(n / 10);
        let t = s.push(digit_char(n % 10));
        assert forall|i: int| 0 <= i < t.len() implies '\0' <= #[trigger] t[i] <= '\u{7f}' by {
            if i < s.len() {
                assert(t[i] == s[i]);
            }
        }
    }
}

/// Appends the decimal digits of `n`, as ASCII bytes.
fn push_decimal(out: &mut Vec<u8>, n: u64)
    ensures
        final(out)@ == old(out)@ + ascii_bytes(decimal_chars(n as nat)),
    decreases n,
{
    let ghost start = out@;
    if n >= 10 {
        push_decimal(out, n / 10);
    }
    let d: u8 = (n % 10) as u8;
    let ghost mid = out@;
    out.push(48u8 + d);
    proof {
        let c = digit_char((n % 10) as nat);
        assert(c as u8 == 48u8 + d);
        if n >= 10 {
            let s = decimal_chars((n / 10) as nat);
            assert(ascii_bytes(s.push(c)) =~= ascii_bytes(s).push(c as u8));
            assert(out@ =~= start + ascii_bytes(s.push(c)));
        } else {
            assert(decimal_chars(n as nat) == seq![c]);
            assert(out@ =~= start + ascii_bytes(seq![c]));
        }
    }
}

/// A stored entry: id, vector and optional metadata.
#[derive(Debug, PartialEq)]
pub struct Record {
    id: RecordId,
    vector: Vector,
    payload: Option<Payload>,
}

/// What a [`Record`] is, as a mathematical value.
pub struct RecordView {
    pub id: u64,
    pub vector: Seq<u32>,
    pub payload: Option<Seq<FieldView>>,
}

impl View for Record {
    type V = RecordView;

    closed spec fn view(&self) -> RecordView {
        RecordView {
            id: self.id.value(),
            vector: self.vector@,
            payload: match self.payload {
                Some(p) => Some(p@),
                None => None,
            },
        }
    }
}

impl Record {
    /// A record without metadata.
    pub fn new(id: RecordId, vector: Vector) -> (r: Record)
        ensures
            r@ == (RecordView { id: id.value(), vector: vector@, payload: None }),
    {
        Record { id, vector, payload: None }
    }

    /// A record with metadata.
    pub fn with_payload(id: RecordId, vector: Vector, payload: Payload) -> (r: Record)
        ensures
            r@ == (RecordView { id: id.value(), vector: vector@, payload: Some(payload@) }),
    {
        Record { id, vector, payload: Some(payload) }
    }

    /// The record's id.
    pub fn id(&self) -> (r: RecordId)
        ensures
            r.value() == self@.id,
    {
        self.id
    }

    /// The record's vector.
    pub fn vector(&self) -> (r: &Vector)
        ensures
            r@ == self@.vector,
    {
        &self.vector
    }

    /// The record's metadata, if any.
    pub fn payload(&self) -> (r: Option<&Payload>)
        ensures
            match self@.payload {
                Some(p) => r matches Some(x) && x@ == p,
                None => r is None,
            },
    {
        match &self.payload {
            Some(p) => Some(p),
            None => None,
        }
    }

    /// The id, vector and metadata, by value.
    pub fn into_parts(self) -> (r: (RecordId, Vector, Option<Payload>))
        ensures
            r.0.value() == self@.id,
            r.1@ == self@.vector,
            match self@.payload {
                Some(p) => r.2 matches Some(x) && x@ == p,
                None => r.2 is None,
            },
    {
        (self.id, self.vector, self.payload)
    }
}

impl Clone for Record {
    fn clone(&self) -> (r: Self)
        ensures
            r@ == self@,
    {
        let payload = match &self.payload {
            Some(p) => Some(p.clone()),
            None => None,
        };
        Record { id: self.id, vector: self.vector.clone(), payload }
    }
}

} // verus!
