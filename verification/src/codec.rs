//! The framed record codec: a versioned file header, and length-prefixed,
//! CRC-32-checked entries.
//!
//! Every file starts with the 4-byte magic `IQDB` and a little-endian
//! `u32` format version. Each entry is framed as
//!
//! ```text
//! payload_len: u32 LE | body bytes ... | crc32 over body: u32 LE
//! ```
//!
//! so a corrupt tail is detected (by its length or its checksum) without
//! confusing the entries before it.

use vstd::prelude::*;
use vstd::utf8::*;

use crate::bytes::{
    le_i64, le_u32, le_u64, lemma_u32_at, lemma_u32_roundtrip, lemma_u64_at, lemma_u64_roundtrip,
    lemma_window_split, u32_at, u64_at, write_i64, write_raw, write_u32, write_u64, Cursor,
};
use crate::engine::codec::e_vec;
use crate::float::Double;
use crate::payload::{
    field_insert, lemma_fields_view, lemma_pv_view, lemma_seq_view_empty, lemma_seq_view_index,
    lemma_seq_view_len, lemma_seq_view_push, key_lt, lemma_lower_bound, pv_seq_view, sorted_fields,
    FieldView, Payload, PayloadValue, PvView,
};
use crate::record::{Record, RecordId, RecordView};
use crate::vector::{all_finite, valid_components, Vector};

verus! {

/// The format version written after the magic.
pub const FORMAT_VERSION: u32 = 1;

/// Why bytes were refused as corrupt.
#[derive(Debug, Clone, Copy, PartialEq, Eq, Structural)]
pub enum Corruption {
    TruncatedHeader,
    BadMagic,
    UnknownVersion,
    TruncatedFrameLength,
    TruncatedFrameBody,
    CrcMismatch,
    TruncatedU8,
    TruncatedU32,
    TruncatedU64,
    TruncatedI64,
    TruncatedF64,
    TruncatedBytes,
    BadPayloadTag,
    TrailingUpsertBytes,
    TrailingDeleteBytes,
    UnknownOpKind,
    ZeroDimVector,
    NonFiniteVector,
    NonUtf8Key,
    UnknownPayloadTag,
    DeleteInSnapshot,
}

/// The description that [`Corruption::reason`] gives.
pub open spec fn corruption_reason(e: Corruption) -> Seq<char> {
    match e {
        Corruption::TruncatedHeader => "truncated header"@,
        Corruption::BadMagic => "bad magic"@,
        Corruption::UnknownVersion => "unknown format version"@,
        Corruption::TruncatedFrameLength => "truncated frame length"@,
        Corruption::TruncatedFrameBody => "truncated frame body"@,
        Corruption::CrcMismatch => "frame crc mismatch"@,
        Corruption::TruncatedU8 => "truncated u8"@,
        Corruption::TruncatedU32 => "truncated u32"@,
        Corruption::TruncatedU64 => "truncated u64"@,
        Corruption::TruncatedI64 => "truncated i64"@,
        Corruption::TruncatedF64 => "truncated f64"@,
        Corruption::TruncatedBytes => "truncated bytes"@,
        Corruption::BadPayloadTag => "bad payload tag"@,
        Corruption::TrailingUpsertBytes => "trailing bytes in upsert body"@,
        Corruption::TrailingDeleteBytes => "trailing bytes in delete body"@,
        Corruption::UnknownOpKind => "unknown op kind"@,
        Corruption::ZeroDimVector => "zero-dim vector in store"@,
        Corruption::NonFiniteVector => "non-finite vector in store"@,
        Corruption::NonUtf8Key => "non-utf8 payload key"@,
        Corruption::UnknownPayloadTag => "unknown payload tag"@,
        Corruption::DeleteInSnapshot => "delete frame in snapshot"@,
    }
}

impl Corruption {
    /// A short static description.
    pub fn reason(&self) -> (r: &'static str)
        ensures
            r@ == corruption_reason(*self),
    {
        match self {
            Corruption::TruncatedHeader => "truncated header",
            Corruption::BadMagic => "bad magic",
            Corruption::UnknownVersion => "unknown format version",
            Corruption::TruncatedFrameLength => "truncated frame length",
            Corruption::TruncatedFrameBody => "truncated frame body",
            Corruption::CrcMismatch => "frame crc mismatch",
            Corruption::TruncatedU8 => "truncated u8",
            Corruption::TruncatedU32 => "truncated u32",
            Corruption::TruncatedU64 => "truncated u64",
            Corruption::TruncatedI64 => "truncated i64",
            Corruption::TruncatedF64 => "truncated f64",
            Corruption::TruncatedBytes => "truncated bytes",
            Corruption::BadPayloadTag => "bad payload tag",
            Corruption::TrailingUpsertBytes => "trailing bytes in upsert body",
            Corruption::TrailingDeleteBytes => "trailing bytes in delete body",
            Corruption::UnknownOpKind => "unknown op kind",
            Corruption::ZeroDimVector => "zero-dim vector in store",
            Corruption::NonFiniteVector => "non-finite vector in store",
            Corruption::NonUtf8Key => "non-utf8 payload key",
            Corruption::UnknownPayloadTag => "unknown payload tag",
            Corruption::DeleteInSnapshot => "delete frame in snapshot",
        }
    }
}

/// The magic `IQDB`.
pub open spec fn file_magic() -> Seq<u8> {
    seq![0x49u8, 0x51u8, 0x44u8, 0x42u8]
}

/// The 8-byte file header: magic then version.
pub open spec fn header_bytes() -> Seq<u8> {
    file_magic() + le_u32(FORMAT_VERSION)
}

/// Appends the magic and version header.
pub fn write_header(buf: &mut Vec<u8>)
    ensures
        final(buf)@ == old(buf)@ + header_bytes(),
{
    buf.push(0x49);
    buf.push(0x51);
    buf.push(0x44);
    buf.push(0x42);
    write_u32(buf, FORMAT_VERSION);
    assert(buf@ =~= old(buf)@ + header_bytes());
}

/// Checks the header at the start of `bytes`, returning the number of
/// bytes it takes (8): a short input is a truncated header, then the magic
/// is checked, then the version.
pub fn read_header(bytes: &[u8]) -> (r: Result<usize, Corruption>)
    ensures
        bytes@.len() < 8 ==> r == Err::<usize, Corruption>(Corruption::TruncatedHeader),
        bytes@.len() >= 8 && bytes@.subrange(0, 4) != file_magic() ==> r == Err::<usize, Corruption>(
            Corruption::BadMagic,
        ),
        bytes@.len() >= 8 && bytes@.subrange(0, 4) == file_magic() && u32_at(bytes@, 4)
            != FORMAT_VERSION ==> r == Err::<usize, Corruption>(Corruption::UnknownVersion),
        bytes@.len() >= 8 && bytes@.subrange(0, 4) == file_magic() && u32_at(bytes@, 4)
            == FORMAT_VERSION ==> r == Ok::<usize, Corruption>(8),
{
    if bytes.len() < 8 {
        return Err(Corruption::TruncatedHeader);
    }
    if !(bytes[0] == 0x49 && bytes[1] == 0x51 && bytes[2] == 0x44 && bytes[3] == 0x42) {
        proof {
            let m = bytes@.subrange(0, 4);
            assert(m[0] == bytes@[0] && m[1] == bytes@[1] && m[2] == bytes@[2] && m[3] == bytes@[3]);
        }
        return Err(Corruption::BadMagic);
    }
    assert(bytes@.subrange(0, 4) =~= file_magic());
    let version = (bytes[4] as u32) | ((bytes[5] as u32) << 8u32) | ((bytes[6] as u32) << 16u32) | ((
    bytes[7] as u32) << 24u32);
    if version != FORMAT_VERSION {
        return Err(Corruption::UnknownVersion);
    }
    Ok(8)
}

// ---------------------------------------------------------------------
// CRC-32 (IEEE 802.3, reflected, polynomial 0xEDB88320).
// ---------------------------------------------------------------------

/// One step of the reflected CRC shift register.
pub open spec fn crc_shift(c: u32) -> u32 {
    if c & 1 == 1 {
        (c >> 1u32) ^ 0xEDB8_8320u32
    } else {
        c >> 1u32
    }
}

/// `n` steps of the shift register.
pub open spec fn crc_shift_n(c: u32, n: nat) -> u32
    decreases n,
{
    if n == 0 {
        c
    } else {
        crc_shift(crc_shift_n(c, (n - 1) as nat))
    }
}

/// The register after feeding `bytes`, starting from `c`.
pub open spec fn crc_feed(c: u32, bytes: Seq<u8>) -> u32
    decreases bytes.len(),
{
    if bytes.len() == 0 {
        c
    } else {
        crc_shift_n(crc_feed(c, bytes.drop_last()) ^ (bytes.last() as u32), 8)
    }
}

/// CRC-32/IEEE of `bytes`: the register starts all ones and is inverted
/// at the end.
pub open spec fn crc32_of(bytes: Seq<u8>) -> u32 {
    !crc_feed(0xFFFF_FFFFu32, bytes)
}

/// CRC-32/IEEE of `bytes[start..end]`, computed bit by bit.
fn crc32_range(bytes: &[u8], start: usize, end: usize) -> (r: u32)
    requires
        start <= end <= bytes@.len(),
    ensures
        r == crc32_of(bytes@.subrange(start as int, end as int)),
{
    let mut crc: u32 = 0xFFFF_FFFF;
    let mut i: usize = start;
    while i < end
        invariant
            start <= i <= end <= bytes@.len(),
            crc == crc_feed(0xFFFF_FFFFu32, bytes@.subrange(start as int, i as int)),
        decreases end - i,
    {
        crc = crc ^ (bytes[i] as u32);
        let ghost start_reg = crc;
        let mut k: u32 = 0;
        while k < 8
            invariant
                k <= 8,
                crc == crc_shift_n(start_reg, k as nat),
            decreases 8 - k,
        {
            let mask: u32 = if crc & 1 == 1 {
                0xFFFF_FFFF
            } else {
                0
            };
            let prev = crc;
            crc = (crc >> 1u32) ^ (0xEDB8_8320u32 & mask);
            assert(crc == crc_shift(prev)) by (bit_vector)
                requires
                    crc == (prev >> 1u32) ^ (0xEDB8_8320u32 & mask),
                    mask == (if prev & 1 == 1 {
                        0xFFFF_FFFFu32
                    } else {
                        0u32
                    }),
            ;
            k = k + 1;
        }
        proof {
            let s = bytes@.subrange(start as int, i + 1);
            assert(s.drop_last() =~= bytes@.subrange(start as int, i as int));
            assert(s.last() == bytes@[i as int]);
        }
        i = i + 1;
    }
    !crc
}

/// CRC-32/IEEE-802.3 (the Ethernet CRC) of `bytes`, computed bit by bit.
pub fn crc32(bytes: &[u8]) -> (r: u32)
    ensures
        r == crc32_of(bytes@),
{
    assert(bytes@.subrange(0, bytes@.len() as int) =~= bytes@);
    crc32_range(bytes, 0, bytes.len())
}

// ---------------------------------------------------------------------
// Entries.
// ---------------------------------------------------------------------

/// What one entry does.
#[derive(Debug, PartialEq)]
pub enum Op {
    Upsert(Record),
    Delete(RecordId),
}

/// What an [`Op`] is, as a mathematical value.
pub enum OpView {
    Upsert(RecordView),
    Delete(u64),
}

impl View for Op {
    type V = OpView;

    open spec fn view(&self) -> OpView {
        match self {
            Op::Upsert(r) => OpView::Upsert(r@),
            Op::Delete(id) => OpView::Delete(id.value()),
        }
    }
}

/// A length or count as written: a little-endian `u32`, truncated to 32
/// bits as the writer casts it.
pub open spec fn e_len(n: nat) -> Seq<u8> {
    le_u32(n as u32)
}

/// A length-prefixed byte string.
pub open spec fn e_blob(b: Seq<u8>) -> Seq<u8> {
    e_len(b.len()) + b
}

/// A length-prefixed UTF-8 string.
pub open spec fn e_text(s: Seq<char>) -> Seq<u8> {
    e_blob(encode_utf8(s))
}

/// The tagged encoding of a metadata value.
pub open spec fn e_pv(v: PvView) -> Seq<u8>
    decreases v,
{
    match v {
        PvView::Null => seq![0u8],
        PvView::Bool(b) => seq![1u8, if b { 1u8 } else { 0u8 }],
        PvView::Int(i) => seq![2u8] + le_i64(i),
        PvView::Float(f) => seq![3u8] + le_u64(f),
        PvView::Text(t) => seq![4u8] + e_text(t),
        PvView::Bytes(b) => seq![5u8] + e_blob(b),
        PvView::Array(items) => seq![6u8] + e_len(items.len()) + e_pvs(items),
        PvView::Object(fields) => seq![7u8] + e_len(fields.len()) + e_fields(fields),
    }
}

/// Values one after another.
pub open spec fn e_pvs(items: Seq<PvView>) -> Seq<u8>
    decreases items,
{
    if items.len() == 0 {
        Seq::empty()
    } else {
        e_pv(items[0]) + e_pvs(items.drop_first())
    }
}

/// Key-value pairs one after another.
pub open spec fn e_fields(fields: Seq<FieldView>) -> Seq<u8>
    decreases fields,
{
    if fields.len() == 0 {
        Seq::empty()
    } else {
        e_text(fields[0].0) + e_pv(fields[0].1) + e_fields(fields.drop_first())
    }
}

/// A payload: its field count, then its fields in order.
pub open spec fn e_payload(fields: Seq<FieldView>) -> Seq<u8> {
    e_len(fields.len()) + e_fields(fields)
}

/// An entry's body: the op kind and id, then for an upsert the vector and
/// the optional payload.
pub open spec fn e_body(op: OpView) -> Seq<u8> {
    match op {
        OpView::Upsert(r) => seq![0u8] + le_u64(r.id) + e_len(r.vector.len()) + e_vec(r.vector)
            + match r.payload {
            None => seq![0u8],
            Some(p) => seq![1u8] + e_payload(p),
        },
        OpView::Delete(id) => seq![1u8] + le_u64(id),
    }
}

/// A framed entry: body length, body, and the CRC-32 of the body (of as
/// many body bytes as the written length says).
#[verifier::opaque]
pub open spec fn e_frame(op: OpView) -> Seq<u8> {
    let body = e_body(op);
    e_len(body.len()) + body + le_u32(crc32_of(body.subrange(0, (body.len() as u32) as int)))
}

// ---------------------------------------------------------------------
// Writing.
// ---------------------------------------------------------------------

fn write_len(buf: &mut Vec<u8>, n: usize)
    ensures
        final(buf)@ == old(buf)@ + e_len(n as nat),
{
    write_u32(buf, n as u32);
}

fn write_blob(buf: &mut Vec<u8>, b: &[u8])
    ensures
        final(buf)@ == old(buf)@ + e_blob(b@),
{
    let ghost start = buf@;
    write_len(buf, b.len());
    write_raw(buf, b);
    assert(buf@ =~= start + e_blob(b@));
}

fn write_text(buf: &mut Vec<u8>, s: &str)
    ensures
        final(buf)@ == old(buf)@ + e_text(s@),
{
    write_blob(buf, s.as_bytes());
}

fn write_words(buf: &mut Vec<u8>, v: &[u32])
    ensures
        final(buf)@ == old(buf)@ + e_vec(v@),
{
    let ghost start = buf@;
    let mut i: usize = 0;
    while i < v.len()
        invariant
            i <= v@.len(),
            buf@ == start + e_vec(v@.subrange(0, i as int)),
        decreases v.len() - i,
    {
        write_u32(buf, v[i]);
        proof {
            let s = v@.subrange(0, i + 1);
            assert(s.drop_last() =~= v@.subrange(0, i as int));
            assert(s.last() == v@[i as int]);
        }
        i = i + 1;
        assert(buf@ =~= start + e_vec(v@.subrange(0, i as int)));
    }
    assert(v@.subrange(0, v@.len() as int) =~= v@);
}

proof fn lemma_e_pvs_split(items: Seq<PvView>, i: int)
    requires
        0 <= i < items.len(),
    ensures
        e_pvs(items.subrange(0, i + 1)) == e_pvs(items.subrange(0, i)) + e_pv(items[i]),
    decreases i,
{
    let a = items.subrange(0, i + 1);
    if i == 0 {
        assert(a.drop_first() =~= Seq::<PvView>::empty());
        assert(items.subrange(0, 0) =~= Seq::<PvView>::empty());
        assert(a[0] == items[0]);
        assert(e_pvs(a.drop_first()) == Seq::<u8>::empty());
        assert(e_pvs(a) =~= e_pv(items[0]));
    } else {
        let t = items.drop_first();
        lemma_e_pvs_split(t, i - 1);
        assert(a.drop_first() =~= t.subrange(0, i));
        assert(items.subrange(0, i).drop_first() =~= t.subrange(0, i - 1));
        assert(t[i - 1] == items[i]);
        assert(e_pvs(a) =~= e_pvs(items.subrange(0, i)) + e_pv(items[i]));
    }
}

proof fn lemma_e_fields_split(fields: Seq<FieldView>, i: int)
    requires
        0 <= i < fields.len(),
    ensures
        e_fields(fields.subrange(0, i + 1)) == e_fields(fields.subrange(0, i)) + e_text(fields[i].0)
            + e_pv(fields[i].1),
    decreases i,
{
    let a = fields.subrange(0, i + 1);
    if i == 0 {
        assert(a.drop_first() =~= Seq::<FieldView>::empty());
        assert(fields.subrange(0, 0) =~= Seq::<FieldView>::empty());
        assert(a[0] == fields[0]);
        assert(e_fields(a.drop_first()) == Seq::<u8>::empty());
        assert(e_fields(a) =~= e_text(fields[0].0) + e_pv(fields[0].1));
    } else {
        let t = fields.drop_first();
        lemma_e_fields_split(t, i - 1);
        assert(a.drop_first() =~= t.subrange(0, i));
        assert(fields.subrange(0, i).drop_first() =~= t.subrange(0, i - 1));
        assert(t[i - 1] == fields[i]);
        assert(e_fields(a) =~= e_fields(fields.subrange(0, i)) + e_text(fields[i].0) + e_pv(
            fields[i].1,
        ));
    }
}

/// Appends `fields` one after another.
fn write_fields(buf: &mut Vec<u8>, fields: &[(String, PayloadValue)])
    ensures
        final(buf)@ == old(buf)@ + e_fields(crate::payload::pv_fields_view(fields@)),
    decreases crate::payload::pv_fields_view(fields@),
{
    let ghost start = buf@;
    let ghost fv = crate::payload::pv_fields_view(fields@);
    proof {
        lemma_fields_view(fields@);
        assert(fv.subrange(0, 0) =~= Seq::<FieldView>::empty());
    }
    let mut i: usize = 0;
    while i < fields.len()
        invariant
            i <= fields@.len(),
            fv == crate::payload::pv_fields_view(fields@),
            fv.len() == fields@.len(),
            forall|j: int| 0 <= j < fields@.len() ==> #[trigger] fv[j] == (fields@[j].0@, fields@[j].1@),
            buf@ == start + e_fields(fv.subrange(0, i as int)),
        decreases fields.len() - i,
    {
        write_text(buf, fields[i].0.as_str());
        proof {
            assert(decreases_to!(fv => fv[i as int]));
            assert(decreases_to!(fv[i as int] => fv[i as int].1));
            assert(fv[i as int].1 == fields@[i as int].1@);
            assert(decreases_to!(fv => fields@[i as int].1@));
        }
        write_payload_value(buf, &fields[i].1);
        proof {
            lemma_e_fields_split(fv, i as int);
        }
        i = i + 1;
        assert(buf@ =~= start + e_fields(fv.subrange(0, i as int)));
    }
    assert(fv.subrange(0, fields@.len() as int) =~= fv);
}

/// Appends the tagged encoding of `v`.
pub fn write_payload_value(buf: &mut Vec<u8>, v: &PayloadValue)
    ensures
        final(buf)@ == old(buf)@ + e_pv(v@),
    decreases v@,
{
    let ghost start = buf@;
    proof {
        lemma_pv_view(*v);
    }
    match v {
        PayloadValue::Null => {
            buf.push(0u8);
        },
        PayloadValue::Bool(b) => {
            buf.push(1u8);
            buf.push(if *b { 1u8 } else { 0u8 });
        },
        PayloadValue::Int(i) => {
            buf.push(2u8);
            write_i64(buf, *i);
        },
        PayloadValue::Float(f) => {
            buf.push(3u8);
            write_u64(buf, f.0);
        },
        PayloadValue::Text(t) => {
            buf.push(4u8);
            write_text(buf, t.as_str());
        },
        PayloadValue::Bytes(b) => {
            buf.push(5u8);
            write_blob(buf, b.as_slice());
        },
        PayloadValue::Array(items) => {
            buf.push(6u8);
            write_len(buf, items.len());
            let ghost iv = pv_seq_view(items@);
            let ghost mid = buf@;
            proof {
                lemma_seq_view_len(items@);
                assert(iv.subrange(0, 0) =~= Seq::<PvView>::empty());
            }
            let mut i: usize = 0;
            while i < items.len()
                invariant
                    i <= items@.len(),
                    iv == pv_seq_view(items@),
                    iv.len() == items@.len(),
                    v@ == PvView::Array(iv),
                    buf@ == mid + e_pvs(iv.subrange(0, i as int)),
                decreases items.len() - i,
            {
                proof {
                    lemma_seq_view_index(items@, i as int);
                    assert(v@ == PvView::Array(iv));
                    assert(decreases_to!(v@ => v@->Array_0));
                    assert(decreases_to!(iv => iv[i as int]));
                    assert(iv[i as int] == items@[i as int]@);
                    assert(decreases_to!(v@ => items@[i as int]@));
                }
                write_payload_value(buf, &items[i]);
                proof {
                    lemma_e_pvs_split(iv, i as int);
                }
                i = i + 1;
                assert(buf@ =~= mid + e_pvs(iv.subrange(0, i as int)));
            }
            assert(iv.subrange(0, items@.len() as int) =~= iv);
        },
        PayloadValue::Object(p) => {
            buf.push(7u8);
            write_len(buf, p.len());
            let m = p.as_map();
            proof {
                assert(v@ == PvView::Object(crate::payload::pv_fields_view(m@)));
                assert(decreases_to!(v@ => v@->Object_0));
                assert(decreases_to!(v@ => crate::payload::pv_fields_view(m@)));
            }
            write_fields(buf, m);
        },
    }
    assert(buf@ =~= start + e_pv(v@));
}

/// Appends the body of `op`.
fn write_body(buf: &mut Vec<u8>, op: &Op)
    ensures
        final(buf)@ == old(buf)@ + e_body(op@),
{
    let ghost start = buf@;
    match op {
        Op::Upsert(record) => {
            buf.push(0u8);
            write_u64(buf, record.id().get());
            let bits = record.vector().as_bits();
            write_len(buf, bits.len());
            write_words(buf, bits);
            match record.payload() {
                Some(p) => {
                    buf.push(1u8);
                    let ghost before = buf@;
                    write_len(buf, p.len());
                    write_fields(buf, p.as_map());
                    assert(buf@ =~= before + e_payload(p@));
                },
                None => {
                    buf.push(0u8);
                },
            }
        },
        Op::Delete(id) => {
            buf.push(1u8);
            write_u64(buf, id.get());
        },
    }
    assert(buf@ =~= start + e_body(op@));
}

/// Writes the four little-endian bytes of `x` over `buf[at..at + 4]`.
fn patch_u32(buf: &mut Vec<u8>, at: usize, x: u32)
    requires
        at + 4 <= old(buf)@.len(),
    ensures
        final(buf)@ == old(buf)@.subrange(0, at as int) + le_u32(x) + old(buf)@.subrange(
            at + 4,
            old(buf)@.len() as int,
        ),
{
    let n = buf.len();
    assert(at + 4 <= n);
    buf.set(at, (x & 0xff) as u8);
    buf.set(at + 1, ((x >> 8u32) & 0xff) as u8);
    buf.set(at + 2, ((x >> 16u32) & 0xff) as u8);
    buf.set(at + 3, ((x >> 24u32) & 0xff) as u8);
    assert(buf@ =~= old(buf)@.subrange(0, at as int) + le_u32(x) + old(buf)@.subrange(
        at + 4,
        old(buf)@.len() as int,
    ));
}

/// Appends `op` as one frame: the body length, the body, and the CRC-32
/// of the body. The length placeholder is written first and patched once
/// the body is in place.
pub fn write_frame(buf: &mut Vec<u8>, op: &Op)
    ensures
        final(buf)@ == old(buf)@ + e_frame(op@),
{
    let ghost start = buf@;
    let len_pos = buf.len();
    buf.push(0u8);
    buf.push(0u8);
    buf.push(0u8);
    buf.push(0u8);
    let body_start = buf.len();
    write_body(buf, op);
    let ghost body = e_body(op@);
    assert(buf@.subrange(0, len_pos as int) =~= start);
    assert(buf@.subrange(len_pos + 4, buf@.len() as int) =~= body);
    let body_len = (buf.len() - body_start) as u32;
    patch_u32(buf, len_pos, body_len);
    assert(buf@ == start + e_len(body.len()) + body);
    let body_end = body_start + body_len as usize;
    let crc = crc32_range(buf.as_slice(), body_start, body_end);
    assert(buf@.subrange(body_start as int, body_end as int) =~= body.subrange(
        0,
        (body.len() as u32) as int,
    ));
    write_u32(buf, crc);
    reveal(e_frame);
    assert(buf@ =~= start + e_frame(op@));
}

// ---------------------------------------------------------------------
// What the bytes are read as.
// ---------------------------------------------------------------------

/// A parse step: the value read and the position after it, or why the
/// bytes were refused.
pub type FRes<T> = Result<(T, int), Corruption>;

pub open spec fn f_u8(b: Seq<u8>, p: int) -> FRes<u8> {
    if p + 1 > b.len() {
        Err(Corruption::TruncatedU8)
    } else {
        Ok((b[p], p + 1))
    }
}

pub open spec fn f_u32(b: Seq<u8>, p: int) -> FRes<u32> {
    if p + 4 > b.len() {
        Err(Corruption::TruncatedU32)
    } else {
        Ok((u32_at(b, p), p + 4))
    }
}

pub open spec fn f_u64(b: Seq<u8>, p: int) -> FRes<u64> {
    if p + 8 > b.len() {
        Err(Corruption::TruncatedU64)
    } else {
        Ok((u64_at(b, p), p + 8))
    }
}

pub open spec fn f_i64(b: Seq<u8>, p: int) -> FRes<i64> {
    if p + 8 > b.len() {
        Err(Corruption::TruncatedI64)
    } else {
        Ok((u64_at(b, p) as i64, p + 8))
    }
}

/// A float's eight bytes, read as its bits.
pub open spec fn f_f64(b: Seq<u8>, p: int) -> FRes<u64> {
    if p + 8 > b.len() {
        Err(Corruption::TruncatedF64)
    } else {
        Ok((u64_at(b, p), p + 8))
    }
}

pub open spec fn f_bytes(b: Seq<u8>, p: int, n: int) -> FRes<Seq<u8>> {
    if p + n > b.len() {
        Err(Corruption::TruncatedBytes)
    } else {
        Ok((b.subrange(p, p + n), p + n))
    }
}

/// A length-prefixed UTF-8 string.
pub open spec fn f_text(b: Seq<u8>, p: int) -> FRes<Seq<char>> {
    match f_u32(b, p) {
        Err(e) => Err(e),
        Ok((n, q)) => match f_bytes(b, q, n as int) {
            Err(e) => Err(e),
            Ok((bs, r)) => if valid_utf8(bs) {
                Ok((decode_utf8(bs), r))
            } else {
                Err(Corruption::NonUtf8Key)
            },
        },
    }
}

/// `n` more vector components after `acc`, four bytes each.
pub open spec fn f_words(b: Seq<u8>, p: int, n: nat, acc: Seq<u32>) -> FRes<Seq<u32>>
    decreases n,
{
    if n == 0 {
        Ok((acc, p))
    } else {
        match f_bytes(b, p, 4) {
            Err(e) => Err(e),
            Ok((_, q)) => f_words(b, q, (n - 1) as nat, acc.push(u32_at(b, p))),
        }
    }
}

/// A vector: its dimension (not zero), then the components (all finite).
pub open spec fn f_vector(b: Seq<u8>, p: int) -> FRes<Seq<u32>> {
    match f_u32(b, p) {
        Err(e) => Err(e),
        Ok((dim, q)) => if dim == 0 {
            Err(Corruption::ZeroDimVector)
        } else {
            match f_words(b, q, dim as nat, Seq::empty()) {
                Err(e) => Err(e),
                Ok((ws, r)) => if all_finite(ws) {
                    Ok((ws, r))
                } else {
                    Err(Corruption::NonFiniteVector)
                },
            }
        },
    }
}

/// A tagged metadata value.
pub open spec fn f_pv(b: Seq<u8>, p: int) -> FRes<PvView>
    decreases b.len() - p, 0int, 0int,
{
    match f_u8(b, p) {
        Err(e) => Err(e),
        Ok((tag, q)) => if tag == 0 {
            Ok((PvView::Null, q))
        } else if tag == 1 {
            match f_u8(b, q) {
                Err(e) => Err(e),
                Ok((x, r)) => Ok((PvView::Bool(x != 0), r)),
            }
        } else if tag == 2 {
            match f_i64(b, q) {
                Err(e) => Err(e),
                Ok((x, r)) => Ok((PvView::Int(x), r)),
            }
        } else if tag == 3 {
            match f_f64(b, q) {
                Err(e) => Err(e),
                Ok((x, r)) => Ok((PvView::Float(x), r)),
            }
        } else if tag == 4 {
            match f_text(b, q) {
                Err(e) => Err(e),
                Ok((t, r)) => Ok((PvView::Text(t), r)),
            }
        } else if tag == 5 {
            match f_u32(b, q) {
                Err(e) => Err(e),
                Ok((n, r)) => match f_bytes(b, r, n as int) {
                    Err(e) => Err(e),
                    Ok((bs, t)) => Ok((PvView::Bytes(bs), t)),
                },
            }
        } else if tag == 6 {
            match f_u32(b, q) {
                Err(e) => Err(e),
                Ok((n, r)) => match f_items(b, r, n as nat, Seq::empty()) {
                    Err(e) => Err(e),
                    Ok((vs, t)) => Ok((PvView::Array(vs), t)),
                },
            }
        } else if tag == 7 {
            match f_u32(b, q) {
                Err(e) => Err(e),
                Ok((n, r)) => match f_fields(b, r, n as nat, Seq::empty()) {
                    Err(e) => Err(e),
                    Ok((fs, t)) => Ok((PvView::Object(fs), t)),
                },
            }
        } else {
            Err(Corruption::UnknownPayloadTag)
        },
    }
}

/// `n` more values after `acc`. (Every value takes at least one byte, so
/// the position always advances; the guard only makes that visible.)
pub open spec fn f_items(b: Seq<u8>, p: int, n: nat, acc: Seq<PvView>) -> FRes<Seq<PvView>>
    decreases b.len() - p, 1int, n,
{
    if n == 0 {
        Ok((acc, p))
    } else {
        match f_pv(b, p) {
            Err(e) => Err(e),
            Ok((v, q)) => if p < q <= b.len() {
                f_items(b, q, (n - 1) as nat, acc.push(v))
            } else {
                Err(Corruption::TruncatedU8)
            },
        }
    }
}

/// `n` more key-value pairs, each inserted into `acc` (a repeated key
/// keeps its last value).
pub open spec fn f_fields(b: Seq<u8>, p: int, n: nat, acc: Seq<FieldView>) -> FRes<Seq<FieldView>>
    decreases b.len() - p, 1int, n,
{
    if n == 0 {
        Ok((acc, p))
    } else {
        match f_text(b, p) {
            Err(e) => Err(e),
            Ok((k, q)) => if p < q <= b.len() {
                match f_pv(b, q) {
                    Err(e) => Err(e),
                    Ok((v, r)) => if q < r <= b.len() {
                        f_fields(b, r, (n - 1) as nat, field_insert(acc, k, v))
                    } else {
                        Err(Corruption::TruncatedU8)
                    },
                }
            } else {
                Err(Corruption::TruncatedU8)
            },
        }
    }
}

/// A payload: its field count, then its fields.
pub open spec fn f_payload(b: Seq<u8>, p: int) -> FRes<Seq<FieldView>> {
    match f_u32(b, p) {
        Err(e) => Err(e),
        Ok((n, q)) => f_fields(b, q, n as nat, Seq::empty()),
    }
}

/// An entry's body. The kind and the id are read first, whatever the
/// kind; every byte of the body must be used.
pub open spec fn f_body(b: Seq<u8>) -> Result<OpView, Corruption> {
    match f_u8(b, 0) {
        Err(e) => Err(e),
        Ok((kind, q)) => match f_u64(b, q) {
            Err(e) => Err(e),
            Ok((id, r)) => if kind == 0 {
                match f_vector(b, r) {
                    Err(e) => Err(e),
                    Ok((ws, t)) => match f_u8(b, t) {
                        Err(e) => Err(e),
                        Ok((has, u)) => if has == 0 {
                            if u == b.len() {
                                Ok(OpView::Upsert(RecordView { id, vector: ws, payload: None }))
                            } else {
                                Err(Corruption::TrailingUpsertBytes)
                            }
                        } else if has == 1 {
                            match f_payload(b, u) {
                                Err(e) => Err(e),
                                Ok((pl, w)) => if w == b.len() {
                                    Ok(
                                        OpView::Upsert(
                                            RecordView { id, vector: ws, payload: Some(pl) },
                                        ),
                                    )
                                } else {
                                    Err(Corruption::TrailingUpsertBytes)
                                },
                            }
                        } else {
                            Err(Corruption::BadPayloadTag)
                        },
                    },
                }
            } else if kind == 1 {
                if r == b.len() {
                    Ok(OpView::Delete(id))
                } else {
                    Err(Corruption::TrailingDeleteBytes)
                }
            } else {
                Err(Corruption::UnknownOpKind)
            },
        },
    }
}

/// One frame at the start of `b`: `None` for empty input, else the entry
/// and the number of bytes the frame takes.
pub open spec fn f_frame(b: Seq<u8>) -> Result<Option<(OpView, int)>, Corruption> {
    if b.len() == 0 {
        Ok(None)
    } else if b.len() < 4 {
        Err(Corruption::TruncatedFrameLength)
    } else {
        let n = u32_at(b, 0) as int;
        if b.len() < 4 + n + 4 {
            Err(Corruption::TruncatedFrameBody)
        } else if crc32_of(b.subrange(4, 4 + n)) != u32_at(b, 4 + n) {
            Err(Corruption::CrcMismatch)
        } else {
            match f_body(b.subrange(4, 4 + n)) {
                Err(e) => Err(e),
                Ok(op) => Ok(Some((op, 8 + n))),
            }
        }
    }
}

// ---------------------------------------------------------------------
// Reading.
// ---------------------------------------------------------------------

/// `r` is what the spec step `s` reads, and the cursor stands at the
/// position after it.
pub open spec fn fsteps<T>(r: Result<T, Corruption>, s: FRes<T>, pos: int) -> bool {
    match r {
        Ok(v) => s matches Ok((w, q)) && v == w && pos == q,
        Err(e) => s == Err::<(T, int), Corruption>(e),
    }
}

/// As [`fsteps`], for a result compared by its view.
pub open spec fn fsteps_view<T: View>(r: Result<T, Corruption>, s: FRes<T::V>, pos: int) -> bool {
    match r {
        Ok(v) => s matches Ok((w, q)) && v@ == w && pos == q,
        Err(e) => s == Err::<(T::V, int), Corruption>(e),
    }
}

/// The cursor still reads the same bytes and is well formed.
pub open spec fn kept(before: Cursor, after: Cursor) -> bool {
    after.wf() && after.data() == before.data()
}

fn take_u8(c: &mut Cursor) -> (r: Result<u8, Corruption>)
    requires
        old(c).wf(),
    ensures
        kept(*old(c), *final(c)),
        fsteps(r, f_u8(old(c).data(), old(c).position()), final(c).position()),
{
    match c.read_u8() {
        None => Err(Corruption::TruncatedU8),
        Some(v) => Ok(v),
    }
}

fn take_u32(c: &mut Cursor) -> (r: Result<u32, Corruption>)
    requires
        old(c).wf(),
    ensures
        kept(*old(c), *final(c)),
        fsteps(r, f_u32(old(c).data(), old(c).position()), final(c).position()),
{
    match c.read_u32() {
        None => Err(Corruption::TruncatedU32),
        Some(v) => Ok(v),
    }
}

fn take_u64(c: &mut Cursor) -> (r: Result<u64, Corruption>)
    requires
        old(c).wf(),
    ensures
        kept(*old(c), *final(c)),
        fsteps(r, f_u64(old(c).data(), old(c).position()), final(c).position()),
{
    match c.read_u64() {
        None => Err(Corruption::TruncatedU64),
        Some(v) => Ok(v),
    }
}

fn take_i64(c: &mut Cursor) -> (r: Result<i64, Corruption>)
    requires
        old(c).wf(),
    ensures
        kept(*old(c), *final(c)),
        fsteps(r, f_i64(old(c).data(), old(c).position()), final(c).position()),
{
    match c.read_i64() {
        None => Err(Corruption::TruncatedI64),
        Some(v) => Ok(v),
    }
}

fn take_f64(c: &mut Cursor) -> (r: Result<u64, Corruption>)
    requires
        old(c).wf(),
    ensures
        kept(*old(c), *final(c)),
        fsteps(r, f_f64(old(c).data(), old(c).position()), final(c).position()),
{
    match c.read_u64() {
        None => Err(Corruption::TruncatedF64),
        Some(v) => Ok(v),
    }
}

fn take_bytes(c: &mut Cursor, n: usize) -> (r: Result<Vec<u8>, Corruption>)
    requires
        old(c).wf(),
    ensures
        kept(*old(c), *final(c)),
        fsteps_view(r, f_bytes(old(c).data(), old(c).position(), n as int), final(c).position()),
{
    match c.read_exact(n) {
        None => Err(Corruption::TruncatedBytes),
        Some(v) => Ok(v),
    }
}

fn read_text(c: &mut Cursor) -> (r: Result<String, Corruption>)
    requires
        old(c).wf(),
    ensures
        kept(*old(c), *final(c)),
        fsteps_view(r, f_text(old(c).data(), old(c).position()), final(c).position()),
{
    let n = take_u32(c)?;
    let bytes = take_bytes(c, n as usize)?;
    match crate::engine::codec::string_from_utf8(bytes) {
        None => Err(Corruption::NonUtf8Key),
        Some(s) => {
            proof {
                encode_utf8_decode_utf8(s@);
            }
            Ok(s)
        },
    }
}

fn read_words(c: &mut Cursor, dim: u32) -> (r: Result<Vec<u32>, Corruption>)
    requires
        old(c).wf(),
    ensures
        kept(*old(c), *final(c)),
        fsteps_view(
            r,
            f_words(old(c).data(), old(c).position(), dim as nat, Seq::empty()),
            final(c).position(),
        ),
{
    let ghost b = c.data();
    let ghost p0 = c.position();
    let mut out: Vec<u32> = Vec::new();
    let mut k: u32 = 0;
    while k < dim
        invariant
            c.wf(),
            c.data() == b,
            b == old(c).data(),
            p0 == old(c).position(),
            k <= dim,
            f_words(b, p0, dim as nat, Seq::empty()) == f_words(
                b,
                c.position(),
                (dim - k) as nat,
                out@,
            ),
        decreases dim - k,
    {
        match c.read_u32() {
            None => {
                return Err(Corruption::TruncatedBytes);
            },
            Some(w) => {
                out.push(w);
            },
        }
        k = k + 1;
    }
    Ok(out)
}

fn read_vector(c: &mut Cursor) -> (r: Result<Vector, Corruption>)
    requires
        old(c).wf(),
    ensures
        kept(*old(c), *final(c)),
        fsteps_view(r, f_vector(old(c).data(), old(c).position()), final(c).position()),
{
    let dim = take_u32(c)?;
    if dim == 0 {
        return Err(Corruption::ZeroDimVector);
    }
    let ghost q = c.position();
    let words = read_words(c, dim)?;
    proof {
        lemma_words_len(c.data(), q, dim as nat, Seq::empty());
    }
    match Vector::from_bits(words) {
        Err(_) => Err(Corruption::NonFiniteVector),
        Ok(v) => Ok(v),
    }
}

/// Reads `n` key-value pairs, inserting each into `p`.
fn read_fields(c: &mut Cursor, n: u32, p: Payload) -> (r: Result<Payload, Corruption>)
    requires
        old(c).wf(),
    ensures
        kept(*old(c), *final(c)),
        fsteps_view(r, f_fields(old(c).data(), old(c).position(), n as nat, p@), final(c).position()),
        r is Ok ==> final(c).position() >= old(c).position(),
    decreases old(c).data().len() - old(c).position(), 1int,
{
    let ghost b = c.data();
    let ghost p0 = c.position();
    let mut acc = p;
    let mut k: u32 = 0;
    while k < n
        invariant
            c.wf(),
            c.data() == b,
            b == old(c).data(),
            p0 == old(c).position(),
            k <= n,
            p0 <= c.position(),
            f_fields(b, p0, n as nat, p@) == f_fields(b, c.position(), (n - k) as nat, acc@),
        decreases n - k,
    {
        let ghost pos = c.position();
        let key = read_text(c)?;
        let ghost q = c.position();
        assert(pos < q);
        let value = read_payload_value(c)?;
        acc.insert(key, value);
        k = k + 1;
    }
    Ok(acc)
}

proof fn lemma_words_len(b: Seq<u8>, p: int, n: nat, acc: Seq<u32>)
    ensures
        f_words(b, p, n, acc) matches Ok((ws, _)) ==> ws.len() == acc.len() + n,
    decreases n,
{
    if n > 0 && p + 4 <= b.len() {
        lemma_words_len(b, p + 4, (n - 1) as nat, acc.push(u32_at(b, p)));
    }
}

/// Reads one tagged metadata value.
pub fn read_payload_value(c: &mut Cursor) -> (r: Result<PayloadValue, Corruption>)
    requires
        old(c).wf(),
    ensures
        kept(*old(c), *final(c)),
        fsteps_view(r, f_pv(old(c).data(), old(c).position()), final(c).position()),
        r is Ok ==> final(c).position() > old(c).position(),
    decreases old(c).data().len() - old(c).position(), 0int,
{
    let ghost b = c.data();
    let ghost p0 = c.position();
    let tag = take_u8(c)?;
    let v = if tag == 0 {
        PayloadValue::Null
    } else if tag == 1 {
        let x = take_u8(c)?;
        PayloadValue::Bool(x != 0)
    } else if tag == 2 {
        PayloadValue::Int(take_i64(c)?)
    } else if tag == 3 {
        PayloadValue::Float(Double(take_f64(c)?))
    } else if tag == 4 {
        PayloadValue::Text(read_text(c)?)
    } else if tag == 5 {
        let n = take_u32(c)?;
        PayloadValue::Bytes(take_bytes(c, n as usize)?)
    } else if tag == 6 {
        let n = take_u32(c)?;
        let ghost q0 = c.position();
        let mut items: Vec<PayloadValue> = Vec::new();
        let mut k: u32 = 0;
        proof {
            lemma_seq_view_empty();
        }
        while k < n
            invariant
                c.wf(),
                c.data() == b,
                b == old(c).data(),
                p0 == old(c).position(),
                k <= n,
                p0 < q0 <= c.position(),
                f_pv(b, p0) == match f_items(b, q0, n as nat, Seq::empty()) {
                    Err(e) => Err(e),
                    Ok((vs, t)) => Ok((PvView::Array(vs), t)),
                },
                f_items(b, q0, n as nat, Seq::empty()) == f_items(
                    b,
                    c.position(),
                    (n - k) as nat,
                    pv_seq_view(items@),
                ),
            decreases n - k,
        {
            let item = read_payload_value(c)?;
            let ghost it = item;
            let ghost before = items@;
            items.push(item);
            proof {
                lemma_seq_view_push(before, it);
                assert(before.push(it) =~= items@);
            }
            k = k + 1;
        }
        PayloadValue::Array(items)
    } else if tag == 7 {
        let n = take_u32(c)?;
        PayloadValue::Object(read_fields(c, n, Payload::new())?)
    } else {
        return Err(Corruption::UnknownPayloadTag);
    };
    proof {
        lemma_pv_view(v);
    }
    Ok(v)
}

fn read_payload(c: &mut Cursor) -> (r: Result<Payload, Corruption>)
    requires
        old(c).wf(),
    ensures
        kept(*old(c), *final(c)),
        fsteps_view(r, f_payload(old(c).data(), old(c).position()), final(c).position()),
{
    let n = take_u32(c)?;
    read_fields(c, n, Payload::new())
}

/// `r` is the result that `s` describes, each value by its view.
pub open spec fn decoded_as<T: View>(r: Result<T, Corruption>, s: Result<T::V, Corruption>) -> bool {
    match s {
        Ok(v) => r matches Ok(x) && x@ == v,
        Err(e) => r == Err::<T, Corruption>(e),
    }
}

/// Decodes one entry body (no framing).
pub fn decode_body(body: &[u8]) -> (r: Result<Op, Corruption>)
    ensures
        decoded_as(r, f_body(body@)),
{
    let mut c = Cursor::new(body);
    let kind = take_u8(&mut c)?;
    let id = RecordId::new(take_u64(&mut c)?);
    if kind == 0 {
        let vector = read_vector(&mut c)?;
        let has = take_u8(&mut c)?;
        let payload = if has == 0 {
            None
        } else if has == 1 {
            Some(read_payload(&mut c)?)
        } else {
            return Err(Corruption::BadPayloadTag);
        };
        if !c.is_at_end() {
            return Err(Corruption::TrailingUpsertBytes);
        }
        match payload {
            Some(p) => Ok(Op::Upsert(Record::with_payload(id, vector, p))),
            None => Ok(Op::Upsert(Record::new(id, vector))),
        }
    } else if kind == 1 {
        if !c.is_at_end() {
            return Err(Corruption::TrailingDeleteBytes);
        }
        Ok(Op::Delete(id))
    } else {
        Err(Corruption::UnknownOpKind)
    }
}

/// Reads the frame at the start of `bytes`: `Ok(None)` for empty input,
/// else the entry and the number of bytes its frame takes. A short
/// length, a short body, a checksum that does not match, or a body that
/// does not decode is refused as corrupt.
pub fn read_frame(bytes: &[u8]) -> (r: Result<Option<(Op, usize)>, Corruption>)
    ensures
        match f_frame(bytes@) {
            Ok(None) => r matches Ok(None),
            Ok(Some((op, n))) => r matches Ok(Some((x, m))) && x@ == op && m == n,
            Err(e) => r == Err::<Option<(Op, usize)>, Corruption>(e),
        },
{
    if bytes.len() == 0 {
        return Ok(None);
    }
    if bytes.len() < 4 {
        return Err(Corruption::TruncatedFrameLength);
    }
    let n = (bytes[0] as u32) | ((bytes[1] as u32) << 8u32) | ((bytes[2] as u32) << 16u32) | ((
    bytes[3] as u32) << 24u32);
    assert(n == u32_at(bytes@, 0));
    let body_len = n as usize;
    if bytes.len() - 4 < body_len || bytes.len() - 4 - body_len < 4 {
        return Err(Corruption::TruncatedFrameBody);
    }
    let end = 4 + body_len;
    let expected = (bytes[end] as u32) | ((bytes[end + 1] as u32) << 8u32) | ((bytes[end + 2] as u32)
        << 16u32) | ((bytes[end + 3] as u32) << 24u32);
    assert(expected == u32_at(bytes@, end as int));
    if crc32_range(bytes, 4, end) != expected {
        return Err(Corruption::CrcMismatch);
    }
    let body = vstd::slice::slice_subrange(bytes, 4, end);
    let op = decode_body(body)?;
    Ok(Some((op, end + 4)))
}

// ---------------------------------------------------------------------
// Reading back what was written.
// ---------------------------------------------------------------------

/// `b` holds the bytes `x` starting at `p`.
pub open spec fn holds_at(b: Seq<u8>, p: int, x: Seq<u8>) -> bool {
    0 <= p && p + x.len() <= b.len() && b.subrange(p, p + x.len()) == x
}

proof fn lemma_holds_split(b: Seq<u8>, p: int, x: Seq<u8>, y: Seq<u8>)
    requires
        holds_at(b, p, x + y),
    ensures
        holds_at(b, p, x),
        holds_at(b, p + x.len(), y),
{
    lemma_window_split(b, p, x, y);
}

/// A value that is read back as written: every length and count fits 32
/// bits and every object's keys are strictly increasing.
pub open spec fn pv_ok(v: PvView) -> bool
    decreases v,
{
    match v {
        PvView::Text(t) => encode_utf8(t).len() <= u32::MAX,
        PvView::Bytes(bs) => bs.len() <= u32::MAX,
        PvView::Array(items) => items.len() <= u32::MAX && pvs_ok(items),
        PvView::Object(fields) => fields.len() <= u32::MAX && sorted_fields(fields) && fields_ok(
            fields,
        ),
        _ => true,
    }
}

/// Every value is read back as written.
pub open spec fn pvs_ok(items: Seq<PvView>) -> bool
    decreases items,
{
    items.len() == 0 || (pv_ok(items[0]) && pvs_ok(items.drop_first()))
}

/// Every key fits a 32-bit length and every value is read back as written.
pub open spec fn fields_ok(fields: Seq<FieldView>) -> bool
    decreases fields,
{
    fields.len() == 0 || (encode_utf8(fields[0].0).len() <= u32::MAX && pv_ok(fields[0].1)
        && fields_ok(fields.drop_first()))
}

/// A payload that is read back as written.
pub open spec fn payload_ok(fields: Seq<FieldView>) -> bool {
    fields.len() <= u32::MAX && sorted_fields(fields) && fields_ok(fields)
}

proof fn lemma_rt_u8(b: Seq<u8>, p: int, x: u8)
    requires
        holds_at(b, p, seq![x]),
    ensures
        f_u8(b, p) == Ok::<(u8, int), Corruption>((x, p + 1)),
{
    assert(b.subrange(p, p + 1)[0] == b[p]);
}

proof fn lemma_rt_len(b: Seq<u8>, p: int, n: nat)
    requires
        holds_at(b, p, e_len(n)),
        n <= u32::MAX,
    ensures
        f_u32(b, p) == Ok::<(u32, int), Corruption>((n as u32, p + 4)),
{
    lemma_u32_roundtrip(n as u32);
    lemma_u32_at(b, p, n as u32);
}

proof fn lemma_rt_blob(b: Seq<u8>, p: int, bs: Seq<u8>)
    requires
        holds_at(b, p, e_blob(bs)),
        bs.len() <= u32::MAX,
    ensures
        f_u32(b, p) == Ok::<(u32, int), Corruption>((bs.len() as u32, p + 4)),
        f_bytes(b, p + 4, bs.len() as int) == Ok::<(Seq<u8>, int), Corruption>(
            (bs, p + e_blob(bs).len()),
        ),
{
    lemma_holds_split(b, p, e_len(bs.len()), bs);
    lemma_rt_len(b, p, bs.len());
}

proof fn lemma_rt_text(b: Seq<u8>, p: int, t: Seq<char>)
    requires
        holds_at(b, p, e_text(t)),
        encode_utf8(t).len() <= u32::MAX,
    ensures
        f_text(b, p) == Ok::<(Seq<char>, int), Corruption>((t, p + e_text(t).len())),
{
    lemma_rt_blob(b, p, encode_utf8(t));
    encode_utf8_valid_utf8(t);
    encode_utf8_decode_utf8(t);
}

/// Each value is read back as written, wherever it stands.
proof fn lemma_rt_pv(b: Seq<u8>, p: int, v: PvView)
    requires
        holds_at(b, p, e_pv(v)),
        pv_ok(v),
    ensures
        f_pv(b, p) == Ok::<(PvView, int), Corruption>((v, p + e_pv(v).len())),
    decreases v,
{
    match v {
        PvView::Null => {
            lemma_rt_u8(b, p, 0u8);
        },
        PvView::Bool(x) => {
            let byte: u8 = if x { 1u8 } else { 0u8 };
            assert(e_pv(v) =~= seq![1u8] + seq![byte]);
            lemma_holds_split(b, p, seq![1u8], seq![byte]);
            lemma_rt_u8(b, p, 1u8);
            lemma_rt_u8(b, p + 1, byte);
        },
        PvView::Int(i) => {
            lemma_holds_split(b, p, seq![2u8], le_i64(i));
            lemma_rt_u8(b, p, 2u8);
            lemma_u64_roundtrip(i as u64);
            lemma_u64_at(b, p + 1, i as u64);
            assert((i as u64) as i64 == i) by (bit_vector);
        },
        PvView::Float(f) => {
            lemma_holds_split(b, p, seq![3u8], le_u64(f));
            lemma_rt_u8(b, p, 3u8);
            lemma_u64_roundtrip(f);
            lemma_u64_at(b, p + 1, f);
        },
        PvView::Text(t) => {
            lemma_holds_split(b, p, seq![4u8], e_text(t));
            lemma_rt_u8(b, p, 4u8);
            lemma_rt_text(b, p + 1, t);
        },
        PvView::Bytes(bs) => {
            lemma_holds_split(b, p, seq![5u8], e_blob(bs));
            lemma_rt_u8(b, p, 5u8);
            lemma_rt_blob(b, p + 1, bs);
        },
        PvView::Array(items) => {
            assert(e_pv(v) =~= seq![6u8] + (e_len(items.len()) + e_pvs(items)));
            lemma_holds_split(b, p, seq![6u8], e_len(items.len()) + e_pvs(items));
            lemma_holds_split(b, p + 1, e_len(items.len()), e_pvs(items));
            lemma_rt_u8(b, p, 6u8);
            lemma_rt_len(b, p + 1, items.len());
            lemma_rt_items(b, p + 5, items, Seq::empty());
            assert(Seq::<PvView>::empty() + items =~= items);
        },
        PvView::Object(fields) => {
            assert(e_pv(v) =~= seq![7u8] + (e_len(fields.len()) + e_fields(fields)));
            lemma_holds_split(b, p, seq![7u8], e_len(fields.len()) + e_fields(fields));
            lemma_holds_split(b, p + 1, e_len(fields.len()), e_fields(fields));
            lemma_rt_u8(b, p, 7u8);
            lemma_rt_len(b, p + 1, fields.len());
            assert(Seq::<FieldView>::empty() + fields =~= fields);
            lemma_rt_fields(b, p + 5, fields, Seq::empty());
        },
    }
}

/// A single metadata value reads back as written, at any nesting depth,
/// taking exactly its own bytes whatever follows it.
pub proof fn law_value_roundtrip(v: PvView, rest: Seq<u8>)
    requires
        pv_ok(v),
    ensures
        f_pv(e_pv(v) + rest, 0) == Ok::<(PvView, int), Corruption>((v, e_pv(v).len() as int)),
{
    let b = e_pv(v) + rest;
    assert(b.subrange(0, e_pv(v).len() as int) =~= e_pv(v));
    lemma_rt_pv(b, 0, v);
}

/// A payload reads back as written, taking exactly its own bytes whatever
/// follows it.
pub proof fn law_payload_fields_roundtrip(fields: Seq<FieldView>, rest: Seq<u8>)
    requires
        payload_ok(fields),
    ensures
        f_payload(e_payload(fields) + rest, 0) == Ok::<(Seq<FieldView>, int), Corruption>(
            (fields, e_payload(fields).len() as int),
        ),
{
    let b = e_payload(fields) + rest;
    assert(b.subrange(0, e_payload(fields).len() as int) =~= e_payload(fields));
    lemma_rt_payload(b, 0, fields);
}

proof fn lemma_rt_items(b: Seq<u8>, p: int, items: Seq<PvView>, acc: Seq<PvView>)
    requires
        holds_at(b, p, e_pvs(items)),
        pvs_ok(items),
    ensures
        f_items(b, p, items.len(), acc) == Ok::<(Seq<PvView>, int), Corruption>(
            (acc + items, p + e_pvs(items).len()),
        ),
    decreases items,
{
    if items.len() == 0 {
        assert(acc + items =~= acc);
    } else {
        let rest = items.drop_first();
        lemma_holds_split(b, p, e_pv(items[0]), e_pvs(rest));
        lemma_rt_pv(b, p, items[0]);
        let q = p + e_pv(items[0]).len();
        lemma_rt_items(b, q, rest, acc.push(items[0]));
        assert(acc.push(items[0]) + rest =~= acc + items);
    }
}

/// Inserting a key larger than every key present appends it.
proof fn lemma_insert_last(acc: Seq<FieldView>, k: Seq<char>, v: PvView)
    requires
        forall|j: int| 0 <= j < acc.len() ==> key_lt(#[trigger] acc[j].0, k),
    ensures
        field_insert(acc, k, v) == acc.push((k, v)),
{
    lemma_lower_bound(acc, k, acc.len() as int);
    assert(acc.insert(acc.len() as int, (k, v)) =~= acc.push((k, v)));
}

proof fn lemma_rt_fields(b: Seq<u8>, p: int, fields: Seq<FieldView>, acc: Seq<FieldView>)
    requires
        holds_at(b, p, e_fields(fields)),
        fields_ok(fields),
        sorted_fields(acc + fields),
    ensures
        f_fields(b, p, fields.len(), acc) == Ok::<(Seq<FieldView>, int), Corruption>(
            (acc + fields, p + e_fields(fields).len()),
        ),
    decreases fields,
{
    if fields.len() == 0 {
        assert(acc + fields =~= acc);
    } else {
        let k = fields[0].0;
        let v = fields[0].1;
        let rest = fields.drop_first();
        lemma_holds_split(b, p, e_text(k) + e_pv(v), e_fields(rest));
        lemma_holds_split(b, p, e_text(k), e_pv(v));
        lemma_rt_text(b, p, k);
        let q = p + e_text(k).len();
        lemma_rt_pv(b, q, v);
        let r = q + e_pv(v).len();
        let all = acc + fields;
        assert forall|j: int| 0 <= j < acc.len() implies key_lt(#[trigger] acc[j].0, k) by {
            assert(all[j] == acc[j]);
            assert(all[acc.len() as int] == fields[0]);
        }
        lemma_insert_last(acc, k, v);
        assert(fields[0] == (k, v));
        assert(acc.push((k, v)) + rest =~= all);
        lemma_rt_fields(b, r, rest, acc.push((k, v)));
    }
}

proof fn lemma_e_vec_at(ws: Seq<u32>, k: int)
    requires
        0 <= k < ws.len(),
    ensures
        e_vec(ws).len() == 4 * ws.len(),
        e_vec(ws).subrange(4 * k, 4 * k + 4) == le_u32(ws[k]),
    decreases ws.len(),
{
    let init = ws.drop_last();
    lemma_e_vec_len(init);
    if k < ws.len() - 1 {
        lemma_e_vec_at(init, k);
        assert(e_vec(ws).subrange(4 * k, 4 * k + 4) =~= e_vec(init).subrange(4 * k, 4 * k + 4));
    } else {
        assert(e_vec(ws).subrange(4 * k, 4 * k + 4) =~= le_u32(ws.last()));
    }
}

proof fn lemma_e_vec_len(ws: Seq<u32>)
    ensures
        e_vec(ws).len() == 4 * ws.len(),
    decreases ws.len(),
{
    if ws.len() > 0 {
        lemma_e_vec_len(ws.drop_last());
    }
}

proof fn lemma_rt_words(b: Seq<u8>, p: int, ws: Seq<u32>, k: int)
    requires
        holds_at(b, p, e_vec(ws)),
        0 <= k <= ws.len(),
    ensures
        f_words(b, p + 4 * k, (ws.len() - k) as nat, ws.subrange(0, k)) == Ok::<
            (Seq<u32>, int),
            Corruption,
        >((ws, p + 4 * ws.len())),
    decreases ws.len() - k,
{
    lemma_e_vec_len(ws);
    if k == ws.len() {
        assert(ws.subrange(0, k) =~= ws);
    } else {
        lemma_e_vec_at(ws, k);
        let e = e_vec(ws);
        assert(b.subrange(p + 4 * k, p + 4 * k + 4) =~= e.subrange(4 * k, 4 * k + 4));
        lemma_u32_at(b, p + 4 * k, ws[k]);
        lemma_rt_words(b, p, ws, k + 1);
        assert(ws.subrange(0, k).push(ws[k]) =~= ws.subrange(0, k + 1));
        assert(p + 4 * k + 4 == p + 4 * (k + 1));
    }
}

/// A vector that is read back as written.
pub open spec fn vector_ok(ws: Seq<u32>) -> bool {
    valid_components(ws) && ws.len() <= u32::MAX
}

proof fn lemma_rt_vector(b: Seq<u8>, p: int, ws: Seq<u32>)
    requires
        holds_at(b, p, e_len(ws.len()) + e_vec(ws)),
        vector_ok(ws),
    ensures
        f_vector(b, p) == Ok::<(Seq<u32>, int), Corruption>((ws, p + 4 + e_vec(ws).len())),
{
    lemma_holds_split(b, p, e_len(ws.len()), e_vec(ws));
    lemma_rt_len(b, p, ws.len());
    lemma_rt_words(b, p + 4, ws, 0);
    lemma_e_vec_len(ws);
    assert(ws.subrange(0, 0) =~= Seq::<u32>::empty());
}

/// An entry that is read back as written: a valid vector and a payload
/// whose lengths fit and whose keys are in order, in a body whose length
/// fits 32 bits.
pub open spec fn op_ok(op: OpView) -> bool {
    &&& e_body(op).len() <= u32::MAX
    &&& match op {
        OpView::Upsert(r) => vector_ok(r.vector) && match r.payload {
            Some(fields) => payload_ok(fields),
            None => true,
        },
        OpView::Delete(_) => true,
    }
}

/// The pieces of an upsert body, each read back where it stands.
proof fn lemma_upsert_parts(r: RecordView)
    requires
        op_ok(OpView::Upsert(r)),
    ensures
        ({
            let b = e_body(OpView::Upsert(r));
            let t: int = 13 + e_vec(r.vector).len() as int;
            &&& f_u8(b, 0) == Ok::<(u8, int), Corruption>((0u8, 1))
            &&& f_u64(b, 1) == Ok::<(u64, int), Corruption>((r.id, 9))
            &&& f_vector(b, 9) == Ok::<(Seq<u32>, int), Corruption>((r.vector, t))
            &&& holds_at(b, t, match r.payload {
                None => seq![0u8],
                Some(fs) => seq![1u8] + e_payload(fs),
            })
            &&& b.len() == t + match r.payload {
                None => 1int,
                Some(fs) => 1 + e_payload(fs).len() as int,
            }
        }),
{
    let b = e_body(OpView::Upsert(r));
    assert(holds_at(b, 0, b)) by {
        assert(b.subrange(0, b.len() as int) =~= b);
    }
    let vec = e_len(r.vector.len()) + e_vec(r.vector);
    let tail = match r.payload {
        None => seq![0u8],
        Some(fs) => seq![1u8] + e_payload(fs),
    };
    assert(b =~= seq![0u8] + le_u64(r.id) + vec + tail);
    lemma_holds_split(b, 0, seq![0u8] + le_u64(r.id) + vec, tail);
    lemma_holds_split(b, 0, seq![0u8] + le_u64(r.id), vec);
    lemma_holds_split(b, 0, seq![0u8], le_u64(r.id));
    lemma_rt_u8(b, 0, 0u8);
    lemma_u64_roundtrip(r.id);
    lemma_u64_at(b, 1, r.id);
    lemma_rt_vector(b, 9, r.vector);
}

proof fn lemma_rt_payload(b: Seq<u8>, p: int, fs: Seq<FieldView>)
    requires
        holds_at(b, p, e_payload(fs)),
        payload_ok(fs),
    ensures
        f_payload(b, p) == Ok::<(Seq<FieldView>, int), Corruption>((fs, p + e_payload(fs).len())),
{
    lemma_holds_split(b, p, e_len(fs.len()), e_fields(fs));
    lemma_rt_len(b, p, fs.len());
    assert(Seq::<FieldView>::empty() + fs =~= fs);
    lemma_rt_fields(b, p + 4, fs, Seq::empty());
}

proof fn lemma_rt_body(op: OpView)
    requires
        op_ok(op),
    ensures
        f_body(e_body(op)) == Ok::<OpView, Corruption>(op),
{
    let b = e_body(op);
    match op {
        OpView::Upsert(r) => {
            lemma_upsert_parts(r);
            let t: int = 13 + e_vec(r.vector).len() as int;
            match r.payload {
                None => {
                    lemma_rt_u8(b, t, 0u8);
                },
                Some(fs) => {
                    lemma_holds_split(b, t, seq![1u8], e_payload(fs));
                    lemma_rt_u8(b, t, 1u8);
                    lemma_rt_payload(b, t + 1, fs);
                },
            }
        },
        OpView::Delete(id) => {
            assert(holds_at(b, 0, b)) by {
                assert(b.subrange(0, b.len() as int) =~= b);
            }
            lemma_holds_split(b, 0, seq![1u8], le_u64(id));
            lemma_rt_u8(b, 0, 1u8);
            lemma_u64_roundtrip(id);
            lemma_u64_at(b, 1, id);
        },
    }
}

/// A frame is read back as the entry it was written from, and as taking
/// exactly its own bytes, whatever follows it: frames written one after
/// another are read back one by one, in order.
#[verifier::rlimit(100)]
#[verifier::spinoff_prover]
pub proof fn law_frame_roundtrip(op: OpView, rest: Seq<u8>)
    requires
        op_ok(op),
    ensures
        f_frame(e_frame(op) + rest) == Ok::<Option<(OpView, int)>, Corruption>(
            Some((op, e_frame(op).len() as int)),
        ),
{
    reveal(e_frame);
    let body = e_body(op);
    let n: int = body.len() as int;
    let b = e_frame(op) + rest;
    lemma_u32_roundtrip(n as u32);
    assert(body.subrange(0, (n as u32) as int) =~= body);
    let crc = crc32_of(body);
    assert(b =~= le_u32(n as u32) + body + le_u32(crc) + rest);
    assert(b.subrange(0, 4) =~= le_u32(n as u32));
    lemma_u32_at(b, 0, n as u32);
    assert(b.subrange(4, 4 + n) =~= body);
    lemma_u32_roundtrip(crc);
    assert(b.subrange(4 + n, 4 + n + 4) =~= le_u32(crc));
    lemma_u32_at(b, 4 + n, crc);
    lemma_rt_body(op);
}

/// A torn write is never taken for an entry: every non-empty proper
/// prefix of a frame is refused.
pub proof fn law_torn_frame_refused(op: OpView, k: int)
    requires
        op_ok(op),
        0 < k < e_frame(op).len(),
    ensures
        f_frame(e_frame(op).subrange(0, k)) is Err,
{
    reveal(e_frame);
    let body = e_body(op);
    let n: int = body.len() as int;
    let f = e_frame(op);
    let b = f.subrange(0, k);
    if k >= 4 {
        lemma_u32_roundtrip(n as u32);
        assert(b.subrange(0, 4) =~= le_u32(n as u32));
        lemma_u32_at(b, 0, n as u32);
    }
}

/// A frame that reads cleanly takes at least its length, body and
/// checksum bytes, and no more than there are.
pub proof fn lemma_frame_len(b: Seq<u8>)
    ensures
        f_frame(b) matches Ok(Some((_, n))) ==> 8 <= n <= b.len(),
{
}

} // verus!
