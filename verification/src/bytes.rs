//! Little-endian integer encoding and a bounds-checked read cursor.
//!
//! Every multi-byte integer on disk is little-endian, whatever the host.
//! The spec functions here say what the bytes of each width are; the
//! writers append exactly those bytes, and the [`Cursor`] readers give the
//! value back. The `lemma_*_roundtrip` proofs tie the two directions.

use vstd::prelude::*;

verus! {

/// The four little-endian bytes of `x`.
pub open spec fn le_u32(x: u32) -> Seq<u8> {
    seq![
        (x & 0xff) as u8,
        ((x >> 8u32) & 0xff) as u8,
        ((x >> 16u32) & 0xff) as u8,
        ((x >> 24u32) & 0xff) as u8,
    ]
}

/// The eight little-endian bytes of `x`.
pub open spec fn le_u64(x: u64) -> Seq<u8> {
    seq![
        (x & 0xff) as u8,
        ((x >> 8u64) & 0xff) as u8,
        ((x >> 16u64) & 0xff) as u8,
        ((x >> 24u64) & 0xff) as u8,
        ((x >> 32u64) & 0xff) as u8,
        ((x >> 40u64) & 0xff) as u8,
        ((x >> 48u64) & 0xff) as u8,
        ((x >> 56u64) & 0xff) as u8,
    ]
}

/// The eight little-endian bytes of `x` in two's complement.
pub open spec fn le_i64(x: i64) -> Seq<u8> {
    le_u64(x as u64)
}

/// The `u32` whose little-endian bytes are `b0 b1 b2 b3`.
pub open spec fn u32_of(b0: u8, b1: u8, b2: u8, b3: u8) -> u32 {
    (b0 as u32) | ((b1 as u32) << 8u32) | ((b2 as u32) << 16u32) | ((b3 as u32) << 24u32)
}

/// The `u64` whose little-endian bytes are `b0 .. b7`.
pub open spec fn u64_of(b0: u8, b1: u8, b2: u8, b3: u8, b4: u8, b5: u8, b6: u8, b7: u8) -> u64 {
    (b0 as u64) | ((b1 as u64) << 8u64) | ((b2 as u64) << 16u64) | ((b3 as u64) << 24u64) | ((
    b4 as u64) << 32u64) | ((b5 as u64) << 40u64) | ((b6 as u64) << 48u64) | ((b7 as u64)
        << 56u64)
}

/// The `u32` read little-endian from the four bytes of `s` at `pos`.
pub open spec fn u32_at(s: Seq<u8>, pos: int) -> u32 {
    u32_of(s[pos], s[pos + 1], s[pos + 2], s[pos + 3])
}

/// The `u64` read little-endian from the eight bytes of `s` at `pos`.
pub open spec fn u64_at(s: Seq<u8>, pos: int) -> u64 {
    u64_of(s[pos], s[pos + 1], s[pos + 2], s[pos + 3], s[pos + 4], s[pos + 5], s[pos + 6], s[pos + 7])
}

pub proof fn lemma_u32_roundtrip(x: u32)
    ensures
        le_u32(x).len() == 4,
        u32_at(le_u32(x), 0) == x,
{
    let b = le_u32(x);
    assert(b[0] == (x & 0xff) as u8);
    assert(b[1] == ((x >> 8u32) & 0xff) as u8);
    assert(b[2] == ((x >> 16u32) & 0xff) as u8);
    assert(b[3] == ((x >> 24u32) & 0xff) as u8);
    assert(u32_of(
        (x & 0xff) as u8,
        ((x >> 8u32) & 0xff) as u8,
        ((x >> 16u32) & 0xff) as u8,
        ((x >> 24u32) & 0xff) as u8,
    ) == x) by (bit_vector);
}

pub proof fn lemma_u64_roundtrip(x: u64)
    ensures
        le_u64(x).len() == 8,
        u64_at(le_u64(x), 0) == x,
{
    let b = le_u64(x);
    assert(b[0] == (x & 0xff) as u8);
    assert(b[1] == ((x >> 8u64) & 0xff) as u8);
    assert(b[2] == ((x >> 16u64) & 0xff) as u8);
    assert(b[3] == ((x >> 24u64) & 0xff) as u8);
    assert(b[4] == ((x >> 32u64) & 0xff) as u8);
    assert(b[5] == ((x >> 40u64) & 0xff) as u8);
    assert(b[6] == ((x >> 48u64) & 0xff) as u8);
    assert(b[7] == ((x >> 56u64) & 0xff) as u8);
    assert(u64_of(
        (x & 0xff) as u8,
        ((x >> 8u64) & 0xff) as u8,
        ((x >> 16u64) & 0xff) as u8,
        ((x >> 24u64) & 0xff) as u8,
        ((x >> 32u64) & 0xff) as u8,
        ((x >> 40u64) & 0xff) as u8,
        ((x >> 48u64) & 0xff) as u8,
        ((x >> 56u64) & 0xff) as u8,
    ) == x) by (bit_vector);
}

pub proof fn lemma_i64_roundtrip(x: i64)
    ensures
        le_i64(x).len() == 8,
        (u64_at(le_i64(x), 0) as i64) == x,
{
    lemma_u64_roundtrip(x as u64);
    assert((x as u64) as i64 == x) by (bit_vector);
}

/// If the bytes of `s` at `pos` are `x`, reading there gives `x` back.
pub proof fn lemma_u32_at(s: Seq<u8>, pos: int, x: u32)
    requires
        0 <= pos,
        pos + 4 <= s.len(),
        s.subrange(pos, pos + 4) == le_u32(x),
    ensures
        u32_at(s, pos) == x,
{
    lemma_u32_roundtrip(x);
    let w = s.subrange(pos, pos + 4);
    assert(s[pos] == w[0] && s[pos + 1] == w[1] && s[pos + 2] == w[2] && s[pos + 3] == w[3]);
}

/// If the bytes of `s` at `pos` are `x`, reading there gives `x` back.
pub proof fn lemma_u64_at(s: Seq<u8>, pos: int, x: u64)
    requires
        0 <= pos,
        pos + 8 <= s.len(),
        s.subrange(pos, pos + 8) == le_u64(x),
    ensures
        u64_at(s, pos) == x,
{
    lemma_u64_roundtrip(x);
    let w = s.subrange(pos, pos + 8);
    assert(s[pos] == w[0] && s[pos + 1] == w[1] && s[pos + 2] == w[2] && s[pos + 3] == w[3]);
    assert(s[pos + 4] == w[4] && s[pos + 5] == w[5] && s[pos + 6] == w[6] && s[pos + 7] == w[7]);
}

/// Splits a window: where `s` holds `x + y` at `pos`, it holds `x` at `pos`
/// and `y` right after it.
pub proof fn lemma_window_split(s: Seq<u8>, pos: int, x: Seq<u8>, y: Seq<u8>)
    requires
        0 <= pos,
        pos + x.len() + y.len() <= s.len(),
        s.subrange(pos, pos + x.len() + y.len()) == x + y,
    ensures
        s.subrange(pos, pos + x.len()) == x,
        s.subrange(pos + x.len(), pos + x.len() + y.len()) == y,
{
    let w = s.subrange(pos, pos + x.len() + y.len());
    assert forall|i: int| 0 <= i < x.len() implies s.subrange(pos, pos + x.len())[i] == x[i] by {
        assert(w[i] == (x + y)[i]);
    }
    assert forall|i: int| 0 <= i < y.len() implies s.subrange(
        pos + x.len(),
        pos + x.len() + y.len(),
    )[i] == y[i] by {
        assert(w[x.len() + i] == (x + y)[x.len() + i]);
    }
    assert(s.subrange(pos, pos + x.len()) =~= x);
    assert(s.subrange(pos + x.len(), pos + x.len() + y.len()) =~= y);
}

/// Appends the little-endian bytes of `value`.
pub fn write_u32(buf: &mut Vec<u8>, value: u32)
    ensures
        final(buf)@ == old(buf)@ + le_u32(value),
{
    buf.push((value & 0xff) as u8);
    buf.push(((value >> 8u32) & 0xff) as u8);
    buf.push(((value >> 16u32) & 0xff) as u8);
    buf.push(((value >> 24u32) & 0xff) as u8);
    assert(buf@ =~= old(buf)@ + le_u32(value));
}

/// Appends the little-endian bytes of `value`.
pub fn write_u64(buf: &mut Vec<u8>, value: u64)
    ensures
        final(buf)@ == old(buf)@ + le_u64(value),
{
    buf.push((value & 0xff) as u8);
    buf.push(((value >> 8u64) & 0xff) as u8);
    buf.push(((value >> 16u64) & 0xff) as u8);
    buf.push(((value >> 24u64) & 0xff) as u8);
    buf.push(((value >> 32u64) & 0xff) as u8);
    buf.push(((value >> 40u64) & 0xff) as u8);
    buf.push(((value >> 48u64) & 0xff) as u8);
    buf.push(((value >> 56u64) & 0xff) as u8);
    assert(buf@ =~= old(buf)@ + le_u64(value));
}

/// Appends the little-endian two's-complement bytes of `value`.
pub fn write_i64(buf: &mut Vec<u8>, value: i64)
    ensures
        final(buf)@ == old(buf)@ + le_i64(value),
{
    write_u64(buf, value as u64);
}

/// Appends every byte of `bytes`.
pub fn write_raw(buf: &mut Vec<u8>, bytes: &[u8])
    ensures
        final(buf)@ == old(buf)@ + bytes@,
{
    let mut i: usize = 0;
    while i < bytes.len()
        invariant
            i <= bytes.len(),
            buf@ == old(buf)@ + bytes@.subrange(0, i as int),
        decreases bytes.len() - i,
    {
        buf.push(bytes[i]);
        i = i + 1;
        assert(buf@ =~= old(buf)@ + bytes@.subrange(0, i as int));
    }
    assert(bytes@.subrange(0, bytes.len() as int) =~= bytes@);
}

/// A forward-only reader over a byte slice. Every read checks the bounds
/// first and leaves the cursor where it was when fewer bytes remain than
/// the read needs.
pub struct Cursor<'a> {
    bytes: &'a [u8],
    pos: usize,
}

impl<'a> Cursor<'a> {
    /// The bytes being read.
    pub closed spec fn data(&self) -> Seq<u8> {
        self.bytes@
    }

    /// How many bytes have been consumed.
    pub closed spec fn position(&self) -> int {
        self.pos as int
    }

    /// The position lies within the bytes.
    pub open spec fn wf(&self) -> bool {
        0 <= self.position() <= self.data().len()
    }

    /// A cursor at the start of `bytes`.
    pub fn new(bytes: &'a [u8]) -> (c: Self)
        ensures
            c.wf(),
            c.data() == bytes@,
            c.position() == 0,
    {
        Cursor { bytes, pos: 0 }
    }

    /// The number of bytes consumed so far.
    pub fn pos(&self) -> (p: usize)
        ensures
            p == self.position(),
    {
        self.pos
    }

    /// `true` when every byte has been consumed.
    pub fn is_at_end(&self) -> (b: bool)
        requires
            self.wf(),
        ensures
            b <==> self.position() == self.data().len(),
    {
        self.pos == self.bytes.len()
    }

    /// Reads one byte.
    pub fn read_u8(&mut self) -> (r: Option<u8>)
        requires
            old(self).wf(),
        ensures
            final(self).wf(),
            final(self).data() == old(self).data(),
            match r {
                None => old(self).position() + 1 > old(self).data().len() && final(self).position()
                    == old(self).position(),
                Some(v) => old(self).position() + 1 <= old(self).data().len() && v == old(
                    self,
                ).data()[old(self).position()] && final(self).position() == old(self).position()
                    + 1,
            },
    {
        if self.bytes.len() - self.pos < 1 {
            return None;
        }
        let v = self.bytes[self.pos];
        self.pos = self.pos + 1;
        Some(v)
    }

    /// Reads a little-endian `u32`.
    pub fn read_u32(&mut self) -> (r: Option<u32>)
        requires
            old(self).wf(),
        ensures
            final(self).wf(),
            final(self).data() == old(self).data(),
            match r {
                None => old(self).position() + 4 > old(self).data().len() && final(self).position()
                    == old(self).position(),
                Some(v) => old(self).position() + 4 <= old(self).data().len() && v == u32_at(
                    old(self).data(),
                    old(self).position(),
                ) && final(self).position() == old(self).position() + 4,
            },
    {
        if self.bytes.len() - self.pos < 4 {
            return None;
        }
        let p = self.pos;
        let v = (self.bytes[p] as u32) | ((self.bytes[p + 1] as u32) << 8u32) | ((self.bytes[p
            + 2] as u32) << 16u32) | ((self.bytes[p + 3] as u32) << 24u32);
        self.pos = p + 4;
        Some(v)
    }

    /// Reads a little-endian `u64`.
    pub fn read_u64(&mut self) -> (r: Option<u64>)
        requires
            old(self).wf(),
        ensures
            final(self).wf(),
            final(self).data() == old(self).data(),
            match r {
                None => old(self).position() + 8 > old(self).data().len() && final(self).position()
                    == old(self).position(),
                Some(v) => old(self).position() + 8 <= old(self).data().len() && v == u64_at(
                    old(self).data(),
                    old(self).position(),
                ) && final(self).position() == old(self).position() + 8,
            },
    {
        if self.bytes.len() - self.pos < 8 {
            return None;
        }
        let p = self.pos;
        let b = self.bytes;
        let v = (b[p] as u64) | ((b[p + 1] as u64) << 8u64) | ((b[p + 2] as u64) << 16u64) | ((b[p
            + 3] as u64) << 24u64) | ((b[p + 4] as u64) << 32u64) | ((b[p + 5] as u64) << 40u64)
            | ((b[p + 6] as u64) << 48u64) | ((b[p + 7] as u64) << 56u64);
        self.pos = p + 8;
        Some(v)
    }

    /// Reads a little-endian two's-complement `i64`.
    pub fn read_i64(&mut self) -> (r: Option<i64>)
        requires
            old(self).wf(),
        ensures
            final(self).wf(),
            final(self).data() == old(self).data(),
            match r {
                None => old(self).position() + 8 > old(self).data().len() && final(self).position()
                    == old(self).position(),
                Some(v) => old(self).position() + 8 <= old(self).data().len() && v == (u64_at(
                    old(self).data(),
                    old(self).position(),
                ) as i64) && final(self).position() == old(self).position() + 8,
            },
    {
        match self.read_u64() {
            None => None,
            Some(v) => Some(v as i64),
        }
    }

    /// Reads the next `n` bytes.
    pub fn read_exact(&mut self, n: usize) -> (r: Option<Vec<u8>>)
        requires
            old(self).wf(),
        ensures
            final(self).wf(),
            final(self).data() == old(self).data(),
            match r {
                None => old(self).position() + n > old(self).data().len() && final(self).position()
                    == old(self).position(),
                Some(v) => old(self).position() + n <= old(self).data().len() && v@ == old(
                    self,
                ).data().subrange(old(self).position(), old(self).position() + n)
                    && final(self).position() == old(self).position() + n,
            },
    {
        if self.bytes.len() - self.pos < n {
            return None;
        }
        let start = self.pos;
        let mut out: Vec<u8> = Vec::new();
        let mut i: usize = 0;
        while i < n
            invariant
                start + n <= self.bytes@.len(),
                self.bytes@.len() <= usize::MAX,
                i <= n,
                out@ == self.bytes@.subrange(start as int, start + i),
            decreases n - i,
        {
            out.push(self.bytes[start + i]);
            i = i + 1;
            assert(out@ =~= self.bytes@.subrange(start as int, start + i));
        }
        self.pos = start + n;
        Some(out)
    }
}

} // verus!
