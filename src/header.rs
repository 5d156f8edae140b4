//! The store header: sector size and the sector-addressed index of where
//! each chunk starts.
use crate::bytes::{
    be16, be32, be64, from_be16, from_be32, from_be64, lemma_be16, lemma_be32, lemma_be64, push_u16,
    push_u32, push_u64, read_u16, read_u32, read_u64,
};
use crate::codec::{DecoderError, Decoder, Encoder, EncoderError};
use vstd::prelude::*;

verus! {

/// Where a chunk starts, as a sector number and a byte offset inside it.
#[derive(Debug, Clone, Copy, Default, PartialEq, Eq, Structural)]
pub struct ChunkOffsets {
    pub sector_index: u32,
    pub sector_offset: u16,
}

impl View for ChunkOffsets {
    type V = ChunkOffsets;

    open spec fn view(&self) -> ChunkOffsets {
        *self
    }
}

/// Absolute byte position named by `o` with sectors of `sector_size` bytes.
pub open spec fn offset_value(o: ChunkOffsets, sector_size: int) -> int {
    o.sector_index * sector_size + o.sector_offset
}

pub open spec fn offset_encoding(o: ChunkOffsets) -> Seq<u8> {
    be32(o.sector_index) + be16(o.sector_offset)
}

/// The offset record stored at `q`.
pub open spec fn offset_at(s: Seq<u8>, q: int) -> ChunkOffsets {
    ChunkOffsets {
        sector_index: from_be32(s.subrange(q, s.len() as int)),
        sector_offset: from_be16(s.subrange(q + 4, s.len() as int)),
    }
}

pub open spec fn parse_offset_at(s: Seq<u8>, p: nat) -> Option<(ChunkOffsets, nat)> {
    if p + 6 > s.len() {
        None
    } else {
        Some((offset_at(s, p as int), p + 6))
    }
}

impl ChunkOffsets {
    /// Absolute byte position of the chunk, counted from the start of the
    /// store's chunk area.
    #[inline]
    pub fn calculate_offset(&self, sector_size: u32) -> (r: u32)
        requires
            offset_value(*self, sector_size as int) <= u32::MAX,
        ensures
            r == offset_value(*self, sector_size as int),
    {
        (self.sector_index * sector_size) + self.sector_offset as u32
    }

    /// Appends the encoding of the record.
    pub fn write_to(&self, out: &mut Vec<u8>)
        ensures
            final(out)@ == old(out)@ + offset_encoding(*self),
    {
        let ghost start = out@;
        push_u32(out, self.sector_index);
        push_u16(out, self.sector_offset);
        assert(out@ =~= start + offset_encoding(*self));
    }
}

/// An offset record written at `q` is read back from there.
pub proof fn lemma_offset_at(o: ChunkOffsets, s: Seq<u8>, q: int)
    requires
        0 <= q,
        q + 6 <= s.len(),
        s.subrange(q, q + 6) == offset_encoding(o),
    ensures
        offset_at(s, q) == o,
{
    let n = s.len() as int;
    assert(s.subrange(q, n) =~= be32(o.sector_index) + s.subrange(q + 4, n));
    lemma_be32(o.sector_index, s.subrange(q + 4, n));
    assert(offset_encoding(o).subrange(4, 6) =~= be16(o.sector_offset));
    assert(s.subrange(q, q + 6).subrange(4, 6) =~= s.subrange(q + 4, q + 6));
    assert(s.subrange(q + 4, n) =~= be16(o.sector_offset) + s.subrange(q + 6, n));
    lemma_be16(o.sector_offset, s.subrange(q + 6, n));
}

impl Encoder for ChunkOffsets {
    open spec fn encodable(v: ChunkOffsets) -> bool {
        true
    }

    open spec fn encoding(v: ChunkOffsets) -> Seq<u8> {
        offset_encoding(v)
    }

    fn encode(&self) -> (r: Result<Vec<u8>, EncoderError>) {
        let mut out: Vec<u8> = Vec::new();
        self.write_to(&mut out);
        assert(out@ =~= offset_encoding(*self));
        Ok(out)
    }
}

impl Decoder for ChunkOffsets {
    open spec fn parse_at(s: Seq<u8>, p: nat) -> Option<(ChunkOffsets, nat)> {
        parse_offset_at(s, p)
    }

    fn decode(input: &[u8], pos: usize) -> (r: Result<(ChunkOffsets, usize), DecoderError>) {
        if pos > input.len() || input.len() - pos < 4 {
            return Err(DecoderError::new("ChunkOffsets.sector_index"));
        }
        if input.len() - pos < 6 {
            return Err(DecoderError::new("ChunkOffsets.sector_offset"));
        }
        let o = ChunkOffsets {
            sector_index: read_u32(input, pos),
            sector_offset: read_u16(input, pos + 4),
        };
        Ok((o, pos + 6))
    }
}

/// Round trip of one offset record.
pub proof fn lemma_offset_round_trip(o: ChunkOffsets, pre: Seq<u8>, rest: Seq<u8>)
    ensures
        parse_offset_at(pre + offset_encoding(o) + rest, pre.len()) == Some((o, pre.len() + 6)),
{
    let s = pre + offset_encoding(o) + rest;
    assert(s.subrange(pre.len() as int, pre.len() + 6 as int) =~= offset_encoding(o));
    lemma_offset_at(o, s, pre.len() as int);
}

#[derive(Debug, Clone, Default, PartialEq, Eq)]
pub struct ChunkStoreHeader {
    /// Total encoded byte length of the header.
    pub length: u64,
    pub sector_size: u16,
    pub chunk_count: u16,
    pub chunk_offsets_length: u32,
    pub chunk_offsets: Vec<ChunkOffsets>,
}

/// The contents of a [`ChunkStoreHeader`].
pub struct HeaderView {
    pub length: u64,
    pub sector_size: u16,
    pub chunk_count: u16,
    pub chunk_offsets_length: u32,
    pub chunk_offsets: Seq<ChunkOffsets>,
}

impl View for ChunkStoreHeader {
    type V = HeaderView;

    open spec fn view(&self) -> HeaderView {
        HeaderView {
            length: self.length,
            sector_size: self.sector_size,
            chunk_count: self.chunk_count,
            chunk_offsets_length: self.chunk_offsets_length,
            chunk_offsets: self.chunk_offsets@,
        }
    }
}

/// Bytes of a header before its offset records.
pub const HEADER_FIXED_BYTES: u64 = 16;

/// Bytes of one offset record.
pub const OFFSET_RECORD_BYTES: u64 = 6;

/// The offset records one after another.
pub open spec fn offsets_encoding(offs: Seq<ChunkOffsets>) -> Seq<u8>
    decreases offs.len(),
{
    if offs.len() == 0 {
        Seq::empty()
    } else {
        offsets_encoding(offs.drop_last()) + offset_encoding(offs.last())
    }
}

pub open spec fn header_encodable(h: HeaderView) -> bool {
    h.chunk_offsets_length == h.chunk_offsets.len()
}

pub open spec fn header_encoding(h: HeaderView) -> Seq<u8> {
    be64(h.length) + be16(h.sector_size) + be16(h.chunk_count) + be32(h.chunk_offsets_length)
        + offsets_encoding(h.chunk_offsets)
}

/// The header that the bytes of `s` from `p` on begin with, and where it
/// ends: fixed fields, then as many offset records as its count field says.
pub open spec fn parse_header_at(s: Seq<u8>, p: nat) -> Option<(HeaderView, nat)> {
    if p + 16 > s.len() {
        None
    } else {
        let n = from_be32(s.subrange(p + 12 as int, s.len() as int));
        if p + 16 + 6 * n > s.len() {
            None
        } else {
            Some(
                (
                    HeaderView {
                        length: from_be64(s.subrange(p as int, s.len() as int)),
                        sector_size: from_be16(s.subrange(p + 8 as int, s.len() as int)),
                        chunk_count: from_be16(s.subrange(p + 10 as int, s.len() as int)),
                        chunk_offsets_length: n,
                        chunk_offsets: Seq::new(n as nat, |i: int| offset_at(s, p + 16 + 6 * i)),
                    },
                    (p + 16 + 6 * n) as nat,
                ),
            )
        }
    }
}

/// The records of `offs` take six bytes each, the `i`-th at `6 * i`.
pub proof fn lemma_offsets_encoding(offs: Seq<ChunkOffsets>, pre: Seq<u8>, rest: Seq<u8>)
    ensures
        offsets_encoding(offs).len() == 6 * offs.len(),
        forall|i: int|
            #![trigger offs[i]]
            0 <= i < offs.len() ==> (pre + offsets_encoding(offs) + rest).subrange(
                pre.len() + 6 * i,
                pre.len() + 6 * i + 6,
            ) == offset_encoding(offs[i]),
    decreases offs.len(),
{
    if offs.len() > 0 {
        let init = offs.drop_last();
        let last_enc = offset_encoding(offs.last());
        lemma_offsets_encoding(init, pre, last_enc + rest);
        let s = pre + offsets_encoding(offs) + rest;
        assert(s =~= pre + offsets_encoding(init) + (last_enc + rest));
        assert forall|i: int| #![trigger offs[i]] 0 <= i < offs.len() implies s.subrange(
            pre.len() + 6 * i,
            pre.len() + 6 * i + 6,
        ) == offset_encoding(offs[i]) by {
            if i < offs.len() - 1 {
                assert(offs[i] == init[i]);
            } else {
                assert(s.subrange(pre.len() + 6 * i, pre.len() + 6 * i + 6) =~= last_enc);
            }
        }
    }
}

/// Round trip: an encodable header written after any bytes `pre` and
/// followed by any bytes `rest` is read back whole, and reading stops
/// right after it.
pub proof fn lemma_header_round_trip(h: HeaderView, pre: Seq<u8>, rest: Seq<u8>)
    requires
        header_encodable(h),
    ensures
        header_encoding(h).len() == 16 + 6 * h.chunk_offsets.len(),
        parse_header_at(pre + header_encoding(h) + rest, pre.len()) == Some(
            (h, pre.len() + header_encoding(h).len()),
        ),
{
    let s = pre + header_encoding(h) + rest;
    let p = pre.len() as int;
    let n = s.len() as int;
    let fixed = be64(h.length) + be16(h.sector_size) + be16(h.chunk_count) + be32(
        h.chunk_offsets_length,
    );
    lemma_offsets_encoding(h.chunk_offsets, pre + fixed, rest);
    assert(s =~= pre + fixed + offsets_encoding(h.chunk_offsets) + rest);
    assert(s.subrange(p, n) =~= be64(h.length) + s.subrange(p + 8, n));
    lemma_be64(h.length, s.subrange(p + 8, n));
    assert(s.subrange(p + 8, n) =~= be16(h.sector_size) + s.subrange(p + 10, n));
    lemma_be16(h.sector_size, s.subrange(p + 10, n));
    assert(s.subrange(p + 10, n) =~= be16(h.chunk_count) + s.subrange(p + 12, n));
    lemma_be16(h.chunk_count, s.subrange(p + 12, n));
    assert(s.subrange(p + 12, n) =~= be32(h.chunk_offsets_length) + s.subrange(p + 16, n));
    lemma_be32(h.chunk_offsets_length, s.subrange(p + 16, n));
    let parsed = Seq::new(
        h.chunk_offsets_length as nat,
        |i: int| offset_at(s, p + 16 + 6 * i),
    );
    assert forall|i: int| 0 <= i < h.chunk_offsets.len() implies parsed[i]
        == h.chunk_offsets[i] by {
        lemma_offset_at(h.chunk_offsets[i], s, p + 16 + 6 * i);
    }
    assert(parsed =~= h.chunk_offsets);
}

/// What is read back is encodable, and its encoding is exactly the bytes
/// it was read from.
pub proof fn lemma_header_parsed(s: Seq<u8>, p: nat)
    ensures
        parse_header_at(s, p) matches Some((h, end)) ==> header_encodable(h) && end == p
            + header_encoding(h).len() && end <= s.len() && s.subrange(p as int, end as int)
            == header_encoding(h),
{
    if let Some((h, end)) = parse_header_at(s, p) {
        let n = s.len() as int;
        let p = p as int;
        lemma_be64(0, s.subrange(p, n));
        lemma_be16(0, s.subrange(p + 8, n));
        lemma_be16(0, s.subrange(p + 10, n));
        lemma_be32(0, s.subrange(p + 12, n));
        let fixed = be64(h.length) + be16(h.sector_size) + be16(h.chunk_count) + be32(
            h.chunk_offsets_length,
        );
        assert(s.subrange(p, p + 16) =~= fixed);
        lemma_offsets_encoding(h.chunk_offsets, s.subrange(0, p + 16), s.subrange(end as int, n));
        let enc = offsets_encoding(h.chunk_offsets);
        let t = s.subrange(0, p + 16) + enc + s.subrange(end as int, n);
        assert forall|k: int| p + 16 <= k < end implies #[trigger] s[k] == t[k] by {
            let i = (k - p - 16) / 6;
            let j = (k - p - 16) % 6;
            assert(0 <= i < h.chunk_offsets.len() && k == p + 16 + 6 * i + j && 0 <= j < 6)
                by (nonlinear_arith)
                requires
                    p + 16 <= k < end,
                    end == p + 16 + 6 * h.chunk_offsets.len(),
                    i == (k - p - 16) / 6,
                    j == (k - p - 16) % 6,
            ;
            let q = p + 16 + 6 * i;
            lemma_be32(0, s.subrange(q, n));
            lemma_be16(0, s.subrange(q + 4, n));
            assert(s.subrange(q, q + 6) =~= offset_encoding(h.chunk_offsets[i]));
            assert(t.subrange(q, q + 6) == offset_encoding(h.chunk_offsets[i]));
            assert(s[k] == s.subrange(q, q + 6)[j]);
            assert(t[k] == t.subrange(q, q + 6)[j]);
        }
        assert(s.subrange(p + 16, end as int) =~= enc);
        assert(s.subrange(p, end as int) =~= header_encoding(h));
    }
}

impl ChunkStoreHeader {
    /// Width in bytes of the `length` field that opens the header, which a
    /// reader takes first to learn how many bytes the whole header has.
    pub fn header_length() -> (r: usize)
        ensures
            r == 8,
    {
        8
    }

    /// Appends the encoding of the header.
    pub fn write_to(&self, out: &mut Vec<u8>)
        ensures
            final(out)@ == old(out)@ + header_encoding(self@),
    {
        let ghost start = out@;
        push_u64(out, self.length);
        push_u16(out, self.sector_size);
        push_u16(out, self.chunk_count);
        push_u32(out, self.chunk_offsets_length);
        let ghost fixed = out@;
        let mut i: usize = 0;
        while i < self.chunk_offsets.len()
            invariant
                i <= self.chunk_offsets@.len(),
                out@ == fixed + offsets_encoding(self.chunk_offsets@.subrange(0, i as int)),
            decreases self.chunk_offsets@.len() - i,
        {
            self.chunk_offsets[i].write_to(out);
            assert(self.chunk_offsets@.subrange(0, i + 1).drop_last() =~= self.chunk_offsets@.subrange(
                0,
                i as int,
            ));
            i = i + 1;
        }
        assert(self.chunk_offsets@.subrange(0, i as int) =~= self.chunk_offsets@);
        assert(out@ =~= start + header_encoding(self@));
    }
}

impl Encoder for ChunkStoreHeader {
    open spec fn encodable(v: HeaderView) -> bool {
        header_encodable(v)
    }

    open spec fn encoding(v: HeaderView) -> Seq<u8> {
        header_encoding(v)
    }

    fn encode(&self) -> (r: Result<Vec<u8>, EncoderError>) {
        if self.chunk_offsets_length as usize != self.chunk_offsets.len() {
            return Err(
                EncoderError::new("ChunkStoreHeader.chunk_offsets_length differs from the offsets"),
            );
        }
        let mut out: Vec<u8> = Vec::new();
        self.write_to(&mut out);
        assert(out@ =~= header_encoding(self@));
        Ok(out)
    }
}

impl Decoder for ChunkStoreHeader {
    open spec fn parse_at(s: Seq<u8>, p: nat) -> Option<(HeaderView, nat)> {
        parse_header_at(s, p)
    }

    fn decode(input: &[u8], pos: usize) -> (r: Result<(ChunkStoreHeader, usize), DecoderError>) {
        if pos > input.len() || input.len() - pos < 8 {
            return Err(DecoderError::new("ChunkStoreHeader.length"));
        }
        if input.len() - pos < 10 {
            return Err(DecoderError::new("ChunkStoreHeader.sector_size"));
        }
        if input.len() - pos < 12 {
            return Err(DecoderError::new("ChunkStoreHeader.chunk_count"));
        }
        if input.len() - pos < 16 {
            return Err(DecoderError::new("ChunkStoreHeader.chunk_offsets_length"));
        }
        let length = read_u64(input, pos);
        let sector_size = read_u16(input, pos + 8);
        let chunk_count = read_u16(input, pos + 10);
        let n = read_u32(input, pos + 12);
        let room = input.len() - pos - 16;
        if n as usize > room / 6 {
            return Err(DecoderError::new("ChunkStoreHeader.chunk_offsets"));
        }
        assert(6 * n <= room) by (nonlinear_arith)
            requires
                n <= room / 6,
        ;
        let start = pos + 16;
        let total = input.len();
        let ghost s = input@;
        let mut offsets: Vec<ChunkOffsets> = Vec::with_capacity(n as usize);
        let mut i: usize = 0;
        while i < n as usize
            invariant
                i <= n,
                start == pos + 16,
                start + 6 * n <= input@.len(),
                total == input@.len(),
                s == input@,
                offsets@ =~= Seq::new(i as nat, |k: int| offset_at(s, start + 6 * k)),
            decreases n - i,
        {
            let q = start + 6 * i;
            let o = ChunkOffsets { sector_index: read_u32(input, q), sector_offset: read_u16(input, q + 4) };
            offsets.push(o);
            i = i + 1;
        }
        let end = start + 6 * (n as usize);
        let h = ChunkStoreHeader {
            length,
            sector_size,
            chunk_count,
            chunk_offsets_length: n,
            chunk_offsets: offsets,
        };
        Ok((h, end))
    }
}

} // verus!
