//! The store image: header, chunk count, then the chunks one after another.
//! Chunk offsets count from the start of the chunk area, so the header can
//! grow as chunks are appended without moving any chunk's offset.
use crate::bytes::{be32, be64, from_be64, lemma_be32, lemma_be64, push_u64, read_u64};
use crate::chunk::{
    CHUNK_HEADER_BYTES, Chunk, ChunkCompressionState, ChunkProcessingException, ChunkView,
    chunk_encodable, chunk_encoding, chunk_well_formed, compressed_chunk, compressible, lemma_chunk_round_trip,
    parse_chunk_at,
};
use crate::codec::{DecoderError, Decoder, Encoder, EncoderError};
use crate::header::{
    ChunkOffsets, ChunkStoreHeader, HEADER_FIXED_BYTES, HeaderView, OFFSET_RECORD_BYTES,
    header_encodable, header_encoding,
    lemma_header_round_trip, lemma_offsets_encoding, offset_value, parse_header_at,
};
use vstd::prelude::*;

verus! {

#[derive(Debug)]
pub struct ChunkStore {
    pub header: ChunkStoreHeader,
    /// Number of chunks.
    pub chunks_length: u64,
    pub chunks: Vec<Chunk>,
    /// The most recently appended chunk, kept at hand for lookups.
    pub latest_chunk: Chunk,
}

/// The contents of a [`ChunkStore`].
pub struct StoreContents {
    pub header: HeaderView,
    pub chunks_length: u64,
    pub chunks: Seq<ChunkView>,
    pub latest_chunk: ChunkView,
}

impl View for ChunkStore {
    type V = StoreContents;

    open spec fn view(&self) -> StoreContents {
        StoreContents {
            header: self.header@,
            chunks_length: self.chunks_length,
            chunks: self.chunks@.map_values(|c: Chunk| c@),
            latest_chunk: self.latest_chunk@,
        }
    }
}

/// A store can refuse a chunk.
#[derive(Debug)]
pub enum AppendError {
    /// The chunk count field is at its largest.
    StoreFull,
    /// The chunk would start past the largest offset the index can name.
    OffsetOutOfRange,
    /// The chunk's length fields do not match its blob.
    MalformedChunk,
    /// The chunk's entries could not be compressed.
    Compression(ChunkProcessingException),
}

/// The chunks one after another.
pub open spec fn chunks_encoding(cs: Seq<ChunkView>) -> Seq<u8>
    decreases cs.len(),
{
    if cs.len() == 0 {
        Seq::empty()
    } else {
        chunks_encoding(cs.drop_last()) + chunk_encoding(cs.last())
    }
}

pub open spec fn store_encoding(st: StoreContents) -> Seq<u8> {
    header_encoding(st.header) + be64(st.chunks_length) + chunks_encoding(st.chunks)
}

pub open spec fn store_encodable(st: StoreContents) -> bool {
    &&& header_encodable(st.header)
    &&& st.chunks_length == st.chunks.len()
    &&& forall|i: int| 0 <= i < st.chunks.len() ==> chunk_encodable(#[trigger] st.chunks[i])
}

/// The empty chunk a store without chunks holds as its latest one.
pub open spec fn empty_chunk() -> ChunkView {
    ChunkView {
        length: 0,
        timestamp_from: 0,
        timestamp_to: 0,
        entries_length: 0,
        entries: Seq::empty(),
        state: ChunkCompressionState::DECOMPRESSED,
    }
}

/// A store as its writer keeps it: every count field agrees with the
/// chunks, every chunk is stored compressed with its true length, and
/// offset `i` names the byte where chunk `i` starts in the chunk area.
pub open spec fn store_well_formed(st: StoreContents) -> bool {
    let h = st.header;
    let n = st.chunks.len();
    &&& h.sector_size > 0
    &&& h.chunk_offsets.len() == n
    &&& h.chunk_offsets_length == n
    &&& h.chunk_count == n
    &&& h.length == 16 + 6 * n
    &&& st.chunks_length == n
    &&& forall|i: int| 0 <= i < n ==> chunk_well_formed(#[trigger] st.chunks[i])
    &&& forall|i: int|
        0 <= i < n ==> offset_value(#[trigger] h.chunk_offsets[i], h.sector_size as int)
            == chunks_encoding(st.chunks.take(i)).len()
    &&& forall|i: int|
        0 <= i < n ==> (#[trigger] h.chunk_offsets[i]).sector_offset < h.sector_size
    &&& forall|i: int|
        0 <= i < n ==> offset_value(#[trigger] h.chunk_offsets[i], h.sector_size as int)
            <= u32::MAX
    &&& st.latest_chunk == (if n == 0 {
        empty_chunk()
    } else {
        st.chunks[n - 1]
    })
}

/// Where a chunk appended to `st` starts in the chunk area.
pub open spec fn next_offset(st: StoreContents) -> ChunkOffsets {
    let total = chunks_encoding(st.chunks).len();
    ChunkOffsets {
        sector_index: (total / st.header.sector_size as nat) as u32,
        sector_offset: (total % st.header.sector_size as nat) as u16,
    }
}

/// `st` with the stored chunk `c` appended and indexed.
pub open spec fn appended(st: StoreContents, c: ChunkView) -> StoreContents {
    StoreContents {
        header: HeaderView {
            length: (st.header.length + 6) as u64,
            chunk_count: (st.header.chunk_count + 1) as u16,
            chunk_offsets_length: (st.header.chunk_offsets_length + 1) as u32,
            chunk_offsets: st.header.chunk_offsets.push(next_offset(st)),
            ..st.header
        },
        chunks_length: (st.chunks_length + 1) as u64,
        chunks: st.chunks.push(c),
        latest_chunk: c,
    }
}

pub proof fn lemma_chunks_encoding_append(a: Seq<ChunkView>, b: Seq<ChunkView>)
    ensures
        chunks_encoding(a + b) == chunks_encoding(a) + chunks_encoding(b),
    decreases b.len(),
{
    if b.len() == 0 {
        assert(a + b =~= a);
        assert(chunks_encoding(a) + chunks_encoding(b) =~= chunks_encoding(a));
    } else {
        assert((a + b).drop_last() =~= a + b.drop_last());
        lemma_chunks_encoding_append(a, b.drop_last());
        assert(chunks_encoding(a + b) =~= chunks_encoding(a) + chunks_encoding(b));
    }
}

/// Chunk `i` stands right after the chunks before it.
pub proof fn lemma_chunks_encoding_split(cs: Seq<ChunkView>, i: int)
    requires
        0 <= i < cs.len(),
    ensures
        chunks_encoding(cs) == chunks_encoding(cs.take(i)) + chunk_encoding(cs[i])
            + chunks_encoding(cs.skip(i + 1)),
{
    let one = seq![cs[i]];
    assert(cs =~= cs.take(i) + (one + cs.skip(i + 1)));
    lemma_chunks_encoding_append(cs.take(i), one + cs.skip(i + 1));
    lemma_chunks_encoding_append(one, cs.skip(i + 1));
    assert(one.drop_last() =~= Seq::<ChunkView>::empty());
    assert(chunks_encoding(Seq::<ChunkView>::empty()) =~= Seq::<u8>::empty());
    assert(one.last() == cs[i]);
    assert(chunks_encoding(one) =~= chunk_encoding(cs[i]));
}

/// The header at the start of an image, which must end exactly where its
/// own length field says.
pub open spec fn header_in_image(image: Seq<u8>) -> Option<HeaderView> {
    match parse_header_at(image, 0) {
        Some((h, end)) => if end == h.length {
            Some(h)
        } else {
            None
        },
        None => None,
    }
}

/// Byte position in the image where the chunk indexed at `i` starts: past
/// the header and the chunk count, then as far as its offset says.
pub open spec fn chunk_position(h: HeaderView, i: int) -> int {
    h.length + 8 + offset_value(h.chunk_offsets[i], h.sector_size as int)
}

/// The chunk indexed at `i`, read from where its offset points; it must
/// end exactly where its own length field says.
#[verifier::opaque]
pub open spec fn chunk_at(image: Seq<u8>, h: HeaderView, i: int) -> Option<ChunkView> {
    let p = chunk_position(h, i);
    match parse_chunk_at(image, p as nat) {
        Some((c, end)) => if end == p + c.length {
            Some(c)
        } else {
            None
        },
        None => None,
    }
}

/// What reading an image yields: its header, its chunk count, and the
/// chunk indexed last (the empty chunk when there is none). The chunks
/// before it stay in the image until a lookup needs one.
pub open spec fn store_in_image(image: Seq<u8>) -> Option<StoreContents> {
    match header_in_image(image) {
        None => None,
        Some(h) => {
            let n = h.chunk_offsets.len();
            if h.length + 8 > image.len() {
                None
            } else if n == 0 {
                Some(
                    StoreContents {
                        header: h,
                        chunks_length: from_be64(image.subrange(h.length as int, image.len() as int)),
                        chunks: Seq::empty(),
                        latest_chunk: empty_chunk(),
                    },
                )
            } else {
                match chunk_at(image, h, n - 1) {
                    None => None,
                    Some(c) => Some(
                        StoreContents {
                            header: h,
                            chunks_length: from_be64(
                                image.subrange(h.length as int, image.len() as int),
                            ),
                            chunks: Seq::empty(),
                            latest_chunk: c,
                        },
                    ),
                }
            }
        },
    }
}

proof fn lemma_seq_assoc(a: Seq<u8>, b: Seq<u8>, c: Seq<u8>, d: Seq<u8>)
    ensures
        a + (b + c + d) == (a + b) + c + d,
{
    assert(a + (b + c + d) =~= (a + b) + c + d);
}

/// A stored chunk written where offset `i` points is the chunk found there.
proof fn lemma_chunk_at_placed(image: Seq<u8>, h: HeaderView, i: int, c: ChunkView, pre: Seq<
    u8,
>, rest: Seq<u8>)
    requires
        chunk_well_formed(c),
        image == pre + chunk_encoding(c) + rest,
        pre.len() == chunk_position(h, i),
    ensures
        chunk_at(image, h, i) == Some(c),
{
    reveal(chunk_at);
    lemma_chunk_round_trip(c, pre, rest);
}

proof fn lemma_chunk_in_image(st: StoreContents, i: int)
    requires
        0 <= i < st.chunks.len(),
        st.header.length == 16 + 6 * st.header.chunk_offsets.len(),
        chunk_well_formed(st.chunks[i]),
        offset_value(st.header.chunk_offsets[i], st.header.sector_size as int) == chunks_encoding(
            st.chunks.take(i),
        ).len(),
    ensures
        chunk_at(store_encoding(st), st.header, i) == Some(st.chunks[i]),
{
    let h = st.header;
    let cs = st.chunks;
    let c = cs[i];
    lemma_offsets_encoding(h.chunk_offsets, Seq::empty(), Seq::empty());
    lemma_chunks_encoding_split(cs, i);
    let head = header_encoding(h) + be64(st.chunks_length);
    let before = chunks_encoding(cs.take(i));
    let rest = chunks_encoding(cs.skip(i + 1));
    let enc = chunk_encoding(c);
    assert(store_encoding(st) == head + chunks_encoding(cs));
    assert(head.len() == h.length + 8);
    lemma_seq_assoc(head, before, enc, rest);
    lemma_chunk_at_placed(store_encoding(st), h, i, c, head + before, rest);
}

/// Offset correctness: in the image of a well-formed store, the header
/// reads back as it was, and the offset of every chunk leads to that very
/// chunk.
#[verifier::rlimit(50)]
pub proof fn lemma_store_layout(st: StoreContents)
    requires
        store_well_formed(st),
    ensures
        header_in_image(store_encoding(st)) == Some(st.header),
        forall|i: int|
            0 <= i < st.chunks.len() ==> chunk_at(store_encoding(st), st.header, i) == Some(
                #[trigger] st.chunks[i],
            ),
        store_in_image(store_encoding(st)) == Some(
            StoreContents { chunks: Seq::empty(), ..st },
        ),
{
    let h = st.header;
    let image = store_encoding(st);
    let tail = be64(st.chunks_length) + chunks_encoding(st.chunks);
    assert(image =~= Seq::<u8>::empty() + header_encoding(h) + tail);
    lemma_header_round_trip(h, Seq::empty(), tail);
    let hl = header_encoding(h).len();
    assert(image.subrange(hl as int, image.len() as int) =~= be64(st.chunks_length)
        + chunks_encoding(st.chunks));
    lemma_be64(st.chunks_length, chunks_encoding(st.chunks));
    assert forall|i: int| 0 <= i < st.chunks.len() implies chunk_at(image, h, i) == Some(
        #[trigger] st.chunks[i],
    ) by {
        assert(chunk_well_formed(st.chunks[i]));
        assert(offset_value(h.chunk_offsets[i], h.sector_size as int) == chunks_encoding(
            st.chunks.take(i),
        ).len());
        lemma_chunk_in_image(st, i);
    }
    if st.chunks.len() > 0 {
        let n = st.chunks.len() as int;
        assert(chunk_at(image, h, n - 1) == Some(st.chunks[n - 1]));
    }
}

/// The `n` chunks that follow one another from position `p` on, and where
/// the last ends.
pub open spec fn parse_chunks_at(s: Seq<u8>, p: nat, n: nat) -> Option<(Seq<ChunkView>, nat)>
    decreases n,
{
    if n == 0 {
        Some((Seq::empty(), p))
    } else {
        match parse_chunks_at(s, p, (n - 1) as nat) {
            None => None,
            Some((cs, q)) => match parse_chunk_at(s, q) {
                None => None,
                Some((c, end)) => Some((cs.push(c), end)),
            },
        }
    }
}

/// The whole store that the bytes of `s` from `p` on begin with: header,
/// chunk count, and as many chunks as the count says; the latest chunk is
/// the last of them.
pub open spec fn parse_store_at(s: Seq<u8>, p: nat) -> Option<(StoreContents, nat)> {
    match parse_header_at(s, p) {
        None => None,
        Some((h, q)) => if q + 8 > s.len() {
            None
        } else {
            let n = from_be64(s.subrange(q as int, s.len() as int));
            match parse_chunks_at(s, q + 8, n as nat) {
                None => None,
                Some((cs, end)) => Some(
                    (
                        StoreContents {
                            header: h,
                            chunks_length: n,
                            chunks: cs,
                            latest_chunk: if cs.len() == 0 {
                                empty_chunk()
                            } else {
                                cs.last()
                            },
                        },
                        end,
                    ),
                ),
            }
        },
    }
}

proof fn lemma_parse_chunks_none(s: Seq<u8>, p: nat, m: nat, n: nat)
    requires
        m <= n,
        parse_chunks_at(s, p, m) is None,
    ensures
        parse_chunks_at(s, p, n) is None,
    decreases n,
{
    if m < n {
        lemma_parse_chunks_none(s, p, m, (n - 1) as nat);
    }
}

/// Compressed encodable chunks written one after another read back as the
/// same chunks.
#[verifier::rlimit(50)]
pub proof fn lemma_chunks_round_trip(cs: Seq<ChunkView>, pre: Seq<u8>, rest: Seq<u8>)
    requires
        forall|i: int|
            0 <= i < cs.len() ==> chunk_encodable(#[trigger] cs[i]) && cs[i].state
                == ChunkCompressionState::COMPRESSED,
    ensures
        parse_chunks_at(pre + chunks_encoding(cs) + rest, pre.len(), cs.len()) == Some(
            (cs, pre.len() + chunks_encoding(cs).len()),
        ),
    decreases cs.len(),
{
    if cs.len() == 0 {
        assert(cs =~= Seq::<ChunkView>::empty());
    } else {
        let init = cs.drop_last();
        let last = cs.last();
        let s = pre + chunks_encoding(cs) + rest;
        assert(s =~= pre + chunks_encoding(init) + (chunk_encoding(last) + rest));
        assert forall|i: int| 0 <= i < init.len() implies chunk_encodable(#[trigger] init[i])
            && init[i].state == ChunkCompressionState::COMPRESSED by {
            assert(init[i] == cs[i]);
        }
        lemma_chunks_round_trip(init, pre, chunk_encoding(last) + rest);
        assert(s =~= (pre + chunks_encoding(init)) + chunk_encoding(last) + rest);
        lemma_chunk_round_trip(last, pre + chunks_encoding(init), rest);
        assert(init.push(last) =~= cs);
    }
}

/// Round trip of a whole store: header, count and every chunk read back,
/// with the last chunk as the latest one.
#[verifier::rlimit(50)]
pub proof fn lemma_store_round_trip(st: StoreContents, pre: Seq<u8>, rest: Seq<u8>)
    requires
        store_encodable(st),
        forall|i: int|
            0 <= i < st.chunks.len() ==> (#[trigger] st.chunks[i]).state
                == ChunkCompressionState::COMPRESSED,
        st.latest_chunk == (if st.chunks.len() == 0 {
            empty_chunk()
        } else {
            st.chunks.last()
        }),
    ensures
        parse_store_at(pre + store_encoding(st) + rest, pre.len()) == Some(
            (st, pre.len() + store_encoding(st).len()),
        ),
{
    let h = st.header;
    let s = pre + store_encoding(st) + rest;
    let after = be64(st.chunks_length) + chunks_encoding(st.chunks) + rest;
    assert(s =~= pre + header_encoding(h) + after);
    lemma_header_round_trip(h, pre, after);
    let q = pre.len() + header_encoding(h).len();
    assert(s.subrange(q as int, s.len() as int) =~= be64(st.chunks_length) + (chunks_encoding(
        st.chunks,
    ) + rest));
    lemma_be64(st.chunks_length, chunks_encoding(st.chunks) + rest);
    let pre2 = pre + header_encoding(h) + be64(st.chunks_length);
    assert(s =~= pre2 + chunks_encoding(st.chunks) + rest);
    lemma_chunks_round_trip(st.chunks, pre2, rest);
}

/// A header followed by any bytes is the header an image holds, when its
/// length field is its encoded size.
proof fn lemma_header_in_image(h: HeaderView, rest: Seq<u8>)
    requires
        header_encodable(h),
        h.length == 16 + 6 * h.chunk_offsets.len(),
    ensures
        header_in_image(header_encoding(h) + rest) == Some(h),
{
    assert(header_encoding(h) + rest =~= Seq::<u8>::empty() + header_encoding(h) + rest);
    lemma_header_round_trip(h, Seq::empty(), rest);
}

/// A chunk with its last byte cut off does not read as a chunk.
proof fn lemma_cut_chunk_rejected(c: ChunkView, pre: Seq<u8>)
    requires
        chunk_well_formed(c),
    ensures
        parse_chunk_at(pre + chunk_encoding(c).drop_last(), pre.len()) is None,
{
    let t = pre + chunk_encoding(c).drop_last();
    let p = pre.len() as int;
    if p + 24 <= t.len() {
        assert(t.subrange(p + 20, t.len() as int) =~= be32(c.entries_length) + c.entries.drop_last());
        lemma_be32(c.entries_length, c.entries.drop_last());
    }
}

proof fn lemma_cut_assoc(a: Seq<u8>, b: Seq<u8>, c: Seq<u8>, d: Seq<u8>)
    requires
        d.len() > 0,
    ensures
        (a + b + (c + d)).drop_last() == (a + b + c) + d.drop_last(),
        (a + b + (c + d)).drop_last() == a + (b + (c + d)).drop_last(),
{
    assert((a + b + (c + d)).drop_last() =~= (a + b + c) + d.drop_last());
    assert((a + b + (c + d)).drop_last() =~= a + (b + (c + d)).drop_last());
}

/// An image whose latest chunk does not read does not read as a store.
proof fn lemma_latest_unreadable(t: Seq<u8>, h: HeaderView)
    requires
        header_in_image(t) == Some(h),
        h.chunk_offsets.len() > 0,
        parse_chunk_at(t, chunk_position(h, h.chunk_offsets.len() - 1) as nat) is None,
    ensures
        store_in_image(t) is None,
{
    reveal(chunk_at);
}

/// Corruption is caught: cutting the last byte off the image of a
/// well-formed store that holds a chunk leaves bytes that do not read as a
/// store, since the latest chunk, which ends the image, no longer fits.
#[verifier::rlimit(100)]
pub proof fn lemma_truncated_image_rejected(st: StoreContents)
    requires
        store_well_formed(st),
        st.chunks.len() > 0,
    ensures
        store_in_image(store_encoding(st).drop_last()) is None,
{
    let n = st.chunks.len() as int;
    let h = st.header;
    let cs = st.chunks;
    let c = cs[n - 1];
    assert(chunk_well_formed(c));
    assert(offset_value(h.chunk_offsets[n - 1], h.sector_size as int) == chunks_encoding(
        cs.take(n - 1),
    ).len());
    lemma_chunks_encoding_split(cs, n - 1);
    assert(cs.skip(n) =~= Seq::<ChunkView>::empty());
    assert(chunks_encoding(Seq::<ChunkView>::empty()) =~= Seq::<u8>::empty());
    let a = header_encoding(h);
    let b = be64(st.chunks_length);
    let before = chunks_encoding(cs.take(n - 1));
    let d = chunk_encoding(c);
    assert(chunks_encoding(cs) == before + d + Seq::<u8>::empty());
    assert(before + d + Seq::<u8>::empty() =~= before + d);
    lemma_cut_assoc(a, b, before, d);
    let t = store_encoding(st).drop_last();
    lemma_header_in_image(h, (b + (before + d)).drop_last());
    lemma_offsets_encoding(h.chunk_offsets, Seq::empty(), Seq::empty());
    assert((a + b + before).len() == chunk_position(h, n - 1));
    lemma_cut_chunk_rejected(c, a + b + before);
    lemma_latest_unreadable(t, h);
}

impl ChunkStore {
    /// Width in bytes of the chunk count field that follows the header.
    pub fn chunks_length_bytes_length() -> (r: u64)
        ensures
            r == 8,
    {
        8
    }

    /// An empty store whose offsets use sectors of `sector_size` bytes.
    pub fn new(sector_size: u16) -> (r: ChunkStore)
        requires
            sector_size > 0,
        ensures
            store_well_formed(r@),
            r@.chunks.len() == 0,
            r@.header.sector_size == sector_size,
    {
        let r = ChunkStore {
            header: ChunkStoreHeader {
                length: HEADER_FIXED_BYTES,
                sector_size,
                chunk_count: 0,
                chunk_offsets_length: 0,
                chunk_offsets: Vec::new(),
            },
            chunks_length: 0,
            chunks: Vec::new(),
            latest_chunk: Chunk::new(),
        };
        assert(r@.chunks =~= Seq::<ChunkView>::empty());
        r
    }

    /// Appends a chunk, compressing it first if it is not yet, and indexes
    /// it at the byte where the chunk area currently ends.
    pub fn append_chunk(&mut self, chunk: Chunk) -> (r: Result<(), AppendError>)
        requires
            store_well_formed(old(self)@),
        ensures
            store_well_formed(final(self)@),
            r is Err ==> final(self)@ == old(self)@,
            r is Ok ==> final(self)@ == appended(
                old(self)@,
                if chunk.state == ChunkCompressionState::COMPRESSED {
                    chunk@
                } else {
                    compressed_chunk(chunk@)
                },
            ),
            chunk.state == ChunkCompressionState::COMPRESSED ==> (r is Ok <==> (chunk_well_formed(
                chunk@,
            ) && old(self)@.chunks.len() < u16::MAX && chunks_encoding(old(self)@.chunks).len()
                <= u32::MAX)),
            chunk.state == ChunkCompressionState::DECOMPRESSED ==> (r is Ok <==> (compressible(
                chunk@,
            ) && old(self)@.chunks.len() < u16::MAX && chunks_encoding(old(self)@.chunks).len()
                <= u32::MAX)),
    {
        let mut chunk = chunk;
        if chunk.state == ChunkCompressionState::DECOMPRESSED {
            match chunk.compress() {
                Ok(_) => {},
                Err(e) => return Err(AppendError::Compression(e)),
            }
        }
        if chunk.entries_length as usize != chunk.entries.len() || chunk.entries.len() > (u32::MAX
            - CHUNK_HEADER_BYTES) as usize || chunk.length != CHUNK_HEADER_BYTES
            + chunk.entries_length {
            return Err(AppendError::MalformedChunk);
        }
        if self.header.chunk_count == u16::MAX {
            return Err(AppendError::StoreFull);
        }
        let ghost old_st = self@;
        let ghost n = self@.chunks.len() as int;
        let ss = self.header.sector_size;
        let total: u64 = if self.chunks.len() == 0 {
            0
        } else {
            let last = self.header.chunk_offsets[self.chunks.len() - 1];
            proof {
                let cs = old_st.chunks;
                assert(cs.take(n) =~= cs);
                assert(cs.take(n - 1) =~= cs.drop_last());
            }
            last.calculate_offset(ss as u32) as u64 + self.latest_chunk.length as u64
        };
        assert(total == chunks_encoding(old_st.chunks).len());
        if total > u32::MAX as u64 {
            return Err(AppendError::OffsetOutOfRange);
        }
        let offset = ChunkOffsets {
            sector_index: (total / ss as u64) as u32,
            sector_offset: (total % ss as u64) as u16,
        };
        proof {
            let t = total as int;
            let s = ss as int;
            assert(t / s <= t && t % s < s && (t / s) * s + t % s == t) by (nonlinear_arith)
                requires
                    s > 0,
                    t >= 0,
            ;
        }
        assert(offset == next_offset(old_st));
        self.header.chunk_offsets.push(offset);
        self.header.chunk_offsets_length = self.header.chunk_offsets_length + 1;
        self.header.chunk_count = self.header.chunk_count + 1;
        self.header.length = self.header.length + OFFSET_RECORD_BYTES;
        self.chunks_length = self.chunks_length + 1;
        self.latest_chunk = chunk.duplicate();
        self.chunks.push(chunk);
        proof {
            let new_st = self@;
            let c = chunk@;
            assert(new_st.chunks =~= old_st.chunks.push(c));
            assert(new_st =~= appended(old_st, c));
            assert forall|i: int| 0 <= i < n + 1 implies offset_value(
                #[trigger] new_st.header.chunk_offsets[i],
                ss as int,
            ) == chunks_encoding(new_st.chunks.take(i)).len() by {
                assert(new_st.chunks.take(i) =~= if i <= n {
                    old_st.chunks.take(i)
                } else {
                    new_st.chunks
                });
                if i == n {
                    assert(old_st.chunks.take(n) =~= old_st.chunks);
                }
            }
        }
        Ok(())
    }

    /// Reads what an image holds up front: header, chunk count and the
    /// chunk indexed last, reached through its offset without reading the
    /// chunks before it.
    pub fn read_from_bytes(image: &[u8]) -> (r: Result<ChunkStore, DecoderError>)
        ensures
            match r {
                Ok(st) => store_in_image(image@) == Some(st@),
                Err(_) => store_in_image(image@) is None,
            },
    {
        let (header, end) = match ChunkStoreHeader::decode(image, 0) {
            Ok(v) => v,
            Err(e) => return Err(e),
        };
        if end as u64 != header.length {
            return Err(DecoderError::new("ChunkStoreHeader.length"));
        }
        if image.len() - end < 8 {
            return Err(DecoderError::new("ChunkStore.chunks_length"));
        }
        let chunks_length = read_u64(image, end);
        let n = header.chunk_offsets.len();
        let latest_chunk = if n == 0 {
            Chunk::new()
        } else {
            match ChunkStore::load_chunk(image, &header, n - 1) {
                Ok(c) => c,
                Err(e) => return Err(e),
            }
        };
        let st = ChunkStore { header, chunks_length, chunks: Vec::new(), latest_chunk };
        assert(st@.chunks =~= Seq::<ChunkView>::empty());
        Ok(st)
    }

    /// Reads the chunk indexed at `i` from where its offset points.
    pub fn load_chunk(image: &[u8], header: &ChunkStoreHeader, i: usize) -> (r: Result<
        Chunk,
        DecoderError,
    >)
        requires
            header_in_image(image@) == Some(header@),
            i < header@.chunk_offsets.len(),
        ensures
            match r {
                Ok(c) => chunk_at(image@, header@, i as int) == Some(c@),
                Err(_) => chunk_at(image@, header@, i as int) is None,
            },
    {
        proof {
            crate::header::lemma_header_parsed(image@, 0);
            reveal(chunk_at);
        }
        let o = header.chunk_offsets[i];
        assert((o.sector_index as int) * (header.sector_size as int) <= 0xffff_ffffint * 0xffffint)
            by (nonlinear_arith)
            requires
                o.sector_index <= 0xffff_ffff,
                header.sector_size <= 0xffff,
                o.sector_index >= 0,
                header.sector_size >= 0,
        ;
        let off: u64 = o.sector_index as u64 * header.sector_size as u64 + o.sector_offset as u64;
        let room = image.len() - header.length as usize;
        if off + 8 > room as u64 {
            return Err(DecoderError::new("ChunkStore.chunks"));
        }
        let p = header.length as usize + 8 + off as usize;
        assert(p == chunk_position(header@, i as int));
        match Chunk::decode(image, p) {
            Ok((c, end)) => {
                if end - p != c.length as usize {
                    Err(DecoderError::new("Chunk.length"))
                } else {
                    Ok(c)
                }
            },
            Err(e) => Err(e),
        }
    }
}

impl Decoder for ChunkStore {
    open spec fn parse_at(s: Seq<u8>, p: nat) -> Option<(StoreContents, nat)> {
        parse_store_at(s, p)
    }

    fn decode(input: &[u8], pos: usize) -> (r: Result<(ChunkStore, usize), DecoderError>) {
        let (header, q) = match ChunkStoreHeader::decode(input, pos) {
            Ok(v) => v,
            Err(e) => return Err(e),
        };
        if input.len() - q < 8 {
            return Err(DecoderError::new("ChunkStore.chunks_length"));
        }
        let n = read_u64(input, q);
        let mut chunks: Vec<Chunk> = Vec::new();
        let mut at: usize = q + 8;
        let mut i: u64 = 0;
        while i < n
            invariant
                i <= n,
                parse_header_at(input@, pos as nat) == Some((header@, q as nat)),
                q + 8 <= input@.len(),
                n == from_be64(input@.subrange(q as int, input@.len() as int)),
                parse_chunks_at(input@, (q + 8) as nat, i as nat) == Some(
                    (chunks@.map_values(|c: Chunk| c@), at as nat),
                ),
            decreases n - i,
        {
            let ghost before = chunks@.map_values(|c: Chunk| c@);
            match Chunk::decode(input, at) {
                Ok((c, end)) => {
                    chunks.push(c);
                    at = end;
                    assert(chunks@.map_values(|c: Chunk| c@) =~= before.push(c@));
                },
                Err(e) => {
                    proof {
                        assert(parse_chunks_at(input@, (q + 8) as nat, (i + 1) as nat) is None);
                        lemma_parse_chunks_none(input@, (q + 8) as nat, (i + 1) as nat, n as nat);
                    }
                    return Err(e);
                },
            }
            i = i + 1;
        }
        let latest_chunk = if chunks.len() == 0 {
            Chunk::new()
        } else {
            chunks[chunks.len() - 1].duplicate()
        };
        let st = ChunkStore { header, chunks_length: n, chunks, latest_chunk };
        assert(st@ == (parse_store_at(input@, pos as nat)->0).0);
        Ok((st, at))
    }
}

impl Encoder for ChunkStore {
    open spec fn encodable(v: StoreContents) -> bool {
        store_encodable(v)
    }

    open spec fn encoding(v: StoreContents) -> Seq<u8> {
        store_encoding(v)
    }

    fn encode(&self) -> (r: Result<Vec<u8>, EncoderError>) {
        let mut out: Vec<u8> = match self.header.encode() {
            Ok(b) => b,
            Err(e) => return Err(e),
        };
        if self.chunks.len() as u64 != self.chunks_length {
            return Err(EncoderError::new("ChunkStore.chunks_length differs from the chunks"));
        }
        push_u64(&mut out, self.chunks_length);
        let ghost start = out@;
        let ghost cs = self@.chunks;
        let mut i: usize = 0;
        while i < self.chunks.len()
            invariant
                i <= cs.len(),
                cs == self@.chunks,
                out@ == start + chunks_encoding(cs.take(i as int)),
                forall|k: int| 0 <= k < i ==> chunk_encodable(#[trigger] cs[k]),
            decreases cs.len() - i,
        {
            assert(cs[i as int] == self.chunks@[i as int]@);
            if self.chunks[i].entries_length as usize != self.chunks[i].entries.len() {
                return Err(EncoderError::new("Chunk.entries_length differs from the blob length"));
            }
            self.chunks[i].write_to(&mut out);
            assert(cs.take(i + 1).drop_last() =~= cs.take(i as int));
            i = i + 1;
        }
        assert(cs.take(i as int) =~= cs);
        assert(out@ =~= store_encoding(self@));
        Ok(out)
    }
}

} // verus!
