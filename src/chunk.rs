//! A chunk: a compressed batch of entries with the time range it covers.
use crate::bytes::{
    be32, be64, copy_range, from_be32, from_be64, lemma_be32, lemma_be64, push_all, push_u32,
    push_u64, read_u32, read_u64,
};
use crate::codec::{DecoderError, Decoder, Encoder, EncoderError};
use crate::compression::{Compressor, zlib_deflated, zlib_inflated};
use vstd::prelude::*;

verus! {

/// Bytes before a chunk's entries blob: length, two timestamps, blob length.
pub const CHUNK_HEADER_BYTES: u32 = 24;

/// Whether a chunk's `entries` hold the compressed blob or the plain
/// concatenation of encoded entries.
#[derive(Debug, Clone, Copy, PartialEq, Eq, Structural)]
pub enum ChunkCompressionState {
    COMPRESSED,
    DECOMPRESSED,
}

#[derive(Debug, Clone, PartialEq, Eq)]
pub struct Chunk {
    /// Total encoded byte length of the chunk.
    pub length: u32,
    /// First timestamp covered, inclusive.
    pub timestamp_from: u64,
    /// Last timestamp covered, inclusive.
    pub timestamp_to: u64,
    /// Byte length of `entries`.
    pub entries_length: u32,
    pub entries: Vec<u8>,
    pub state: ChunkCompressionState,
}

/// A processing step on a chunk failed.
#[derive(Debug)]
pub struct ChunkProcessingException {
    pub message: String,
}

impl ChunkProcessingException {
    fn new(message: &str) -> (r: ChunkProcessingException)
        ensures
            r.message@ == message@,
    {
        ChunkProcessingException { message: message.to_owned() }
    }
}

/// The contents of a [`Chunk`].
pub struct ChunkView {
    pub length: u32,
    pub timestamp_from: u64,
    pub timestamp_to: u64,
    pub entries_length: u32,
    pub entries: Seq<u8>,
    pub state: ChunkCompressionState,
}

impl View for Chunk {
    type V = ChunkView;

    open spec fn view(&self) -> ChunkView {
        ChunkView {
            length: self.length,
            timestamp_from: self.timestamp_from,
            timestamp_to: self.timestamp_to,
            entries_length: self.entries_length,
            entries: self.entries@,
            state: self.state,
        }
    }
}

/// A chunk can be written out when its blob length field is right.
pub open spec fn chunk_encodable(c: ChunkView) -> bool {
    c.entries_length == c.entries.len()
}

/// A chunk as it stands in a store: encodable, compressed, and with
/// `length` its whole encoded size.
pub open spec fn chunk_well_formed(c: ChunkView) -> bool {
    &&& chunk_encodable(c)
    &&& c.state == ChunkCompressionState::COMPRESSED
    &&& c.length == CHUNK_HEADER_BYTES + c.entries.len()
}

pub open spec fn chunk_encoding(c: ChunkView) -> Seq<u8> {
    be32(c.length) + be64(c.timestamp_from) + be64(c.timestamp_to) + be32(c.entries_length)
        + c.entries
}

/// The chunk that the bytes of `s` from `p` on begin with, and where it
/// ends; a chunk read from bytes holds its entries compressed.
pub open spec fn parse_chunk_at(s: Seq<u8>, p: nat) -> Option<(ChunkView, nat)> {
    if p + 24 > s.len() {
        None
    } else {
        let elen = from_be32(s.subrange(p + 20 as int, s.len() as int));
        if p + 24 + elen > s.len() {
            None
        } else {
            Some(
                (
                    ChunkView {
                        length: from_be32(s.subrange(p as int, s.len() as int)),
                        timestamp_from: from_be64(s.subrange(p + 4 as int, s.len() as int)),
                        timestamp_to: from_be64(s.subrange(p + 12 as int, s.len() as int)),
                        entries_length: elen,
                        entries: s.subrange(p + 24 as int, p + 24 + elen),
                        state: ChunkCompressionState::COMPRESSED,
                    },
                    (p + 24 + elen) as nat,
                ),
            )
        }
    }
}

/// A chunk with its entries compressed and its length fields stamped.
pub open spec fn compressed_chunk(c: ChunkView) -> ChunkView {
    let z = zlib_deflated(c.entries);
    ChunkView {
        length: (CHUNK_HEADER_BYTES + z.len()) as u32,
        entries_length: z.len() as u32,
        entries: z,
        state: ChunkCompressionState::COMPRESSED,
        ..c
    }
}

/// The compressed entries fit the chunk's 32-bit length field.
pub open spec fn compressible(c: ChunkView) -> bool {
    CHUNK_HEADER_BYTES + zlib_deflated(c.entries).len() <= u32::MAX
}

/// The chunk that `s` holds exactly, with no byte left over.
pub open spec fn chunk_from_bytes(s: Seq<u8>) -> Option<ChunkView> {
    match parse_chunk_at(s, 0) {
        Some((c, end)) => if end == s.len() {
            Some(c)
        } else {
            None
        },
        None => None,
    }
}

/// Round trip: an encodable compressed chunk written after any bytes `pre`
/// and followed by any bytes `rest` is read back whole, and reading stops
/// right after it.
pub proof fn lemma_chunk_round_trip(c: ChunkView, pre: Seq<u8>, rest: Seq<u8>)
    requires
        chunk_encodable(c),
        c.state == ChunkCompressionState::COMPRESSED,
    ensures
        parse_chunk_at(pre + chunk_encoding(c) + rest, pre.len()) == Some(
            (c, pre.len() + chunk_encoding(c).len()),
        ),
{
    let s = pre + chunk_encoding(c) + rest;
    let p = pre.len() as int;
    let n = s.len() as int;
    assert(s.subrange(p, n) =~= be32(c.length) + s.subrange(p + 4, n));
    lemma_be32(c.length, s.subrange(p + 4, n));
    assert(s.subrange(p + 4, n) =~= be64(c.timestamp_from) + s.subrange(p + 12, n));
    lemma_be64(c.timestamp_from, s.subrange(p + 12, n));
    assert(s.subrange(p + 12, n) =~= be64(c.timestamp_to) + s.subrange(p + 20, n));
    lemma_be64(c.timestamp_to, s.subrange(p + 20, n));
    assert(s.subrange(p + 20, n) =~= be32(c.entries_length) + s.subrange(p + 24, n));
    lemma_be32(c.entries_length, s.subrange(p + 24, n));
    assert(s.subrange(p + 24, p + 24 + c.entries.len()) =~= c.entries);
}

/// What is read back is encodable and compressed, and its encoding is
/// exactly the bytes it was read from.
pub proof fn lemma_chunk_parsed(s: Seq<u8>, p: nat)
    ensures
        parse_chunk_at(s, p) matches Some((c, end)) ==> chunk_encodable(c) && c.state
            == ChunkCompressionState::COMPRESSED && end == p + chunk_encoding(c).len() && end
            <= s.len() && s.subrange(p as int, end as int) == chunk_encoding(c),
{
    if let Some((c, end)) = parse_chunk_at(s, p) {
        let n = s.len() as int;
        let p = p as int;
        lemma_be32(0, s.subrange(p, n));
        lemma_be64(0, s.subrange(p + 4, n));
        lemma_be64(0, s.subrange(p + 12, n));
        lemma_be32(0, s.subrange(p + 20, n));
        assert(s.subrange(p, end as int) =~= chunk_encoding(c));
    }
}

impl Encoder for Chunk {
    open spec fn encodable(v: ChunkView) -> bool {
        chunk_encodable(v)
    }

    open spec fn encoding(v: ChunkView) -> Seq<u8> {
        chunk_encoding(v)
    }

    fn encode(&self) -> (r: Result<Vec<u8>, EncoderError>) {
        if self.entries_length as usize != self.entries.len() {
            return Err(EncoderError::new("Chunk.entries_length differs from the blob length"));
        }
        let mut out: Vec<u8> = Vec::new();
        self.write_to(&mut out);
        assert(out@ =~= chunk_encoding(self@));
        Ok(out)
    }
}

impl Decoder for Chunk {
    open spec fn parse_at(s: Seq<u8>, p: nat) -> Option<(ChunkView, nat)> {
        parse_chunk_at(s, p)
    }

    fn decode(input: &[u8], pos: usize) -> (r: Result<(Chunk, usize), DecoderError>) {
        if pos > input.len() || input.len() - pos < 4 {
            return Err(DecoderError::new("Chunk.length"));
        }
        if input.len() - pos < 12 {
            return Err(DecoderError::new("Chunk.timestamp_from"));
        }
        if input.len() - pos < 20 {
            return Err(DecoderError::new("Chunk.timestamp_to"));
        }
        if input.len() - pos < 24 {
            return Err(DecoderError::new("Chunk.entries_length"));
        }
        let length = read_u32(input, pos);
        let timestamp_from = read_u64(input, pos + 4);
        let timestamp_to = read_u64(input, pos + 12);
        let entries_length = read_u32(input, pos + 20);
        if input.len() - pos - 24 < entries_length as usize {
            return Err(DecoderError::new("Chunk.entries"));
        }
        let end = pos + 24 + entries_length as usize;
        let entries = copy_range(input, pos + 24, end);
        let c = Chunk {
            length,
            timestamp_from,
            timestamp_to,
            entries_length,
            entries,
            state: ChunkCompressionState::COMPRESSED,
        };
        Ok((c, end))
    }
}

impl Chunk {
    /// An empty chunk waiting for entries.
    pub fn new() -> (r: Chunk)
        ensures
            r@ == (ChunkView {
                length: 0,
                timestamp_from: 0,
                timestamp_to: 0,
                entries_length: 0,
                entries: Seq::empty(),
                state: ChunkCompressionState::DECOMPRESSED,
            }),
    {
        Chunk {
            length: 0,
            timestamp_from: 0,
            timestamp_to: 0,
            entries_length: 0,
            entries: Vec::new(),
            state: ChunkCompressionState::DECOMPRESSED,
        }
    }

    /// Width in bytes of the `length` field that opens every encoded chunk,
    /// which is what a reader takes first to learn the chunk's size.
    pub fn header_length() -> (r: u32)
        ensures
            r == 4,
    {
        4
    }

    /// Appends the encoding of the chunk.
    pub fn write_to(&self, out: &mut Vec<u8>)
        ensures
            final(out)@ == old(out)@ + chunk_encoding(self@),
    {
        let ghost start = out@;
        push_u32(out, self.length);
        push_u64(out, self.timestamp_from);
        push_u64(out, self.timestamp_to);
        push_u32(out, self.entries_length);
        push_all(out, self.entries.as_slice());
        assert(out@ =~= start + chunk_encoding(self@));
    }

    /// A copy of the chunk.
    pub fn duplicate(&self) -> (r: Chunk)
        ensures
            r@ == self@,
    {
        let entries = copy_range(self.entries.as_slice(), 0, self.entries.len());
        assert(entries@ =~= self.entries@);
        Chunk {
            length: self.length,
            timestamp_from: self.timestamp_from,
            timestamp_to: self.timestamp_to,
            entries_length: self.entries_length,
            entries,
            state: self.state,
        }
    }

    /// Reads a chunk that fills `bytes` exactly.
    pub fn from_bytes(bytes: &Vec<u8>) -> (r: Result<Chunk, ChunkProcessingException>)
        ensures
            match r {
                Ok(c) => chunk_from_bytes(bytes@) == Some(c@),
                Err(_) => chunk_from_bytes(bytes@) is None,
            },
    {
        match Chunk::decode(bytes.as_slice(), 0) {
            Ok((c, end)) => {
                if end == bytes.len() {
                    Ok(c)
                } else {
                    Err(ChunkProcessingException::new("bytes left over after the chunk"))
                }
            },
            Err(_) => Err(ChunkProcessingException::new("bytes do not hold a whole chunk")),
        }
    }

    /// Compresses the entries blob and stamps the length fields; a chunk
    /// already compressed is left as it is.
    pub fn compress(&mut self) -> (r: Result<(), ChunkProcessingException>)
        ensures
            old(self).state == ChunkCompressionState::COMPRESSED ==> r is Ok,
            old(self).state == ChunkCompressionState::COMPRESSED ==> final(self)@ == old(self)@,
            old(self).state == ChunkCompressionState::DECOMPRESSED ==> (r is Ok <==> compressible(
                old(self)@,
            )),
            old(self).state == ChunkCompressionState::DECOMPRESSED ==> match r {
                Ok(_) => {
                    &&& final(self)@ == compressed_chunk(old(self)@)
                    &&& CHUNK_HEADER_BYTES + final(self)@.entries.len() <= u32::MAX
                    &&& zlib_inflated(final(self)@.entries) == Some(old(self)@.entries)
                },
                Err(_) => final(self)@ == old(self)@,
            },
    {
        if self.state == ChunkCompressionState::COMPRESSED {
            return Ok(());
        }
        let mut compressor = Compressor::new();
        match compressor.compress_vec(&self.entries) {
            Ok(z) => {
                if z.len() > (u32::MAX - CHUNK_HEADER_BYTES) as usize {
                    return Err(ChunkProcessingException::new("compressed entries too long"));
                }
                self.entries_length = z.len() as u32;
                self.length = CHUNK_HEADER_BYTES + z.len() as u32;
                self.entries = z;
                self.state = ChunkCompressionState::COMPRESSED;
                Ok(())
            },
            Err(e) => Err(ChunkProcessingException { message: e.message }),
        }
    }

    /// Inflates the entries blob so that entries can be read; a chunk
    /// already decompressed is left as it is. The length fields then count
    /// the inflated blob.
    pub fn decompress(&mut self) -> (r: Result<(), ChunkProcessingException>)
        ensures
            old(self).state == ChunkCompressionState::DECOMPRESSED ==> r is Ok,
            old(self).state == ChunkCompressionState::DECOMPRESSED ==> final(self)@ == old(self)@,
            old(self).state == ChunkCompressionState::COMPRESSED ==> {
                &&& r is Ok <==> (zlib_inflated(old(self)@.entries) matches Some(d)
                    && CHUNK_HEADER_BYTES + d.len() <= u32::MAX)
                &&& r is Ok ==> {
                    let d = zlib_inflated(old(self)@.entries)->0;
                    final(self)@ == (ChunkView {
                        length: (CHUNK_HEADER_BYTES + d.len()) as u32,
                        entries_length: d.len() as u32,
                        entries: d,
                        state: ChunkCompressionState::DECOMPRESSED,
                        ..old(self)@
                    })
                }
                &&& r is Err ==> final(self)@ == old(self)@
            },
    {
        if self.state == ChunkCompressionState::DECOMPRESSED {
            return Ok(());
        }
        let mut compressor = Compressor::new();
        match compressor.decompress_vec(&self.entries) {
            Ok(d) => {
                if d.len() > (u32::MAX - CHUNK_HEADER_BYTES) as usize {
                    return Err(ChunkProcessingException::new("inflated entries too long"));
                }
                self.entries_length = d.len() as u32;
                self.length = CHUNK_HEADER_BYTES + d.len() as u32;
                self.entries = d;
                self.state = ChunkCompressionState::DECOMPRESSED;
                Ok(())
            },
            Err(e) => Err(ChunkProcessingException { message: e.message }),
        }
    }

    /// The chunk's bytes as stored: compresses it first if needed.
    pub fn to_be_bytes(&mut self) -> (r: Result<Vec<u8>, ChunkProcessingException>)
        ensures
            old(self).state == ChunkCompressionState::COMPRESSED ==> final(self)@ == old(self)@,
            old(self).state == ChunkCompressionState::COMPRESSED ==> (r is Ok <==> chunk_encodable(old(self)@)),
            old(self).state == ChunkCompressionState::DECOMPRESSED ==> (r is Ok <==> compressible(
                old(self)@,
            )),
            old(self).state == ChunkCompressionState::DECOMPRESSED && r is Ok ==> final(self)@
                == compressed_chunk(old(self)@),
            r matches Ok(b) ==> b@ == chunk_encoding(final(self)@),
            r is Ok ==> final(self).state == ChunkCompressionState::COMPRESSED,
    {
        if self.state == ChunkCompressionState::DECOMPRESSED {
            match self.compress() {
                Ok(_) => {},
                Err(e) => return Err(e),
            }
        }
        match self.encode() {
            Ok(b) => Ok(b),
            Err(e) => Err(ChunkProcessingException { message: e.message }),
        }
    }
}

} // verus!
