//! One log record on the wire: an 8-byte timestamp, a 1-byte action code
//! and two null-terminated byte fields.
use crate::bytes::{
    be64, copy_range, find_nul, from_be64, lemma_be64, lemma_nul_from, lemma_nul_from_found,
    no_nul, nul_from, push_all, push_u64, read_u64,
};
use crate::codec::{DecoderError, Decoder, Encoder, EncoderError};
use vstd::prelude::*;

verus! {

/// One log record as stored inside a chunk's entries blob.
#[derive(Debug, Clone, Default, PartialEq, Eq)]
pub struct ChunkEntry {
    /// Milliseconds since the Unix epoch.
    pub timestamp: u64,
    /// Action code (see `LogAction`).
    pub action: u8,
    pub target: Vec<u8>,
    pub message: Vec<u8>,
}

/// The contents of a [`ChunkEntry`].
pub struct ChunkEntryView {
    pub timestamp: u64,
    pub action: u8,
    pub target: Seq<u8>,
    pub message: Seq<u8>,
}

impl View for ChunkEntry {
    type V = ChunkEntryView;

    open spec fn view(&self) -> ChunkEntryView {
        ChunkEntryView {
            timestamp: self.timestamp,
            action: self.action,
            target: self.target@,
            message: self.message@,
        }
    }
}

/// An entry can be written out when neither byte field holds a zero,
/// which would end the field early.
pub open spec fn entry_encodable(e: ChunkEntryView) -> bool {
    no_nul(e.target) && no_nul(e.message)
}

/// Timestamp, action, target and a zero, message and a zero.
pub open spec fn entry_encoding(e: ChunkEntryView) -> Seq<u8> {
    be64(e.timestamp) + seq![e.action] + e.target + seq![0u8] + e.message + seq![0u8]
}

/// The entry that the bytes of `s` from `p` on begin with, and where it ends.
pub open spec fn parse_entry_at(s: Seq<u8>, p: nat) -> Option<(ChunkEntryView, nat)> {
    if p + 9 > s.len() {
        None
    } else {
        match nul_from(s, p + 9) {
            None => None,
            Some(t_end) => match nul_from(s, t_end + 1) {
                None => None,
                Some(m_end) => Some(
                    (
                        ChunkEntryView {
                            timestamp: from_be64(s.subrange(p as int, s.len() as int)),
                            action: s[p + 8 as int],
                            target: s.subrange(p + 9 as int, t_end as int),
                            message: s.subrange(t_end + 1 as int, m_end as int),
                        },
                        m_end + 1,
                    ),
                ),
            },
        }
    }
}

/// Round trip: an encodable entry written after any bytes `pre` and
/// followed by any bytes `rest` is read back whole from where it starts,
/// and reading stops right after it.
pub proof fn lemma_entry_round_trip(e: ChunkEntryView, pre: Seq<u8>, rest: Seq<u8>)
    requires
        entry_encodable(e),
    ensures
        parse_entry_at(pre + entry_encoding(e) + rest, pre.len()) == Some(
            (e, pre.len() + entry_encoding(e).len()),
        ),
{
    let enc = entry_encoding(e);
    let s = pre + enc + rest;
    let p = pre.len();
    let t_end = p + 9 + e.target.len();
    let m_end = t_end + 1 + e.message.len();
    assert(s.subrange(p as int, s.len() as int) =~= be64(e.timestamp) + (s.subrange(
        p + 8 as int,
        s.len() as int,
    )));
    lemma_be64(e.timestamp, s.subrange(p + 8 as int, s.len() as int));
    assert forall|i: int| p + 9 <= i < t_end implies s[i] != 0 by {
        assert(s[i] == e.target[i - p - 9]);
    }
    assert(s[t_end as int] == 0);
    lemma_nul_from(s, p + 9, t_end);
    assert forall|i: int| t_end + 1 <= i < m_end implies s[i] != 0 by {
        assert(s[i] == e.message[i - t_end - 1]);
    }
    assert(s[m_end as int] == 0);
    lemma_nul_from(s, t_end + 1, m_end);
    assert(s.subrange(p + 9 as int, t_end as int) =~= e.target);
    assert(s.subrange(t_end + 1 as int, m_end as int) =~= e.message);
    assert(s[p + 8 as int] == e.action);
}

/// What is read back is always encodable, and its encoding is exactly the
/// bytes it was read from.
pub proof fn lemma_entry_parsed(s: Seq<u8>, p: nat)
    ensures
        parse_entry_at(s, p) matches Some((e, end)) ==> entry_encodable(e) && p
            + entry_encoding(e).len() == end && end <= s.len() && s.subrange(p as int, end as int)
            == entry_encoding(e),
{
    if p + 9 <= s.len() {
        lemma_nul_from_found(s, p + 9);
        if let Some(t_end) = nul_from(s, p + 9) {
            lemma_nul_from_found(s, t_end + 1);
            if let Some(m_end) = nul_from(s, t_end + 1) {
                let e = (parse_entry_at(s, p)->0).0;
                lemma_be64(0, s.subrange(p as int, s.len() as int));
                assert(s.subrange(p as int, m_end + 1 as int) =~= entry_encoding(e));
            }
        }
    }
}

impl Encoder for ChunkEntry {
    open spec fn encodable(v: ChunkEntryView) -> bool {
        entry_encodable(v)
    }

    open spec fn encoding(v: ChunkEntryView) -> Seq<u8> {
        entry_encoding(v)
    }

    fn encode(&self) -> (r: Result<Vec<u8>, EncoderError>) {
        if !has_no_nul(&self.target) {
            return Err(EncoderError::new("ChunkEntry.target holds a zero byte"));
        }
        if !has_no_nul(&self.message) {
            return Err(EncoderError::new("ChunkEntry.message holds a zero byte"));
        }
        let mut out: Vec<u8> = Vec::new();
        self.write_to(&mut out);
        assert(out@ =~= entry_encoding(self@));
        Ok(out)
    }
}

impl ChunkEntry {
    /// Appends the entry's encoding.
    pub fn write_to(&self, out: &mut Vec<u8>)
        ensures
            final(out)@ == old(out)@ + entry_encoding(self@),
    {
        let ghost start = out@;
        push_u64(out, self.timestamp);
        out.push(self.action);
        push_all(out, self.target.as_slice());
        out.push(0u8);
        push_all(out, self.message.as_slice());
        out.push(0u8);
        assert(out@ =~= start + entry_encoding(self@));
    }
}

/// Whether `b` holds no zero byte.
pub fn has_no_nul(b: &Vec<u8>) -> (r: bool)
    ensures
        r == no_nul(b@),
{
    let mut i: usize = 0;
    while i < b.len()
        invariant
            i <= b@.len(),
            forall|k: int| 0 <= k < i ==> b@[k] != 0,
        decreases b@.len() - i,
    {
        if b[i] == 0 {
            return false;
        }
        i = i + 1;
    }
    true
}

impl Decoder for ChunkEntry {
    open spec fn parse_at(s: Seq<u8>, p: nat) -> Option<(ChunkEntryView, nat)> {
        parse_entry_at(s, p)
    }

    fn decode(input: &[u8], pos: usize) -> (r: Result<(ChunkEntry, usize), DecoderError>) {
        if pos > input.len() || input.len() - pos < 8 {
            return Err(DecoderError::new("ChunkEntry.timestamp"));
        }
        if input.len() - pos < 9 {
            return Err(DecoderError::new("ChunkEntry.action"));
        }
        let timestamp = read_u64(input, pos);
        let action = input[pos + 8];
        let t_end = match find_nul(input, pos + 9) {
            Some(i) => i,
            None => return Err(DecoderError::new("ChunkEntry.target")),
        };
        proof {
            lemma_nul_from_found(input@, (pos + 9) as nat);
        }
        let m_end = match find_nul(input, t_end + 1) {
            Some(i) => i,
            None => return Err(DecoderError::new("ChunkEntry.message")),
        };
        proof {
            lemma_nul_from_found(input@, (t_end + 1) as nat);
        }
        let target = copy_range(input, pos + 9, t_end);
        let message = copy_range(input, t_end + 1, m_end);
        let e = ChunkEntry { timestamp, action, target, message };
        assert(e@ == (parse_entry_at(input@, pos as nat)->0).0);
        Ok((e, m_end + 1))
    }
}

} // verus!
