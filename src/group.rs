//! The application-facing view of a chunk: log entries with text fields,
//! gathered into groups of at most a thousand.
use crate::bytes::{copy_range, no_nul};
use crate::chunk::{
    CHUNK_HEADER_BYTES, Chunk, ChunkCompressionState, ChunkView, compressed_chunk, compressible,
};
use crate::compression::zlib_inflated;
use crate::codec::{Decoder, Transcoder, TranscoderError};
use crate::entry::{
    ChunkEntry, ChunkEntryView, entry_encodable, entry_encoding, has_no_nul, lemma_entry_round_trip,
    parse_entry_at,
};
use vstd::prelude::*;
use vstd::utf8::{
    decode_utf8, encode_utf8, encode_utf8_decode_utf8, encode_utf8_valid_utf8, valid_utf8,
};

verus! {

/// Most entries a group holds.
pub const MAX_ENTRIES_PER_GROUP: usize = 1000;

#[derive(Debug, Clone, Copy, PartialEq, Eq, Structural)]
pub enum LogAction {
    CREATE,
    UPDATE,
    INSERT,
    DELETE,
}

/// The action an action code stands for; unknown codes read as `CREATE`.
pub open spec fn action_of_code(code: u8) -> LogAction {
    if code == 1 {
        LogAction::UPDATE
    } else if code == 2 {
        LogAction::INSERT
    } else if code == 3 {
        LogAction::DELETE
    } else {
        LogAction::CREATE
    }
}

pub open spec fn code_of_action(a: LogAction) -> u8 {
    match a {
        LogAction::CREATE => 0,
        LogAction::UPDATE => 1,
        LogAction::INSERT => 2,
        LogAction::DELETE => 3,
    }
}

impl From<u8> for LogAction {
    fn from(idx: u8) -> (r: LogAction) {
        if idx == 1 {
            LogAction::UPDATE
        } else if idx == 2 {
            LogAction::INSERT
        } else if idx == 3 {
            LogAction::DELETE
        } else {
            LogAction::CREATE
        }
    }
}

impl vstd::std_specs::convert::FromSpecImpl<u8> for LogAction {
    open spec fn obeys_from_spec() -> bool {
        true
    }

    open spec fn from_spec(v: u8) -> LogAction {
        action_of_code(v)
    }
}

impl From<LogAction> for u8 {
    fn from(a: LogAction) -> (r: u8) {
        match a {
            LogAction::CREATE => 0,
            LogAction::UPDATE => 1,
            LogAction::INSERT => 2,
            LogAction::DELETE => 3,
        }
    }
}

impl vstd::std_specs::convert::FromSpecImpl<LogAction> for u8 {
    open spec fn obeys_from_spec() -> bool {
        true
    }

    open spec fn from_spec(v: LogAction) -> u8 {
        code_of_action(v)
    }
}

/// One log event as the application sees it.
#[derive(Debug, Clone, PartialEq, Eq)]
pub struct LogEntry {
    /// Milliseconds since the Unix epoch.
    pub timestamp: u64,
    pub action: LogAction,
    pub target: String,
    pub desc: String,
}

/// The contents of a [`LogEntry`].
pub struct LogEntryView {
    pub timestamp: u64,
    pub action: LogAction,
    pub target: Seq<char>,
    pub desc: Seq<char>,
}

impl View for LogEntry {
    type V = LogEntryView;

    open spec fn view(&self) -> LogEntryView {
        LogEntryView {
            timestamp: self.timestamp,
            action: self.action,
            target: self.target@,
            desc: self.desc@,
        }
    }
}

/// A log entry held in a cache with the time it has left to live.
#[derive(Debug)]
pub struct CacheEntry {
    pub entry: LogEntry,
    pub ttl: u32,
}

/// The log entry a wire entry stands for: both byte fields must be UTF-8.
pub open spec fn log_of_entry(e: ChunkEntryView) -> Option<LogEntryView> {
    if valid_utf8(e.target) && valid_utf8(e.message) {
        Some(
            LogEntryView {
                timestamp: e.timestamp,
                action: action_of_code(e.action),
                target: decode_utf8(e.target),
                desc: decode_utf8(e.message),
            },
        )
    } else {
        None
    }
}

/// The wire entry for a log entry: its text fields as UTF-8 bytes.
pub open spec fn entry_of_log(l: LogEntryView) -> ChunkEntryView {
    ChunkEntryView {
        timestamp: l.timestamp,
        action: code_of_action(l.action),
        target: encode_utf8(l.target),
        message: encode_utf8(l.desc),
    }
}

/// A log entry can go on the wire when neither text holds a NUL.
pub open spec fn log_storable(l: LogEntryView) -> bool {
    no_nul(encode_utf8(l.target)) && no_nul(encode_utf8(l.desc))
}

/// Relies on `String::from_utf8`: it accepts exactly the well-formed UTF-8
/// byte sequences, and the string holds the characters they encode.
#[verifier::external_body]
pub(crate) fn utf8_string(bytes: Vec<u8>) -> (r: Option<String>)
    ensures
        r is Some <==> valid_utf8(bytes@),
        r matches Some(s) ==> s@ == decode_utf8(bytes@),
{
    String::from_utf8(bytes).ok()
}

/// The UTF-8 bytes of `s`.
fn utf8_bytes(s: &String) -> (r: Vec<u8>)
    ensures
        r@ == encode_utf8(s@),
{
    let b = s.as_str().as_bytes();
    copy_range(b, 0, b.len())
}

impl Transcoder<LogEntry> for ChunkEntry {
    open spec fn transcodable(&self) -> bool {
        log_of_entry(self@) is Some
    }

    open spec fn transcodes_to(&self, t: LogEntry) -> bool {
        log_of_entry(self@) == Some(t@)
    }

    fn transcode(&self) -> (r: Result<Box<LogEntry>, TranscoderError>) {
        assert(self.target@.subrange(0, self.target@.len() as int) =~= self.target@);
        assert(self.message@.subrange(0, self.message@.len() as int) =~= self.message@);
        let target = match utf8_string(copy_range(self.target.as_slice(), 0, self.target.len())) {
            Some(s) => s,
            None => return Err(TranscoderError::new("ChunkEntry.target is not UTF-8")),
        };
        let desc = match utf8_string(copy_range(self.message.as_slice(), 0, self.message.len())) {
            Some(s) => s,
            None => return Err(TranscoderError::new("ChunkEntry.message is not UTF-8")),
        };
        Ok(Box::new(LogEntry { timestamp: self.timestamp, action: LogAction::from(self.action), target, desc }))
    }
}

impl Transcoder<ChunkEntry> for LogEntry {
    open spec fn transcodable(&self) -> bool {
        log_storable(self@)
    }

    open spec fn transcodes_to(&self, t: ChunkEntry) -> bool {
        t@ == entry_of_log(self@)
    }

    fn transcode(&self) -> (r: Result<Box<ChunkEntry>, TranscoderError>) {
        let target = utf8_bytes(&self.target);
        let message = utf8_bytes(&self.desc);
        if !has_no_nul(&target) || !has_no_nul(&message) {
            return Err(TranscoderError::new("LogEntry text holds a NUL character"));
        }
        Ok(Box::new(ChunkEntry { timestamp: self.timestamp, action: u8::from(self.action), target, message }))
    }
}

impl LogEntry {
    /// An entry at the epoch with empty texts.
    pub fn new() -> (r: LogEntry)
        ensures
            r@ == (LogEntryView {
                timestamp: 0,
                action: LogAction::CREATE,
                target: Seq::empty(),
                desc: Seq::empty(),
            }),
    {
        LogEntry { timestamp: 0, action: LogAction::CREATE, target: String::new(), desc: String::new() }
    }

    /// Reads the entry at the start of `data` and where it ends.
    pub fn process_entry(data: &[u8]) -> (r: Result<(LogEntry, usize), GroupEntryProcessingError>)
        ensures
            match r {
                Ok((l, end)) => parse_entry_at(data@, 0) matches Some((e, k)) && k == end
                    && log_of_entry(e) == Some(l@),
                Err(_) => parse_entry_at(data@, 0) matches Some((e, _)) ==> log_of_entry(e) is None,
            },
    {
        let (e, end) = match ChunkEntry::decode(data, 0) {
            Ok(v) => v,
            Err(err) => return Err(GroupEntryProcessingError { message: err.message }),
        };
        match e.transcode() {
            Ok(l) => Ok((*l, end)),
            Err(err) => Err(GroupEntryProcessingError { message: err.message }),
        }
    }
}

#[derive(Debug)]
pub enum GroupErrors {
    GroupEntryAppendError(GroupEntryAppendError),
    GroupChunkProcessingError(GroupChunkProcessingError),
    GroupEntryProcessingError(GroupEntryProcessingError),
}

/// A group refused an entry.
#[derive(Debug)]
pub struct GroupEntryAppendError {
    pub message: String,
}

/// A chunk could not be turned into a group.
#[derive(Debug)]
pub struct GroupChunkProcessingError {
    pub message: String,
}

/// Bytes did not hold a readable log entry.
#[derive(Debug)]
pub struct GroupEntryProcessingError {
    pub message: String,
}

/// The entries of a blob from position `p` on, one after another, at most
/// `limit` of them; reading stops early only at the end of the blob.
pub open spec fn entries_from(s: Seq<u8>, p: nat, limit: nat) -> Option<Seq<ChunkEntryView>>
    decreases limit,
{
    if limit == 0 || p >= s.len() {
        Some(Seq::empty())
    } else {
        match parse_entry_at(s, p) {
            None => None,
            Some((e, end)) => match entries_from(s, end, (limit - 1) as nat) {
                None => None,
                Some(rest) => Some(seq![e] + rest),
            },
        }
    }
}

/// The encoded entries one after another.
pub open spec fn entries_encoding(es: Seq<ChunkEntryView>) -> Seq<u8>
    decreases es.len(),
{
    if es.len() == 0 {
        Seq::empty()
    } else {
        entries_encoding(es.drop_last()) + entry_encoding(es.last())
    }
}

/// Reads the entries of `blob` from the start, at most `limit` of them.
pub fn decode_entries(blob: &[u8], limit: usize) -> (r: Option<Vec<ChunkEntry>>)
    ensures
        match r {
            Some(v) => entries_from(blob@, 0, limit as nat) == Some(v@.map_values(|e: ChunkEntry| e@)),
            None => entries_from(blob@, 0, limit as nat) is None,
        },
{
    let mut out: Vec<ChunkEntry> = Vec::new();
    let mut pos: usize = 0;
    let mut count: usize = 0;
    while count < limit && pos < blob.len()
        invariant
            count <= limit,
            entries_from(blob@, 0, limit as nat) == match entries_from(
                blob@,
                pos as nat,
                (limit - count) as nat,
            ) {
                Some(rest) => Some(out@.map_values(|e: ChunkEntry| e@) + rest),
                None => None,
            },
        decreases limit - count,
    {
        let ghost before = out@.map_values(|e: ChunkEntry| e@);
        match ChunkEntry::decode(blob, pos) {
            Ok((e, end)) => {
                out.push(e);
                pos = end;
                count = count + 1;
                proof {
                    let now = out@.map_values(|e: ChunkEntry| e@);
                    assert(now =~= before.push(e@));
                    match entries_from(blob@, pos as nat, (limit - count) as nat) {
                        Some(rest) => {
                            assert(before + (seq![e@] + rest) =~= now + rest);
                        },
                        None => {},
                    }
                }
            },
            Err(_) => return None,
        }
    }
    proof {
        assert(out@.map_values(|e: ChunkEntry| e@) + Seq::<ChunkEntryView>::empty() =~= out@.map_values(
            |e: ChunkEntry| e@,
        ));
    }
    Some(out)
}

proof fn lemma_entries_encoding_append(a: Seq<ChunkEntryView>, b: Seq<ChunkEntryView>)
    ensures
        entries_encoding(a + b) == entries_encoding(a) + entries_encoding(b),
    decreases b.len(),
{
    if b.len() == 0 {
        assert(a + b =~= a);
        assert(entries_encoding(a) + entries_encoding(b) =~= entries_encoding(a));
    } else {
        assert((a + b).drop_last() =~= a + b.drop_last());
        lemma_entries_encoding_append(a, b.drop_last());
        assert(entries_encoding(a + b) =~= entries_encoding(a) + entries_encoding(b));
    }
}

/// Encodable entries written one after another, after any bytes `pre`,
/// read back as the same entries when no more than `limit` of them.
pub proof fn lemma_entries_round_trip(es: Seq<ChunkEntryView>, pre: Seq<u8>, limit: nat)
    requires
        es.len() <= limit,
        forall|i: int| 0 <= i < es.len() ==> entry_encodable(#[trigger] es[i]),
    ensures
        entries_from(pre + entries_encoding(es), pre.len(), limit) == Some(es),
    decreases es.len(),
{
    let s = pre + entries_encoding(es);
    if es.len() == 0 {
        assert(entries_encoding(es) =~= Seq::<u8>::empty());
        assert(es =~= Seq::<ChunkEntryView>::empty());
    } else {
        let e = es[0];
        let rest = es.drop_first();
        assert(es =~= seq![e] + rest);
        lemma_entries_encoding_append(seq![e], rest);
        assert(seq![e].drop_last() =~= Seq::<ChunkEntryView>::empty());
        assert(entries_encoding(Seq::<ChunkEntryView>::empty()) =~= Seq::<u8>::empty());
        assert(seq![e].last() == e);
        assert(entries_encoding(seq![e]) =~= entry_encoding(e));
        assert(s =~= pre + entry_encoding(e) + entries_encoding(rest));
        lemma_entry_round_trip(e, pre, entries_encoding(rest));
        let pre2 = pre + entry_encoding(e);
        assert(s =~= pre2 + entries_encoding(rest));
        assert forall|i: int| 0 <= i < rest.len() implies entry_encodable(#[trigger] rest[i]) by {
            assert(rest[i] == es[i + 1]);
        }
        lemma_entries_round_trip(rest, pre2, (limit - 1) as nat);
        assert(seq![e] + rest =~= es);
    }
}

/// A log entry that can be stored reads back as itself.
pub proof fn lemma_log_entry_round_trip(l: LogEntryView)
    requires
        log_storable(l),
    ensures
        entry_encodable(entry_of_log(l)),
        log_of_entry(entry_of_log(l)) == Some(l),
{
    encode_utf8_valid_utf8(l.target);
    encode_utf8_valid_utf8(l.desc);
    encode_utf8_decode_utf8(l.target);
    encode_utf8_decode_utf8(l.desc);
}

/// Transcoding is invertible: the blob that the chunk a group becomes
/// inflates to (`group_blob`, see the `Transcoder<Chunk>` impl) reads back,
/// as a group, with the group's own entries.
pub proof fn lemma_group_chunk_round_trip(g: LogGroupView)
    requires
        g.entries.len() <= MAX_ENTRIES_PER_GROUP,
        forall|i: int| 0 <= i < g.entries.len() ==> log_storable(#[trigger] g.entries[i]),
    ensures
        entries_from(group_blob(g), 0, MAX_ENTRIES_PER_GROUP as nat) matches Some(es)
            && es.len() == g.entries.len() && forall|i: int|
            0 <= i < es.len() ==> log_of_entry(#[trigger] es[i]) == Some(g.entries[i]),
{
    let wire = g.entries.map_values(|l: LogEntryView| entry_of_log(l));
    assert forall|i: int| 0 <= i < wire.len() implies entry_encodable(#[trigger] wire[i]) by {
        lemma_log_entry_round_trip(g.entries[i]);
    }
    lemma_entries_round_trip(wire, Seq::empty(), MAX_ENTRIES_PER_GROUP as nat);
    assert(Seq::<u8>::empty() + entries_encoding(wire) =~= group_blob(g));
    assert forall|i: int| 0 <= i < wire.len() implies log_of_entry(#[trigger] wire[i]) == Some(
        g.entries[i],
    ) by {
        lemma_log_entry_round_trip(g.entries[i]);
    }
}

/// An ordered batch of log entries with the time range they span.
#[derive(Debug)]
pub struct LogGroup {
    pub ts_from: u64,
    pub ts_to: u64,
    pub entries: Vec<LogEntry>,
}

/// The contents of a [`LogGroup`].
pub struct LogGroupView {
    pub ts_from: u64,
    pub ts_to: u64,
    pub entries: Seq<LogEntryView>,
}

impl View for LogGroup {
    type V = LogGroupView;

    open spec fn view(&self) -> LogGroupView {
        LogGroupView {
            ts_from: self.ts_from,
            ts_to: self.ts_to,
            entries: self.entries@.map_values(|e: LogEntry| e@),
        }
    }
}

/// The blob a group's entries are stored as, if every entry can be stored.
pub open spec fn group_blob(g: LogGroupView) -> Seq<u8> {
    entries_encoding(g.entries.map_values(|l: LogEntryView| entry_of_log(l)))
}

/// The chunk a group's entries make before the blob is compressed.
pub open spec fn chunk_of_group(g: LogGroupView) -> ChunkView {
    ChunkView {
        length: (CHUNK_HEADER_BYTES + group_blob(g).len()) as u32,
        timestamp_from: g.ts_from,
        timestamp_to: g.ts_to,
        entries_length: group_blob(g).len() as u32,
        entries: group_blob(g),
        state: ChunkCompressionState::DECOMPRESSED,
    }
}

impl LogGroup {
    pub fn new() -> (r: LogGroup)
        ensures
            r@ == (LogGroupView { ts_from: 0, ts_to: 0, entries: Seq::empty() }),
    {
        let r = LogGroup { ts_from: 0, ts_to: 0, entries: Vec::new() };
        assert(r@.entries =~= Seq::<LogEntryView>::empty());
        r
    }

    /// Adds an entry at the end and returns its index. A full group, or an
    /// entry older than the newest one held, is refused: entries stay in
    /// non-decreasing timestamp order, so the range is first to last.
    pub fn append_entry(&mut self, entry: LogEntry) -> (r: Result<usize, GroupEntryAppendError>)
        ensures
            r is Ok <==> old(self)@.entries.len() < MAX_ENTRIES_PER_GROUP && (old(
                self,
            )@.entries.len() == 0 || old(self)@.ts_to <= entry.timestamp),
            r is Err ==> final(self)@ == old(self)@,
            r matches Ok(i) ==> i == old(self)@.entries.len() && final(self)@ == (LogGroupView {
                ts_from: if old(self)@.entries.len() == 0 {
                    entry.timestamp
                } else {
                    old(self)@.ts_from
                },
                ts_to: entry.timestamp,
                entries: old(self)@.entries.push(entry@),
            }),
    {
        if self.entries.len() >= MAX_ENTRIES_PER_GROUP {
            return Err(GroupEntryAppendError { message: "maximum number of entries reached".to_owned() });
        }
        if self.entries.len() > 0 && entry.timestamp < self.ts_to {
            return Err(GroupEntryAppendError { message: "entry is older than the newest one held".to_owned() });
        }
        if self.entries.len() == 0 {
            self.ts_from = entry.timestamp;
        }
        self.ts_to = entry.timestamp;
        let ghost before = old(self)@.entries;
        self.entries.push(entry);
        assert(self@.entries =~= before.push(entry@));
        Ok(self.entries.len() - 1)
    }

    /// The group a decompressed chunk holds: its time range, and its entries
    /// read from the blob's start until a thousand are read or the blob ends.
    pub fn from_chunk(chunk: &Chunk) -> (r: Result<LogGroup, GroupChunkProcessingError>)
        ensures
            match r {
                Ok(g) => {
                    &&& chunk.state == ChunkCompressionState::DECOMPRESSED
                    &&& chunk.entries@.len() > 0
                    &&& g@.ts_from == chunk.timestamp_from
                    &&& g@.ts_to == chunk.timestamp_to
                    &&& entries_from(chunk.entries@, 0, MAX_ENTRIES_PER_GROUP as nat) matches Some(es)
                    &&& es.len() == g@.entries.len()
                    &&& forall|i: int|
                        0 <= i < es.len() ==> log_of_entry(#[trigger] es[i]) == Some(g@.entries[i])
                },
                Err(_) => chunk.state == ChunkCompressionState::COMPRESSED || chunk.entries@.len()
                    == 0 || match entries_from(chunk.entries@, 0, MAX_ENTRIES_PER_GROUP as nat) {
                    Some(es) => exists|i: int|
                        0 <= i < es.len() && log_of_entry(#[trigger] es[i]) is None,
                    None => true,
                },
            },
    {
        if chunk.state == ChunkCompressionState::COMPRESSED {
            return Err(GroupChunkProcessingError { message: "chunk is not decompressed".to_owned() });
        }
        if chunk.entries.len() == 0 {
            return Err(GroupChunkProcessingError { message: "no chunk data to process".to_owned() });
        }
        let wire = match decode_entries(chunk.entries.as_slice(), MAX_ENTRIES_PER_GROUP) {
            Some(v) => v,
            None => return Err(GroupChunkProcessingError { message: "chunk entries do not decode".to_owned() }),
        };
        let ghost es = wire@.map_values(|e: ChunkEntry| e@);
        let mut entries: Vec<LogEntry> = Vec::new();
        let mut i: usize = 0;
        while i < wire.len()
            invariant
                i <= wire@.len(),
                es == wire@.map_values(|e: ChunkEntry| e@),
                entries_from(chunk.entries@, 0, MAX_ENTRIES_PER_GROUP as nat) == Some(es),
                chunk.state == ChunkCompressionState::DECOMPRESSED,
                chunk.entries@.len() > 0,
                entries@.len() == i,
                forall|k: int| 0 <= k < i ==> log_of_entry(#[trigger] es[k]) == Some(entries@[k]@),
            decreases wire@.len() - i,
        {
            match wire[i].transcode() {
                Ok(l) => entries.push(*l),
                Err(_) => {
                    assert(log_of_entry(es[i as int]) is None);
                    return Err(GroupChunkProcessingError { message: "entry text is not UTF-8".to_owned() });
                },
            }
            i = i + 1;
        }
        let g = LogGroup { ts_from: chunk.timestamp_from, ts_to: chunk.timestamp_to, entries };
        assert forall|k: int| 0 <= k < es.len() implies log_of_entry(#[trigger] es[k]) == Some(
            g@.entries[k],
        ) by {
            assert(g@.entries[k] == entries@[k]@);
        }
        Ok(g)
    }
}

impl Transcoder<Chunk> for LogGroup {
    open spec fn transcodable(&self) -> bool {
        &&& forall|i: int| 0 <= i < self@.entries.len() ==> log_storable(#[trigger] self@.entries[i])
        &&& CHUNK_HEADER_BYTES + group_blob(self@).len() <= u32::MAX
        &&& compressible(chunk_of_group(self@))
    }

    /// The group's entries serialized and concatenated, the range set from
    /// the group, the blob compressed and the length stamped; the blob
    /// inflates back to the encoded entries.
    open spec fn transcodes_to(&self, t: Chunk) -> bool {
        &&& t@ == compressed_chunk(chunk_of_group(self@))
        &&& zlib_inflated(t@.entries) == Some(group_blob(self@))
    }

    fn transcode(&self) -> (r: Result<Box<Chunk>, TranscoderError>) {
        let ghost g = self@;
        let ghost wire = g.entries.map_values(|l: LogEntryView| entry_of_log(l));
        let mut blob: Vec<u8> = Vec::new();
        let mut i: usize = 0;
        while i < self.entries.len()
            invariant
                i <= g.entries.len(),
                g == self@,
                wire == g.entries.map_values(|l: LogEntryView| entry_of_log(l)),
                blob@ == entries_encoding(wire.take(i as int)),
                blob@.len() <= u32::MAX - CHUNK_HEADER_BYTES,
                forall|k: int| 0 <= k < i ==> log_storable(#[trigger] g.entries[k]),
            decreases g.entries.len() - i,
        {
            let e = match self.entries[i].transcode() {
                Ok(e) => e,
                Err(err) => {
                    assert(!log_storable(g.entries[i as int]));
                    return Err(err);
                },
            };
            e.write_to(&mut blob);
            assert(wire.take(i + 1).drop_last() =~= wire.take(i as int));
            assert(wire[i as int] == e@);
            i = i + 1;
            if blob.len() > (u32::MAX - CHUNK_HEADER_BYTES) as usize {
                proof {
                    lemma_entries_encoding_prefix(wire, i as int);
                    assert(wire.take(wire.len() as int) =~= wire);
                }
                return Err(TranscoderError::new("group entries exceed a chunk's size"));
            }
        }
        assert(wire.take(i as int) =~= wire);
        let n = blob.len() as u32;
        let mut chunk = Chunk {
            length: CHUNK_HEADER_BYTES + n,
            timestamp_from: self.ts_from,
            timestamp_to: self.ts_to,
            entries_length: n,
            entries: blob,
            state: ChunkCompressionState::DECOMPRESSED,
        };
        assert(chunk@ == chunk_of_group(g));
        match chunk.compress() {
            Ok(_) => Ok(Box::new(chunk)),
            Err(e) => Err(TranscoderError { message: e.message }),
        }
    }
}

/// The encoding of the first `i` entries is no longer than that of all.
proof fn lemma_entries_encoding_prefix(es: Seq<ChunkEntryView>, i: int)
    requires
        0 <= i <= es.len(),
    ensures
        entries_encoding(es.take(i)).len() <= entries_encoding(es).len(),
    decreases es.len() - i,
{
    if i < es.len() {
        lemma_entries_encoding_prefix(es, i + 1);
        assert(es.take(i + 1).drop_last() =~= es.take(i));
    } else {
        assert(es.take(i) =~= es);
    }
}

} // verus!
