//! Finding log entries by timestamp: first the chunk whose range covers
//! the timestamp, by binary search over the offset index with the latest
//! chunk checked first, then the entry nearest to it inside that chunk.
use crate::chunk::{CHUNK_HEADER_BYTES, Chunk, ChunkProcessingException, ChunkView};
use crate::codec::{DecoderError, Transcoder};
use crate::compression::zlib_inflated;
use crate::entry::{ChunkEntry, ChunkEntryView};
use crate::group::{LogEntry, LogEntryView, decode_entries, entries_from, log_of_entry};
use crate::header::{ChunkStoreHeader, HeaderView};
use crate::store::{ChunkStore, chunk_at, store_in_image};
use vstd::prelude::*;

verus! {

#[derive(Debug)]
pub enum LookupError {
    /// The store holds no chunk, no chunk covers the timestamp, or the
    /// chunk that does holds no entry.
    NotFound,
    /// The timestamp lies before the first chunk or after the last one.
    OutOfRange,
    /// A chunk's bytes could not be read.
    Decode(DecoderError),
    /// A chunk's entries could not be inflated.
    Decompression(ChunkProcessingException),
    /// The entry found holds text that is not UTF-8.
    InvalidUtf8,
}

pub open spec fn chunk_contains(c: ChunkView, ts: u64) -> bool {
    c.timestamp_from <= ts <= c.timestamp_to
}

/// Every indexed chunk can be read and covers a well-ordered range, and
/// each chunk ends no later than any chunk after it starts: what a writer
/// appending entries in timestamp order produces.
pub open spec fn ranges_ordered(image: Seq<u8>, h: HeaderView) -> bool {
    let n = h.chunk_offsets.len() as int;
    &&& forall|i: int|
        0 <= i < n ==> (#[trigger] chunk_at(image, h, i) matches Some(c) && c.timestamp_from
            <= c.timestamp_to)
    &&& forall|i: int, j: int|
        #![trigger chunk_at(image, h, i), chunk_at(image, h, j)]
        0 <= i < j < n ==> chunk_at(image, h, i)->0.timestamp_to <= chunk_at(
            image,
            h,
            j,
        )->0.timestamp_from
}

/// `c` is a chunk indexed in the image that covers `ts`; where the ranges
/// are ordered, no chunk after it covers `ts`.
pub open spec fn found_chunk(img: Seq<u8>, h: HeaderView, ts: u64, c: ChunkView) -> bool {
    let n = h.chunk_offsets.len() as int;
    exists|i: int|
        0 <= i < n && #[trigger] chunk_at(img, h, i) == Some(c) && chunk_contains(c, ts) && (
        ranges_ordered(img, h) ==> forall|j: int|
            i < j < n ==> !chunk_contains(#[trigger] chunk_at(img, h, j)->0, ts))
}

/// Over ordered ranges, a search fails exactly as its errors say: out of
/// range before the first chunk or after the last, not found in a gap.
pub open spec fn search_outcome_exact(
    img: Seq<u8>,
    h: HeaderView,
    ts: u64,
    r: Result<Chunk, LookupError>,
) -> bool {
    let n = h.chunk_offsets.len() as int;
    match r {
        Ok(_) => true,
        Err(LookupError::OutOfRange) => ts < chunk_at(img, h, 0)->0.timestamp_from || ts > chunk_at(
            img,
            h,
            n - 1,
        )->0.timestamp_to,
        Err(LookupError::NotFound) => chunk_at(img, h, 0)->0.timestamp_from <= ts <= chunk_at(
            img,
            h,
            n - 1,
        )->0.timestamp_to && forall|j: int|
            0 <= j < n ==> !chunk_contains(#[trigger] chunk_at(img, h, j)->0, ts),
        Err(_) => false,
    }
}

/// `l` is the entry nearest to `ts` in a chunk indexed in the image that
/// covers `ts`, read from the chunk's inflated entries.
pub open spec fn entry_found(img: Seq<u8>, h: HeaderView, ts: u64, l: LogEntryView) -> bool {
    exists|i: int, d: Seq<u8>, es: Seq<ChunkEntryView>, k: int|
        #![trigger chunk_at(img, h, i), entries_from(d, 0, d.len()), es[k]]
        0 <= i < h.chunk_offsets.len() && (chunk_at(img, h, i) matches Some(c) && chunk_contains(
            c,
            ts,
        ) && zlib_inflated(c.entries) == Some(d)) && entries_from(d, 0, d.len()) == Some(es)
            && is_nearest(es, ts, k) && log_of_entry(es[k]) == Some(l)
}

/// Chunk `i` covers `ts` and no chunk after it does.
pub open spec fn last_covering(img: Seq<u8>, h: HeaderView, ts: u64, i: int) -> bool {
    let n = h.chunk_offsets.len() as int;
    &&& 0 <= i < n
    &&& chunk_at(img, h, i) matches Some(c) && chunk_contains(c, ts)
    &&& forall|j: int| i < j < n ==> !chunk_contains(#[trigger] chunk_at(img, h, j)->0, ts)
}

/// The chunk's blob inflates, within a chunk's size, to one or more
/// readable entries, and the entry nearest to `ts` holds UTF-8 text.
pub open spec fn chunk_yields_entry(c: ChunkView, ts: u64) -> bool {
    &&& zlib_inflated(c.entries) matches Some(d)
    &&& CHUNK_HEADER_BYTES + zlib_inflated(c.entries)->0.len() <= u32::MAX
    &&& entries_from(zlib_inflated(c.entries)->0, 0, zlib_inflated(c.entries)->0.len()) matches Some(es)
    &&& es.len() > 0
    &&& forall|k: int| is_nearest(es, ts, k) ==> log_of_entry(#[trigger] es[k]) is Some
}

/// Over ordered ranges, what a deep search needs to find an entry: the
/// last chunk covering the timestamp yields one.
pub open spec fn deep_search_succeeds(img: Seq<u8>, h: HeaderView, ts: u64) -> bool {
    exists|i: int| #[trigger] last_covering(img, h, ts, i) && chunk_yields_entry(chunk_at(img, h, i)->0, ts)
}

/// The chunk's blob inflates, and the inflated blob fits a chunk's size.
pub open spec fn inflates_in_size(c: ChunkView) -> bool {
    zlib_inflated(c.entries) matches Some(d) && CHUNK_HEADER_BYTES + d.len() <= u32::MAX
}

/// The entries of the chunk's inflated blob, where it inflates and they read.
pub open spec fn inflated_entries(c: ChunkView) -> Option<Seq<ChunkEntryView>> {
    if inflates_in_size(c) {
        entries_from(zlib_inflated(c.entries)->0, 0, zlib_inflated(c.entries)->0.len())
    } else {
        None
    }
}

/// Over ordered ranges, a deep search fails exactly as its errors say:
/// out of range before the first chunk or after the last; not found in an
/// empty store, in a gap, or when the covering chunk holds no entry; a
/// decompression error when the last covering chunk does not inflate; a
/// decode error when its inflated entries do not read; invalid UTF-8 when
/// the nearest entry's text is not UTF-8.
pub open spec fn deep_outcome_exact(
    img: Seq<u8>,
    h: HeaderView,
    ts: u64,
    r: Result<LogEntry, LookupError>,
) -> bool {
    let n = h.chunk_offsets.len() as int;
    match r {
        Ok(_) => true,
        Err(LookupError::OutOfRange) => n > 0 && (ts < chunk_at(img, h, 0)->0.timestamp_from || ts
            > chunk_at(img, h, n - 1)->0.timestamp_to),
        Err(LookupError::NotFound) => n == 0 || (chunk_at(img, h, 0)->0.timestamp_from <= ts
            <= chunk_at(img, h, n - 1)->0.timestamp_to && forall|j: int|
            0 <= j < n ==> !chunk_contains(#[trigger] chunk_at(img, h, j)->0, ts)) || exists|i: int|
            #[trigger] last_covering(img, h, ts, i) && (inflated_entries(chunk_at(img, h, i)->0)
                matches Some(es) && es.len() == 0),
        Err(LookupError::Decompression(_)) => exists|i: int|
            #[trigger] last_covering(img, h, ts, i) && !inflates_in_size(chunk_at(img, h, i)->0),
        Err(LookupError::Decode(_)) => exists|i: int|
            #[trigger] last_covering(img, h, ts, i) && inflates_in_size(chunk_at(img, h, i)->0)
                && inflated_entries(chunk_at(img, h, i)->0) is None,
        Err(LookupError::InvalidUtf8) => exists|i: int|
            #[trigger] last_covering(img, h, ts, i) && (inflated_entries(chunk_at(img, h, i)->0)
                matches Some(es) && exists|k: int|
                is_nearest(es, ts, k) && log_of_entry(#[trigger] es[k]) is None),
    }
}

/// At most one entry is the nearest.
pub proof fn lemma_nearest_unique(es: Seq<ChunkEntryView>, ts: u64, k1: int, k2: int)
    requires
        is_nearest(es, ts, k1),
        is_nearest(es, ts, k2),
    ensures
        k1 == k2,
{
    assert(distance(es[k1].timestamp, ts) == distance(es[k2].timestamp, ts));
    assert(es[k1].timestamp == es[k2].timestamp);
    if k1 < k2 {
        assert(es[k1].timestamp != es[k2].timestamp);
    }
    if k2 < k1 {
        assert(es[k2].timestamp != es[k1].timestamp);
    }
}

/// At most one chunk is the last to cover a timestamp.
pub proof fn lemma_last_covering_unique(img: Seq<u8>, h: HeaderView, ts: u64, i1: int, i2: int)
    requires
        last_covering(img, h, ts, i1),
        last_covering(img, h, ts, i2),
    ensures
        i1 == i2,
{
    if i1 < i2 {
        assert(!chunk_contains(chunk_at(img, h, i2)->0, ts));
    }
    if i2 < i1 {
        assert(!chunk_contains(chunk_at(img, h, i1)->0, ts));
    }
}

/// Over ordered ranges every chunk lies within the span from the first
/// chunk's start to the last chunk's end.
pub proof fn lemma_ordered_span(img: Seq<u8>, h: HeaderView, i: int)
    requires
        ranges_ordered(img, h),
        0 <= i < h.chunk_offsets.len(),
    ensures
        chunk_at(img, h, 0)->0.timestamp_from <= chunk_at(img, h, i)->0.timestamp_from,
        chunk_at(img, h, i)->0.timestamp_to <= chunk_at(
            img,
            h,
            h.chunk_offsets.len() - 1,
        )->0.timestamp_to,
{
    let n = h.chunk_offsets.len() as int;
    assert(chunk_at(img, h, 0) is Some);
    assert(chunk_at(img, h, i) is Some);
    assert(chunk_at(img, h, n - 1) is Some);
    if 0 < i {
        assert(chunk_at(img, h, 0)->0.timestamp_to <= chunk_at(img, h, i)->0.timestamp_from);
    }
    if i < n - 1 {
        assert(chunk_at(img, h, i)->0.timestamp_to <= chunk_at(img, h, n - 1)->0.timestamp_from);
    }
}

/// Distance between two timestamps.
pub open spec fn distance(a: u64, b: u64) -> int {
    if a >= b {
        a - b
    } else {
        b - a
    }
}

/// Entry `k` is the one nearest to `ts` among the first `m`: no entry is
/// nearer, of equally near ones it has the earlier timestamp, and no entry
/// before it has the same timestamp.
pub open spec fn nearest_among(es: Seq<ChunkEntryView>, ts: u64, k: int, m: int) -> bool {
    &&& 0 <= k < m <= es.len()
    &&& forall|j: int|
        0 <= j < m ==> distance(es[k].timestamp, ts) <= distance(#[trigger] es[j].timestamp, ts)
    &&& forall|j: int|
        0 <= j < m && distance(#[trigger] es[j].timestamp, ts) == distance(es[k].timestamp, ts)
            ==> es[k].timestamp <= es[j].timestamp
    &&& forall|j: int| 0 <= j < k ==> (#[trigger] es[j].timestamp) != es[k].timestamp
}

pub open spec fn is_nearest(es: Seq<ChunkEntryView>, ts: u64, k: int) -> bool {
    nearest_among(es, ts, k, es.len() as int)
}

pub open spec fn sorted_by_time(es: Seq<ChunkEntryView>) -> bool {
    forall|i: int, j: int| 0 <= i <= j < es.len() ==> es[i].timestamp <= es[j].timestamp
}

/// Whether the entries' timestamps never decrease.
fn is_sorted_by_time(es: &Vec<ChunkEntry>) -> (r: bool)
    ensures
        r == sorted_by_time(es@.map_values(|e: ChunkEntry| e@)),
{
    let ghost v = es@.map_values(|e: ChunkEntry| e@);
    if es.len() == 0 {
        return true;
    }
    let mut i: usize = 1;
    while i < es.len()
        invariant
            1 <= i <= es@.len(),
            v == es@.map_values(|e: ChunkEntry| e@),
            forall|a: int, b: int| 0 <= a <= b < i ==> v[a].timestamp <= v[b].timestamp,
        decreases es@.len() - i,
    {
        if es[i - 1].timestamp > es[i].timestamp {
            assert(v[i - 1].timestamp > v[i as int].timestamp);
            return false;
        }
        assert forall|a: int, b: int| 0 <= a <= b < i + 1 implies v[a].timestamp
            <= v[b].timestamp by {
            if b == i && a < b {
                assert(v[a].timestamp <= v[i - 1].timestamp);
            }
        }
        i = i + 1;
    }
    true
}

/// The first index whose timestamp is at least `key` in sorted entries.
fn lower_bound(es: &Vec<ChunkEntry>, key: u64) -> (r: usize)
    requires
        sorted_by_time(es@.map_values(|e: ChunkEntry| e@)),
    ensures
        r <= es@.len(),
        forall|j: int| 0 <= j < r ==> es@[j].timestamp < key,
        forall|j: int| r <= j < es@.len() ==> es@[j].timestamp >= key,
{
    let ghost v = es@.map_values(|e: ChunkEntry| e@);
    let mut lo: usize = 0;
    let mut hi: usize = es.len();
    while lo < hi
        invariant
            lo <= hi <= es@.len(),
            v == es@.map_values(|e: ChunkEntry| e@),
            sorted_by_time(v),
            forall|j: int| 0 <= j < lo ==> es@[j].timestamp < key,
            forall|j: int| hi <= j < es@.len() ==> es@[j].timestamp >= key,
        decreases hi - lo,
    {
        let mid = lo + (hi - lo) / 2;
        if es[mid].timestamp < key {
            assert forall|j: int| 0 <= j < mid + 1 implies es@[j].timestamp < key by {
                assert(v[j].timestamp <= v[mid as int].timestamp);
            }
            lo = mid + 1;
        } else {
            assert forall|j: int| mid <= j < es@.len() implies es@[j].timestamp >= key by {
                assert(v[mid as int].timestamp <= v[j].timestamp);
            }
            hi = mid;
        }
    }
    lo
}

/// Index of the entry nearest to `ts`: by binary search where the entries
/// are in timestamp order, by a scan otherwise.
pub fn nearest_entry(es: &Vec<ChunkEntry>, ts: u64) -> (r: usize)
    requires
        es@.len() > 0,
    ensures
        is_nearest(es@.map_values(|e: ChunkEntry| e@), ts, r as int),
{
    let ghost v = es@.map_values(|e: ChunkEntry| e@);
    let n = es.len();
    if is_sorted_by_time(es) {
        let idx = lower_bound(es, ts);
        if idx == 0 {
            assert(nearest_among(v, ts, 0, n as int));
            return 0;
        }
        let left = es[idx - 1].timestamp;
        let k = lower_bound(es, left);
        assert(k <= idx - 1);
        assert forall|j: int| k <= j < idx implies v[j].timestamp == left by {
            assert(v[j].timestamp <= v[idx - 1].timestamp);
        }
        if idx == n || es[idx].timestamp - ts >= ts - left {
            assert(nearest_among(v, ts, k as int, n as int)) by {
                assert forall|j: int| 0 <= j < n implies distance(v[k as int].timestamp, ts)
                    <= distance(#[trigger] v[j].timestamp, ts) by {
                    if j < idx {
                        assert(v[j].timestamp <= v[idx - 1].timestamp);
                    } else {
                        assert(v[idx as int].timestamp <= v[j].timestamp);
                    }
                }
            }
            k
        } else {
            assert(nearest_among(v, ts, idx as int, n as int)) by {
                assert forall|j: int| 0 <= j < n implies distance(v[idx as int].timestamp, ts)
                    <= distance(#[trigger] v[j].timestamp, ts) by {
                    if j < idx {
                        assert(v[j].timestamp <= v[idx - 1].timestamp);
                    } else {
                        assert(v[idx as int].timestamp <= v[j].timestamp);
                    }
                }
                assert forall|j: int| 0 <= j < n && distance(#[trigger] v[j].timestamp, ts)
                    == distance(v[idx as int].timestamp, ts) implies v[idx as int].timestamp
                    <= v[j].timestamp by {
                    if j < idx {
                        assert(v[j].timestamp <= v[idx - 1].timestamp);
                    } else {
                        assert(v[idx as int].timestamp <= v[j].timestamp);
                    }
                }
            }
            idx
        }
    } else {
        let mut best: usize = 0;
        let mut j: usize = 1;
        while j < n
            invariant
                1 <= j <= n,
                n == es@.len(),
                v == es@.map_values(|e: ChunkEntry| e@),
                nearest_among(v, ts, best as int, j as int),
            decreases n - j,
        {
            let d_best: u64 = if es[best].timestamp >= ts {
                es[best].timestamp - ts
            } else {
                ts - es[best].timestamp
            };
            let d_j: u64 = if es[j].timestamp >= ts {
                es[j].timestamp - ts
            } else {
                ts - es[j].timestamp
            };
            if d_j < d_best || (d_j == d_best && es[j].timestamp < es[best].timestamp) {
                best = j;
            }
            j = j + 1;
        }
        best
    }
}

/// Whether the importing of a store image has happened.
#[derive(Debug)]
pub enum LogStoreImportState {
    LOADED,
    FRESH,
}

/// The read side of a store: an image as read from its file, with its
/// header and latest chunk decoded, answering lookups by timestamp.
#[derive(Debug)]
pub struct LogStore {
    filepath: String,
    state: LogStoreImportState,
    image: Vec<u8>,
    store: ChunkStore,
}

/// The store image could not be taken in.
#[derive(Debug)]
pub struct StoreImportError {
    pub message: String,
}

impl LogStore {
    /// The image the store answers from.
    pub closed spec fn image_view(&self) -> Seq<u8> {
        self.image@
    }

    /// The header of that image.
    pub closed spec fn header_view(&self) -> HeaderView {
        self.store.header@
    }

    pub closed spec fn is_loaded(&self) -> bool {
        self.state is LOADED
    }

    /// A fresh store has no chunk; a loaded one holds what its image reads as.
    pub closed spec fn wf(&self) -> bool {
        match self.state {
            LogStoreImportState::FRESH => self.store.header@.chunk_offsets.len() == 0,
            LogStoreImportState::LOADED => store_in_image(self.image@) == Some(self.store@),
        }
    }

    /// A store for the file at `filepath`, not read yet.
    pub fn with_filepath(filepath: &str) -> (r: LogStore)
        ensures
            r.wf(),
            !r.is_loaded(),
            r.header_view().chunk_offsets.len() == 0,
    {
        LogStore {
            filepath: filepath.to_owned(),
            state: LogStoreImportState::FRESH,
            image: Vec::new(),
            store: ChunkStore {
                header: ChunkStoreHeader {
                    length: 0,
                    sector_size: 0,
                    chunk_count: 0,
                    chunk_offsets_length: 0,
                    chunk_offsets: Vec::new(),
                },
                chunks_length: 0,
                chunks: Vec::new(),
                latest_chunk: Chunk::new(),
            },
        }
    }

    /// The path of the store's file.
    pub fn filepath(&self) -> &str {
        self.filepath.as_str()
    }

    /// Takes in the image read from the store's file: its header and latest
    /// chunk are decoded now, other chunks when a lookup reaches them. An
    /// image that does not hold a store leaves the store as it was.
    pub fn import_image(&mut self, image: Vec<u8>) -> (r: Result<(), StoreImportError>)
        requires
            old(self).wf(),
        ensures
            final(self).wf(),
            r is Ok <==> store_in_image(image@) is Some,
            r is Ok ==> final(self).is_loaded() && final(self).image_view() == image@,
            r is Ok ==> (store_in_image(image@) matches Some(st) && final(self).header_view()
                == st.header),
            r is Err ==> final(self).image_view() == old(self).image_view()
                && final(self).header_view() == old(self).header_view() && final(self).is_loaded()
                == old(self).is_loaded(),
    {
        match ChunkStore::read_from_bytes(image.as_slice()) {
            Ok(st) => {
                self.store = st;
                self.image = image;
                self.state = LogStoreImportState::LOADED;
                Ok(())
            },
            Err(e) => Err(StoreImportError { message: e.message }),
        }
    }

    fn probe(&self, i: usize) -> (r: Result<Chunk, LookupError>)
        requires
            self.wf(),
            self.is_loaded(),
            i < self.header_view().chunk_offsets.len(),
        ensures
            match r {
                Ok(c) => chunk_at(self.image_view(), self.header_view(), i as int) == Some(c@),
                Err(e) => e is Decode && chunk_at(self.image_view(), self.header_view(), i as int)
                    is None,
            },
    {
        match ChunkStore::load_chunk(self.image.as_slice(), &self.store.header, i) {
            Ok(c) => Ok(c),
            Err(e) => Err(LookupError::Decode(e)),
        }
    }

    /// The chunk whose time range covers `timestamp`. The latest chunk is
    /// checked first; otherwise a binary search over the offset index reads
    /// the chunks it passes. Whatever is found covers the timestamp; where
    /// the ranges are ordered, it is the last chunk that covers it, and each
    /// error comes exactly when its condition holds.
    pub fn search_by_timestamp(&self, timestamp: u64) -> (r: Result<Chunk, LookupError>)
        requires
            self.wf(),
        ensures
            r matches Ok(c) ==> found_chunk(self.image_view(), self.header_view(), timestamp, c@),
            self.header_view().chunk_offsets.len() == 0 ==> r matches Err(LookupError::NotFound),
            ranges_ordered(self.image_view(), self.header_view())
                && self.header_view().chunk_offsets.len() > 0 ==> search_outcome_exact(
                self.image_view(),
                self.header_view(),
                timestamp,
                r,
            ),
    {
        let ghost img = self.image_view();
        let ghost h = self.header_view();
        let n = self.store.header.chunk_offsets.len();
        if n == 0 {
            return Err(LookupError::NotFound);
        }
        assert(self.is_loaded());
        let last = &self.store.latest_chunk;
        assert(chunk_at(img, h, n - 1) == Some(last@));
        if last.timestamp_from <= timestamp && timestamp <= last.timestamp_to {
            return Ok(last.duplicate());
        }
        if timestamp > last.timestamp_to {
            return Err(LookupError::OutOfRange);
        }
        let first = match self.probe(0) {
            Ok(c) => c,
            Err(e) => return Err(e),
        };
        if timestamp < first.timestamp_from {
            return Err(LookupError::OutOfRange);
        }
        // Now first.from <= timestamp < last.from, so the chunk sought is
        // among 0 .. n - 2: the last one starting at or before the timestamp.
        let mut lo: usize = 0;
        let mut hi: usize = n - 1;
        let mut found = first;
        while hi - lo > 1
            invariant
                lo < hi < n,
                n == h.chunk_offsets.len(),
                img == self.image_view(),
                h == self.header_view(),
                self.wf(),
                self.is_loaded(),
                chunk_at(img, h, lo as int) == Some(found@),
                found.timestamp_from <= timestamp,
                chunk_at(img, h, hi as int) matches Some(c) && timestamp < c.timestamp_from,
            decreases hi - lo,
        {
            let mid = lo + (hi - lo) / 2;
            let c = match self.probe(mid) {
                Ok(c) => c,
                Err(e) => return Err(e),
            };
            if c.timestamp_from <= timestamp {
                lo = mid;
                found = c;
            } else {
                hi = mid;
            }
        }
        if timestamp <= found.timestamp_to {
            Ok(found)
        } else {
            Err(LookupError::NotFound)
        }
    }

    /// The entry nearest to `timestamp` in the chunk that covers it: the
    /// chunk is found as [`LogStore::search_by_timestamp`] finds it, its
    /// entries are inflated and read, and the nearest one is returned.
    pub fn deep_search_by_timestamp(&self, timestamp: u64) -> (r: Result<LogEntry, LookupError>)
        requires
            self.wf(),
        ensures
            r matches Ok(l) ==> entry_found(self.image_view(), self.header_view(), timestamp, l@),
            self.header_view().chunk_offsets.len() == 0 ==> r matches Err(LookupError::NotFound),
            ranges_ordered(self.image_view(), self.header_view()) ==> (r is Ok <==> deep_search_succeeds(
                self.image_view(),
                self.header_view(),
                timestamp,
            )),
            ranges_ordered(self.image_view(), self.header_view()) ==> deep_outcome_exact(
                self.image_view(),
                self.header_view(),
                timestamp,
                r,
            ),
    {
        let ghost img = self.image_view();
        let ghost h = self.header_view();
        let ghost ordered = ranges_ordered(img, h);
        let ghost n = h.chunk_offsets.len() as int;
        let mut chunk = match self.search_by_timestamp(timestamp) {
            Ok(c) => c,
            Err(e) => {
                proof {
                    if ordered && deep_search_succeeds(img, h, timestamp) {
                        let i = choose|i: int|
                            #[trigger] last_covering(img, h, timestamp, i) && chunk_yields_entry(
                                chunk_at(img, h, i)->0,
                                timestamp,
                            );
                        lemma_ordered_span(img, h, i);
                    }
                }
                return Err(e);
            },
        };
        let ghost c0 = chunk@;
        let ghost i0 = choose|i: int|
            0 <= i < n && #[trigger] chunk_at(img, h, i) == Some(c0) && chunk_contains(c0, timestamp)
                && (ranges_ordered(img, h) ==> forall|j: int|
                i < j < n ==> !chunk_contains(#[trigger] chunk_at(img, h, j)->0, timestamp));
        proof {
            reveal(chunk_at);
            if ordered && deep_search_succeeds(img, h, timestamp) {
                let i = choose|i: int|
                    #[trigger] last_covering(img, h, timestamp, i) && chunk_yields_entry(
                        chunk_at(img, h, i)->0,
                        timestamp,
                    );
                assert(last_covering(img, h, timestamp, i0));
                lemma_last_covering_unique(img, h, timestamp, i, i0);
                assert(chunk_yields_entry(c0, timestamp));
            }
        }
        proof {
            if ordered {
                assert(last_covering(img, h, timestamp, i0));
            }
        }
        match chunk.decompress() {
            Ok(_) => {},
            Err(e) => return Err(LookupError::Decompression(e)),
        }
        let entries = match decode_entries(chunk.entries.as_slice(), chunk.entries.len()) {
            Some(v) => v,
            None => return Err(LookupError::Decode(DecoderError::new("ChunkEntry"))),
        };
        let ghost es = entries@.map_values(|e: ChunkEntry| e@);
        assert(inflated_entries(c0) == Some(es));
        if entries.len() == 0 {
            return Err(LookupError::NotFound);
        }
        let k = nearest_entry(&entries, timestamp);
        assert(es[k as int] == entries@[k as int]@);
        match entries[k].transcode() {
            Ok(l) => {
                proof {
                    assert forall|k2: int| is_nearest(es, timestamp, k2) implies log_of_entry(
                        #[trigger] es[k2],
                    ) is Some by {
                        lemma_nearest_unique(es, timestamp, k as int, k2);
                    }
                    if ordered {
                        assert(last_covering(img, h, timestamp, i0));
                        assert(chunk_yields_entry(chunk_at(img, h, i0)->0, timestamp));
                    }
                }
                Ok(*l)
            },
            Err(_) => {
                assert(is_nearest(es, timestamp, k as int) && log_of_entry(es[k as int]) is None);
                Err(LookupError::InvalidUtf8)
            },
        }
    }
}

} // verus!
