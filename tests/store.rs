use chunky_logs::chunk::{Chunk, ChunkCompressionState};
use chunky_logs::codec::{Decoder, Encoder};
use chunky_logs::entry::ChunkEntry;
use chunky_logs::group::{LogAction, LogEntry};
use chunky_logs::header::ChunkOffsets;
use chunky_logs::lookup::{LogStore, LookupError};
use chunky_logs::store::{AppendError, ChunkStore};

/// A stored chunk whose encoding is `total` bytes long.
fn chunk_of_size(total: usize, from: u64, to: u64) -> Chunk {
    let blob: Vec<u8> = vec![0x5a; total - 24];
    Chunk {
        length: total as u32,
        timestamp_from: from,
        timestamp_to: to,
        entries_length: blob.len() as u32,
        entries: blob,
        state: ChunkCompressionState::COMPRESSED,
    }
}

#[test]
fn offsets_follow_the_running_total() {
    let mut store = ChunkStore::new(30);
    store.append_chunk(chunk_of_size(50, 0, 1)).unwrap();
    store.append_chunk(chunk_of_size(80, 2, 3)).unwrap();
    let offs = &store.header.chunk_offsets;
    assert_eq!(offs[0], ChunkOffsets { sector_index: 0, sector_offset: 0 });
    assert_eq!(offs[1].calculate_offset(30), 50);
    assert_eq!(offs[1], ChunkOffsets { sector_index: 1, sector_offset: 20 });
    assert_eq!(store.header.chunk_count, 2);
    assert_eq!(store.header.chunk_offsets_length, 2);
    assert_eq!(store.header.length, 16 + 12);
    assert_eq!(store.chunks_length, 2);
    assert_eq!(store.latest_chunk.timestamp_from, 2);
}

#[test]
fn malformed_chunk_is_refused() {
    let mut store = ChunkStore::new(30);
    let mut c = chunk_of_size(50, 0, 1);
    c.length = 49;
    assert!(matches!(store.append_chunk(c), Err(AppendError::MalformedChunk)));
    assert_eq!(store.chunks.len(), 0);
    assert_eq!(store.header.chunk_count, 0);
}

#[test]
fn decompressed_chunk_is_compressed_on_append() {
    let mut store = ChunkStore::new(64);
    let mut c = Chunk::new();
    c.entries = b"plain entries".to_vec();
    c.entries_length = c.entries.len() as u32;
    store.append_chunk(c).unwrap();
    assert_eq!(store.chunks[0].state, ChunkCompressionState::COMPRESSED);
    assert_eq!(store.chunks[0].length as usize, 24 + store.chunks[0].entries.len());
}

#[test]
fn store_image_reads_back_header_and_latest_chunk() {
    let mut store = ChunkStore::new(30);
    store.append_chunk(chunk_of_size(50, 0, 9)).unwrap();
    store.append_chunk(chunk_of_size(80, 10, 19)).unwrap();
    store.append_chunk(chunk_of_size(33, 20, 29)).unwrap();
    let image = store.encode().unwrap();
    assert_eq!(image.len(), (16 + 18) + 8 + 50 + 80 + 33);
    let read = ChunkStore::read_from_bytes(&image).unwrap();
    assert_eq!(read.header, store.header);
    assert_eq!(read.chunks_length, 3);
    assert!(read.chunks.is_empty());
    assert_eq!(read.latest_chunk, store.chunks[2]);
    for i in 0..3 {
        assert_eq!(ChunkStore::load_chunk(&image, &read.header, i).unwrap(), store.chunks[i]);
    }
}

#[test]
fn empty_store_reads_back() {
    let store = ChunkStore::new(64);
    let image = store.encode().unwrap();
    assert_eq!(image.len(), 24);
    let read = ChunkStore::read_from_bytes(&image).unwrap();
    assert_eq!(read.header.chunk_count, 0);
    assert_eq!(read.latest_chunk, Chunk::new());
}

#[test]
fn truncated_image_is_rejected() {
    let mut store = ChunkStore::new(30);
    store.append_chunk(chunk_of_size(50, 0, 9)).unwrap();
    let image = store.encode().unwrap();
    assert!(ChunkStore::read_from_bytes(&image[..image.len() - 1]).is_err());
    assert!(ChunkStore::read_from_bytes(&image[..10]).is_err());
}

fn ranged_store() -> Vec<u8> {
    let mut store = ChunkStore::new(30);
    store.append_chunk(chunk_of_size(40, 0, 999)).unwrap();
    store.append_chunk(chunk_of_size(45, 1000, 1999)).unwrap();
    store.append_chunk(chunk_of_size(50, 2000, 2999)).unwrap();
    store.encode().unwrap()
}

#[test]
fn search_selects_the_covering_chunk() {
    let mut reader = LogStore::with_filepath("store.bin");
    reader.import_image(ranged_store()).unwrap();
    let c = reader.search_by_timestamp(1500).unwrap();
    assert_eq!((c.timestamp_from, c.timestamp_to), (1000, 1999));
    let c = reader.search_by_timestamp(0).unwrap();
    assert_eq!(c.timestamp_from, 0);
    let c = reader.search_by_timestamp(2999).unwrap();
    assert_eq!(c.timestamp_from, 2000);
    assert!(matches!(reader.search_by_timestamp(5000), Err(LookupError::OutOfRange)));
}

#[test]
fn search_errors() {
    let fresh = LogStore::with_filepath("store.bin");
    assert!(matches!(fresh.search_by_timestamp(1), Err(LookupError::NotFound)));
    let mut store = ChunkStore::new(30);
    store.append_chunk(chunk_of_size(40, 100, 199)).unwrap();
    store.append_chunk(chunk_of_size(40, 300, 399)).unwrap();
    store.append_chunk(chunk_of_size(40, 500, 599)).unwrap();
    let mut reader = LogStore::with_filepath("store.bin");
    reader.import_image(store.encode().unwrap()).unwrap();
    assert!(matches!(reader.search_by_timestamp(50), Err(LookupError::OutOfRange)));
    assert!(matches!(reader.search_by_timestamp(250), Err(LookupError::NotFound)));
    assert!(matches!(reader.search_by_timestamp(450), Err(LookupError::NotFound)));
    assert_eq!(reader.search_by_timestamp(350).unwrap().timestamp_from, 300);
}

#[test]
fn bad_image_is_not_imported() {
    let mut reader = LogStore::with_filepath("store.bin");
    assert!(reader.import_image(vec![1, 2, 3]).is_err());
    assert!(matches!(reader.search_by_timestamp(1), Err(LookupError::NotFound)));
}

#[test]
fn single_entry_store_scenario() {
    let entry = ChunkEntry {
        timestamp: 1000,
        action: 1,
        target: b"disk0".to_vec(),
        message: b"resized".to_vec(),
    };
    let mut chunk = Chunk::new();
    chunk.timestamp_from = 1000;
    chunk.timestamp_to = 1000;
    chunk.entries = entry.encode().unwrap();
    chunk.entries_length = chunk.entries.len() as u32;
    chunk.compress().unwrap();
    let mut store = ChunkStore::new(64);
    store.append_chunk(chunk).unwrap();
    let image = store.encode().unwrap();

    let reopened = ChunkStore::read_from_bytes(&image).unwrap();
    assert_eq!(reopened.header.sector_size, 64);
    let last = reopened.header.chunk_offsets.len() - 1;
    let mut loaded = ChunkStore::load_chunk(&image, &reopened.header, last).unwrap();
    loaded.decompress().unwrap();
    let (back, end) = ChunkEntry::decode(&loaded.entries, 0).unwrap();
    assert_eq!(end, loaded.entries.len());
    assert_eq!(back, entry);

    let mut reader = LogStore::with_filepath("store.bin");
    reader.import_image(image).unwrap();
    let found = reader.deep_search_by_timestamp(1000).unwrap();
    assert_eq!(
        found,
        LogEntry {
            timestamp: 1000,
            action: LogAction::UPDATE,
            target: "disk0".to_string(),
            desc: "resized".to_string(),
        }
    );
}

fn entries_chunk(stamps: &[u64]) -> Chunk {
    let mut chunk = Chunk::new();
    for (i, t) in stamps.iter().enumerate() {
        let e = ChunkEntry {
            timestamp: *t,
            action: 2,
            target: format!("t{}", i).into_bytes(),
            message: format!("m{}", i).into_bytes(),
        };
        chunk.entries.extend_from_slice(&e.encode().unwrap());
    }
    chunk.entries_length = chunk.entries.len() as u32;
    chunk.timestamp_from = *stamps.iter().min().unwrap();
    chunk.timestamp_to = *stamps.iter().max().unwrap();
    chunk
}

#[test]
fn deep_search_returns_the_nearest_entry() {
    let mut store = ChunkStore::new(16);
    store.append_chunk(entries_chunk(&[10, 20, 20, 40])).unwrap();
    let mut reader = LogStore::with_filepath("store.bin");
    reader.import_image(store.encode().unwrap()).unwrap();
    assert_eq!(reader.deep_search_by_timestamp(20).unwrap().target, "t1");
    assert_eq!(reader.deep_search_by_timestamp(29).unwrap().target, "t1");
    assert_eq!(reader.deep_search_by_timestamp(30).unwrap().target, "t1");
    assert_eq!(reader.deep_search_by_timestamp(31).unwrap().desc, "m3");
    assert_eq!(reader.deep_search_by_timestamp(10).unwrap().target, "t0");
    assert!(matches!(reader.deep_search_by_timestamp(41), Err(LookupError::OutOfRange)));
}

#[test]
fn deep_search_scans_unsorted_entries() {
    let mut store = ChunkStore::new(16);
    store.append_chunk(entries_chunk(&[50, 10, 30, 30])).unwrap();
    let mut reader = LogStore::with_filepath("store.bin");
    reader.import_image(store.encode().unwrap()).unwrap();
    assert_eq!(reader.deep_search_by_timestamp(28).unwrap().target, "t2");
    assert_eq!(reader.deep_search_by_timestamp(20).unwrap().target, "t1");
    assert_eq!(reader.deep_search_by_timestamp(50).unwrap().target, "t0");
}

#[test]
fn nearest_entry_prefers_the_earlier_of_equal_distances() {
    let es: Vec<ChunkEntry> = [10u64, 20, 30]
        .iter()
        .map(|t| ChunkEntry { timestamp: *t, action: 0, target: vec![], message: vec![] })
        .collect();
    assert_eq!(chunky_logs::lookup::nearest_entry(&es, 25), 1);
    assert_eq!(chunky_logs::lookup::nearest_entry(&es, 26), 2);
    assert_eq!(chunky_logs::lookup::nearest_entry(&es, 0), 0);
    assert_eq!(chunky_logs::lookup::nearest_entry(&es, 1000), 2);
}

#[test]
fn whole_store_round_trip() {
    let mut store = ChunkStore::new(30);
    store.append_chunk(chunk_of_size(50, 0, 9)).unwrap();
    store.append_chunk(chunk_of_size(80, 10, 19)).unwrap();
    store.append_chunk(chunk_of_size(33, 20, 29)).unwrap();
    let image = store.encode().unwrap();
    let (back, end) = ChunkStore::decode(&image, 0).unwrap();
    assert_eq!(end, image.len());
    assert_eq!(back.header, store.header);
    assert_eq!(back.chunks_length, 3);
    assert_eq!(back.chunks, store.chunks);
    assert_eq!(back.latest_chunk, store.latest_chunk);
    assert!(ChunkStore::decode(&image[..image.len() - 1], 0).is_err());
}

#[test]
fn store_full_after_the_largest_count() {
    let mut store = ChunkStore::new(512);
    for i in 0..u16::MAX as u64 {
        store.append_chunk(chunk_of_size(24, i, i)).unwrap();
    }
    assert_eq!(store.header.chunk_count, u16::MAX);
    assert!(matches!(
        store.append_chunk(chunk_of_size(24, 70000, 70000)),
        Err(AppendError::StoreFull)
    ));
    assert_eq!(store.chunks.len(), u16::MAX as usize);
}

#[test]
fn corrupt_chunk_is_a_decode_error() {
    let mut store = ChunkStore::new(30);
    store.append_chunk(chunk_of_size(40, 0, 999)).unwrap();
    store.append_chunk(chunk_of_size(40, 1000, 1999)).unwrap();
    store.append_chunk(chunk_of_size(40, 2000, 2999)).unwrap();
    let mut image = store.encode().unwrap();
    // First chunk starts right after the 34-byte header and the 8-byte count;
    // make its blob length field claim more bytes than it has.
    image[42 + 20] = 0xff;
    let mut reader = LogStore::with_filepath("store.bin");
    reader.import_image(image).unwrap();
    assert!(matches!(reader.search_by_timestamp(500), Err(LookupError::Decode(_))));
    assert_eq!(reader.search_by_timestamp(2500).unwrap().timestamp_from, 2000);
}

#[test]
fn blob_that_is_not_zlib_is_a_decompression_error() {
    let mut reader = LogStore::with_filepath("store.bin");
    reader.import_image(ranged_store()).unwrap();
    assert!(matches!(reader.deep_search_by_timestamp(1500), Err(LookupError::Decompression(_))));
}

#[test]
fn entry_text_that_is_not_utf8_is_reported() {
    let e = ChunkEntry { timestamp: 7, action: 0, target: vec![0xc3, 0x28], message: vec![] };
    let mut chunk = Chunk::new();
    chunk.timestamp_from = 7;
    chunk.timestamp_to = 7;
    chunk.entries = e.encode().unwrap();
    chunk.entries_length = chunk.entries.len() as u32;
    let mut store = ChunkStore::new(8);
    store.append_chunk(chunk).unwrap();
    let mut reader = LogStore::with_filepath("store.bin");
    reader.import_image(store.encode().unwrap()).unwrap();
    assert!(matches!(reader.deep_search_by_timestamp(7), Err(LookupError::InvalidUtf8)));
}
