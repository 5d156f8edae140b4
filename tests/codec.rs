use chunky_logs::chunk::{Chunk, ChunkCompressionState};
use chunky_logs::codec::{Decoder, Encoder};
use chunky_logs::compression::{CompressionAction, CompressionHandler, Compressor};
use chunky_logs::entry::ChunkEntry;
use chunky_logs::header::{ChunkOffsets, ChunkStoreHeader};

fn sample_entry() -> ChunkEntry {
    ChunkEntry {
        timestamp: 1000,
        action: 1,
        target: b"disk0".to_vec(),
        message: b"resized".to_vec(),
    }
}

#[test]
fn entry_encoding_is_big_endian_and_null_terminated() {
    let bytes = sample_entry().encode().unwrap();
    let mut expected: Vec<u8> = vec![0, 0, 0, 0, 0, 0, 0x03, 0xe8, 1];
    expected.extend_from_slice(b"disk0");
    expected.push(0);
    expected.extend_from_slice(b"resized");
    expected.push(0);
    assert_eq!(bytes, expected);
}

#[test]
fn entry_round_trip_consumes_everything() {
    let e = sample_entry();
    let bytes = e.encode().unwrap();
    let (back, end) = ChunkEntry::decode(&bytes, 0).unwrap();
    assert_eq!(back, e);
    assert_eq!(end, bytes.len());
}

#[test]
fn entry_round_trip_with_empty_fields_and_trailing_bytes() {
    let e = ChunkEntry { timestamp: u64::MAX, action: 3, target: vec![], message: vec![] };
    let mut bytes = vec![7u8, 7];
    let start = bytes.len();
    bytes.extend_from_slice(&e.encode().unwrap());
    let end_of_entry = bytes.len();
    bytes.extend_from_slice(&[1, 2, 3]);
    let (back, end) = ChunkEntry::decode(&bytes, start).unwrap();
    assert_eq!(back, e);
    assert_eq!(end, end_of_entry);
}

#[test]
fn entry_with_zero_byte_is_not_encodable() {
    let mut e = sample_entry();
    e.target = vec![b'a', 0, b'b'];
    assert!(e.encode().is_err());
    let mut e = sample_entry();
    e.message = vec![0];
    assert!(e.encode().is_err());
}

#[test]
fn entry_decode_names_the_field_that_ran_out() {
    let bytes = sample_entry().encode().unwrap();
    let err = ChunkEntry::decode(&bytes[..5], 0).unwrap_err();
    assert_eq!(err.message, "ChunkEntry.timestamp");
    let err = ChunkEntry::decode(&bytes[..8], 0).unwrap_err();
    assert_eq!(err.message, "ChunkEntry.action");
    let err = ChunkEntry::decode(&bytes[..12], 0).unwrap_err();
    assert_eq!(err.message, "ChunkEntry.target");
    let err = ChunkEntry::decode(&bytes[..bytes.len() - 1], 0).unwrap_err();
    assert_eq!(err.message, "ChunkEntry.message");
}

fn stored_chunk(blob: Vec<u8>, from: u64, to: u64) -> Chunk {
    Chunk {
        length: 24 + blob.len() as u32,
        timestamp_from: from,
        timestamp_to: to,
        entries_length: blob.len() as u32,
        entries: blob,
        state: ChunkCompressionState::COMPRESSED,
    }
}

#[test]
fn chunk_encoding_layout() {
    let c = stored_chunk(vec![0xaa, 0xbb], 5, 6);
    let bytes = c.encode().unwrap();
    assert_eq!(
        bytes,
        vec![0, 0, 0, 26, 0, 0, 0, 0, 0, 0, 0, 5, 0, 0, 0, 0, 0, 0, 0, 6, 0, 0, 0, 2, 0xaa, 0xbb]
    );
}

#[test]
fn chunk_round_trip() {
    let c = stored_chunk((0u8..40).collect(), 100, 200);
    let bytes = c.encode().unwrap();
    let (back, end) = Chunk::decode(&bytes, 0).unwrap();
    assert_eq!(back, c);
    assert_eq!(end, bytes.len());
    let whole = Chunk::from_bytes(&bytes).unwrap();
    assert_eq!(whole, c);
}

#[test]
fn chunk_with_wrong_blob_length_is_not_encodable() {
    let mut c = stored_chunk(vec![1, 2, 3], 0, 0);
    c.entries_length = 4;
    assert!(c.encode().is_err());
}

#[test]
fn chunk_from_bytes_rejects_short_and_long_input() {
    let c = stored_chunk(vec![1, 2, 3], 0, 0);
    let bytes = c.encode().unwrap();
    assert!(Chunk::from_bytes(&bytes[..bytes.len() - 1].to_vec()).is_err());
    let mut longer = bytes.clone();
    longer.push(9);
    assert!(Chunk::from_bytes(&longer).is_err());
    assert_eq!(Chunk::decode(&bytes[..10], 0).unwrap_err().message, "Chunk.timestamp_from");
    assert_eq!(Chunk::decode(&bytes[..26], 0).unwrap_err().message, "Chunk.entries");
}

#[test]
fn offsets_round_trip_and_value() {
    let o = ChunkOffsets { sector_index: 3, sector_offset: 7 };
    let bytes = o.encode().unwrap();
    assert_eq!(bytes, vec![0, 0, 0, 3, 0, 7]);
    let (back, end) = ChunkOffsets::decode(&bytes, 0).unwrap();
    assert_eq!(back, o);
    assert_eq!(end, 6);
    assert_eq!(o.calculate_offset(30), 97);
}

#[test]
fn header_round_trip() {
    let h = ChunkStoreHeader {
        length: 28,
        sector_size: 64,
        chunk_count: 2,
        chunk_offsets_length: 2,
        chunk_offsets: vec![
            ChunkOffsets { sector_index: 0, sector_offset: 0 },
            ChunkOffsets { sector_index: 1, sector_offset: 2 },
        ],
    };
    let bytes = h.encode().unwrap();
    assert_eq!(bytes.len(), 28);
    assert_eq!(&bytes[..16], &[0, 0, 0, 0, 0, 0, 0, 28, 0, 64, 0, 2, 0, 0, 0, 2]);
    let (back, end) = ChunkStoreHeader::decode(&bytes, 0).unwrap();
    assert_eq!(back, h);
    assert_eq!(end, 28);
    assert_eq!(
        ChunkStoreHeader::decode(&bytes[..27], 0).unwrap_err().message,
        "ChunkStoreHeader.chunk_offsets"
    );
}

#[test]
fn header_count_must_match_offsets_to_encode() {
    let h = ChunkStoreHeader {
        length: 16,
        sector_size: 64,
        chunk_count: 0,
        chunk_offsets_length: 1,
        chunk_offsets: vec![],
    };
    assert!(h.encode().is_err());
}

#[test]
fn field_widths() {
    assert_eq!(Chunk::header_length(), 4);
    assert_eq!(ChunkStoreHeader::header_length(), 8);
    assert_eq!(chunky_logs::store::ChunkStore::chunks_length_bytes_length(), 8);
}

#[test]
fn compression_round_trip() {
    let data: Vec<u8> = b"a log line, a log line, a log line, a log line".to_vec();
    let mut c = Compressor::new();
    let z = c.compress_vec(&data).unwrap();
    assert!(matches!(c.action, CompressionAction::IDLE));
    assert_ne!(z, data);
    let back = c.decompress_vec(&z).unwrap();
    assert!(matches!(c.action, CompressionAction::IDLE));
    assert_eq!(back, data);
    let empty = c.compress_slice(&[]).unwrap();
    assert_eq!(c.decompress_slice(&empty).unwrap(), Vec::<u8>::new());
}

#[test]
fn corrupt_stream_fails_to_decompress() {
    let mut c = Compressor::new();
    assert!(c.decompress_vec(&vec![1, 2, 3, 4]).is_err());
    assert!(matches!(c.action, CompressionAction::DECOMPRESS));
}

#[test]
fn chunk_compress_is_idempotent_and_decompress_restores() {
    let blob = sample_entry().encode().unwrap();
    let mut c = Chunk::new();
    c.entries = blob.clone();
    c.entries_length = blob.len() as u32;
    c.compress().unwrap();
    assert_eq!(c.state, ChunkCompressionState::COMPRESSED);
    assert_eq!(c.entries_length as usize, c.entries.len());
    assert_eq!(c.length as usize, 24 + c.entries.len());
    let once = c.clone();
    c.compress().unwrap();
    assert_eq!(c, once);
    c.decompress().unwrap();
    assert_eq!(c.state, ChunkCompressionState::DECOMPRESSED);
    assert_eq!(c.entries, blob);
}

#[test]
fn truncated_chunk_blob_is_rejected() {
    let blob = sample_entry().encode().unwrap();
    let mut c = Chunk::new();
    c.entries = blob;
    c.compress().unwrap();
    let mut truncated = c.clone();
    truncated.entries.pop();
    truncated.entries_length -= 1;
    truncated.length -= 1;
    assert!(truncated.decompress().is_err());
    assert_eq!(truncated.state, ChunkCompressionState::COMPRESSED);
    let bytes = c.to_be_bytes().unwrap();
    assert!(Chunk::from_bytes(&bytes[..bytes.len() - 1].to_vec()).is_err());
}

#[test]
fn to_be_bytes_compresses_first() {
    let blob = sample_entry().encode().unwrap();
    let mut c = Chunk::new();
    c.timestamp_from = 1000;
    c.timestamp_to = 1000;
    c.entries = blob;
    let bytes = c.to_be_bytes().unwrap();
    assert_eq!(c.state, ChunkCompressionState::COMPRESSED);
    assert_eq!(Chunk::from_bytes(&bytes).unwrap(), c);
}

#[test]
fn sector_diagram_of_two_chunks() {
    let h = ChunkStoreHeader {
        length: 28,
        sector_size: 30,
        chunk_count: 2,
        chunk_offsets_length: 2,
        chunk_offsets: vec![
            ChunkOffsets { sector_index: 0, sector_offset: 0 },
            ChunkOffsets { sector_index: 1, sector_offset: 20 },
        ],
    };
    let cells = format!("|C0 50B{}|C1 ?B ", " ".repeat(43));
    assert_eq!(cells.len(), 57);
    let rules = format!("+{}+{}", "-".repeat(49), "-".repeat(6));
    let sector_rules = format!("+{}+{}", "-".repeat(29), "-".repeat(29));
    let sector_cells = format!("|0{}|1{}", " ".repeat(28), " ".repeat(28));
    let expected = format!(
        "Sector size: 30B\n         {}\nSectors: {}\n         {}\nChunks:  {}\n         {}",
        &sector_rules[..57],
        &sector_cells[..57],
        rules,
        cells,
        rules
    );
    assert_eq!(h.string_format_chunk_sector_ratio(), expected);
}

#[test]
fn sector_diagram_widens_narrow_cells() {
    let h = ChunkStoreHeader {
        length: 28,
        sector_size: 1,
        chunk_count: 2,
        chunk_offsets_length: 2,
        chunk_offsets: vec![
            ChunkOffsets { sector_index: 0, sector_offset: 0 },
            ChunkOffsets { sector_index: 3, sector_offset: 0 },
        ],
    };
    let text = h.string_format_chunk_sector_ratio();
    assert!(text.starts_with("Sector size: 1B\n         "));
    assert!(text.contains("\nChunks:  |C0 3B |C1 ?B \n"));
    assert!(text.contains("\nSectors: |0 |1 |2 |3 \n"));
}

#[test]
fn sector_diagram_of_empty_index() {
    let h = ChunkStoreHeader::default();
    assert_eq!(
        h.string_format_chunk_sector_ratio(),
        "Sector size: 0B\n         \nSectors: \n         \nChunks:  \n         "
    );
}
