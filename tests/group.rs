use chunky_logs::chunk::{Chunk, ChunkCompressionState};
use chunky_logs::codec::{Encoder, Transcoder};
use chunky_logs::compression::Compressor;
use chunky_logs::config::{Config, ConfigPropertiesError};
use chunky_logs::entry::ChunkEntry;
use chunky_logs::group::{LogAction, LogEntry, LogGroup};

fn log_entry(ts: u64) -> LogEntry {
    LogEntry {
        timestamp: ts,
        action: LogAction::INSERT,
        target: format!("target-{}", ts),
        desc: "grüße".to_string(),
    }
}

#[test]
fn group_capacity_is_one_thousand() {
    let mut g = LogGroup::new();
    for i in 0..1000u64 {
        assert_eq!(g.append_entry(log_entry(i)).unwrap(), i as usize);
    }
    assert!(g.append_entry(log_entry(2000)).is_err());
    assert_eq!(g.entries.len(), 1000);
    assert_eq!((g.ts_from, g.ts_to), (0, 999));
}

#[test]
fn group_refuses_an_older_entry() {
    let mut g = LogGroup::new();
    g.append_entry(log_entry(10)).unwrap();
    g.append_entry(log_entry(10)).unwrap();
    assert!(g.append_entry(log_entry(9)).is_err());
    assert_eq!(g.entries.len(), 2);
    assert_eq!((g.ts_from, g.ts_to), (10, 10));
}

#[test]
fn action_codes() {
    assert_eq!(LogAction::from(0u8), LogAction::CREATE);
    assert_eq!(LogAction::from(1u8), LogAction::UPDATE);
    assert_eq!(LogAction::from(2u8), LogAction::INSERT);
    assert_eq!(LogAction::from(3u8), LogAction::DELETE);
    assert_eq!(LogAction::from(200u8), LogAction::CREATE);
    assert_eq!(u8::from(LogAction::DELETE), 3);
    assert_eq!(u8::from(LogAction::UPDATE), 1);
}

#[test]
fn entry_transcoding_both_ways() {
    let l = log_entry(77);
    let wire: ChunkEntry = *l.transcode().unwrap();
    assert_eq!(wire.timestamp, 77);
    assert_eq!(wire.action, 2);
    assert_eq!(wire.target, b"target-77".to_vec());
    assert_eq!(wire.message, "grüße".as_bytes().to_vec());
    let back: LogEntry = *wire.transcode().unwrap();
    assert_eq!(back, l);
}

#[test]
fn invalid_utf8_does_not_transcode() {
    let wire = ChunkEntry { timestamp: 1, action: 0, target: vec![0xff, 0xfe], message: vec![] };
    let r: Result<Box<LogEntry>, _> = wire.transcode();
    assert!(r.is_err());
    let mut nul = log_entry(1);
    nul.desc = "a\0b".to_string();
    let r: Result<Box<ChunkEntry>, _> = nul.transcode();
    assert!(r.is_err());
}

#[test]
fn process_entry_reads_one_entry() {
    let wire = ChunkEntry { timestamp: 5, action: 3, target: b"x".to_vec(), message: b"y".to_vec() };
    let mut bytes = wire.encode().unwrap();
    let len = bytes.len();
    bytes.extend_from_slice(&[9, 9]);
    let (l, end) = LogEntry::process_entry(&bytes).unwrap();
    assert_eq!(end, len);
    assert_eq!(l.action, LogAction::DELETE);
    assert_eq!(l.target, "x");
    assert_eq!(l.desc, "y");
    assert!(LogEntry::process_entry(&bytes[..4]).is_err());
}

#[test]
fn group_to_chunk_and_back() {
    let mut g = LogGroup::new();
    for ts in [5u64, 6, 9] {
        g.append_entry(log_entry(ts)).unwrap();
    }
    let mut chunk: Chunk = *g.transcode().unwrap();
    assert_eq!(chunk.state, ChunkCompressionState::COMPRESSED);
    assert_eq!((chunk.timestamp_from, chunk.timestamp_to), (5, 9));
    assert_eq!(chunk.entries_length as usize, chunk.entries.len());
    assert_eq!(chunk.length as usize, 24 + chunk.entries.len());
    assert!(LogGroup::from_chunk(&chunk).is_err());
    chunk.decompress().unwrap();
    let back = LogGroup::from_chunk(&chunk).unwrap();
    assert_eq!(back.entries, g.entries);
    assert_eq!((back.ts_from, back.ts_to), (5, 9));
}

#[test]
fn from_chunk_needs_a_decompressed_nonempty_chunk() {
    let mut g = LogGroup::new();
    g.append_entry(log_entry(1)).unwrap();
    let mut chunk: Chunk = *g.transcode().unwrap();
    assert!(LogGroup::from_chunk(&Chunk::new()).is_err());
    assert!(LogGroup::from_chunk(&chunk).is_err());
    chunk.decompress().unwrap();
    assert_eq!(LogGroup::from_chunk(&chunk).unwrap().entries.len(), 1);
}

#[test]
fn from_chunk_stops_at_one_thousand_entries() {
    let mut chunk = Chunk::new();
    for i in 0..1001u64 {
        let e = ChunkEntry { timestamp: i, action: 0, target: b"t".to_vec(), message: b"m".to_vec() };
        chunk.entries.extend_from_slice(&e.encode().unwrap());
    }
    chunk.entries.extend_from_slice(&[1, 2, 3]);
    chunk.entries_length = chunk.entries.len() as u32;
    let g = LogGroup::from_chunk(&chunk).unwrap();
    assert_eq!(g.entries.len(), 1000);
    assert_eq!(g.entries[999].timestamp, 999);
}

#[test]
fn from_chunk_rejects_a_broken_entry() {
    let mut chunk = Chunk::new();
    chunk.entries = vec![0, 0, 0, 0, 0, 0, 0, 1, 0, b'a'];
    chunk.entries_length = 10;
    assert!(LogGroup::from_chunk(&chunk).is_err());
}

#[test]
fn config_lookup() {
    let mut c = Config::new("config.properties");
    c.load_properties(b"store.path = data/chunk_store.bin\nsector.size=64\n");
    assert_eq!(c.get("sector.size".to_string()).unwrap(), "64");
    assert_eq!(c.get("store.path".to_string()).unwrap(), "data/chunk_store.bin");
    match c.get("missing".to_string()) {
        Err(ConfigPropertiesError::MissingConfigPropertyError(e)) => assert_eq!(e.property, "missing"),
        _ => panic!("expected a missing property"),
    }
    assert!(matches!(
        c.get(String::new()),
        Err(ConfigPropertiesError::InvalidConfigPropertyKeyError(_))
    ));
    assert_eq!(c.filename, "config.properties");
}

#[test]
fn config_without_properties() {
    let mut c = Config::new("x");
    c.load_properties(b"");
    assert!(c.properties.is_empty());
    assert!(c.get("a".to_string()).is_err());
}

#[test]
fn config_later_key_wins() {
    let mut c = Config::new("x");
    c.load_properties(b"a=1\na=2\n");
    assert_eq!(c.properties.len(), 1);
    assert_eq!(c.get("a".to_string()).unwrap(), "2");
}

#[test]
fn single_entry_group_becomes_a_compressed_chunk() {
    let mut g = LogGroup::new();
    g.append_entry(LogEntry {
        timestamp: 1000,
        action: LogAction::UPDATE,
        target: "disk0".to_string(),
        desc: "resized".to_string(),
    })
    .unwrap();
    let c: Chunk = *g.transcode().unwrap();
    assert_eq!((c.timestamp_from, c.timestamp_to), (1000, 1000));
    assert_eq!(c.entries_length as usize, c.entries.len());
    assert_eq!(c.length as usize, 24 + c.entries.len());
    assert_eq!(
        Compressor::new().decompress_vec(&c.entries).unwrap(),
        vec![
            0, 0, 0, 0, 0, 0, 0x03, 0xE8, 0x01, 0x64, 0x69, 0x73, 0x6B, 0x30, 0x00, 0x72, 0x65,
            0x73, 0x69, 0x7A, 0x65, 0x64, 0x00
        ]
    );
}

#[test]
fn from_chunk_rejects_a_cut_blob() {
    let mut g = LogGroup::new();
    g.append_entry(log_entry(3)).unwrap();
    g.append_entry(log_entry(4)).unwrap();
    let mut chunk: Chunk = *g.transcode().unwrap();
    chunk.decompress().unwrap();
    chunk.entries.pop();
    chunk.entries_length -= 1;
    assert!(LogGroup::from_chunk(&chunk).is_err());
}

#[test]
fn compressing_equal_bytes_gives_equal_results() {
    let data = b"the same bytes".to_vec();
    let mut used = Compressor::new();
    used.compress_vec(&b"other".to_vec()).unwrap();
    assert_eq!(used.compress_vec(&data).unwrap(), Compressor::new().compress_vec(&data).unwrap());
}
