//! End-to-end behaviour of the engine: append, read, rotation, recovery.
use betterstore::chunk::LogChunk;
use betterstore::engine::Engine;
use betterstore::index::{Index, IndexElement};
use betterstore::StoreError;

fn fresh_engine() -> Engine {
    Engine::new(Vec::new()).expect("an empty directory starts an engine")
}

fn append(engine: &mut Engine, stream: &str, payloads: &[&str]) -> Result<u64, StoreError> {
    let name = stream.as_bytes().to_vec();
    let events: Vec<Vec<u8>> = payloads.iter().map(|p| p.as_bytes().to_vec()).collect();
    engine.append_events(name, events)
}

fn read(engine: &mut Engine, stream: &str, pos: u64) -> Vec<(Vec<u8>, u64)> {
    engine
        .read_stream(stream.as_bytes().to_vec(), pos)
        .into_iter()
        .map(|r| (r.event, r.stream_position))
        .collect()
}

#[test]
fn fresh_start_single_append_single_read() {
    let mut engine = fresh_engine();
    let next = append(&mut engine, "A", &["x", "y", "z"]).unwrap();
    assert_eq!(next, 4);
    let got = read(&mut engine, "A", 0);
    assert_eq!(
        got,
        vec![(b"x".to_vec(), 1), (b"y".to_vec(), 2), (b"z".to_vec(), 3)]
    );
    let all = read(&mut engine, "$all", 0);
    assert_eq!(got, all);
}

#[test]
fn append_to_reserved_stream_is_rejected() {
    let mut engine = fresh_engine();
    let r = append(&mut engine, "$all", &["x"]);
    assert_eq!(r, Err(StoreError::IllegalStream));
    assert_eq!(r.unwrap_err().message(), "Illegal stream_name parameter.");
    // no index mutation: the reserved stream still reads empty, and the
    // only file is the fresh header-only chunk
    assert_eq!(read(&mut engine, "$all", 0), vec![]);
    let files = engine.chunk_files();
    assert_eq!(files.len(), 1);
    assert_eq!(files[0].bytes.len(), 41);
}

#[test]
fn reserved_stream_is_rejected_even_for_oversized_payloads() {
    // rejection happens before any size concern
    let mut engine = fresh_engine();
    let huge = "h".repeat(2_000_000);
    let r = append(&mut engine, "$all", &[&huge]);
    assert_eq!(r, Err(StoreError::IllegalStream));
}

#[test]
fn rotation_opens_a_second_chunk() {
    let mut engine = fresh_engine();
    let big = "a".repeat(900_000);
    assert_eq!(append(&mut engine, "big", &[&big]).unwrap(), 2);
    assert_eq!(append(&mut engine, "big", &[&big]).unwrap(), 3);
    let files = engine.chunk_files();
    assert_eq!(files.len(), 2);
    assert_eq!(files[0].id, 1);
    assert_eq!(files[1].id, 2);
    assert!(files[0].bytes.len() <= 1_000_000);
    assert!(files[1].bytes.len() <= 1_000_000);
    // the second chunk holds the second event
    let got = read(&mut engine, "big", 0);
    assert_eq!(got.len(), 2);
    assert_eq!(got[0].1, 1);
    assert_eq!(got[1].1, 2);
    assert_eq!(got[1].0.len(), 900_000);
}

#[test]
fn chunk_size_stays_bounded() {
    let mut engine = fresh_engine();
    let big = "b".repeat(500_000);
    for _ in 0..5 {
        append(&mut engine, "S", &[&big]).unwrap();
    }
    for f in engine.chunk_files() {
        assert!(f.bytes.len() <= 1_000_000);
    }
}

#[test]
fn restart_recovers_index_and_next_id() {
    let mut engine = fresh_engine();
    append(&mut engine, "A", &["x", "y", "z"]).unwrap();
    let files = engine.chunk_files();
    let mut engine2 = Engine::new(files).expect("clean files must recover");
    let got = read(&mut engine2, "A", 0);
    assert_eq!(
        got,
        vec![(b"x".to_vec(), 1), (b"y".to_vec(), 2), (b"z".to_vec(), 3)]
    );
    // next_id picked up where the first run stopped
    assert_eq!(append(&mut engine2, "A", &["w"]).unwrap(), 5);
    assert_eq!(read(&mut engine2, "A", 3), vec![(b"w".to_vec(), 4)]);
}

#[test]
fn restart_after_rotation_recovers_both_chunks() {
    let mut engine = fresh_engine();
    let big = "c".repeat(900_000);
    append(&mut engine, "big", &[&big, &big]).unwrap();
    let files = engine.chunk_files();
    assert_eq!(files.len(), 2);
    let mut engine2 = Engine::new(files).expect("clean files must recover");
    let got = read(&mut engine2, "big", 0);
    assert_eq!(got.len(), 2);
    assert_eq!(append(&mut engine2, "big", &["tail"]).unwrap(), 4);
}

#[test]
fn restart_of_fresh_store_keeps_ids_from_one() {
    let engine = fresh_engine();
    let files = engine.chunk_files();
    assert_eq!(files.len(), 1);
    let mut engine2 = Engine::new(files).expect("a header-only chunk is valid");
    assert_eq!(append(&mut engine2, "A", &["x"]).unwrap(), 2);
    assert_eq!(read(&mut engine2, "A", 0), vec![(b"x".to_vec(), 1)]);
}

#[test]
fn corruption_is_detected_on_restart() {
    let mut engine = fresh_engine();
    append(&mut engine, "A", &["x", "y", "z"]).unwrap();
    let mut files = engine.chunk_files();
    let middle = files[0].bytes.len() / 2;
    files[0].bytes[middle] ^= 1;
    assert!(matches!(Engine::new(files), Err(StoreError::Corrupt)));
}

#[test]
fn garbage_tail_with_fixed_digest_is_malformed() {
    let mut engine = fresh_engine();
    append(&mut engine, "A", &["x"]).unwrap();
    let mut files = engine.chunk_files();
    files[0].bytes.push(0xEE);
    // recompute the digest so only the record walk can object
    let mut zeroed = files[0].bytes.clone();
    for b in zeroed.iter_mut().take(32) {
        *b = 0;
    }
    let digest = ring::digest::digest(&ring::digest::SHA256, &zeroed);
    files[0].bytes[..32].copy_from_slice(digest.as_ref());
    assert!(matches!(Engine::new(files), Err(StoreError::Malformed)));
}

#[test]
fn stray_chunk_ids_are_rejected() {
    let engine = fresh_engine();
    let mut files = engine.chunk_files();
    files[0].id = 5;
    assert!(matches!(Engine::new(files), Err(StoreError::BadLayout)));
}

#[test]
fn stored_digest_matches_sha256_of_zeroed_file() {
    let mut engine = fresh_engine();
    append(&mut engine, "A", &["x", "y"]).unwrap();
    append(&mut engine, "B", &["z"]).unwrap();
    for f in engine.chunk_files() {
        let mut zeroed = f.bytes.clone();
        for b in zeroed.iter_mut().take(32) {
            *b = 0;
        }
        let digest = ring::digest::digest(&ring::digest::SHA256, &zeroed);
        assert_eq!(&f.bytes[..32], digest.as_ref());
    }
}

#[test]
fn read_past_end_and_unknown_stream_yield_nothing() {
    let mut engine = fresh_engine();
    append(&mut engine, "A", &["x", "y", "z"]).unwrap();
    assert_eq!(read(&mut engine, "A", 10), vec![]);
    assert_eq!(read(&mut engine, "Z", 0), vec![]);
    assert_eq!(read(&mut engine, "A", 3), vec![]);
    assert_eq!(read(&mut engine, "A", 2), vec![(b"z".to_vec(), 3)]);
}

#[test]
fn reserved_stream_interleaves_all_streams_in_write_order() {
    let mut engine = fresh_engine();
    append(&mut engine, "A", &["a1"]).unwrap();
    append(&mut engine, "B", &["b1"]).unwrap();
    append(&mut engine, "A", &["a2"]).unwrap();
    let all = read(&mut engine, "$all", 0);
    assert_eq!(
        all,
        vec![(b"a1".to_vec(), 1), (b"b1".to_vec(), 2), (b"a2".to_vec(), 3)]
    );
    assert_eq!(read(&mut engine, "A", 0), vec![(b"a1".to_vec(), 1), (b"a2".to_vec(), 3)]);
    assert_eq!(read(&mut engine, "B", 0), vec![(b"b1".to_vec(), 2)]);
}

#[test]
fn reserved_list_accounts_for_every_stream() {
    let mut engine = fresh_engine();
    append(&mut engine, "A", &["x", "y", "z"]).unwrap();
    append(&mut engine, "B", &["u", "v"]).unwrap();
    let a = engine.index.fetch_one(&b"A".to_vec()).len();
    let b = engine.index.fetch_one(&b"B".to_vec()).len();
    let all = engine.index.fetch_one(&b"$all".to_vec()).len();
    assert_eq!(all, a + b);
    assert_eq!(all, 5);
}

#[test]
fn every_index_entry_points_at_a_decodable_record() {
    let mut engine = fresh_engine();
    append(&mut engine, "A", &["x", "y"]).unwrap();
    append(&mut engine, "B", &["z"]).unwrap();
    let files = engine.chunk_files();
    let entries = engine.index.fetch_one(&b"$all".to_vec());
    assert_eq!(entries.len(), 3);
    for e in entries {
        let file = &files[(e.chunk_number - 1) as usize];
        let events = LogChunk::stream_events_out(e.offset, &file.bytes)
            .expect("every entry must point into decodable records");
        assert!(!events.is_empty());
    }
}

#[test]
fn index_add_and_fetch_keep_both_lists() {
    let mut index = Index::new();
    let el = IndexElement { chunk_number: 1, offset: 41 };
    index.add(&b"A".to_vec(), el);
    assert_eq!(index.fetch_one(&b"A".to_vec()), vec![el]);
    assert_eq!(index.fetch_one(&b"$all".to_vec()), vec![el]);
    assert_eq!(index.fetch_one(&b"missing".to_vec()), vec![]);
}

#[test]
fn payload_at_the_chunk_limit_exactly_fills_a_chunk() {
    // a one-byte stream name leaves 1_000_000 - 77 bytes for the payload
    let mut engine = fresh_engine();
    let limit = 1_000_000 - 77 - 1;
    let big = "d".repeat(limit);
    assert_eq!(append(&mut engine, "S", &[&big]).unwrap(), 2);
    let files = engine.chunk_files();
    assert_eq!(files.len(), 1);
    assert_eq!(files[0].bytes.len(), 1_000_000);
    // the next event no longer fits and rotates
    assert_eq!(append(&mut engine, "S", &["tiny"]).unwrap(), 3);
    assert_eq!(engine.chunk_files().len(), 2);
    let got = read(&mut engine, "S", 0);
    assert_eq!(got.len(), 2);
    assert_eq!(got[0].0.len(), limit);
    assert_eq!(got[1].0, b"tiny".to_vec());
}

#[test]
fn first_record_sits_right_after_the_header() {
    let mut engine = fresh_engine();
    append(&mut engine, "A", &["x"]).unwrap();
    let entries = engine.index.fetch_one(&b"A".to_vec());
    assert_eq!(entries.len(), 1);
    assert_eq!(entries[0].chunk_number, 1);
    assert_eq!(entries[0].offset, 41);
}

#[test]
fn reader_snapshot_is_a_value_copy() {
    let mut engine = fresh_engine();
    append(&mut engine, "A", &["x"]).unwrap();
    let reader = betterstore::reader::ReaderStream::new(b"A".to_vec(), &mut engine.index);
    assert_eq!(reader.index_entries.len(), 1);
    // an append after construction must not grow the snapshot
    append(&mut engine, "A", &["y"]).unwrap();
    assert_eq!(reader.index_entries.len(), 1);
}

#[test]
fn stream_events_out_of_header_only_chunk_is_empty() {
    let engine = fresh_engine();
    let files = engine.chunk_files();
    let events = LogChunk::stream_events_out(41, &files[0].bytes).unwrap();
    assert!(events.is_empty());
}
