//! The binary event encoding: exact layout and round trips.
use betterstore::chunk::ChunkHeader;
use betterstore::codec::{decode_event, encode_event, Event};

#[test]
fn encode_layout_is_little_endian_with_u64_prefixes() {
    let e = Event { id: 7, timestamp: 5, name: vec![65], payload: vec![120, 121] };
    let enc = encode_event(&e);
    let mut expected: Vec<u8> = Vec::new();
    expected.extend_from_slice(&7u64.to_le_bytes());
    expected.extend_from_slice(&5i64.to_le_bytes());
    expected.extend_from_slice(&1u64.to_le_bytes());
    expected.push(65);
    expected.extend_from_slice(&2u64.to_le_bytes());
    expected.push(120);
    expected.push(121);
    assert_eq!(enc, expected);
}

#[test]
fn encode_then_decode_round_trips() {
    let e = Event {
        id: 123456789,
        timestamp: -42,
        name: b"accounts".to_vec(),
        payload: b"opened".to_vec(),
    };
    let enc = encode_event(&e);
    let d = decode_event(&enc, 0, enc.len()).expect("round trip must decode");
    assert_eq!(d.id, 123456789);
    assert_eq!(d.timestamp, -42);
    assert_eq!(d.name, b"accounts".to_vec());
    assert_eq!(d.payload, b"opened".to_vec());
    // and the re-encoding is byte-equal
    assert_eq!(encode_event(&d), enc);
}

#[test]
fn decode_rejects_truncated_input() {
    let e = Event { id: 1, timestamp: 0, name: vec![65], payload: vec![66] };
    let enc = encode_event(&e);
    assert!(decode_event(&enc, 0, enc.len() - 1).is_none());
    assert!(decode_event(&enc, 0, 10).is_none());
}

#[test]
fn header_size_is_fixed() {
    assert_eq!(ChunkHeader::size_of(), 41);
}
