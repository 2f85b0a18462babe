use lanadb::codec::{encode_delete, encode_set};
use lanadb::wal_iterator::WALRecordIterator;

// The on-disk layout of a live write, byte for byte: key_len (8, LE),
// tombstone 0, value_len (8, LE), key, value, timestamp (16, LE).
#[test]
fn test_set_record_layout() {
    let bytes = encode_set(b"A", b"BB", 3);
    let mut expected: Vec<u8> = Vec::new();
    expected.extend_from_slice(&[1, 0, 0, 0, 0, 0, 0, 0]); // key_len = 1
    expected.push(0); // tombstone = 0
    expected.extend_from_slice(&[2, 0, 0, 0, 0, 0, 0, 0]); // value_len = 2
    expected.extend_from_slice(b"A");
    expected.extend_from_slice(b"BB");
    expected.extend_from_slice(&[3, 0, 0, 0, 0, 0, 0, 0, 0, 0, 0, 0, 0, 0, 0, 0]); // timestamp = 3
    assert_eq!(bytes, expected);
}

// The on-disk layout of a tombstone: key_len (8, LE), tombstone 1, key,
// timestamp (16, LE) — no value-length field, no value.
#[test]
fn test_delete_record_layout() {
    let bytes = encode_delete(b"A", 259);
    let mut expected: Vec<u8> = Vec::new();
    expected.extend_from_slice(&[1, 0, 0, 0, 0, 0, 0, 0]); // key_len = 1
    expected.push(1); // tombstone = 1
    expected.extend_from_slice(b"A");
    expected.extend_from_slice(&[3, 1, 0, 0, 0, 0, 0, 0, 0, 0, 0, 0, 0, 0, 0, 0]); // timestamp = 259
    assert_eq!(bytes, expected);
}

// Decoding gives back exactly what was encoded.
#[test]
fn test_decode_round_trip() {
    let mut bytes = encode_set(b"Car", b"Garage", 77);
    bytes.extend_from_slice(&encode_delete(b"Car", 78));

    let mut it = WALRecordIterator::new(bytes);
    let first = it.next().unwrap();
    assert_eq!(first.key, b"Car");
    assert_eq!(first.value.as_ref().unwrap(), b"Garage");
    assert_eq!(first.timestamp, 77);
    assert_eq!(first.deleted, false);
    let second = it.next().unwrap();
    assert_eq!(second.key, b"Car");
    assert_eq!(second.value, None);
    assert_eq!(second.timestamp, 78);
    assert_eq!(second.deleted, true);
    assert!(it.next().is_none());
}

// An empty log and every kind of short read end decoding with None.
#[test]
fn test_decode_short_reads() {
    assert!(WALRecordIterator::new(Vec::new()).next().is_none());

    let full = encode_set(b"Key", b"Value", 5);
    for cut in 0..full.len() {
        let mut it = WALRecordIterator::new(full[..cut].to_vec());
        assert!(it.next().is_none());
    }

    let full = encode_delete(b"Key", 5);
    for cut in 0..full.len() {
        let mut it = WALRecordIterator::new(full[..cut].to_vec());
        assert!(it.next().is_none());
    }
}

// A key-length field that promises more bytes than the log holds is a short
// read, not a panic.
#[test]
fn test_decode_overlong_length_field() {
    let mut bytes: Vec<u8> = Vec::new();
    bytes.extend_from_slice(&[255, 255, 255, 255, 255, 255, 255, 255]); // huge key_len
    bytes.push(1);
    bytes.extend_from_slice(b"x");
    let mut it = WALRecordIterator::new(bytes);
    assert!(it.next().is_none());
}

// Any nonzero tombstone byte reads as a delete.
#[test]
fn test_decode_nonzero_tombstone() {
    let mut bytes: Vec<u8> = Vec::new();
    bytes.extend_from_slice(&[1, 0, 0, 0, 0, 0, 0, 0]);
    bytes.push(9); // tombstone byte, nonzero but not 1
    bytes.extend_from_slice(b"K");
    bytes.extend_from_slice(&[0; 16]);
    let mut it = WALRecordIterator::new(bytes);
    let rec = it.next().unwrap();
    assert_eq!(rec.key, b"K");
    assert_eq!(rec.deleted, true);
    assert_eq!(rec.value, None);
}
