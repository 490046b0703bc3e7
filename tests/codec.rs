use cask::data::CodecError;
use cask::hint::decode_hint_file;
use cask::log::Log;
use cask::names::{get_data_file_path, get_hint_file_path, parse_data_file_name};
use cask::{read_value, Entry, Hint};

fn le32(b: &[u8]) -> u32 {
    u32::from_le_bytes([b[0], b[1], b[2], b[3]])
}

#[test]
fn entry_round_trip() {
    let e = Entry::new(b"key".to_vec(), b"value".to_vec(), 7);
    let bytes = e.to_bytes();
    assert_eq!(bytes.len() as u64, e.size());
    assert_eq!(e.size(), 16 + 3 + 5);
    let (d, n) = Entry::from_bytes(&bytes, 0).unwrap();
    assert_eq!(n, 24);
    assert_eq!(d.key, b"key".to_vec());
    assert_eq!(d.value, Some(b"value".to_vec()));
    assert_eq!(d.timestamp, 7);
}

#[test]
fn tombstone_round_trip() {
    let e = Entry::deleted(b"gone".to_vec(), 99);
    let bytes = e.to_bytes();
    assert_eq!(bytes.len(), 20);
    assert_eq!(le32(&bytes[12..16]), u32::MAX);
    let (d, n) = Entry::from_bytes(&bytes, 0).unwrap();
    assert_eq!(n, 20);
    assert!(d.is_deleted());
    assert_eq!(d.key, b"gone".to_vec());
    assert_eq!(d.timestamp, 99);
}

#[test]
fn entry_layout_and_checksum() {
    let e = Entry::new(vec![1, 2], vec![3], 0x01020304);
    let bytes = e.to_bytes();
    assert_eq!(&bytes[4..8], &[4, 3, 2, 1]);
    assert_eq!(le32(&bytes[8..12]), 2);
    assert_eq!(le32(&bytes[12..16]), 1);
    assert_eq!(&bytes[16..], &[1, 2, 3]);
    assert_eq!(le32(&bytes[0..4]), twox_hash::XxHash32::oneshot(0, &bytes[4..]));
    assert_ne!(le32(&bytes[0..4]), 0);
}

#[test]
fn empty_key_and_value() {
    let e = Entry::new(vec![], vec![], 0);
    let bytes = e.to_bytes();
    assert_eq!(bytes.len(), 16);
    let (d, n) = Entry::from_bytes(&bytes, 0).unwrap();
    assert_eq!(n, 16);
    assert_eq!(d.value, Some(vec![]));
}

#[test]
fn decode_at_offset_with_trailing_bytes() {
    let mut buf = vec![9, 9, 9];
    buf.extend(Entry::new(b"k".to_vec(), b"v".to_vec(), 1).to_bytes());
    buf.extend(vec![0, 0]);
    let (d, n) = Entry::from_bytes(&buf, 3).unwrap();
    assert_eq!(n, 18);
    assert_eq!(d.key, b"k".to_vec());
}

#[test]
fn corrupt_entry_is_detected() {
    let mut bytes = Entry::new(b"key".to_vec(), b"value".to_vec(), 7).to_bytes();
    bytes[20] ^= 0xff;
    assert_eq!(Entry::from_bytes(&bytes, 0).unwrap_err(), CodecError::Corrupt);
}

#[test]
fn truncated_entry_is_detected() {
    let bytes = Entry::new(b"key".to_vec(), b"value".to_vec(), 7).to_bytes();
    assert_eq!(Entry::from_bytes(&bytes[..10], 0).unwrap_err(), CodecError::Truncated);
    assert_eq!(Entry::from_bytes(&bytes[..23], 0).unwrap_err(), CodecError::Truncated);
    assert_eq!(Entry::from_bytes(&bytes, 24).unwrap_err(), CodecError::Truncated);
}

#[test]
fn hint_round_trip() {
    let e = Entry::new(b"abc".to_vec(), b"12345".to_vec(), 11);
    let h = Hint::from_entry(&e, 0x1_0000_0002);
    let bytes = h.to_bytes();
    assert_eq!(bytes.len(), 23);
    assert_eq!(&bytes[12..20], &[2, 0, 0, 0, 1, 0, 0, 0]);
    let (d, n) = Hint::from_bytes(&bytes, 0).unwrap();
    assert_eq!(n, 23);
    assert_eq!(d.key, b"abc".to_vec());
    assert_eq!(d.value_size, 5);
    assert_eq!(d.entry_pos, 0x1_0000_0002);
    assert_eq!(d.timestamp, 11);
    assert!(!d.is_deleted());
    assert!(Hint::from_bytes(&bytes[..22], 0).is_none());
}

fn hint_file_of(hints: &[Hint]) -> Vec<u8> {
    let mut payload = Vec::new();
    for h in hints {
        payload.extend(h.to_bytes());
    }
    let sum = twox_hash::XxHash32::oneshot(0, &payload);
    payload.extend(sum.to_le_bytes());
    payload
}

#[test]
fn hint_file_reads_back() {
    let a = Hint::from_entry(&Entry::new(b"a".to_vec(), b"1".to_vec(), 1), 0);
    let b = Hint::from_entry(&Entry::deleted(b"b".to_vec(), 2), 18);
    let f = hint_file_of(&[a, b]);
    let hs = decode_hint_file(&f).unwrap();
    assert_eq!(hs.len(), 2);
    assert_eq!(hs[0].key, b"a".to_vec());
    assert_eq!(hs[1].entry_pos, 18);
    assert!(hs[1].is_deleted());
}

#[test]
fn hint_file_flipped_byte_is_absent() {
    let a = Hint::from_entry(&Entry::new(b"a".to_vec(), b"1".to_vec(), 1), 0);
    let f = hint_file_of(&[a]);
    for i in 0..f.len() {
        let mut g = f.clone();
        g[i] ^= 0x01;
        assert!(decode_hint_file(&g).is_none(), "byte {}", i);
    }
}

#[test]
fn short_hint_file_is_absent() {
    assert!(decode_hint_file(&[]).is_none());
    assert!(decode_hint_file(&[1, 2, 3]).is_none());
    let empty = hint_file_of(&[]);
    assert_eq!(empty.len(), 4);
    assert_eq!(decode_hint_file(&empty).unwrap().len(), 0);
}

#[test]
fn empty_hint_checksum_value() {
    let log = Log::open(&vec![], 100, false).unwrap();
    assert_eq!(log.seal(), 0x02cc_5d05u32.to_le_bytes().to_vec());
}

#[test]
fn read_value_checks_key() {
    let data = Entry::new(b"k".to_vec(), b"v".to_vec(), 1).to_bytes();
    assert_eq!(read_value(b"k", &data, 0).unwrap(), b"v".to_vec());
    assert_eq!(read_value(b"x", &data, 0).unwrap_err(), CodecError::Corrupt);
    assert_eq!(read_value(b"k", &data, 100).unwrap_err(), CodecError::Truncated);
    let del = Entry::deleted(b"k".to_vec(), 1).to_bytes();
    assert_eq!(read_value(b"k", &del, 0).unwrap_err(), CodecError::Corrupt);
}

#[test]
fn file_paths() {
    assert_eq!(get_data_file_path("db", 42), "db/42.cask.data");
    assert_eq!(get_hint_file_path("/tmp/x", 1700000000), "/tmp/x/1700000000.cask.hint");
    assert_eq!(get_data_file_path("d", 0), "d/0.cask.data");
}

#[test]
fn data_file_names() {
    assert_eq!(parse_data_file_name(b"1234.cask.data"), Some(1234));
    assert_eq!(parse_data_file_name(b"4294967295.cask.data"), Some(u32::MAX));
    assert_eq!(parse_data_file_name(b"4294967296.cask.data"), None);
    assert_eq!(parse_data_file_name(b"12.cask.hint"), None);
    assert_eq!(parse_data_file_name(b".cask.data"), None);
    assert_eq!(parse_data_file_name(b"1a.cask.data"), None);
    assert_eq!(parse_data_file_name(b"cask.lock"), None);
}
