use std::collections::{HashMap, HashSet};

use naumi::codec::{CodecError, Convert};
use naumi::hashes::{hash_map_from_bytes, hash_map_to_bytes, hash_set_from_bytes, hash_set_to_bytes};
use naumi::iters::{LongVec, MediumVec, ShortVec, TinyVec};
use naumi::strings::{LongString, MediumString, ShortString, TinyString};

fn round_trip<T: Convert + PartialEq + std::fmt::Debug>(x: T) {
    let mut buf = x.to_bytes_return();
    let y = T::from_bytes(&mut buf).expect("decode failed");
    assert_eq!(y, x);
    assert!(buf.is_empty());
}

#[test]
fn option_round_trips() {
    round_trip(None::<u32>);
    round_trip(Some(0xDEAD_BEEFu32));
    round_trip(Some(TinyString(String::from("opt"))));
}

#[test]
fn option_layout() {
    // Absent: one zero byte, no payload. Present: payload, then a one byte.
    assert_eq!(None::<u8>.to_bytes_return(), vec![0]);
    assert_eq!(Some(5u8).to_bytes_return(), vec![5, 1]);
    let mut bad = vec![7u8, 2u8];
    assert_eq!(Option::<u8>::from_bytes(&mut bad), Err(CodecError::InvalidData));
}

#[test]
fn record_round_trip_preserves_fields_and_order() {
    let record: (u32, u8) = (0x0102_0304, 9);
    let bytes = record.to_bytes_return();
    // The second field's bytes go in first, so the first field sits at the
    // tail and is decoded first.
    assert_eq!(bytes, vec![9, 0x04, 0x03, 0x02, 0x01]);
    let mut buf = bytes;
    let decoded = <(u32, u8)>::from_bytes(&mut buf).unwrap();
    assert_eq!(decoded, record);
    assert!(buf.is_empty());
}

#[test]
fn tuple_round_trips_all_arities() {
    round_trip((1u8,));
    round_trip((1u8, 2u16));
    round_trip((1u8, 2u16, 3u32));
    round_trip((1u8, 2u16, 3u32, 4u64));
    round_trip((1u8, 2u16, 3u32, 4u64, true));
    round_trip((1u8, 2u16, 3u32, 4u64, true, -6i32));
}

#[test]
fn vec_round_trips_lengths() {
    round_trip(Vec::<u8>::new());
    round_trip(vec![42u8]);
    let long: Vec<u8> = (0..300u32).map(|i| (i % 256) as u8).collect();
    round_trip(long);
}

#[test]
fn vec_of_records_round_trips() {
    round_trip(vec![(1u32, 2u8), (3u32, 4u8)]);
    round_trip(vec![Some(7u16), None, Some(8u16)]);
}

#[test]
fn size_classed_vec_round_trips() {
    round_trip(TinyVec(vec![1u8, 2, 3]));
    round_trip(ShortVec(vec![1u16, 2, 3]));
    round_trip(MediumVec(vec![1u32, 2, 3]));
    round_trip(LongVec(vec![1u64, 2, 3]));
    round_trip(TinyVec(Vec::<u8>::new()));
    round_trip(ShortVec(Vec::<u8>::new()));
    round_trip(MediumVec(Vec::<u8>::new()));
    round_trip(LongVec(Vec::<u8>::new()));
}

#[test]
fn tiny_vec_truncates_at_cap() {
    let elems: Vec<u8> = (0..300u32).map(|i| (i % 256) as u8).collect();
    let v = TinyVec(elems.clone());
    let bytes = v.to_bytes_return();
    // 255 single-byte elements plus the one-byte count, recorded as 255.
    assert_eq!(bytes.len(), 256);
    assert_eq!(*bytes.last().unwrap(), 255);
    let mut buf = bytes;
    let decoded = TinyVec::<u8>::from_bytes(&mut buf).unwrap();
    assert_eq!(decoded.0, elems[..255].to_vec());
    assert!(buf.is_empty());
}

#[test]
fn vec_eof_on_missing_elements() {
    // A count of three with only one element's bytes beneath it.
    let mut buf = vec![0xAAu8, 0x03];
    assert_eq!(Vec::<u16>::from_bytes(&mut buf), Err(CodecError::UnexpectedEof));
}

#[test]
fn string_round_trips() {
    round_trip(String::new());
    round_trip(String::from("hello"));
    round_trip(String::from("héllo, wörld — ❄"));
    round_trip(TinyString(String::from("tiny")));
    round_trip(ShortString(String::from("short")));
    round_trip(MediumString(String::from("medium")));
    round_trip(LongString(String::from("long")));
    round_trip(TinyString(String::new()));
}

#[test]
fn tiny_string_truncates_at_cap() {
    let text: String = std::iter::repeat('a').take(300).collect();
    let s = TinyString(text);
    let bytes = s.to_bytes_return();
    assert_eq!(bytes.len(), 256);
    assert_eq!(*bytes.last().unwrap(), 255);
    let mut buf = bytes;
    let decoded = TinyString::from_bytes(&mut buf).unwrap();
    assert_eq!(decoded.0, std::iter::repeat('a').take(255).collect::<String>());
}

#[test]
fn string_invalid_utf8_is_replaced_not_rejected() {
    // One payload byte 0xFF under a one-byte tiny count: not valid UTF-8.
    let mut buf = vec![0xFFu8, 1u8];
    let decoded = TinyString::from_bytes(&mut buf).unwrap();
    assert_eq!(decoded.0, String::from("\u{FFFD}"));
    assert!(buf.is_empty());
}

#[test]
fn string_eof_on_missing_payload() {
    // A tiny count of five with only two payload bytes beneath it.
    let mut buf = vec![b'h', b'i', 5u8];
    assert_eq!(TinyString::from_bytes(&mut buf), Err(CodecError::UnexpectedEof));
}

#[test]
fn hash_set_round_trips() {
    let mut s: HashSet<u32> = HashSet::new();
    s.insert(1);
    s.insert(500);
    s.insert(0xFFFF_FFFF);
    let mut buf: Vec<u8> = Vec::new();
    hash_set_to_bytes(&s, &mut buf);
    let decoded: HashSet<u32> = hash_set_from_bytes(&mut buf).unwrap();
    assert_eq!(decoded, s);
    assert!(buf.is_empty());

    let empty: HashSet<u64> = HashSet::new();
    let mut buf2: Vec<u8> = Vec::new();
    hash_set_to_bytes(&empty, &mut buf2);
    let decoded2: HashSet<u64> = hash_set_from_bytes(&mut buf2).unwrap();
    assert_eq!(decoded2, empty);
}

#[test]
fn hash_map_round_trips() {
    let mut m: HashMap<u32, u16> = HashMap::new();
    m.insert(1, 10);
    m.insert(2, 20);
    m.insert(300, 3000);
    let mut buf: Vec<u8> = Vec::new();
    hash_map_to_bytes(&m, &mut buf);
    let decoded: HashMap<u32, u16> = hash_map_from_bytes(&mut buf).unwrap();
    assert_eq!(decoded, m);
    assert!(buf.is_empty());

    let empty: HashMap<u8, u8> = HashMap::new();
    let mut buf2: Vec<u8> = Vec::new();
    hash_map_to_bytes(&empty, &mut buf2);
    let decoded2: HashMap<u8, u8> = hash_map_from_bytes(&mut buf2).unwrap();
    assert_eq!(decoded2, empty);
}

#[test]
fn nested_composites_round_trip() {
    round_trip(vec![vec![1u8, 2], vec![], vec![3]]);
    round_trip(Some(vec![(1u16, false), (2u16, true)]));
    round_trip(TinyVec(vec![TinyString(String::from("a")), TinyString(String::from("bc"))]));
}
