//! SDNV encoding and decoding.

use bytes::BytesMut;
use hardy_ltp::sdnv::{decode, encode, encoded_len, CachedSdnv, SdnvError};

#[test]
fn encode_zero() {
    let mut buf = BytesMut::new();
    encode(0, &mut buf);
    assert_eq!(&buf[..], &[0x00]);
}

#[test]
fn encode_small_value() {
    // 127 fits in one byte (7 bits)
    let mut buf = BytesMut::new();
    encode(127, &mut buf);
    assert_eq!(&buf[..], &[0x7F]);
}

#[test]
fn encode_two_bytes() {
    // 128 = 0b10000000 needs 2 bytes: [0x81, 0x00]
    let mut buf = BytesMut::new();
    encode(128, &mut buf);
    assert_eq!(&buf[..], &[0x81, 0x00]);
}

#[test]
fn encode_larger_value() {
    // 0x4000 = 16384 = 0b100_0000_0000_0000
    // Needs 3 bytes: 7+7+1 bits
    let mut buf = BytesMut::new();
    encode(0x4000, &mut buf);
    assert_eq!(&buf[..], &[0x81, 0x80, 0x00]);
}

#[test]
fn encode_u64_max() {
    let mut buf = BytesMut::new();
    encode(u64::MAX, &mut buf);
    // u64::MAX needs 10 bytes
    assert_eq!(buf.len(), 10);
    // Last byte should not have continuation bit
    assert_eq!(buf[9] & 0x80, 0);
    // All other bytes should have continuation bit
    for i in 0..9 {
        assert_eq!(buf[i] & 0x80, 0x80);
    }
}

#[test]
fn decode_zero() {
    let mut buf = &[0x00u8][..];
    assert_eq!(decode(&mut buf).unwrap(), 0);
}

#[test]
fn decode_small_value() {
    let mut buf = &[0x7F][..];
    assert_eq!(decode(&mut buf).unwrap(), 127);
}

#[test]
fn decode_two_bytes() {
    let mut buf = &[0x81, 0x00][..];
    assert_eq!(decode(&mut buf).unwrap(), 128);
}

#[test]
fn decode_overflow() {
    // 11 bytes all with continuation bit set (except last)
    let data: Vec<u8> = vec![0x81; 11];
    let mut buf = &data[..];
    assert_eq!(decode(&mut buf).unwrap_err(), SdnvError::Overflow);
}

#[test]
fn decode_incomplete_empty() {
    let mut buf = &[][..];
    assert_eq!(decode(&mut buf).unwrap_err(), SdnvError::Incomplete);
}

#[test]
fn decode_incomplete_truncated() {
    // Continuation bit set but no more bytes
    let mut buf = &[0x81][..];
    assert_eq!(decode(&mut buf).unwrap_err(), SdnvError::Incomplete);
}

#[test]
fn round_trip_various_values() {
    let values = [
        0,
        1,
        127,
        128,
        255,
        256,
        16383,
        16384,
        u64::MAX / 2,
        u64::MAX,
    ];
    for &v in &values {
        let mut buf = BytesMut::new();
        encode(v, &mut buf);
        let mut reader = &buf[..];
        let decoded = decode(&mut reader).unwrap();
        assert_eq!(v, decoded, "round-trip failed for {v}");
    }
}

#[test]
fn encoded_len_values() {
    assert_eq!(encoded_len(0), 1);
    assert_eq!(encoded_len(1), 1);
    assert_eq!(encoded_len(127), 1);
    assert_eq!(encoded_len(128), 2);
    assert_eq!(encoded_len(16383), 2);
    assert_eq!(encoded_len(16384), 3);
    assert_eq!(encoded_len(u64::MAX), 10);
}

#[test]
fn cached_sdnv_matches_encode() {
    let values = [0, 1, 42, 127, 128, 1000, u64::MAX];
    for &v in &values {
        let cached = CachedSdnv::new(v);
        let mut buf = BytesMut::new();
        encode(v, &mut buf);
        assert_eq!(cached.as_bytes(), &buf[..], "CachedSdnv mismatch for {v}");
    }
}

#[test]
fn cached_sdnv_put() {
    let cached = CachedSdnv::new(128);
    let mut buf = BytesMut::new();
    cached.put(&mut buf);
    assert_eq!(&buf[..], &[0x81, 0x00]);
}
