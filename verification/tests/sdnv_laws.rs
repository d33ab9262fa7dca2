//! What holds of SDNVs, on concrete values.

use bytes::BytesMut;
use hardy_ltp::sdnv::{decode, encode, encoded_len, CachedSdnv, SdnvError};

const SAMPLES: [u64; 14] = [
    0,
    1,
    127,
    128,
    129,
    16_383,
    16_384,
    2_097_151,
    2_097_152,
    1 << 35,
    (1 << 49) - 1,
    1 << 56,
    (1 << 63) - 1,
    u64::MAX,
];

fn encoded(value: u64) -> Vec<u8> {
    let mut buf = BytesMut::new();
    encode(value, &mut buf);
    buf.to_vec()
}

#[test]
fn round_trip_leaves_what_follows() {
    for value in SAMPLES {
        let mut bytes = encoded(value);
        bytes.extend_from_slice(&[0xDE, 0xAD]);
        let mut reader = &bytes[..];
        assert_eq!(decode(&mut reader), Ok(value));
        assert_eq!(reader, &[0xDE, 0xAD]);
    }
}

#[test]
fn length_is_that_of_the_encoding() {
    for value in SAMPLES {
        assert_eq!(encoded_len(value), encoded(value).len());
    }
    assert_eq!(encoded_len(u64::MAX), 10);
    assert_eq!(encoded_len(1 << 56), 9);
    assert_eq!(encoded_len((1 << 56) - 1), 8);
}

#[test]
fn only_the_last_byte_ends_a_number() {
    for value in SAMPLES {
        let bytes = encoded(value);
        for (i, byte) in bytes.iter().enumerate() {
            assert_eq!(*byte < 0x80, i == bytes.len() - 1);
        }
    }
}

#[test]
fn encode_appends() {
    let mut buf = BytesMut::new();
    buf.extend_from_slice(&[0xAA]);
    encode(300, &mut buf);
    assert_eq!(&buf[..], &[0xAA, 0x82, 0x2C]);
}

#[test]
fn number_cut_short_is_incomplete() {
    for value in SAMPLES {
        let bytes = encoded(value);
        for n in 0..bytes.len() {
            let mut reader = &bytes[..n];
            assert_eq!(decode(&mut reader), Err(SdnvError::Incomplete));
            assert!(reader.is_empty());
        }
    }
}

#[test]
fn eleventh_byte_overflows_and_is_consumed() {
    let bytes = [0x81u8; 12];
    let mut reader = &bytes[..];
    assert_eq!(decode(&mut reader), Err(SdnvError::Overflow));
    assert_eq!(reader.len(), 1);
}

#[test]
fn ten_continued_bytes_are_incomplete() {
    let bytes = [0x81u8; 10];
    let mut reader = &bytes[..];
    assert_eq!(decode(&mut reader), Err(SdnvError::Incomplete));
}

#[test]
fn ten_bytes_are_read_modulo_two_to_the_64() {
    // 2^64 + 5: the top bit lies above the 64 bits of the result.
    let bytes = [0x82, 0x80, 0x80, 0x80, 0x80, 0x80, 0x80, 0x80, 0x80, 0x05];
    let mut reader = &bytes[..];
    assert_eq!(decode(&mut reader), Ok(5));
}

#[test]
fn leading_zero_groups_are_accepted() {
    let mut reader = &[0x80u8, 0x80, 0x07][..];
    assert_eq!(decode(&mut reader), Ok(7));
}

#[test]
fn no_encoding_starts_another() {
    for a in SAMPLES {
        for b in SAMPLES {
            assert_eq!(encoded(b).starts_with(&encoded(a)), a == b);
        }
    }
}

#[test]
fn cached_number_equals_its_encoding() {
    for value in SAMPLES {
        let cached = CachedSdnv::new(value);
        assert_eq!(cached.as_bytes(), &encoded(value)[..]);
        assert_eq!(cached.clone().as_bytes(), cached.as_bytes());
        let mut buf = BytesMut::new();
        buf.extend_from_slice(&[0x01]);
        cached.put(&mut buf);
        assert_eq!(&buf[1..], cached.as_bytes());
    }
}

#[test]
fn sdnv_error_messages() {
    assert_eq!(
        SdnvError::Overflow.to_string(),
        "SDNV exceeds 10 bytes (64-bit overflow)"
    );
    assert_eq!(
        SdnvError::Incomplete.to_string(),
        "SDNV truncated (continuation bit set on final byte)"
    );
}
