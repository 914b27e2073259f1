use secret_storage_plus::address::{build_address, build_scan_prefix, decode_key, decode_key2, split_address};
use secret_storage_plus::endian::{be_to_uint, len16_bytes, uint_to_be};
use secret_storage_plus::{KeySegment, PrimaryKey, StorageError};

fn round_trip<K: KeySegment + PartialEq + std::fmt::Debug>(x: K) {
    let bytes = x.to_segment();
    assert_eq!(K::from_segment(&bytes).unwrap(), x);
}

#[test]
fn unsigned_segments_are_big_endian() {
    assert_eq!(8u8.to_segment(), vec![8]);
    assert_eq!(0x0102u16.to_segment(), vec![1, 2]);
    assert_eq!(0x01020304u32.to_segment(), vec![1, 2, 3, 4]);
    assert_eq!(1u64.to_segment(), vec![0, 0, 0, 0, 0, 0, 0, 1]);
    let mut expected = vec![0u8; 15];
    expected.push(0xff);
    assert_eq!(255u128.to_segment(), expected);
}

#[test]
fn signed_segments_flip_the_sign_bit() {
    assert_eq!(0i8.to_segment(), vec![0x80]);
    assert_eq!((-1i8).to_segment(), vec![0x7f]);
    assert_eq!(i8::MIN.to_segment(), vec![0x00]);
    assert_eq!(i8::MAX.to_segment(), vec![0xff]);
    assert_eq!((-2i16).to_segment(), vec![0x7f, 0xfe]);
    assert_eq!(1i32.to_segment(), vec![0x80, 0, 0, 1]);
    assert_eq!((-1i64).to_segment(), vec![0x7f, 0xff, 0xff, 0xff, 0xff, 0xff, 0xff, 0xff]);
    let mut expected = vec![0x80u8];
    expected.extend(vec![0u8; 15]);
    assert_eq!(0i128.to_segment(), expected);
    let mut min = vec![0u8; 16];
    min[0] = 0;
    assert_eq!(i128::MIN.to_segment(), min);
}

#[test]
fn signed_byte_order_follows_numeric_order() {
    let values = [i64::MIN, -1000, -1, 0, 1, 1000, i64::MAX];
    for w in values.windows(2) {
        assert!(w[0].to_segment() < w[1].to_segment());
    }
    let values = [i128::MIN, -1, 0, 1, i128::MAX];
    for w in values.windows(2) {
        assert!(w[0].to_segment() < w[1].to_segment());
    }
}

#[test]
fn every_segment_type_round_trips() {
    for v in [0u8, 1, 200, u8::MAX] {
        round_trip(v);
    }
    for v in [0u16, 1, 0x1234, u16::MAX] {
        round_trip(v);
    }
    for v in [0u32, 7, 0xdead_beef, u32::MAX] {
        round_trip(v);
    }
    for v in [0u64, 42, u64::MAX] {
        round_trip(v);
    }
    for v in [0u128, 42, u128::MAX] {
        round_trip(v);
    }
    for v in [i8::MIN, -1, 0, 1, i8::MAX] {
        round_trip(v);
    }
    for v in [i16::MIN, -300, 0, 300, i16::MAX] {
        round_trip(v);
    }
    for v in [i32::MIN, -1, 0, 1, i32::MAX] {
        round_trip(v);
    }
    for v in [i64::MIN, -1, 0, 1, i64::MAX] {
        round_trip(v);
    }
    for v in [i128::MIN, -1, 0, 1, i128::MAX] {
        round_trip(v);
    }
    round_trip("pedro".to_string());
    round_trip("héllo ✓".to_string());
    round_trip(String::new());
    round_trip(b"john".to_vec());
    round_trip(Vec::<u8>::new());
}

#[test]
fn wrong_width_is_a_length_mismatch() {
    assert_eq!(
        u32::from_segment(&[1, 2, 3]),
        Err(StorageError::SegmentLengthMismatch { expected: 4, actual: 3 })
    );
    assert_eq!(
        i64::from_segment(&[0; 9]),
        Err(StorageError::SegmentLengthMismatch { expected: 8, actual: 9 })
    );
    assert_eq!(
        u8::from_segment(&[]),
        Err(StorageError::SegmentLengthMismatch { expected: 1, actual: 0 })
    );
}

#[test]
fn invalid_utf8_is_reported() {
    assert_eq!(String::from_segment(&[0xff, 0xfe]), Err(StorageError::InvalidUtf8));
    assert_eq!(String::from_segment(&[0xc3]), Err(StorageError::InvalidUtf8));
    assert_eq!(String::from_segment("é".as_bytes()), Ok("é".to_string()));
}

#[test]
fn string_segment_is_its_utf8_bytes() {
    assert_eq!("é".to_string().to_segment(), vec![0xc3, 0xa9]);
}

#[test]
fn big_endian_helpers() {
    assert_eq!(uint_to_be(0x0102, 3), vec![0, 1, 2]);
    assert_eq!(uint_to_be(0x1ff, 1), vec![0xff]);
    assert_eq!(be_to_uint(&[1, 0]), 256);
    assert_eq!(be_to_uint(&[]), 0);
    assert_eq!(len16_bytes(5), vec![0, 5]);
    assert_eq!(len16_bytes(0xffff), vec![0xff, 0xff]);
}

#[test]
fn key_segments_of_tuples() {
    assert_eq!(b"john".to_vec().key(), vec![b"john".to_vec()]);
    assert_eq!(
        (b"a".to_vec(), 8u8).key(),
        vec![b"a".to_vec(), vec![8u8]]
    );
    assert_eq!(
        (b"a".to_vec(), 8u8, "x".to_string()).key(),
        vec![b"a".to_vec(), vec![8u8], b"x".to_vec()]
    );
}

#[test]
fn address_construction() {
    assert_eq!(build_address(b"people", &vec![b"john".to_vec()]), b"peoplejohn".to_vec());
    assert_eq!(build_address(b"people", &vec![]), b"people".to_vec());
    assert_eq!(build_address(b"people", &vec![vec![]]), b"people".to_vec());
    let mut expected = vec![0u8, 5];
    expected.extend_from_slice(b"allow");
    expected.extend_from_slice(&[0, 5]);
    expected.extend_from_slice(b"owner");
    expected.extend_from_slice(b"spender");
    assert_eq!(
        build_address(b"allow", &vec![b"owner".to_vec(), b"spender".to_vec()]),
        expected
    );
    let mut prefix = vec![0u8, 5];
    prefix.extend_from_slice(b"allow");
    prefix.extend_from_slice(&[0, 5]);
    prefix.extend_from_slice(b"owner");
    assert_eq!(build_scan_prefix(b"allow", &vec![b"owner".to_vec()]), prefix);
    assert_eq!(build_scan_prefix(b"allow", &vec![]), {
        let mut p = vec![0u8, 5];
        p.extend_from_slice(b"allow");
        p
    });
}

#[test]
fn addresses_split_back_into_segments() {
    let segs = vec![b"owner".to_vec(), b"spender".to_vec()];
    let addr = build_address(b"allow", &segs);
    assert_eq!(split_address(b"allow", &addr, 2), Ok(segs));
    let segs3 = vec![b"john".to_vec(), vec![8u8], b"pedro".to_vec()];
    let addr3 = build_address(b"triple", &segs3);
    assert_eq!(split_address(b"triple", &addr3, 3), Ok(segs3));
    assert_eq!(split_address(b"people", b"peoplejohn", 1), Ok(vec![b"john".to_vec()]));
}

#[test]
fn malformed_addresses_do_not_split() {
    let addr = build_address(b"allow", &vec![b"owner".to_vec(), b"spender".to_vec()]);
    assert_eq!(split_address(b"other", &addr, 2), Err(StorageError::Decode));
    assert_eq!(split_address(b"allow", &addr[..8], 2), Err(StorageError::Decode));
    assert_eq!(split_address(b"people", b"peop", 1), Err(StorageError::Decode));
    assert_eq!(split_address(b"people", b"personjohn", 1), Err(StorageError::Decode));
    assert_eq!(split_address(b"allow", &[0, 5, b'a', b'l', b'l', b'o', b'w', 0, 9, 1], 2), Err(StorageError::Decode));
}

#[test]
fn keys_decode_from_addresses() {
    let addr = build_address(b"allow", &vec![b"owner".to_vec(), 7u32.to_segment()]);
    assert_eq!(decode_key2::<String, u32>(b"allow", &addr), Ok(("owner".to_string(), 7)));
    assert_eq!(
        decode_key2::<String, u64>(b"allow", &addr),
        Err(StorageError::SegmentLengthMismatch { expected: 8, actual: 4 })
    );
    assert_eq!(decode_key2::<String, u32>(b"other", &addr), Err(StorageError::Decode));
    let bad_utf8 = build_address(b"allow", &vec![vec![0xff], 7u32.to_segment()]);
    assert_eq!(decode_key2::<String, u32>(b"allow", &bad_utf8), Err(StorageError::InvalidUtf8));
    assert_eq!(decode_key::<i16>(b"n", b"n\x7f\xfe"), Ok(-2));
    assert_eq!(decode_key::<String>(b"people", b"peoplejohn"), Ok("john".to_string()));
    assert_eq!(decode_key::<String>(b"people", b"pe"), Err(StorageError::Decode));
}
