use centripetal::{
    decode_value, encode_value, round_trip, MemSink, MemSource, Persist, PersistError,
    PersistReader, PersistWriter,
};

fn assert_round_trip_u128(x: u128) {
    let got: u128 = round_trip(&x).unwrap();
    assert_eq!(got, x);
}

#[test]
fn round_trip_unsigned_boundaries() {
    for &x in &[0u8, 1, u8::MAX] {
        assert_eq!(round_trip(&x).unwrap(), x);
    }
    for &x in &[0u16, 1, 0x1234, u16::MAX] {
        assert_eq!(round_trip(&x).unwrap(), x);
    }
    for &x in &[0u32, 1, 0xdead_beef, u32::MAX] {
        assert_eq!(round_trip(&x).unwrap(), x);
    }
    for &x in &[0u64, 1, 0x0123_4567_89ab_cdef, u64::MAX] {
        assert_eq!(round_trip(&x).unwrap(), x);
    }
    assert_round_trip_u128(0);
    assert_round_trip_u128(1);
    assert_round_trip_u128(u128::MAX);
}

#[test]
fn round_trip_signed_boundaries() {
    for &x in &[i8::MIN, -1, 0, 1, i8::MAX] {
        assert_eq!(round_trip(&x).unwrap(), x);
    }
    for &x in &[i16::MIN, -1, 0, i16::MAX] {
        assert_eq!(round_trip(&x).unwrap(), x);
    }
    for &x in &[i32::MIN, -1, 0, i32::MAX] {
        assert_eq!(round_trip(&x).unwrap(), x);
    }
    for &x in &[i64::MIN, -1, 0, i64::MAX] {
        assert_eq!(round_trip(&x).unwrap(), x);
    }
    for &x in &[i128::MIN, -1, 0, i128::MAX] {
        assert_eq!(round_trip(&x).unwrap(), x);
    }
}

#[test]
fn integer_encodings_are_little_endian_fixed_width() {
    assert_eq!(encode_value(&0xabu8).unwrap(), vec![0xab]);
    assert_eq!(encode_value(&0x1234u16).unwrap(), vec![0x34, 0x12]);
    assert_eq!(encode_value(&0x0102_0304u32).unwrap(), vec![4, 3, 2, 1]);
    assert_eq!(
        encode_value(&0x0102_0304_0506_0708u64).unwrap(),
        vec![8, 7, 6, 5, 4, 3, 2, 1]
    );
    assert_eq!(encode_value(&(-1i8)).unwrap(), vec![0xff]);
    assert_eq!(encode_value(&(-2i16)).unwrap(), vec![0xfe, 0xff]);
    assert_eq!(encode_value(&i32::MIN).unwrap(), vec![0, 0, 0, 0x80]);
    assert_eq!(encode_value(&1i128).unwrap(), {
        let mut v = vec![1u8];
        v.extend(std::iter::repeat(0u8).take(15));
        v
    });
}

#[test]
fn round_trip_strings() {
    for s in ["", "a", "hello world", "héllo wörld", "\u{1f600} emoji"] {
        let x = s.to_string();
        assert_eq!(round_trip(&x).unwrap(), x);
    }
}

#[test]
fn string_decode_rejects_invalid_utf8() {
    // length prefix 2, then an invalid UTF-8 byte pair
    let bytes = vec![2, 0, 0, 0, 0xff, 0xfe];
    let res: Result<String, PersistError> = decode_value(bytes);
    assert_eq!(res.unwrap_err(), PersistError::InvalidUtf8);
}

#[test]
fn string_decode_rejects_truncated_stream() {
    // claims 5 bytes but only 2 follow
    let bytes = vec![5, 0, 0, 0, b'a', b'b'];
    let res: Result<String, PersistError> = decode_value(bytes);
    assert_eq!(res.unwrap_err(), PersistError::UnexpectedEof);
}

#[test]
fn round_trip_sequences() {
    let empty: Vec<u32> = vec![];
    assert_eq!(round_trip(&empty).unwrap(), empty);
    let one = vec![42u32];
    assert_eq!(round_trip(&one).unwrap(), one);
    let many = vec![1u64, 2, 3, u64::MAX];
    assert_eq!(round_trip(&many).unwrap(), many);
    let nested = vec![vec![1u8, 2], vec![], vec![3]];
    assert_eq!(round_trip(&nested).unwrap(), nested);
}

#[test]
fn sequence_of_strings_encodes_each_element_in_order() {
    // count prefix, then each string with its own length prefix
    let v = vec!["a".to_string(), "bb".to_string(), "ccc".to_string()];
    let bytes = encode_value(&v).unwrap();
    let expected = vec![
        3, 0, 0, 0, // sequence length
        1, 0, 0, 0, b'a', // "a"
        2, 0, 0, 0, b'b', b'b', // "bb"
        3, 0, 0, 0, b'c', b'c', b'c', // "ccc"
    ];
    assert_eq!(bytes, expected);
    let back: Vec<String> = decode_value(bytes).unwrap();
    assert_eq!(back, v);
}

#[test]
fn platform_width_narrowing() {
    // encoding u32::MAX as a platform-width value succeeds ...
    let max32 = u32::MAX as usize;
    let bytes = encode_value(&max32).unwrap();
    assert_eq!(bytes, vec![0xff, 0xff, 0xff, 0xff]);
    // ... and decodes on this host
    let back: usize = decode_value(bytes).unwrap();
    assert_eq!(back, max32);
    // one past 32-bit capacity must fail rather than silently truncate
    let too_big = max32 + 1;
    let res = encode_value(&too_big);
    assert_eq!(res.unwrap_err(), PersistError::IndexTooLarge);
}

#[test]
fn platform_width_signed_narrowing() {
    for &x in &[i32::MIN as isize, -1, 0, i32::MAX as isize] {
        assert_eq!(round_trip(&x).unwrap(), x);
    }
    assert_eq!(
        encode_value(&(i32::MAX as isize + 1)).unwrap_err(),
        PersistError::IndexTooLarge
    );
    assert_eq!(
        encode_value(&(i32::MIN as isize - 1)).unwrap_err(),
        PersistError::IndexTooLarge
    );
}

#[test]
fn decode_rejects_short_input() {
    let res: Result<u64, PersistError> = decode_value(vec![1, 2, 3]);
    assert_eq!(res.unwrap_err(), PersistError::UnexpectedEof);
}

#[test]
fn decode_ignores_trailing_bytes() {
    let mut bytes = encode_value(&7u16).unwrap();
    bytes.push(0x99);
    let back: u16 = decode_value(bytes).unwrap();
    assert_eq!(back, 7);
}

#[test]
fn failed_narrowing_leaves_the_sink_unchanged() {
    // the range error is raised before a single byte is written
    let sink = MemSink::new(usize::MAX);
    let mut w = PersistWriter::new(sink);
    let too_big = u32::MAX as usize + 1;
    assert_eq!(too_big.write(&mut w).unwrap_err(), PersistError::IndexTooLarge);
    assert!(w.into_sink().into_bytes().is_empty());
}

#[test]
fn failed_signed_narrowing_leaves_the_sink_unchanged() {
    let sink = MemSink::new(usize::MAX);
    let mut w = PersistWriter::new(sink);
    let too_small = i32::MIN as isize - 1;
    assert_eq!(too_small.write(&mut w).unwrap_err(), PersistError::IndexTooLarge);
    assert!(w.into_sink().into_bytes().is_empty());
}

#[test]
fn failed_element_leaves_only_the_earlier_encodings() {
    // the length prefix and the elements before the failing one stand;
    // the out-of-range element contributes nothing
    let v: Vec<usize> = vec![7, u32::MAX as usize + 1, 9];
    let sink = MemSink::new(usize::MAX);
    let mut w = PersistWriter::new(sink);
    assert_eq!(v.write(&mut w).unwrap_err(), PersistError::IndexTooLarge);
    let sent = w.into_sink().into_bytes();
    assert_eq!(sent, vec![3, 0, 0, 0, 7, 0, 0, 0]);
}

#[test]
fn invalid_utf8_consumes_exactly_the_framed_payload() {
    // the format violation is reported after the prefixed payload was
    // read in full: the bytes behind it stay available
    let src = MemSource::new(vec![2, 0, 0, 0, 0xff, 0xfe, 0x55], usize::MAX);
    let mut r = PersistReader::new(src);
    let res = <String as Persist>::read(&mut r);
    assert_eq!(res.unwrap_err(), PersistError::InvalidUtf8);
    assert_eq!(r.read(1).unwrap(), vec![0x55]);
}
