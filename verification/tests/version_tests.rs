use centripetal::{
    decode_value, encode_value, round_trip, InputKeyboardPref, KeyId, MemSource, PersistError,
    PersistReader, KEY_CODE_A, KEY_CODE_D, KEY_CODE_S, KEY_CODE_W,
};

fn sample_pref() -> InputKeyboardPref {
    InputKeyboardPref {
        up: KeyId(0x11223344),
        down: KeyId(0x55667788),
        left: KeyId(0x99aabbcc),
        right: KeyId(0xddeeff00),
    }
}

#[test]
fn record_is_prefixed_with_current_version_tag() {
    let bytes = encode_value(&sample_pref()).unwrap();
    assert_eq!(bytes.len(), 18);
    assert_eq!(&bytes[0..2], &[0, 0]);
}

#[test]
fn default_record_bytes_are_exact() {
    // version 0, then four 4-byte key codes in up-down-left-right order
    let bytes = encode_value(&InputKeyboardPref::default()).unwrap();
    let expected = vec![
        0, 0, // version tag
        0x77, 0, 0, 0, // W
        0x73, 0, 0, 0, // S
        0x61, 0, 0, 0, // A
        0x64, 0, 0, 0, // D
    ];
    assert_eq!(bytes, expected);
    let back: InputKeyboardPref = decode_value(expected).unwrap();
    assert_eq!(back, InputKeyboardPref::default());
}

#[test]
fn round_trip_preference_record() {
    let pref = sample_pref();
    assert_eq!(round_trip(&pref).unwrap(), pref);
}

#[test]
fn round_trip_key_identifier() {
    for &code in &[0u32, KEY_CODE_W, KEY_CODE_S, KEY_CODE_A, KEY_CODE_D, u32::MAX] {
        let k = KeyId(code);
        assert_eq!(round_trip(&k).unwrap(), k);
    }
}

#[test]
fn unknown_version_tag_is_rejected_before_decode() {
    // a tag above the current version fails as unsupported ...
    let mut bytes = encode_value(&sample_pref()).unwrap();
    bytes[0] = 7;
    let res: Result<InputKeyboardPref, PersistError> = decode_value(bytes);
    assert_eq!(res.unwrap_err(), PersistError::UnsupportedVersion(7));
}

#[test]
fn unknown_version_tag_leaves_payload_unread() {
    // ... and the reader consumes only the tag, never touching the payload
    let mut bytes = encode_value(&sample_pref()).unwrap();
    bytes[1] = 1; // tag 0x0100
    let src = MemSource::new(bytes, usize::MAX);
    let mut r = PersistReader::new(src);
    let res = InputKeyboardPref::read_record(&mut r);
    assert_eq!(res.unwrap_err(), PersistError::UnsupportedVersion(0x0100));
    // the 16 payload bytes are still there to be read
    assert_eq!(r.read(16).unwrap().len(), 16);
    assert!(r.read(1).is_err());
}

#[test]
fn truncated_record_reports_end_of_stream() {
    let mut bytes = encode_value(&sample_pref()).unwrap();
    bytes.truncate(9);
    let res: Result<InputKeyboardPref, PersistError> = decode_value(bytes);
    assert_eq!(res.unwrap_err(), PersistError::UnexpectedEof);
}

#[test]
fn default_bindings_are_wsad() {
    let d = InputKeyboardPref::default();
    assert_eq!(d.up, KeyId(KEY_CODE_W));
    assert_eq!(d.down, KeyId(KEY_CODE_S));
    assert_eq!(d.left, KeyId(KEY_CODE_A));
    assert_eq!(d.right, KeyId(KEY_CODE_D));
}
