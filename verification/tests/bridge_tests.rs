use centripetal::{
    MemSink, MemSource, PersistError, PersistReader, PersistSerializer, PersistWriter,
};

#[test]
fn bridged_payload_is_length_prefixed() {
    let sink = MemSink::new(usize::MAX);
    let mut w = PersistWriter::new(sink);
    let mut s = PersistSerializer::new();
    s.try_extend(&vec![0xaa, 0xbb]);
    s.try_push(0xcc);
    s.finalize(&mut w).unwrap();
    let out = w.into_sink().into_bytes();
    assert_eq!(out, vec![3, 0, 0, 0, 0xaa, 0xbb, 0xcc]);
}

#[test]
fn bridged_frame_round_trips() {
    let payload = vec![1u8, 2, 3, 4, 5];
    let sink = MemSink::new(2);
    let mut w = PersistWriter::new(sink);
    w.ser(&payload).unwrap();
    let bytes = w.into_sink().into_bytes();
    let src = MemSource::new(bytes, 3);
    let mut r = PersistReader::new(src);
    assert_eq!(r.de().unwrap(), payload);
}

#[test]
fn empty_bridged_frame_round_trips() {
    let sink = MemSink::new(usize::MAX);
    let mut w = PersistWriter::new(sink);
    w.ser(&vec![]).unwrap();
    let bytes = w.into_sink().into_bytes();
    assert_eq!(bytes, vec![0, 0, 0, 0]);
    let src = MemSource::new(bytes, usize::MAX);
    let mut r = PersistReader::new(src);
    assert_eq!(r.de().unwrap(), Vec::<u8>::new());
}

#[test]
fn truncated_bridged_frame_reports_end_of_stream() {
    let src = MemSource::new(vec![9, 0, 0, 0, 1, 2], usize::MAX);
    let mut r = PersistReader::new(src);
    assert_eq!(r.de().unwrap_err(), PersistError::UnexpectedEof);
}

#[test]
fn external_serializer_payload_survives_the_bridge() {
    // the external schema-driven serializer produces the payload; the
    // bridge only frames and restores its bytes
    let value: (u8, u32, String) = (7, 0xdeadbeef, "bridged".to_string());
    let payload: Vec<u8> = postcard::to_allocvec(&value).unwrap();
    let sink = MemSink::new(usize::MAX);
    let mut w = PersistWriter::new(sink);
    w.ser(&payload).unwrap();
    let bytes = w.into_sink().into_bytes();
    let src = MemSource::new(bytes, 1);
    let mut r = PersistReader::new(src);
    let restored = r.de().unwrap();
    assert_eq!(restored, payload);
    let back: (u8, u32, String) = postcard::from_bytes(&restored).unwrap();
    assert_eq!(back, value);
}
