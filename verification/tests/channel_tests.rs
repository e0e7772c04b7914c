use centripetal::{MemSink, MemSource, PersistError, PersistReader, PersistWriter};

#[test]
fn chunked_source_still_completes() {
    // a source that yields 3 bytes at a time still fills a 10-byte request
    let data: Vec<u8> = (0u8..10).collect();
    let src = MemSource::new(data.clone(), 3);
    let mut r = PersistReader::new(src);
    let got = r.read(10).unwrap();
    assert_eq!(got, data);
}

#[test]
fn single_byte_source_still_completes() {
    let data = vec![9u8, 8, 7, 6];
    let src = MemSource::new(data.clone(), 1);
    let mut r = PersistReader::new(src);
    assert_eq!(r.read(2).unwrap(), vec![9, 8]);
    assert_eq!(r.read(2).unwrap(), vec![7, 6]);
}

#[test]
fn exhausted_source_reports_end_of_stream() {
    let src = MemSource::new(vec![1, 2, 3], 8);
    let mut r = PersistReader::new(src);
    let res = r.read(4);
    assert_eq!(res.unwrap_err(), PersistError::UnexpectedEof);
}

#[test]
fn stalled_source_reports_end_of_stream() {
    // a source that yields zero bytes before the buffer is full
    let src = MemSource::new(vec![1, 2, 3, 4], 0);
    let mut r = PersistReader::new(src);
    let res = r.read(2);
    assert_eq!(res.unwrap_err(), PersistError::UnexpectedEof);
}

#[test]
fn empty_read_always_succeeds() {
    let src = MemSource::new(vec![], 0);
    let mut r = PersistReader::new(src);
    assert_eq!(r.read(0).unwrap(), Vec::<u8>::new());
}

#[test]
fn chunked_sink_still_completes() {
    // a sink that accepts 2 bytes at a time still takes all 7
    let sink = MemSink::new(2);
    let mut w = PersistWriter::new(sink);
    let data = vec![1u8, 2, 3, 4, 5, 6, 7];
    w.write(&data).unwrap();
    assert_eq!(w.into_sink().into_bytes(), data);
}

#[test]
fn stalled_sink_reports_write_exhausted() {
    let sink = MemSink::new(0);
    let mut w = PersistWriter::new(sink);
    let res = w.write(&vec![1u8, 2]);
    assert_eq!(res.unwrap_err(), PersistError::WriteZero);
}

#[test]
fn sequential_writes_concatenate() {
    let sink = MemSink::new(usize::MAX);
    let mut w = PersistWriter::new(sink);
    w.write(&vec![1u8, 2]).unwrap();
    w.write(&vec![3u8]).unwrap();
    let sink = w.into_sink();
    assert_eq!(sink.bytes(), &vec![1u8, 2, 3]);
}
