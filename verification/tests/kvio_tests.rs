//! The positional reader and writer: offset tracking and record streaming.

use kvs::{encode_record, Command, KvsReader, KvsWriter};

#[test]
fn writer_tracks_append_offset() {
    let mut w = KvsWriter::new();
    assert_eq!(w.pos(), 0);
    w.advance(10);
    w.advance(7);
    assert_eq!(w.pos(), 17);
}

#[test]
fn reader_streams_records_with_exact_ranges() {
    let first = encode_record(&Command::Put {
        key: b"alpha".to_vec(),
        value: b"one".to_vec(),
    });
    let second = encode_record(&Command::Remove { key: b"alpha".to_vec() });
    let mut data = first.clone();
    data.extend_from_slice(b"  ");
    data.extend_from_slice(&second);
    let mut reader = KvsReader::new(data.clone());
    assert_eq!(reader.pos(), 0);

    reader.skip_ws();
    let (cmd1, start1, end1) = reader.read_record().expect("first record");
    assert_eq!((start1, end1), (0, first.len()));
    assert!(matches!(cmd1, Command::Put { .. }));
    assert_eq!(reader.pos(), first.len() as u64);

    reader.skip_ws();
    assert_eq!(reader.pos(), (first.len() + 2) as u64);
    assert!(!reader.at_end());
    let (cmd2, start2, end2) = reader.read_record().expect("second record");
    assert_eq!((start2, end2), (first.len() + 2, data.len()));
    assert!(matches!(cmd2, Command::Remove { .. }));

    reader.skip_ws();
    assert!(reader.at_end());
}

#[test]
fn reader_stops_on_malformed_tail() {
    let mut data = encode_record(&Command::Put {
        key: b"k".to_vec(),
        value: b"v".to_vec(),
    });
    data.extend_from_slice(b"{\"Set\":{\"key");
    let mut reader = KvsReader::new(data);
    let (_, _, end) = reader.read_record().expect("the whole first record");
    assert!(reader.read_record().is_none());
    assert_eq!(reader.pos(), end as u64);
}
