//! The record codec against concrete bytes, and against a general JSON
//! parser: every encoding must be exactly the reference JSON form, and the
//! decoder must find the same record boundary a streaming JSON reader
//! finds.

use kvs::{decode_record, encode_record, Command};

fn put(key: &str, value: &str) -> Command {
    Command::Put { key: key.as_bytes().to_vec(), value: value.as_bytes().to_vec() }
}

fn rm(key: &str) -> Command {
    Command::Remove { key: key.as_bytes().to_vec() }
}

#[test]
fn set_record_is_reference_json() {
    let enc = encode_record(&put("key1", "value1"));
    assert_eq!(enc, b"{\"Set\":{\"key\":\"key1\",\"value\":\"value1\"}}".to_vec());
}

#[test]
fn remove_record_is_reference_json() {
    let enc = encode_record(&rm("key1"));
    assert_eq!(enc, b"{\"Remove\":{\"key\":\"key1\"}}".to_vec());
}

#[test]
fn escapes_in_keys_and_values() {
    let enc = encode_record(&put("a\"b", "c\\d\ne\tf"));
    assert_eq!(
        enc,
        b"{\"Set\":{\"key\":\"a\\\"b\",\"value\":\"c\\\\d\\ne\\tf\"}}".to_vec()
    );
}

#[test]
fn control_bytes_use_unicode_escapes() {
    let enc = encode_record(&put("k", "\u{0001}\u{001f}"));
    assert_eq!(enc, b"{\"Set\":{\"key\":\"k\",\"value\":\"\\u0001\\u001f\"}}".to_vec());
}

#[test]
fn decode_round_trips_every_escape() {
    let cases = vec![
        put("plain", "plain value"),
        put("quo\"te", "back\\slash"),
        put("nl\n", "cr\r tab\t bs\u{0008} ff\u{000c}"),
        put("ctl\u{0001}", "\u{0002}\u{001e}\u{001f}"),
        put("", ""),
        rm("gone"),
        rm("with \"quotes\" and \\slashes\\"),
    ];
    for cmd in cases.iter() {
        let enc = encode_record(cmd);
        let (back, n) = decode_record(&enc, 0).expect("an encoding decodes");
        assert_eq!(n, enc.len());
        match (cmd, &back) {
            (Command::Put { key: k1, value: v1 }, Command::Put { key: k2, value: v2 }) => {
                assert_eq!(k1, k2);
                assert_eq!(v1, v2);
            },
            (Command::Remove { key: k1 }, Command::Remove { key: k2 }) => {
                assert_eq!(k1, k2);
            },
            _ => panic!("variant changed across the codec"),
        }
    }
}

#[test]
fn decode_stops_exactly_at_record_end() {
    let mut data = encode_record(&put("a", "1"));
    let first_len = data.len();
    data.extend_from_slice(&encode_record(&rm("a")));
    let (first, n1) = decode_record(&data, 0).expect("first record");
    assert_eq!(n1, first_len);
    assert!(matches!(first, Command::Put { .. }));
    let (second, n2) = decode_record(&data, n1).expect("second record");
    assert_eq!(n1 + n2, data.len());
    assert!(matches!(second, Command::Remove { .. }));
}

#[test]
fn decode_rejects_truncation_and_junk() {
    let enc = encode_record(&put("key", "value"));
    for cut in 1..enc.len() {
        let prefix = enc[..cut].to_vec();
        assert!(decode_record(&prefix, 0).is_none(), "accepted a truncated record");
    }
    assert!(decode_record(&b"not json".to_vec(), 0).is_none());
    assert!(decode_record(&b"{\"Clear\":{\"key\":\"k\"}}".to_vec(), 0).is_none());
    assert!(decode_record(&Vec::new(), 0).is_none());
}

#[test]
fn encoding_parses_as_json_value() {
    let enc = encode_record(&put("k\"1", "line\nbreak \u{0007}"));
    let v: serde_json::Value = serde_json::from_slice(&enc).expect("valid JSON");
    let obj = v.as_object().expect("an object");
    let set = obj.get("Set").expect("tagged Set").as_object().expect("an object");
    assert_eq!(set.get("key").and_then(|k| k.as_str()), Some("k\"1"));
    assert_eq!(set.get("value").and_then(|k| k.as_str()), Some("line\nbreak \u{0007}"));
}

#[test]
fn record_boundary_agrees_with_streaming_json() {
    // A stream of concatenated records: the byte offset our decoder
    // reports must equal the one serde_json's streaming reader reports.
    let mut data = Vec::new();
    data.extend_from_slice(&encode_record(&put("alpha", "one\ttwo")));
    data.extend_from_slice(&encode_record(&rm("al\"pha")));
    data.extend_from_slice(&encode_record(&put("beta", "\u{0003}")));
    let mut ours = Vec::new();
    let mut at = 0;
    while at < data.len() {
        let (_, n) = decode_record(&data, at).expect("a whole record");
        at += n;
        ours.push(at);
    }
    let mut stream =
        serde_json::Deserializer::from_slice(&data).into_iter::<serde_json::Value>();
    let mut theirs = Vec::new();
    while let Some(item) = stream.next() {
        item.expect("valid JSON value");
        theirs.push(stream.byte_offset());
    }
    assert_eq!(ours, theirs);
}

#[test]
fn unicode_escapes_cover_ascii_only() {
    // `\u0041` is ASCII `A`; a code point needing several UTF-8 bytes is
    // not accepted in escaped form.
    let ok = b"{\"Remove\":{\"key\":\"\\u0041\"}}".to_vec();
    let (cmd, n) = decode_record(&ok, 0).expect("ASCII escape decodes");
    assert_eq!(n, ok.len());
    match cmd {
        Command::Remove { key } => assert_eq!(key, b"A".to_vec()),
        Command::Put { .. } => panic!("variant changed"),
    }
    let bad = b"{\"Remove\":{\"key\":\"\\u00ff\"}}".to_vec();
    assert!(decode_record(&bad, 0).is_none());
}
