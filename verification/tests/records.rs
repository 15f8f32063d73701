//! The on-disk record format: exact JSON lines, escaping, and the
//! parse/encode round trip.

use kvs::model::Behavior;
use kvs::record::{encode_put_record, encode_record, parse_record};

fn put(k: &str, v: &str) -> Behavior {
    Behavior::Put {
        key: k.to_string(),
        value: v.to_string(),
    }
}

#[test]
fn set_record_text() {
    let line = encode_record(&put("a", "1"));
    assert_eq!(line, b"{\"Set\":{\"key\":\"a\",\"value\":\"1\"}}".to_vec());
}

#[test]
fn remove_record_text() {
    let line = encode_record(&Behavior::Remove { key: "a".to_string() });
    assert_eq!(line, b"{\"Remove\":{\"key\":\"a\"}}".to_vec());
}

#[test]
fn get_record_text() {
    let line = encode_record(&Behavior::Get { key: "a".to_string() });
    assert_eq!(line, b"{\"Get\":{\"key\":\"a\"}}".to_vec());
}

#[test]
fn escapes_match_standard_json() {
    let line = encode_record(&put("q\"b", "back\\slash"));
    assert_eq!(
        line,
        b"{\"Set\":{\"key\":\"q\\\"b\",\"value\":\"back\\\\slash\"}}".to_vec()
    );
    let line = encode_record(&put("k", "a\nb\tc\rd"));
    assert_eq!(
        line,
        b"{\"Set\":{\"key\":\"k\",\"value\":\"a\\nb\\tc\\rd\"}}".to_vec()
    );
    let line = encode_record(&put("k", "\u{1f}"));
    assert_eq!(line, b"{\"Set\":{\"key\":\"k\",\"value\":\"\\u001f\"}}".to_vec());
}

#[test]
fn encode_put_record_matches_typed_encoder() {
    assert_eq!(
        encode_put_record(b"a", b"1"),
        encode_record(&put("a", "1"))
    );
}

#[test]
fn parse_round_trip() {
    for b in [
        put("a", "1"),
        put("key with space", "value, with\npunctuation\\\""),
        put("\u{e9}\u{4e16}", "\u{754c}"),
        Behavior::Remove { key: "gone".to_string() },
        Behavior::Get { key: "asked".to_string() },
    ] {
        let line = encode_record(&b);
        assert_eq!(parse_record(line.as_slice()), Some(b));
    }
}

#[test]
fn parse_rejects_garbage() {
    assert_eq!(parse_record(b""), None);
    assert_eq!(parse_record(b"not json"), None);
    assert_eq!(parse_record(b"{\"Set\":{\"key\":\"a\"}}"), None);
    assert_eq!(parse_record(b"{\"Set\":{\"key\":\"a\",\"value\":\"1\"}}x"), None);
    assert_eq!(parse_record(b"{\"Set\":{\"key\":\"a\",\"value\":\"1\"}"), None);
    // a raw control byte inside a JSON string is not accepted
    assert_eq!(parse_record(b"{\"Get\":{\"key\":\"a\nb\"}}"), None);
    // invalid UTF-8 in a payload is not accepted
    assert_eq!(parse_record(b"{\"Get\":{\"key\":\"\xff\"}}"), None);
}
