//! The wire codec: exact frame bytes, stream decoding, and the
//! encode/decode round trip.

use kvs::model::{DecodeError, Msg};

fn bulk(s: &str) -> Msg {
    Msg::Bulk(Some(s.to_string()))
}

#[test]
fn encode_line() {
    assert_eq!(Msg::Line("OK".to_string()).to_bytes(), b"+OK\r\n".to_vec());
}

#[test]
fn encode_error() {
    assert_eq!(
        Msg::Error("Key not found".to_string()).to_bytes(),
        b"-Key not found\r\n".to_vec()
    );
}

#[test]
fn encode_integer() {
    assert_eq!(Msg::Integer(0).to_bytes(), b":0\r\n".to_vec());
    assert_eq!(Msg::Integer(1234).to_bytes(), b":1234\r\n".to_vec());
    assert_eq!(Msg::Integer(-42).to_bytes(), b":-42\r\n".to_vec());
    assert_eq!(
        Msg::Integer(i64::MIN).to_bytes(),
        b":-9223372036854775808\r\n".to_vec()
    );
}

#[test]
fn encode_bulk() {
    assert_eq!(bulk("hello").to_bytes(), b"$5\r\nhello\r\n".to_vec());
    assert_eq!(bulk("").to_bytes(), b"$0\r\n\r\n".to_vec());
    assert_eq!(Msg::Bulk(None).to_bytes(), b"$-1\r\n".to_vec());
}

#[test]
fn encode_array() {
    assert_eq!(Msg::Array(vec![]).to_bytes(), b"*0\r\n".to_vec());
    let m = Msg::Array(vec![bulk("get"), bulk("a")]);
    assert_eq!(m.to_bytes(), b"*2\r\n$3\r\nget\r\n$1\r\na\r\n".to_vec());
}

#[test]
fn decode_line() {
    let (m, end) = Msg::decode(b"+PONG\r\n", 0).unwrap();
    assert_eq!(m, Msg::Line("PONG".to_string()));
    assert_eq!(end, 7);
}

#[test]
fn decode_integer_with_plus_sign() {
    let (m, end) = Msg::decode(b":+5\r\n", 0).unwrap();
    assert_eq!(m, Msg::Integer(5));
    assert_eq!(end, 5);
}

#[test]
fn decode_integer_overflow_is_malformed() {
    let r = Msg::decode(b":9223372036854775808\r\n", 0);
    assert_eq!(r, Err(DecodeError::Malformed));
}

#[test]
fn decode_negative_bulk_length_is_null() {
    let (m, end) = Msg::decode(b"$-5\r\n", 0).unwrap();
    assert_eq!(m, Msg::Bulk(None));
    assert_eq!(end, 5);
}

#[test]
fn decode_unknown_prefix_is_malformed() {
    assert_eq!(Msg::decode(b"x\r\n", 0), Err(DecodeError::Malformed));
}

#[test]
fn decode_incomplete_frames() {
    assert_eq!(Msg::decode(b"", 0), Err(DecodeError::Incomplete));
    assert_eq!(Msg::decode(b"+pending", 0), Err(DecodeError::Incomplete));
    assert_eq!(Msg::decode(b"$5\r\nhel", 0), Err(DecodeError::Incomplete));
    assert_eq!(Msg::decode(b"*2\r\n$1\r\na\r\n", 0), Err(DecodeError::Incomplete));
}

#[test]
fn decode_bulk_skips_to_line_end_after_payload() {
    // once the payload is read, the decoder consumes everything up to
    // the next CRLF, as a blocking line reader would
    let (m, end) = Msg::decode(b"$3\r\nabcXY\r\n", 0).unwrap();
    assert_eq!(m, bulk("abc"));
    assert_eq!(end, 11);
}

#[test]
fn decode_invalid_utf8_is_malformed() {
    assert_eq!(Msg::decode(b"$2\r\n\xff\xfe\r\n", 0), Err(DecodeError::Malformed));
}

#[test]
fn decode_at_offset() {
    let bytes = b"+a\r\n+b\r\n";
    let (m, end) = Msg::decode(bytes, 4).unwrap();
    assert_eq!(m, Msg::Line("b".to_string()));
    assert_eq!(end, 8);
}

#[test]
fn round_trip_command_array() {
    let m = Msg::Array(vec![bulk("set"), bulk("k"), bulk("v")]);
    let bytes = m.to_bytes();
    let (back, end) = Msg::decode(bytes.as_slice(), 0).unwrap();
    assert_eq!(back, m);
    assert_eq!(end, bytes.len());
}

#[test]
fn round_trip_nested_and_mixed() {
    let m = Msg::Array(vec![
        Msg::Integer(-7),
        Msg::Bulk(None),
        Msg::Line("ok".to_string()),
        Msg::Array(vec![bulk("x"), Msg::Integer(12)]),
        bulk("tail"),
    ]);
    let bytes = m.to_bytes();
    let (back, end) = Msg::decode(bytes.as_slice(), 0).unwrap();
    assert_eq!(back, m);
    assert_eq!(end, bytes.len());
}

#[test]
fn round_trip_non_ascii_payload() {
    let m = bulk("héllo wörld");
    let bytes = m.to_bytes();
    // the length header counts bytes, not characters
    assert!(bytes.starts_with(b"$13\r\n"));
    let (back, _) = Msg::decode(bytes.as_slice(), 0).unwrap();
    assert_eq!(back, m);
}

#[test]
fn build_bulk_array_wraps_strings() {
    let m = Msg::build_bulk_array(&vec!["rm".to_string(), "a".to_string()]);
    assert_eq!(m, Msg::Array(vec![bulk("rm"), bulk("a")]));
}

#[test]
fn try_to_vec_string_reads_bulk_arrays() {
    let m = Msg::Array(vec![bulk("get"), bulk("a")]);
    assert_eq!(
        m.try_to_vec_string(),
        Some(vec!["get".to_string(), "a".to_string()])
    );
}

#[test]
fn try_to_vec_string_skips_null_bulks() {
    let m = Msg::Array(vec![bulk("a"), Msg::Bulk(None), bulk("b")]);
    assert_eq!(m.try_to_vec_string(), Some(vec!["a".to_string(), "b".to_string()]));
}

#[test]
fn try_to_vec_string_rejects_other_shapes() {
    let m = Msg::Array(vec![bulk("a"), Msg::Integer(1)]);
    assert_eq!(m.try_to_vec_string(), None);
    assert_eq!(Msg::Line("a".to_string()).try_to_vec_string(), None);
}
