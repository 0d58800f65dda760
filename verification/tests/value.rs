//! Tagged values.
use holt::api::errors::Error;
use holt::api::value::{Value, TAG_EXTERNAL, TAG_INLINE};

#[test]
fn inline_round_trip() {
    let v = Value::inline(b"hello world".to_vec());
    let encoded = v.encode();
    assert_eq!(encoded[0], TAG_INLINE);
    assert_eq!(&encoded[1..], b"hello world");
    let back = Value::decode(&encoded).unwrap();
    assert_eq!(back, v);
}

#[test]
fn external_round_trip() {
    let v = Value::external("s3://bucket/img/01.jpg");
    let encoded = v.encode();
    assert_eq!(encoded[0], TAG_EXTERNAL);
    assert_eq!(&encoded[1..], b"s3://bucket/img/01.jpg");
    let back = Value::decode(&encoded).unwrap();
    assert_eq!(back, v);
}

#[test]
fn empty_inline_round_trips() {
    let v = Value::Inline(Vec::new());
    let encoded = v.encode();
    assert_eq!(encoded, vec![TAG_INLINE]);
    let back = Value::decode(&encoded).unwrap();
    assert_eq!(back, v);
}

#[test]
fn empty_external_round_trips() {
    let v = Value::External(String::new());
    let encoded = v.encode();
    assert_eq!(encoded, vec![TAG_EXTERNAL]);
    let back = Value::decode(&encoded).unwrap();
    assert_eq!(back, v);
}

#[test]
fn decode_empty_blob_errors() {
    let r = Value::decode(&[]);
    assert!(matches!(r, Err(Error::InvalidValueEncoding { .. })));
}

#[test]
fn decode_unknown_tag_errors() {
    let r = Value::decode(&[0x99, 0xAB, 0xCD]);
    assert!(matches!(r, Err(Error::InvalidValueEncoding { .. })));
}

#[test]
fn decode_external_with_non_utf8_errors() {
    let bytes = vec![TAG_EXTERNAL, 0xFF, 0xFE, 0xFD];
    let r = Value::decode(&bytes);
    assert!(matches!(r, Err(Error::InvalidValueEncoding { .. })));
}

#[test]
fn accessors() {
    let i = Value::inline(b"hi".to_vec());
    assert!(i.is_inline());
    assert_eq!(i.as_inline(), Some(&b"hi"[..]));
    assert_eq!(i.as_external(), None);

    let e = Value::external("ipfs://Qm...");
    assert!(e.is_external());
    assert_eq!(e.as_external(), Some("ipfs://Qm..."));
    assert_eq!(e.as_inline(), None);
}

#[test]
fn encoded_len_matches_encode() {
    let v = Value::inline(vec![0u8; 1000]);
    assert_eq!(v.encoded_len(), v.encode().len());
    let v2 = Value::external("https://example.org/file");
    assert_eq!(v2.encoded_len(), v2.encode().len());
}

#[test]
fn decode_errors_say_what_is_wrong() {
    assert_eq!(
        Value::decode(&[]),
        Err(Error::InvalidValueEncoding { context: "value blob is empty" })
    );
    assert_eq!(
        Value::decode(&[0x02]),
        Err(Error::InvalidValueEncoding { context: "unknown tag byte" })
    );
    assert_eq!(
        Value::decode(&[TAG_EXTERNAL, 0x80]),
        Err(Error::InvalidValueEncoding { context: "External tag with non-UTF-8 body" })
    );
}

#[test]
fn external_keeps_characters_beyond_ascii() {
    let v = Value::external("s3://büro/数.bin");
    let encoded = v.encode();
    assert_eq!(encoded.len(), 1 + "s3://büro/数.bin".len());
    assert_eq!(v.encoded_len(), encoded.len());
    assert_eq!(Value::decode(&encoded).unwrap().as_external(), Some("s3://büro/数.bin"));
}

#[test]
fn encoding_a_decoded_value_gives_the_bytes_back() {
    for bytes in [vec![TAG_INLINE, 1, 2, 3], vec![TAG_EXTERNAL, b'x'], vec![TAG_INLINE]] {
        assert_eq!(Value::decode(&bytes).unwrap().encode(), bytes);
    }
}
