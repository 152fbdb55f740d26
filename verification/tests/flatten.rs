use cbor2::codec::{Error, IoError};
use cbor2::flatten::{mapped_text_key, tagged_field};
use cbor2::value::{Integer, Value};

const KEYS: &[(&str, i128)] = &[("alpha", 1), ("beta", -2), ("alpha", 9)];

#[test]
fn immediate_text_keys_match_by_bytes() {
    assert_eq!(mapped_text_key(b"\x65alpha", KEYS), Ok(Some(1)));
    assert_eq!(mapped_text_key(b"\x64beta", KEYS), Ok(Some(-2)));
    assert_eq!(mapped_text_key(b"\x65gamma", KEYS), Ok(None));
}

#[test]
fn other_text_spellings_are_decoded() {
    // A tagged text key.
    assert_eq!(mapped_text_key(b"\xc1\x64beta", KEYS), Ok(Some(-2)));
    // A one-byte length header.
    assert_eq!(mapped_text_key(b"\x78\x05alpha", KEYS), Ok(Some(1)));
    // An indefinite-length text in two segments.
    assert_eq!(mapped_text_key(b"\x7f\x62be\x62ta\xff", KEYS), Ok(Some(-2)));
    // Not text at all.
    assert_eq!(mapped_text_key(&[0x01], KEYS), Ok(None));
    assert_eq!(mapped_text_key(&[0x41, 0x00], KEYS), Ok(None));
}

#[test]
fn malformed_text_keys_are_errors() {
    assert_eq!(mapped_text_key(b"\x78\x05alp", KEYS), Err(Error::Io(IoError::UnexpectedEof)));
    assert_eq!(mapped_text_key(&[0x78, 0x01, 0xff], KEYS), Err(Error::Syntax(0)));
    assert_eq!(mapped_text_key(&[], KEYS), Err(Error::Io(IoError::UnexpectedEof)));
}

#[test]
fn integer_keys_find_their_field() {
    let one = Value::Integer(Integer::from_i64(1));
    assert_eq!(tagged_field(&one, KEYS), Some("alpha"));
    let tagged = Value::Tag(7, Box::new(Value::Tag(8, Box::new(Value::Integer(Integer::from_i64(-2))))));
    assert_eq!(tagged_field(&tagged, KEYS), Some("beta"));
    assert_eq!(tagged_field(&Value::Integer(Integer::from_i64(5)), KEYS), None);
    assert_eq!(tagged_field(&Value::Text("alpha".to_string()), KEYS), None);
}
