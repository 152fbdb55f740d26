use cbor2::canonical::{to_writer, CanonicalError, KeyOrder};
use cbor2::value::{Integer, Simple, Value};

fn integer(i: i64) -> Value {
    Value::Integer(Integer::from_i64(i))
}

fn text(s: &str) -> Value {
    Value::Text(s.to_string())
}

fn float(x: f64) -> Value {
    Value::Float(x.to_bits())
}

fn to_canonical_vec(value: &Value) -> Result<Vec<u8>, CanonicalError> {
    let mut out = Vec::new();
    to_writer(value, &mut out, KeyOrder::Bytewise)?;
    Ok(out)
}

fn keys(value: &Value) -> Vec<&Value> {
    match value {
        Value::Mapping(pairs) => pairs.iter().map(|(k, _)| k).collect(),
        _ => panic!("not a map"),
    }
}

fn hex_of(bytes: &[u8]) -> String {
    bytes.iter().map(|b| format!("{b:02x}")).collect()
}

// A copy of a value, built by hand (the value type has no `Clone`).
fn copy(value: &Value) -> Value {
    match value {
        Value::Integer(i) => Value::Integer(*i),
        Value::Bytes(b) => Value::Bytes(b.clone()),
        Value::Float(x) => Value::Float(*x),
        Value::Text(t) => Value::Text(t.clone()),
        Value::Bool(b) => Value::Bool(*b),
        Value::Null => Value::Null,
        Value::Tag(t, inner) => Value::Tag(*t, Box::new(copy(inner))),
        Value::Array(items) => Value::Array(items.iter().map(copy).collect()),
        Value::Mapping(pairs) => Value::Mapping(pairs.iter().map(|(k, v)| (copy(k), copy(v))).collect()),
        Value::Simple(s) => Value::Simple(*s),
    }
}

#[test]
fn canonical_error_does_not_erase_map() {
    let mut value = Value::Mapping(vec![(integer(1), integer(2)), (integer(1), integer(3))]);
    let before = copy(&value);
    assert!(value.canonicalize().is_err());
    assert_eq!(value, before);
}

#[test]
fn canonical_writer_does_not_write_before_semantic_validation() {
    let value = Value::Array(vec![integer(7), Value::Mapping(vec![(integer(1), integer(2)), (integer(1), integer(3))])]);
    let mut output = vec![0xaa];
    assert!(to_writer(&value, &mut output, KeyOrder::Bytewise).is_err());
    assert_eq!(output, vec![0xaa]);
}

#[test]
fn canonical_rejects_equivalent_signed_zero_keys() {
    let value = Value::Mapping(vec![(float(0.0), integer(1)), (float(-0.0), integer(2))]);
    assert!(to_canonical_vec(&value).is_err());
}

#[test]
fn canonical_rejects_signed_zero_nested_in_keys() {
    let value = Value::Mapping(vec![
        (Value::Array(vec![float(0.0)]), integer(1)),
        (Value::Array(vec![float(-0.0)]), integer(2)),
    ]);
    assert!(to_canonical_vec(&value).is_err());
}

#[test]
fn nested_key_equality_and_transactional_canonicalization() {
    let positive = Value::Tag(100, Box::new(Value::Mapping(vec![(integer(1), float(0.0))])));
    let negative = Value::Tag(100, Box::new(Value::Mapping(vec![(integer(1), float(-0.0))])));
    for order in [KeyOrder::Bytewise, KeyOrder::LengthFirst] {
        let mut value = Value::Array(vec![Value::Mapping(vec![(copy(&positive), integer(1)), (copy(&negative), integer(2))])]);
        let before = copy(&value);
        assert_eq!(value.canonicalize_with(order), Err(CanonicalError::DuplicateKey));
        assert_eq!(value, before);
        let mut out = Vec::new();
        assert!(to_writer(&value, &mut out, order).is_err());
    }
    // {3: {2: 1, 1: -0.0}, 1: [2, 3], 2: 0}
    let mut value = Value::Mapping(vec![
        (integer(3), Value::Mapping(vec![(integer(2), integer(1)), (integer(1), float(-0.0))])),
        (integer(1), Value::Array(vec![integer(2), integer(3)])),
        (integer(2), integer(0)),
    ]);
    let expected = to_canonical_vec(&value).unwrap();
    value.canonicalize().unwrap();
    assert_eq!(to_canonical_vec(&value).unwrap(), expected);
    assert_eq!(keys(&value), vec![&integer(1), &integer(2), &integer(3)]);
}

#[test]
fn canonical_encoding_sorts_simple_keys_by_encoded_bytes() {
    let mut value = Value::Mapping(vec![
        (Value::Simple(Simple::new(59).unwrap()), Value::Null),
        (Value::Simple(Simple::new(16).unwrap()), Value::Null),
        (integer(0), Value::Null),
    ]);

    value.canonicalize().unwrap();
    assert_eq!(
        keys(&value),
        vec![&integer(0), &Value::Simple(Simple::new(16).unwrap()), &Value::Simple(Simple::new(59).unwrap())]
    );
    assert_eq!(hex_of(&to_canonical_vec(&value).unwrap()), "a300f6f0f6f83bf6");
}

#[test]
fn bytewise_order_sorts_by_encoded_keys() {
    let mut value = Value::Mapping(vec![(text("z"), integer(1)), (text("aa"), integer(2))]);
    value.canonicalize().unwrap();
    // "z" (0x617a) sorts before "aa" (0x626161).
    assert_eq!(keys(&value), vec![&text("z"), &text("aa")]);
}

#[test]
fn length_first_order_sorts_shorter_keys_first() {
    let mut value = Value::Mapping(vec![(text("aa"), integer(2)), (integer(100), integer(1)), (integer(-1), integer(0))]);
    value.canonicalize_with(KeyOrder::LengthFirst).unwrap();
    // -1 (0x20, one byte) sorts before 100 (0x1864, two bytes).
    assert_eq!(keys(&value), vec![&integer(-1), &integer(100), &text("aa")]);

    let mut value = Value::Mapping(vec![(text("aa"), integer(2)), (integer(100), integer(1)), (integer(-1), integer(0))]);
    value.canonicalize_with(KeyOrder::Bytewise).unwrap();
    assert_eq!(keys(&value), vec![&integer(100), &integer(-1), &text("aa")]);
}

#[test]
fn default_order_is_bytewise() {
    assert_eq!(KeyOrder::default(), KeyOrder::Bytewise);
}

#[test]
fn nans_become_the_canonical_quiet_nan() {
    let mut value = Value::Array(vec![Value::Float(0x7ff8_0000_0000_0001), Value::Float(0xfff0_0000_0000_0001)]);
    value.canonicalize().unwrap();
    assert_eq!(value, Value::Array(vec![Value::Float(0x7ff8_0000_0000_0000), Value::Float(0x7ff8_0000_0000_0000)]));
    assert_eq!(to_canonical_vec(&value).unwrap(), vec![0x82, 0xf9, 0x7e, 0x00, 0xf9, 0x7e, 0x00]);
}

#[test]
fn bignums_take_their_preferred_form() {
    // Leading zeros go, and a magnitude that fits becomes a plain integer.
    let mut value = Value::Tag(2, Box::new(Value::Bytes(vec![0, 0, 1, 0])));
    value.canonicalize().unwrap();
    assert_eq!(value, integer(256));

    let mut value = Value::Tag(3, Box::new(Value::Bytes(vec![0x2a])));
    value.canonicalize().unwrap();
    assert_eq!(value, integer(-43));

    // A magnitude wider than 64 bits stays tagged, without leading zeros.
    let mut payload = vec![0u8, 1];
    payload.extend_from_slice(&[0u8; 16]);
    let mut value = Value::Tag(2, Box::new(Value::Bytes(payload)));
    value.canonicalize().unwrap();
    let mut stripped = vec![1u8];
    stripped.extend_from_slice(&[0u8; 16]);
    assert_eq!(value, Value::Tag(2, Box::new(Value::Bytes(stripped))));
}

#[test]
fn recursion_limit_is_reported() {
    let mut value = Value::Null;
    for _ in 0..300 {
        value = Value::Array(vec![value]);
    }
    let mut out = Vec::new();
    assert_eq!(to_writer(&value, &mut out, KeyOrder::Bytewise), Err(CanonicalError::RecursionLimit));
    assert_eq!(value.canonicalize(), Err(CanonicalError::RecursionLimit));
}

#[test]
fn canonicalizing_twice_changes_nothing() {
    let mut value = Value::Mapping(vec![
        (text("b"), Value::Tag(3, Box::new(Value::Bytes(vec![0, 5])))),
        (text("a"), Value::Array(vec![Value::Float(0x7ff0_0000_0000_0002)])),
    ]);
    value.canonicalize().unwrap();
    let once = copy(&value);
    value.canonicalize().unwrap();
    assert_eq!(value, once);
}

#[test]
fn canonicalizing_keeps_the_deterministic_encoding() {
    let value = Value::Mapping(vec![
        (integer(10), Value::Tag(2, Box::new(Value::Bytes(vec![0, 7])))),
        (integer(-5), float(1.5)),
        (text("k"), Value::Mapping(vec![(integer(2), Value::Bool(true)), (integer(1), Value::Null)])),
    ]);
    let expected = to_canonical_vec(&value).unwrap();
    let mut canonical = copy(&value);
    canonical.canonicalize().unwrap();
    assert_eq!(to_canonical_vec(&canonical).unwrap(), expected);
}
