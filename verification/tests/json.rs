use cbor2::json::{float_bits, to_json, Json, JsonError};
use cbor2::json_text::write_json;
use cbor2::value::{Integer, Simple, Value};

fn integer(i: i128) -> Value {
    Value::Integer(Integer::try_from_i128(i).unwrap())
}

fn text_value(s: &str) -> Value {
    Value::Text(s.to_string())
}

fn convert(v: &Value) -> Json {
    to_json(v, &Vec::new()).unwrap()
}

fn text(json: &Json) -> &str {
    match json {
        Json::Str(s) => s,
        _ => panic!("not a string"),
    }
}

fn duplicate(r: Result<Json, JsonError>) -> String {
    match r {
        Err(JsonError::DuplicateKey(k)) => k,
        Ok(_) => panic!("converted"),
    }
}

fn keys(json: &Json) -> Vec<String> {
    match json {
        Json::Object(members) => members.iter().map(|(k, _)| k.clone()).collect(),
        _ => panic!("not an object"),
    }
}

#[test]
fn integers_take_the_first_kind_that_holds_them() {
    assert!(matches!(convert(&integer(0)), Json::UInt(0)));
    assert!(matches!(convert(&integer(18446744073709551615)), Json::UInt(u64::MAX)));
    assert!(matches!(convert(&integer(-1)), Json::Int(-1)));
    assert!(matches!(convert(&integer(-9223372036854775808)), Json::Int(i64::MIN)));
    assert_eq!(text(&convert(&integer(-9223372036854775809))), "-9223372036854775809");
    assert_eq!(text(&convert(&integer(-18446744073709551616))), "-18446744073709551616");
}

#[test]
fn floats_keep_their_bits_unless_not_finite() {
    assert!(matches!(convert(&Value::Float(1.5f64.to_bits())), Json::Float(b) if b == 1.5f64.to_bits()));
    assert!(matches!(convert(&Value::Float(f64::NAN.to_bits())), Json::Null));
    assert!(matches!(convert(&Value::Float(f64::INFINITY.to_bits())), Json::Null));
    assert!(matches!(convert(&Value::Float(f64::NEG_INFINITY.to_bits())), Json::Null));
    assert!(matches!(convert(&Value::Float((-0.0f64).to_bits())), Json::Float(b) if b == (-0.0f64).to_bits()));
}

#[test]
fn bytes_simples_and_tags() {
    assert_eq!(text(&convert(&Value::Bytes(vec![0xde, 0xad]))), "dead");
    assert_eq!(text(&convert(&Value::Simple(Simple::new(16).unwrap()))), "simple(16)");
    assert_eq!(text(&convert(&Value::Simple(Simple::new(59).unwrap()))), "simple(59)");
    assert!(matches!(convert(&Value::Simple(Simple::new(23).unwrap())), Json::Null));
    assert!(matches!(convert(&Value::Tag(1, Box::new(integer(7)))), Json::UInt(7)));
    assert!(matches!(convert(&Value::Bool(true)), Json::Bool(true)));
    assert!(matches!(convert(&Value::Null), Json::Null));
    assert_eq!(text(&convert(&text_value("é"))), "é");
}

#[test]
fn non_text_keys_become_their_compact_json_text() {
    let map = Value::Mapping(vec![
        (text_value("a"), Value::Null),
        (integer(2), Value::Null),
        (Value::Bytes(vec![0x0a]), Value::Null),
        (Value::Array(vec![integer(-1), Value::Bool(true), Value::Null]), Value::Null),
        (
            Value::Mapping(vec![(text_value("b"), integer(2)), (text_value("a\"\n\u{1}"), integer(1))]),
            Value::Null,
        ),
    ]);
    let json = convert(&map);
    assert_eq!(
        keys(&json),
        vec!["a", "2", "\"0a\"", "[-1,true,null]", "{\"a\\\"\\n\\u0001\":1,\"b\":2}"]
    );
}

#[test]
fn colliding_keys_are_refused() {
    let map = Value::Mapping(vec![(integer(1), Value::Null), (text_value("1"), Value::Null)]);
    assert_eq!(duplicate(to_json(&map, &Vec::new())), "1");
    // A collision inside a nested value.
    let nested = Value::Array(vec![Value::Mapping(vec![
        (text_value("x"), Value::Null),
        (text_value("x"), Value::Bool(true)),
    ])]);
    assert_eq!(duplicate(to_json(&nested, &Vec::new())), "x");
    // A collision inside a compound key.
    let inner = Value::Mapping(vec![(Value::Bytes(vec![1]), Value::Null), (text_value("\"01\""), Value::Null)]);
    let compound = Value::Mapping(vec![(inner, Value::Null)]);
    assert_eq!(duplicate(to_json(&compound, &Vec::new())), "\"01\"");
    // `null` and a NaN key read alike.
    let nan = Value::Mapping(vec![(Value::Null, integer(1)), (Value::Float(f64::NAN.to_bits()), integer(2))]);
    assert_eq!(duplicate(to_json(&nan, &Vec::new())), "null");
}

#[test]
fn float_keys_take_the_texts_handed_in() {
    let bits = 1.5f64.to_bits();
    let map = Value::Mapping(vec![(Value::Float(bits), Value::Null), (text_value("1.5"), Value::Null)]);
    let mut found = Vec::new();
    float_bits(&map, &mut found);
    assert_eq!(found, vec![bits]);
    assert_eq!(duplicate(to_json(&map, &vec![(bits, "1.5".to_string())])), "1.5");
    let json = to_json(&map, &vec![(bits, "1.50".to_string())]).unwrap();
    assert_eq!(keys(&json), vec!["1.50", "1.5"]);
}

#[test]
fn compact_text_is_written_as_serde_json_writes_it() {
    let json = Json::Object(vec![
        ("b".to_string(), Json::Array(vec![Json::UInt(1), Json::Int(-2), Json::Str("\t\\".to_string())])),
        ("a".to_string(), Json::Object(vec![])),
    ]);
    let mut out = Vec::new();
    write_json(&mut out, &json, &Vec::new());
    let s: String = out.into_iter().collect();
    assert_eq!(s, "{\"a\":{},\"b\":[1,-2,\"\\t\\\\\"]}");
}
