use kjson::{parse, Number, Object, Value};

fn num(text: &str) -> Value {
    parse(text).unwrap()
}

#[test]
fn test_parse_primitives() {
    assert_eq!(parse("null").unwrap(), Value::Null);
    assert_eq!(parse("true").unwrap(), Value::Bool(true));
    assert_eq!(parse("false").unwrap(), Value::Bool(false));
    assert_eq!(parse("123").unwrap(), Value::Number(Number::from_i64(123)));
    assert_eq!(
        parse("3.14").unwrap(),
        Value::Number(Number { negative: false, digits: "314".to_string(), exponent: -2 })
    );
    assert_eq!(parse("\"hello\"").unwrap(), Value::String("hello".to_string()));
}

#[test]
fn test_parse_extended_types() {
    match parse("123456789012345678n").unwrap() {
        Value::BigInt(b) => assert_eq!(b.to_string(), "123456789012345678"),
        _ => panic!("Expected BigInt"),
    }
    match parse("99.99m").unwrap() {
        Value::Decimal128(d) => assert_eq!(d.to_string(), "99.99"),
        _ => panic!("Expected Decimal128"),
    }
    match parse("550e8400-e29b-41d4-a716-446655440000").unwrap() {
        Value::Uuid(u) => assert_eq!(u.to_string(), "550e8400-e29b-41d4-a716-446655440000"),
        _ => panic!("Expected UUID"),
    }
    match parse("2025-01-10T12:00:00Z").unwrap() {
        Value::Date(_) => (),
        _ => panic!("Expected Date"),
    }
}

#[test]
fn test_parse_array() {
    let result = parse("[1, 2, 3]").unwrap();
    match result {
        Value::Array(arr) => {
            assert_eq!(arr.len(), 3);
            assert_eq!(arr[0], Value::Number(Number::from_i64(1)));
            assert_eq!(arr[1], Value::Number(Number::from_i64(2)));
            assert_eq!(arr[2], Value::Number(Number::from_i64(3)));
        }
        _ => panic!("Expected array"),
    }
}

#[test]
fn test_parse_object() {
    let result = parse(r#"{"name": "test", "value": 42}"#).unwrap();
    match result {
        Value::Object(obj) => {
            assert_eq!(obj.get("name"), Some(&Value::String("test".to_string())));
            assert_eq!(obj.get("value"), Some(&Value::Number(Number::from_i64(42))));
        }
        _ => panic!("Expected object"),
    }
}

#[test]
fn test_parse_json5_features() {
    let result = parse("{name: \"test\", value: 42}").unwrap();
    match result {
        Value::Object(obj) => {
            assert_eq!(obj.get("name"), Some(&Value::String("test".to_string())));
            assert_eq!(obj.get("value"), Some(&Value::Number(Number::from_i64(42))));
        }
        _ => panic!("Expected object"),
    }
    assert!(parse("[1, 2, 3,]").is_ok());
    assert!(parse("{a: 1,}").is_ok());
}

#[test]
fn parse_duplicate_keys_last_wins() {
    let v = parse("{a: 1, b: 2, a: 3}").unwrap();
    let mut expected = Object::new();
    expected.insert("a".to_string(), num("3"));
    expected.insert("b".to_string(), num("2"));
    assert_eq!(v, Value::Object(expected));
}

#[test]
fn parse_number_forms() {
    assert_eq!(
        parse("-0.5e3").unwrap(),
        Value::Number(Number { negative: true, digits: "05".to_string(), exponent: 2 })
    );
    assert!(parse("1.").is_err());
    assert!(parse("1e").is_err());
    assert!(parse("-").is_err());
    assert!(parse("1.5n").is_err());
    assert!(parse("1e5m").is_err());
}

#[test]
fn parse_errors_carry_kinds() {
    assert_eq!(parse(""), Err(kjson::Error::UnexpectedEof));
    assert!(matches!(parse("[1 2]"), Err(kjson::Error::ParseError { .. })));
    assert!(matches!(parse("{a 1}"), Err(kjson::Error::ParseError { .. })));
    assert!(matches!(parse("'\\q'"), Err(kjson::Error::ParseError { .. })));
    assert!(matches!(parse("\"\\ud800\""), Err(kjson::Error::ParseError { .. })));
    assert!(matches!(parse("-n"), Err(kjson::Error::InvalidBigInt(_))));
    assert!(matches!(parse("-m"), Err(kjson::Error::InvalidDecimal128(_))));
    assert!(matches!(parse("-x"), Err(kjson::Error::InvalidNumber(_))));
}

#[test]
fn parse_comments_and_whitespace() {
    let v = parse("/* lead */ [1, // one\n 2] // tail").unwrap();
    assert_eq!(v, Value::Array(vec![num("1"), num("2")]));
}

#[test]
fn parse_uuid_in_other_forms() {
    let braced = parse("{550E8400-E29B-41D4-A716-446655440000}");
    assert!(braced.is_err());
    let simple = parse("550e8400e29b41d4a716446655440000").unwrap();
    match simple {
        Value::Uuid(u) => assert_eq!(u.to_string(), "550e8400-e29b-41d4-a716-446655440000"),
        _ => panic!("Expected UUID"),
    }
}

#[test]
fn parse_ambiguity_prefers_uuid() {
    let v = parse("550e8400-e29b-41d4-a716-446655440000").unwrap();
    assert_eq!(v.value_type_name(), "uuid");
}

#[test]
fn thirty_two_digits_read_as_uuid() {
    let v = parse("12345678901234567890123456789012").unwrap();
    assert_eq!(v.value_type_name(), "uuid");
    assert_eq!(kjson::to_string(&v).unwrap(), "12345678-9012-3456-7890-123456789012");
}

#[test]
fn parse_structural_errors_carry_positions() {
    assert!(matches!(parse("{invalid json}"), Err(kjson::Error::ParseError { position: 9, .. })));
    assert!(matches!(parse("1 2"), Err(kjson::Error::ParseError { position: 2, .. })));
    assert!(matches!(parse("[1] x"), Err(kjson::Error::ParseError { position: 4, .. })));
    assert!(matches!(parse("[1 2]"), Err(kjson::Error::ParseError { position: 3, .. })));
    assert!(matches!(parse("{a: 1 b: 2}"), Err(kjson::Error::ParseError { position: 6, .. })));
    assert!(matches!(parse("{1: 2}"), Err(kjson::Error::ParseError { position: 1, .. })));
    assert_eq!(parse("[1,"), Err(kjson::Error::UnexpectedEof));
    assert!(matches!(parse("[1, 2x]"), Err(kjson::Error::ParseError { position: 5, .. })));
    assert!(matches!(parse("[-x]"), Err(kjson::Error::InvalidNumber(_))));
}

#[test]
fn test_value_types() {
    let null = Value::Null;
    assert!(null.is_null());
    assert_eq!(null.value_type_name(), "null");
    let bool_val = Value::Bool(true);
    assert_eq!(bool_val.as_bool(), Some(true));
    assert_eq!(bool_val.value_type_name(), "boolean");
    let num_val = Value::Number(Number::from_i64(42));
    assert_eq!(num_val.as_number(), Some(&Number::from_i64(42)));
    assert_eq!(num_val.value_type_name(), "number");
}
