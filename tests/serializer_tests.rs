use kjson::{parse, to_string, to_string_pretty, BigInt, Date, Decimal128, Number, Object, Uuid, Value};

fn s(text: &str) -> Value {
    Value::String(text.to_string())
}

#[test]
fn test_serialize_primitives() {
    assert_eq!(to_string(&Value::Null).unwrap(), "null");
    assert_eq!(to_string(&Value::Bool(true)).unwrap(), "true");
    assert_eq!(to_string(&Value::Bool(false)).unwrap(), "false");
    assert_eq!(to_string(&Value::Number(Number::from_i64(42))).unwrap(), "42");
    let pi = Number { negative: false, digits: "314".to_string(), exponent: -2 };
    assert_eq!(to_string(&Value::Number(pi)).unwrap(), "3.14");
    assert_eq!(to_string(&s("hello")).unwrap(), "'hello'");
}

#[test]
fn test_serialize_extended_types() {
    let bigint = BigInt::from_i64(123456789012345678);
    assert_eq!(to_string(&Value::BigInt(bigint)).unwrap(), "123456789012345678n");
    let decimal = Decimal128::from_str("99.99").unwrap();
    assert_eq!(to_string(&Value::Decimal128(decimal)).unwrap(), "99.99m");
    let uuid = Uuid::parse_str("550e8400-e29b-41d4-a716-446655440000").unwrap();
    assert_eq!(to_string(&Value::Uuid(uuid)).unwrap(), "550e8400-e29b-41d4-a716-446655440000");
}

#[test]
fn test_serialize_array() {
    let arr = vec![
        Value::Number(Number::from_i64(1)),
        Value::Number(Number::from_i64(2)),
        Value::Number(Number::from_i64(3)),
    ];
    assert_eq!(to_string(&Value::Array(arr)).unwrap(), "[1, 2, 3]");
}

#[test]
fn test_serialize_object() {
    let mut obj = Object::new();
    obj.insert("name".to_string(), s("test"));
    obj.insert("value".to_string(), Value::Number(Number::from_i64(42)));
    let result = to_string(&Value::Object(obj)).unwrap();
    assert_eq!(result, "{name: 'test', value: 42}");
}

#[test]
fn test_serialize_pretty() {
    let mut obj = Object::new();
    obj.insert("a".to_string(), Value::Number(Number::from_i64(1)));
    obj.insert(
        "b".to_string(),
        Value::Array(vec![Value::Number(Number::from_i64(2)), Value::Number(Number::from_i64(3))]),
    );
    let result = to_string_pretty(&Value::Object(obj)).unwrap();
    let expected = "{\n  a: 1,\n  b: [\n    2,\n    3\n  ]\n}";
    assert_eq!(result, expected);
}

#[test]
fn test_string_escaping() {
    let text = "Hello\n\"World\"\t\\";
    let result = to_string(&s(text)).unwrap();
    assert_eq!(result, r#"'Hello\n"World"\t\\'"#);
}

#[test]
fn test_key_quoting() {
    let mut obj = Object::new();
    obj.insert("validKey".to_string(), Value::Number(Number::from_i64(1)));
    obj.insert("needs-quotes".to_string(), Value::Number(Number::from_i64(2)));
    obj.insert("123invalid".to_string(), Value::Number(Number::from_i64(3)));
    let result = to_string(&Value::Object(obj)).unwrap();
    assert!(result.contains("'123invalid': 3"));
    assert!(result.contains("'needs-quotes': 2"));
    assert!(result.contains("validKey: 1"));
}

#[test]
fn test_smart_quote_selection() {
    assert_eq!(to_string(&s("hello")).unwrap(), "'hello'");
    assert_eq!(to_string(&s("it's nice")).unwrap(), r#""it's nice""#);
    assert_eq!(to_string(&s(r#"He said "hi""#)).unwrap(), r#"'He said "hi"'"#);
    assert_eq!(
        to_string(&s(r#"He said "hello" and 'hi'"#)).unwrap(),
        r#"`He said "hello" and 'hi'`"#
    );
}

#[test]
fn serializer_test_backtick_strings() {
    assert_eq!(to_string(&s("Mix 'both' \"types\"")).unwrap(), "`Mix 'both' \"types\"`");
    assert_eq!(to_string(&s("template `string`")).unwrap(), "'template `string`'");
}

#[test]
fn serialize_key_order_ignores_insertion_order() {
    let mut first = Object::new();
    first.insert("b".to_string(), Value::Number(Number::from_i64(1)));
    first.insert("a".to_string(), Value::Number(Number::from_i64(2)));
    let mut second = Object::new();
    second.insert("a".to_string(), Value::Number(Number::from_i64(2)));
    second.insert("b".to_string(), Value::Number(Number::from_i64(1)));
    let one = to_string(&Value::Object(first)).unwrap();
    let two = to_string(&Value::Object(second)).unwrap();
    assert_eq!(one, "{a: 2, b: 1}");
    assert_eq!(one, two);
}

#[test]
fn serialize_control_and_quote_escapes() {
    assert_eq!(to_string(&s("a\u{1}b")).unwrap(), "'a\\u0001b'");
    assert_eq!(to_string(&s("\u{8}\u{c}\r")).unwrap(), "'\\b\\f\\r'");
    assert_eq!(to_string(&s("'\"`")).unwrap(), "'\\'\"`'");
    assert_eq!(to_string(&s("")).unwrap(), "''");
}

#[test]
fn serialize_empty_containers_and_keys() {
    assert_eq!(to_string_pretty(&Value::Array(vec![])).unwrap(), "[]");
    assert_eq!(to_string_pretty(&Value::Object(Object::new())).unwrap(), "{}");
    let mut obj = Object::new();
    obj.insert("".to_string(), Value::Null);
    obj.insert("_$x1".to_string(), Value::Null);
    assert_eq!(to_string(&Value::Object(obj)).unwrap(), "{'': null, _$x1: null}");
}

#[test]
fn serialize_numbers_canonically() {
    let cases = [("0.70", "0.7"), ("1.500", "1.5"), ("2.0", "2"), ("1e3", "1000"), ("25e-3", "0.025"), ("-0", "-0")];
    for (input, expected) in cases {
        assert_eq!(to_string(&parse(input).unwrap()).unwrap(), expected);
    }
}

#[test]
fn serialize_date_with_offset() {
    let date = Date::from_iso8601("2025-01-10T12:00:00+05:30").unwrap();
    assert_eq!(date.tz_offset, Some(330));
    assert_eq!(to_string(&Value::Date(date)).unwrap(), "2025-01-10T12:00:00+05:30");
    let far = Date { seconds: i64::MAX, nanos: 0, tz_offset: None };
    assert!(matches!(to_string(&Value::Date(far)), Err(kjson::Error::SerializationError(_))));
}

#[test]
fn serialize_idempotent_on_constructed_values() {
    let mut obj = Object::new();
    obj.insert("z".to_string(), s("it's"));
    obj.insert("list".to_string(), Value::Array(vec![Value::Null, Value::Bool(true), s("x\ny")]));
    obj.insert("big".to_string(), Value::BigInt(BigInt::from_i64(-5)));
    obj.insert("dec".to_string(), Value::Decimal128(Decimal128::from_str("0.10").unwrap()));
    let v = Value::Object(obj);
    let once = to_string(&v).unwrap();
    let twice = to_string(&parse(&once).unwrap()).unwrap();
    assert_eq!(once, twice);
    let pretty = to_string_pretty(&v).unwrap();
    assert_eq!(to_string_pretty(&parse(&pretty).unwrap()).unwrap(), pretty);
}

#[test]
fn decimal_with_leading_zeros_is_written_as_held() {
    let d = Decimal128::from_str("007").unwrap();
    let text = to_string(&Value::Decimal128(d)).unwrap();
    assert_eq!(text, "007m");
    assert!(parse(&text).is_err());
}

#[test]
fn serialize_date_keeps_fraction() {
    let v = parse("2025-01-10T12:00:00.500Z").unwrap();
    assert_eq!(to_string(&v).unwrap(), "2025-01-10T12:00:00.5Z");
    let whole = parse("2025-01-10T12:00:00Z").unwrap();
    assert_eq!(to_string(&whole).unwrap(), "2025-01-10T12:00:00Z");
}

#[test]
fn well_formedness_of_objects() {
    let mut obj = Object::new();
    obj.insert("b".to_string(), Value::Null);
    obj.insert("a".to_string(), Value::Array(vec![Value::Object(Object::new())]));
    assert!(Value::Object(obj).is_well_formed());
    let unsorted = Object {
        entries: vec![
            kjson::Entry { key: "b".to_string(), value: Value::Null },
            kjson::Entry { key: "a".to_string(), value: Value::Null },
        ],
    };
    assert!(!Value::Array(vec![Value::Object(unsorted)]).is_well_formed());
}
