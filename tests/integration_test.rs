use kjson::{parse, to_string, uuid_v4, uuid_v7, Number, Object, Value};

#[test]
fn test_bigint_roundtrip() {
    let input = "123456789012345678901234567890n";
    let parsed = parse(input).unwrap();
    match parsed {
        Value::BigInt(ref b) => {
            assert_eq!(b.to_string(), "123456789012345678901234567890");
        }
        _ => panic!("Expected BigInt"),
    }
    let serialized = to_string(&parsed).unwrap();
    assert_eq!(serialized, input);
}

#[test]
fn test_decimal128_roundtrip() {
    let input = "99.99m";
    let parsed = parse(input).unwrap();
    match parsed {
        Value::Decimal128(ref d) => {
            assert_eq!(d.to_string(), "99.99");
        }
        _ => panic!("Expected Decimal128"),
    }
    let serialized = to_string(&parsed).unwrap();
    assert_eq!(serialized, input);
}

#[test]
fn test_uuid_roundtrip() {
    let uuid_str = "550e8400-e29b-41d4-a716-446655440000";
    let parsed = parse(uuid_str).unwrap();
    match parsed {
        Value::Uuid(u) => {
            assert_eq!(u.to_string(), uuid_str);
        }
        _ => panic!("Expected UUID"),
    }
    let serialized = to_string(&parsed).unwrap();
    assert_eq!(serialized, uuid_str);
}

#[test]
fn test_date_roundtrip() {
    let date_str = "2025-01-10T12:00:00Z";
    let parsed = parse(date_str).unwrap();
    match &parsed {
        Value::Date(d) => {
            assert_eq!(d.tz_offset, None);
        }
        _ => panic!("Expected Date"),
    }
    let serialized = to_string(&parsed).unwrap();
    assert_eq!(serialized, date_str);
}

#[test]
fn test_complex_object() {
    let input = r#"{
        id: 550e8400-e29b-41d4-a716-446655440000,
        bigNumber: 123456789012345678901234567890n,
        price: 99.99m,
        created: 2025-01-10T12:00:00Z,
        active: true,
        tags: ["new", "sale"],
        metadata: {
            version: 1,
        },
    }"#;
    let parsed = parse(input).unwrap();
    match parsed {
        Value::Object(ref obj) => {
            assert!(matches!(obj.get("id"), Some(Value::Uuid(_))));
            assert!(matches!(obj.get("bigNumber"), Some(Value::BigInt(_))));
            assert!(matches!(obj.get("price"), Some(Value::Decimal128(_))));
            assert!(matches!(obj.get("created"), Some(Value::Date(_))));
            assert_eq!(obj.get("active"), Some(&Value::Bool(true)));
            match obj.get("tags") {
                Some(Value::Array(arr)) => {
                    assert_eq!(arr.len(), 2);
                    assert_eq!(arr[0], Value::String("new".to_string()));
                    assert_eq!(arr[1], Value::String("sale".to_string()));
                }
                _ => panic!("Expected tags array"),
            }
            match obj.get("metadata") {
                Some(Value::Object(meta)) => {
                    assert_eq!(meta.get("version"), Some(&Value::Number(Number::from_i64(1))));
                }
                _ => panic!("Expected metadata object"),
            }
        }
        _ => panic!("Expected object"),
    }
}

#[test]
fn test_json5_features() {
    let obj1 = parse("{name: \"test\", value: 42}").unwrap();
    match obj1 {
        Value::Object(map) => {
            assert_eq!(map.get("name"), Some(&Value::String("test".to_string())));
            assert_eq!(map.get("value"), Some(&Value::Number(Number::from_i64(42))));
        }
        _ => panic!("Expected object"),
    }
    let arr = parse("[1, 2, 3,]").unwrap();
    match arr {
        Value::Array(vec) => {
            assert_eq!(vec.len(), 3);
        }
        _ => panic!("Expected array"),
    }
    let with_comments = r#"{
        // This is a comment
        name: "test", // Another comment
        /* Block comment */
        value: 42
    }"#;
    let parsed = parse(with_comments).unwrap();
    match parsed {
        Value::Object(map) => {
            assert_eq!(map.get("name"), Some(&Value::String("test".to_string())));
            assert_eq!(map.get("value"), Some(&Value::Number(Number::from_i64(42))));
        }
        _ => panic!("Expected object"),
    }
}

#[test]
fn integration_test_test_uuid_generation() {
    let uuid4 = uuid_v4();
    let uuid7 = uuid_v7();
    assert_ne!(uuid4, uuid7);
    assert_eq!(uuid4.get_version_num(), 4);
    assert_eq!(uuid7.get_version_num(), 7);
    let uuid4_2 = uuid_v4();
    assert_ne!(uuid4, uuid4_2);
}

#[test]
fn test_pretty_print() {
    let mut obj = Object::new();
    obj.insert("name".to_string(), Value::String("test".to_string()));
    obj.insert(
        "values".to_string(),
        Value::Array(vec![
            Value::Number(Number::from_i64(1)),
            Value::Number(Number::from_i64(2)),
            Value::Number(Number::from_i64(3)),
        ]),
    );
    let value = Value::Object(obj);
    let pretty = kjson::serializer_to_string_pretty(&value).unwrap();
    assert!(pretty.contains('\n'));
    assert!(pretty.contains("  "));
}

#[test]
fn test_error_handling() {
    assert!(parse("{invalid json}").is_err());
    assert!(parse("\"unterminated").is_err());
    assert!(parse("123.456.789").is_err());
    assert!(parse("123abcn").is_err());
    assert!(parse("not-a-uuid").is_err());
}

#[test]
fn test_edge_cases() {
    assert_eq!(parse("[]").unwrap(), Value::Array(vec![]));
    assert_eq!(parse("{}").unwrap(), Value::Object(Object::new()));
    let nested = parse(r#"{"a": {"b": {"c": [1, 2, 3]}}}"#).unwrap();
    match nested {
        Value::Object(obj) => match obj.get("a") {
            Some(Value::Object(inner)) => match inner.get("b") {
                Some(Value::Object(innermost)) => {
                    assert!(matches!(innermost.get("c"), Some(Value::Array(_))));
                }
                _ => panic!("Expected nested object"),
            },
            _ => panic!("Expected nested object"),
        },
        _ => panic!("Expected object"),
    }
    let large = parse("999999999999999999999999999999999999999n").unwrap();
    match large {
        Value::BigInt(b) => {
            assert_eq!(b.to_string(), "999999999999999999999999999999999999999");
        }
        _ => panic!("Expected BigInt"),
    }
}

#[test]
fn test_unicode_handling() {
    let parsed = parse(r#""Hello World""#).unwrap();
    match parsed {
        Value::String(s) => assert_eq!(s, "Hello World"),
        _ => panic!("Expected string"),
    }
    let escaped = r#""\u0048\u0065\u006c\u006c\u006f""#;
    let parsed = parse(escaped).unwrap();
    match parsed {
        Value::String(s) => assert_eq!(s, "Hello"),
        _ => panic!("Expected string"),
    }
}

#[test]
fn test_negative_numbers() {
    match parse("-123456789012345678n").unwrap() {
        Value::BigInt(b) => assert_eq!(b.to_string(), "-123456789012345678"),
        _ => panic!("Expected BigInt"),
    }
    match parse("-99.99m").unwrap() {
        Value::Decimal128(d) => assert_eq!(d.to_string(), "-99.99"),
        _ => panic!("Expected Decimal128"),
    }
}

#[test]
fn integration_test_test_backtick_strings() {
    match parse("`hello world`").unwrap() {
        Value::String(s) => assert_eq!(s, "hello world"),
        _ => panic!("Expected string"),
    }
    match parse(r#"`He said "hello" and 'hi'`"#).unwrap() {
        Value::String(s) => assert_eq!(s, r#"He said "hello" and 'hi'"#),
        _ => panic!("Expected string"),
    }
    match parse(r#"`This has a \` backtick`"#).unwrap() {
        Value::String(s) => assert_eq!(s, "This has a ` backtick"),
        _ => panic!("Expected string"),
    }
}

#[test]
fn test_mixed_quote_types() {
    let input = r#"{
        single: 'value1',
        double: "value2",
        backtick: `value3`,
        mixed: `He said "hello" and 'hi'`
    }"#;
    match parse(input).unwrap() {
        Value::Object(obj) => {
            assert_eq!(obj.get("single").unwrap(), &Value::String("value1".to_string()));
            assert_eq!(obj.get("double").unwrap(), &Value::String("value2".to_string()));
            assert_eq!(obj.get("backtick").unwrap(), &Value::String("value3".to_string()));
            assert_eq!(
                obj.get("mixed").unwrap(),
                &Value::String(r#"He said "hello" and 'hi'"#.to_string())
            );
        }
        _ => panic!("Expected object"),
    }
}

#[test]
fn test_smart_quote_serialization_roundtrip() {
    let mut obj = Object::new();
    obj.insert("simple".to_string(), Value::String("hello".to_string()));
    obj.insert("with_single".to_string(), Value::String("it's nice".to_string()));
    obj.insert("with_double".to_string(), Value::String(r#"He said "hi""#.to_string()));
    obj.insert("with_both".to_string(), Value::String(r#"He said "hello" and 'hi'"#.to_string()));
    let value = Value::Object(obj);
    let serialized = to_string(&value).unwrap();
    let parsed = parse(&serialized).unwrap();
    assert_eq!(value, parsed);
}

#[test]
fn literal_forms_round_trip() {
    for text in ["true", "false", "42", "-1.5", "123456789012345678901234567890n", "-0.50m",
        "550e8400-e29b-41d4-a716-446655440000", "2025-01-10T12:00:00Z"] {
        assert_eq!(to_string(&parse(text).unwrap()).unwrap(), text);
    }
    let upper = parse("550E8400-E29B-41D4-A716-446655440000").unwrap();
    assert_eq!(to_string(&upper).unwrap(), "550e8400-e29b-41d4-a716-446655440000");
}
