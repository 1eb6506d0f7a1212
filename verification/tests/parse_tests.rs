use rj::{parse, Object, ParseError, ParseErrorKind, Value};

fn number_of(value: &Value) -> f64 {
    match value {
        Value::Number(n) => n.as_str().parse::<f64>().unwrap(),
        _ => panic!("Expected a number, got {:?}", value),
    }
}

fn failure_of(json: &str) -> ParseError {
    match parse(json) {
        Err(e) => e,
        Ok(v) => panic!("Expected a failure, got {:?}", v),
    }
}

fn object_of_one(key: &str, value: Value) -> Value {
    let mut members = Object::new();
    members.insert(key.to_string(), value);
    Value::Object(members)
}

#[test]
fn parse_empty_object() {
    let json = "{}";
    let parsed = parse(json).unwrap();
    match parsed {
        Value::Object(obj) => {
            assert!(obj.is_empty());
        }
        _ => panic!("Expected an object, got {:?}", parsed),
    }
}

#[test]
fn parse_object_with_whitespace() {
    let json = "{   }";
    let parsed = parse(json).unwrap();
    match parsed {
        Value::Object(obj) => {
            assert!(obj.is_empty());
        }
        _ => panic!("Expected an object, got {:?}", parsed),
    }
}

#[test]
fn parse_simple_string() {
    let json = r#""hello""#;
    let parsed = parse(json).unwrap();
    match parsed {
        Value::String(s) => {
            assert_eq!(s, "hello");
        }
        _ => panic!("Expected a string, got {:?}", parsed),
    }
}

#[test]
fn parse_string_with_escapes() {
    let json = r#""hello \"world\"\\\/\b\f\n\r\t\u0041""#;
    let parsed = parse(json).unwrap();
    match parsed {
        Value::String(s) => {
            assert_eq!(s, "hello \"world\"\\/\x08\x0c\x0a\x0d\tA");
        }
        _ => panic!("Expected a string, got {:?}", parsed),
    }
}

#[test]
fn parse_unterminated_string() {
    let json = r#""hello"#;
    assert_eq!(
        failure_of(json),
        ParseError { kind: ParseErrorKind::UnterminatedString, position: 0 }
    );
}

#[test]
fn parse_string_with_invalid_escape() {
    let json = r#""hello\x""#;
    assert_eq!(
        failure_of(json),
        ParseError { kind: ParseErrorKind::InvalidEscape, position: 6 }
    );
}

#[test]
fn parse_string_with_incomplete_unicode_escape() {
    let json = r#""\u123""#;
    assert_eq!(
        failure_of(json),
        ParseError { kind: ParseErrorKind::InvalidUnicodeEscape, position: 1 }
    );
}

#[test]
fn parse_string_with_invalid_unicode_hex() {
    let json = r#""\u123G""#;
    assert_eq!(
        failure_of(json),
        ParseError { kind: ParseErrorKind::InvalidUnicodeEscape, position: 1 }
    );
}

#[test]
fn parse_string_with_valid_unicode_hex() {
    let json = r#""\u3042""#;
    let parsed = parse(json).unwrap();
    match parsed {
        Value::String(s) => {
            assert_eq!(s.len(), 3);
            assert_eq!(s, "あ".to_string());
        }
        _ => panic!("Expected an string, got {:?}", parsed),
    }
}

#[test]
fn parse_object_with_one_string_member() {
    let json = r#"{"key": "value"}"#;
    let parsed = parse(json).unwrap();
    match parsed {
        Value::Object(obj) => {
            assert_eq!(obj.len(), 1);
            assert_eq!(obj.get("key"), Some(&Value::String("value".to_string())));
        }
        _ => panic!("Expected an object, got {:?}", parsed),
    }
}

#[test]
fn parse_object_with_multiple_string_members() {
    let json = r#"{ "key1" : "value1" , "key2" : "value2" }"#;
    let parsed = parse(json).unwrap();
    match parsed {
        Value::Object(obj) => {
            assert_eq!(obj.len(), 2);
            assert_eq!(obj.get("key1"), Some(&Value::String("value1".to_string())));
            assert_eq!(obj.get("key2"), Some(&Value::String("value2".to_string())));
        }
        _ => panic!("Expected an object, got {:?}", parsed),
    }
}

#[test]
fn parse_object_with_boolean_members() {
    let json = r#"{"t": true, "f": false, "n": null}"#;
    let parsed = parse(json).unwrap();
    match parsed {
        Value::Object(obj) => {
            assert_eq!(obj.len(), 3);
            assert_eq!(obj.get("t"), Some(&Value::Boolean(true)));
            assert_eq!(obj.get("f"), Some(&Value::Boolean(false)));
            assert_eq!(obj.get("n"), Some(&Value::Null));
        }
        _ => panic!("Expected an object, got {:?}", parsed),
    }
}

#[test]
fn parse_extra_characters_after_value() {
    let json = r#"{}extra"#;
    assert_eq!(
        failure_of(json),
        ParseError { kind: ParseErrorKind::TrailingContent, position: 2 }
    );
    assert_eq!(&json[2..], "extra");
}

#[test]
fn parse_object_missing_colon() {
    let json = r#"{"key" "value"}"#;
    assert_eq!(
        failure_of(json),
        ParseError { kind: ParseErrorKind::MissingDelimiter, position: 7 }
    );
}

#[test]
fn parse_object_missing_comma_or_brace() {
    let json = r#"{"key": "value" "another_key": "another_value"}"#;
    assert_eq!(
        failure_of(json),
        ParseError { kind: ParseErrorKind::MissingDelimiter, position: 16 }
    );
}

#[test]
fn parse_number() {
    let json = r#"10"#;
    let parsed = parse(json).unwrap();
    match parsed {
        Value::Number(_) => {
            assert_eq!(number_of(&parsed), 10.0)
        }
        _ => panic!("Expected a number, got {:?}", parsed),
    }
}

#[test]
fn parse_number_with_minus_sign() {
    let json = r#"-10"#;
    let parsed = parse(json).unwrap();
    match parsed {
        Value::Number(_) => {
            assert_eq!(number_of(&parsed), -10.0)
        }
        _ => panic!("Expected a number, got {:?}", parsed),
    }
}

#[test]
fn parse_number_with_fraction() {
    let json = r#"10.01234"#;
    let parsed = parse(json).unwrap();
    match parsed {
        Value::Number(_) => {
            assert_eq!(number_of(&parsed), 10.01234)
        }
        _ => panic!("Expected a number, got {:?}", parsed),
    }
}

#[test]
fn parse_number_with_exponent() {
    let json = r#"10e3"#;
    let parsed = parse(json).unwrap();
    match parsed {
        Value::Number(_) => {
            assert_eq!(number_of(&parsed), 10000.0)
        }
        _ => panic!("Expected a number, got {:?}", parsed),
    }
}

#[test]
fn parse_array_with_empty() {
    let json = r#"[]"#;
    let parsed = parse(json).unwrap();
    match parsed {
        Value::Array(arr) => assert_eq!(arr, vec![]),
        _ => panic!("Expected an array, got {:?}", parsed),
    }
}

#[test]
fn parse_array_with_single_object() {
    let json = r#"[{"key1": true}]"#;
    let parsed = parse(json).unwrap();
    match parsed {
        Value::Array(arr) => assert_eq!(arr, vec![object_of_one("key1", Value::Boolean(true))]),
        _ => panic!("Expected an array, got {:?}", parsed),
    }
}

#[test]
fn parse_array_with_multiple_objects() {
    let json = r#"[{"key1": true}, {"key1": true}]"#;
    let parsed = parse(json).unwrap();
    match parsed {
        Value::Array(arr) => assert_eq!(
            arr,
            vec![
                object_of_one("key1", Value::Boolean(true)),
                object_of_one("key1", Value::Boolean(true)),
            ]
        ),
        _ => panic!("Expected an array, got {:?}", parsed),
    }
}

#[test]
fn parse_array_with_single_array() {
    let json = r#"[[]]"#;
    let parsed = parse(json).unwrap();
    match parsed {
        Value::Array(arr) => assert_eq!(arr, vec![Value::Array(vec![])]),
        _ => panic!("Expected an array, got {:?}", parsed),
    }
}

#[test]
fn parse_array_with_multiple_arrays() {
    let json = r#"[[],[],[]]"#;
    let parsed = parse(json).unwrap();
    match parsed {
        Value::Array(arr) => assert_eq!(
            arr,
            vec![
                Value::Array(vec![]),
                Value::Array(vec![]),
                Value::Array(vec![]),
            ]
        ),
        _ => panic!("Expected an array, got {:?}", parsed),
    }
}

#[test]
fn parse_array_with_nested_arrays() {
    let json = r#"[[[]]]"#;
    let parsed = parse(json).unwrap();
    match parsed {
        Value::Array(arr) => assert_eq!(arr, vec![Value::Array(vec![Value::Array(vec![])]),]),
        _ => panic!("Expected an array, got {:?}", parsed),
    }
}

#[test]
fn parse_example1_in_rfc8259() {
    let json = r#"
{
    "Image": {
        "Width":  800,
        "Height": 600,
        "Title":  "View from 15th Floor",
        "Thumbnail": {
            "Url":    "http://www.example.com/image/481989943",
            "Height": 125,
            "Width":  100
        },
        "Animated" : false,
        "IDs": [116, 943, 234, 38793]
    }
}
"#;
    let parsed = parse(json).unwrap();
    match &parsed {
        Value::Object(obj) => match obj.get("Image").unwrap() {
            Value::Object(obj) => {
                assert_eq!(number_of(obj.get("Width").unwrap()), 800.0);
                assert_eq!(number_of(obj.get("Height").unwrap()), 600.0);
                assert_eq!(
                    obj.get("Title").unwrap(),
                    &Value::String("View from 15th Floor".to_string())
                );
                match obj.get("Thumbnail").unwrap() {
                    Value::Object(obj) => {
                        assert_eq!(
                            obj.get("Url").unwrap(),
                            &Value::String("http://www.example.com/image/481989943".to_string())
                        );
                        assert_eq!(number_of(obj.get("Height").unwrap()), 125.0);
                        assert_eq!(number_of(obj.get("Width").unwrap()), 100.0);
                    }
                    _ => panic!("Expected an object, got {:?}", parsed),
                }
                assert_eq!(obj.get("Animated").unwrap(), &Value::Boolean(false));
                assert_eq!(number_of(obj.get("Width").unwrap()), 800.0);
            }
            _ => panic!("Expected an object, got {:?}", parsed),
        },
        _ => panic!("Expected an object, got {:?}", parsed),
    }
}

#[test]
fn parse_example2_in_rfc8259() {
    let json = r#"
[
    {
        "precision": "zip",
        "Latitude":  37.7668,
        "Longitude": -122.3959,
        "Address":   "",
        "City":      "SAN FRANCISCO",
        "State":     "CA",
        "Zip":       "94107",
        "Country":   "US"
    },
    {
        "precision": "zip",
        "Latitude":  37.371991,
        "Longitude": -122.026020,
        "Address":   "",
        "City":      "SUNNYVALE",
        "State":     "CA",
        "Zip":       "94085",
        "Country":   "US"
    }
]
"#;
    let parsed = parse(json).unwrap();
    match &parsed {
        Value::Array(arr) => {
            assert_eq!(arr.len(), 2);
            match &arr[0] {
                Value::Object(obj) => {
                    assert_eq!(obj.get("precision").unwrap(), &Value::String("zip".to_string()));
                    assert_eq!(number_of(obj.get("Latitude").unwrap()), 37.7668);
                    assert_eq!(number_of(obj.get("Longitude").unwrap()), -122.3959);
                    assert_eq!(obj.get("Address").unwrap(), &Value::String("".to_string()));
                    assert_eq!(
                        obj.get("City").unwrap(),
                        &Value::String("SAN FRANCISCO".to_string())
                    );
                    assert_eq!(obj.get("State").unwrap(), &Value::String("CA".to_string()));
                    assert_eq!(obj.get("Zip").unwrap(), &Value::String("94107".to_string()));
                    assert_eq!(obj.get("Country").unwrap(), &Value::String("US".to_string()));
                }
                _ => panic!("Expected an object, got {:?}", parsed),
            };
            match &arr[1] {
                Value::Object(obj) => {
                    assert_eq!(obj.get("precision").unwrap(), &Value::String("zip".to_string()));
                    assert_eq!(number_of(obj.get("Latitude").unwrap()), 37.371991);
                    assert_eq!(number_of(obj.get("Longitude").unwrap()), -122.026020);
                    assert_eq!(obj.get("Address").unwrap(), &Value::String("".to_string()));
                    assert_eq!(obj.get("City").unwrap(), &Value::String("SUNNYVALE".to_string()));
                    assert_eq!(obj.get("State").unwrap(), &Value::String("CA".to_string()));
                    assert_eq!(obj.get("Zip").unwrap(), &Value::String("94085".to_string()));
                    assert_eq!(obj.get("Country").unwrap(), &Value::String("US".to_string()));
                }
                _ => panic!("Expected an object, got {:?}", parsed),
            };
        }
        _ => panic!("Expected an array, got {:?}", parsed),
    }
}
