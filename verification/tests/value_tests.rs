use rj::{add, parse, IndexError, Number, Object, Value};

fn text(s: &str) -> Value {
    Value::String(s.to_string())
}

fn num(s: &str) -> Value {
    Value::Number(Number::new(s).unwrap())
}

#[test]
fn add_sums() {
    assert_eq!(add(2, 2), 4);
    assert_eq!(add(0, u64::MAX), u64::MAX);
}

#[test]
fn object_starts_empty() {
    let o = Object::new();
    assert_eq!(o.len(), 0);
    assert!(o.is_empty());
    assert_eq!(o.get("a"), None);
    assert_eq!(o.position("a"), None);
}

#[test]
fn object_keeps_first_position_and_last_value() {
    let mut o = Object::new();
    o.insert("a".to_string(), num("1"));
    o.insert("b".to_string(), num("2"));
    o.insert("a".to_string(), num("3"));
    assert_eq!(o.len(), 2);
    assert!(!o.is_empty());
    assert_eq!(o.key(0), "a");
    assert_eq!(o.key(1), "b");
    assert_eq!(o.value(0), &num("3"));
    assert_eq!(o.value(1), &num("2"));
    assert_eq!(o.position("a"), Some(0));
    assert_eq!(o.position("b"), Some(1));
    assert_eq!(o.position("c"), None);
    assert_eq!(o.get("a"), Some(&num("3")));
    assert_eq!(o.get("c"), None);
}

#[test]
fn parse_keeps_last_of_duplicate_keys() {
    let parsed = parse(r#"{"a":1,"b":2,"a":3}"#).unwrap();
    match &parsed {
        Value::Object(o) => {
            assert_eq!(o.len(), 2);
            assert_eq!(o.get("a"), Some(&num("3")));
            assert_eq!(o.get("b"), Some(&num("2")));
        }
        _ => panic!("Expected an object, got {:?}", parsed),
    }
    assert_eq!(rj::stringify(&parsed), r#"{"a":3,"b":2}"#);
}

#[test]
fn index_by_key() {
    let v = parse(r#"{"a": {"b": true}}"#).unwrap();
    assert_eq!(v.get("a").unwrap().get("b"), Ok(&Value::Boolean(true)));
    assert_eq!(v.get("x"), Err(IndexError::MissingKey));
    assert_eq!(v.at(0), Err(IndexError::TypeMismatch));
    assert_eq!(text("a").get("a"), Err(IndexError::TypeMismatch));
    assert_eq!(Value::Null.get("a"), Err(IndexError::TypeMismatch));
    assert_eq!(Value::Array(vec![]).get("a"), Err(IndexError::TypeMismatch));
}

#[test]
fn index_by_position() {
    let v = parse(r#"[null, [true, false]]"#).unwrap();
    assert_eq!(v.at(0), Ok(&Value::Null));
    assert_eq!(v.at(1).unwrap().at(1), Ok(&Value::Boolean(false)));
    assert_eq!(v.at(2), Err(IndexError::OutOfBounds));
    assert_eq!(v.get("0"), Err(IndexError::TypeMismatch));
    assert_eq!(Value::Boolean(true).at(0), Err(IndexError::TypeMismatch));
    assert_eq!(Value::Object(Object::new()).at(0), Err(IndexError::TypeMismatch));
}

#[test]
fn equality_ignores_member_order() {
    let a = parse(r#"{"x": 1, "y": [true, {"p": null, "q": "s"}]}"#).unwrap();
    let b = parse(r#"{"y": [true, {"q": "s", "p": null}], "x": 1}"#).unwrap();
    assert_eq!(a, b);
    assert_eq!(b, a);
    assert_ne!(rj::stringify(&a), rj::stringify(&b));
}

#[test]
fn equality_tells_values_apart() {
    assert_ne!(parse(r#"{"x": 1}"#).unwrap(), parse(r#"{"x": 2}"#).unwrap());
    assert_ne!(parse(r#"{"x": 1}"#).unwrap(), parse(r#"{"y": 1}"#).unwrap());
    assert_ne!(parse(r#"{"x": 1}"#).unwrap(), parse(r#"{"x": 1, "y": 1}"#).unwrap());
    assert_ne!(parse(r#"{"x": 1, "y": 1}"#).unwrap(), parse(r#"{"x": 1}"#).unwrap());
    assert_ne!(parse("[1, 2]").unwrap(), parse("[2, 1]").unwrap());
    assert_ne!(parse("[1]").unwrap(), parse("[1, 1]").unwrap());
    assert_ne!(parse("[]").unwrap(), parse("{}").unwrap());
    assert_ne!(parse("true").unwrap(), parse("false").unwrap());
    assert_ne!(parse("null").unwrap(), parse("false").unwrap());
    assert_ne!(parse(r#""1""#).unwrap(), parse("1").unwrap());
    assert_ne!(parse(r#""a""#).unwrap(), parse(r#""b""#).unwrap());
    assert_eq!(parse(r#""a""#).unwrap(), text("a"));
}

#[test]
fn numbers_are_equal_by_numeral() {
    assert_eq!(parse("10").unwrap(), num("10"));
    assert_ne!(parse("10").unwrap(), num("1e1"));
}

#[test]
fn number_new_takes_numerals() {
    for s in [
        "0", "10", "-10", "007", "1.", "1.5", "-.5", "-0.5", "1e5", "1E5", "1e+5", "1e-5",
        "1.e5", "1.25E-10", "-1.25e+10", "10.01234",
    ] {
        let n = Number::new(s).unwrap_or_else(|| panic!("Expected a number for {:?}", s));
        assert_eq!(n.as_str(), s);
        assert!(s.parse::<f64>().is_ok());
    }
}

#[test]
fn number_new_refuses_other_texts() {
    for s in [
        "", "-", ".", ".5", "+1", "1+", "1-2", "--1", "1e", "1e+", "1e-", "e5", "1.2.3", "1e5e5",
        "1e5.5", "1ee5", "1e++5", "-e5", "-.", "-.e5", "1 ", " 1", "1a", "inf", "NaN", "0x10",
        "１",
    ] {
        assert!(Number::new(s).is_none(), "{:?} is no numeral", s);
    }
}
