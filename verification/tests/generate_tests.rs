use rj::parse;

#[test]
fn string() {
    let json = r#""string""#;
    let s = rj::stringify(&parse(json).unwrap());
    assert_eq!(s, json);
}

#[test]
fn number() {
    let json = "10.1234";
    let s = rj::stringify(&parse(json).unwrap());
    assert_eq!(s, json);
}

#[test]
fn boolean() {
    let json = r#"false"#;
    let s = rj::stringify(&parse(json).unwrap());
    assert_eq!(s, json);

    let json = r#"true"#;
    let s = rj::stringify(&parse(json).unwrap());
    assert_eq!(s, json);
}

#[test]
fn null() {
    let json = r#"null"#;
    let s = rj::stringify(&parse(json).unwrap());
    assert_eq!(s, json);
}

#[test]
fn array() {
    let json = r#"["string","string2"]"#;
    let s = rj::stringify(&parse(json).unwrap());
    assert_eq!(s, json);
}

#[test]
fn object() {
    let json = r#"{"key":"value"}"#;
    let s = rj::stringify(&parse(json).unwrap());
    assert_eq!(s, json);
}

#[test]
fn object_with_members() {
    let json = r#"{"key":"value","key2":"value2"}"#;
    let s = rj::stringify(&parse(json).unwrap());
    assert_eq!(parse(&s).unwrap(), parse(json).unwrap());
}

#[test]
fn test_object() {
    let json = r#"{"key":"value"}"#;
    let formatted = rj::format(&parse(json).unwrap(), 2);
    assert_eq!(formatted, "{\n  \"key\": \"value\"\n}");
}

#[test]
fn test_nested_object() {
    let json = r#"{"key":{"key2":"value2"}}"#;
    let formatted = rj::format(&parse(json).unwrap(), 2);
    assert_eq!(
        formatted,
        "{\n  \"key\": {\n    \"key2\": \"value2\"\n  }\n}"
    );
}

#[test]
fn test_array() {
    let json = r#"[1,2,3]"#;
    let formatted = rj::format(&parse(json).unwrap(), 2);
    assert_eq!(formatted, "[\n  1,\n  2,\n  3\n]");
}

#[test]
fn test_nested_array() {
    let json = r#"[1,[2,[3]]]"#;
    let formatted = rj::format(&parse(json).unwrap(), 2);
    assert_eq!(
        formatted,
        "[\n  1,\n  [\n    2,\n    [\n      3\n    ]\n  ]\n]"
    );
}
