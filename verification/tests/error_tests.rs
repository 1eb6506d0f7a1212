use rj::{parse, ParseError, ParseErrorKind, Value};

fn failure_at(json: &str) -> (ParseErrorKind, usize) {
    match parse(json) {
        Err(ParseError { kind, position }) => (kind, position),
        Ok(v) => panic!("Expected a failure, got {:?}", v),
    }
}

#[test]
fn unexpected_token() {
    assert_eq!(failure_at(""), (ParseErrorKind::UnexpectedToken, 0));
    assert_eq!(failure_at("   "), (ParseErrorKind::UnexpectedToken, 3));
    assert_eq!(failure_at("?"), (ParseErrorKind::UnexpectedToken, 0));
    assert_eq!(failure_at("  tru"), (ParseErrorKind::UnexpectedToken, 2));
    assert_eq!(failure_at("nul"), (ParseErrorKind::UnexpectedToken, 0));
    assert_eq!(failure_at("False"), (ParseErrorKind::UnexpectedToken, 0));
    assert_eq!(failure_at(".5"), (ParseErrorKind::UnexpectedToken, 0));
    assert_eq!(failure_at("+1"), (ParseErrorKind::UnexpectedToken, 0));
    assert_eq!(failure_at("[1,]"), (ParseErrorKind::UnexpectedToken, 3));
    assert_eq!(failure_at("[,1]"), (ParseErrorKind::UnexpectedToken, 1));
    assert_eq!(failure_at("["), (ParseErrorKind::UnexpectedToken, 1));
    assert_eq!(failure_at(r#"{"a":}"#), (ParseErrorKind::UnexpectedToken, 5));
}

#[test]
fn unexpected_token_where_a_member_name_should_be() {
    assert_eq!(failure_at("{a:1}"), (ParseErrorKind::UnexpectedToken, 1));
    assert_eq!(failure_at(r#"{"a":1,}"#), (ParseErrorKind::UnexpectedToken, 7));
    assert_eq!(failure_at("{"), (ParseErrorKind::UnexpectedToken, 1));
    assert_eq!(failure_at("{ 1: 2}"), (ParseErrorKind::UnexpectedToken, 2));
}

#[test]
fn missing_delimiter() {
    assert_eq!(failure_at(r#"{"k" "v"}"#), (ParseErrorKind::MissingDelimiter, 5));
    assert_eq!(failure_at(r#"{"k""#), (ParseErrorKind::MissingDelimiter, 4));
    assert_eq!(failure_at(r#"{"k":1"#), (ParseErrorKind::MissingDelimiter, 6));
    assert_eq!(failure_at(r#"{"k":1 "l":2}"#), (ParseErrorKind::MissingDelimiter, 7));
    assert_eq!(failure_at(r#"{"k":1]"#), (ParseErrorKind::MissingDelimiter, 6));
    assert_eq!(failure_at("[1 2]"), (ParseErrorKind::MissingDelimiter, 3));
    assert_eq!(failure_at("[1"), (ParseErrorKind::MissingDelimiter, 2));
    assert_eq!(failure_at("[1 "), (ParseErrorKind::MissingDelimiter, 3));
    assert_eq!(failure_at("[1}"), (ParseErrorKind::MissingDelimiter, 2));
    assert_eq!(failure_at("[truex]"), (ParseErrorKind::MissingDelimiter, 5));
}

#[test]
fn unterminated_string() {
    assert_eq!(failure_at("\"unterminated"), (ParseErrorKind::UnterminatedString, 0));
    assert_eq!(failure_at("\""), (ParseErrorKind::UnterminatedString, 0));
    assert_eq!(failure_at("  [\"a\", \"b"), (ParseErrorKind::UnterminatedString, 8));
    assert_eq!(failure_at(r#""a\""#), (ParseErrorKind::UnterminatedString, 0));
    assert_eq!(failure_at(r#"{"a"#), (ParseErrorKind::UnterminatedString, 1));
}

#[test]
fn invalid_escape() {
    assert_eq!(failure_at(r#""\x""#), (ParseErrorKind::InvalidEscape, 1));
    assert_eq!(failure_at(r#""ab\a""#), (ParseErrorKind::InvalidEscape, 3));
    assert_eq!(failure_at(r#""\U0041""#), (ParseErrorKind::InvalidEscape, 1));
    assert_eq!(failure_at(r#""\ ""#), (ParseErrorKind::InvalidEscape, 1));
    assert_eq!(failure_at("\"ab\\"), (ParseErrorKind::InvalidEscape, 3));
}

#[test]
fn invalid_unicode_escape() {
    assert_eq!(failure_at(r#""\u""#), (ParseErrorKind::InvalidUnicodeEscape, 1));
    assert_eq!(failure_at(r#""\u12""#), (ParseErrorKind::InvalidUnicodeEscape, 1));
    assert_eq!(failure_at(r#""a\u123"#), (ParseErrorKind::InvalidUnicodeEscape, 2));
    assert_eq!(failure_at(r#""\u12G4""#), (ParseErrorKind::InvalidUnicodeEscape, 1));
    assert_eq!(failure_at(r#""\u+123""#), (ParseErrorKind::InvalidUnicodeEscape, 1));
    assert_eq!(failure_at("\"\\u"), (ParseErrorKind::InvalidUnicodeEscape, 1));
}

#[test]
fn surrogate_escape_names_no_character() {
    assert_eq!(failure_at(r#""\uD800""#), (ParseErrorKind::InvalidUnicodeEscape, 1));
    assert_eq!(failure_at(r#""\uDFFF""#), (ParseErrorKind::InvalidUnicodeEscape, 1));
    assert_eq!(failure_at(r#""\uD83D\uDE00""#), (ParseErrorKind::InvalidUnicodeEscape, 1));
    assert_eq!(parse(r#""\uD7FF""#).unwrap(), Value::String("\u{D7FF}".to_string()));
    assert_eq!(parse(r#""\uE000""#).unwrap(), Value::String("\u{E000}".to_string()));
    assert_eq!(parse(r#""\uFFFF""#).unwrap(), Value::String("\u{FFFF}".to_string()));
    assert_eq!(parse(r#""\u0000""#).unwrap(), Value::String("\u{0}".to_string()));
}

#[test]
fn unescaped_control_char() {
    assert_eq!(failure_at("\"a\tb\""), (ParseErrorKind::UnescapedControlChar, 2));
    assert_eq!(failure_at("\"a\nb\""), (ParseErrorKind::UnescapedControlChar, 2));
    assert_eq!(failure_at("\"\r\""), (ParseErrorKind::UnescapedControlChar, 1));
    assert_eq!(parse("\"a\u{0}\u{1f}b\"").unwrap(), Value::String("a\u{0}\u{1f}b".to_string()));
}

#[test]
fn trailing_content() {
    assert_eq!(failure_at("{}extra"), (ParseErrorKind::TrailingContent, 2));
    assert_eq!(failure_at("null null"), (ParseErrorKind::TrailingContent, 5));
    assert_eq!(failure_at("[] ,"), (ParseErrorKind::TrailingContent, 3));
    assert_eq!(failure_at("truex"), (ParseErrorKind::TrailingContent, 4));
    assert_eq!(failure_at("1 2"), (ParseErrorKind::TrailingContent, 2));
    assert_eq!(failure_at("\"a\"\u{a0}"), (ParseErrorKind::TrailingContent, 3));
}

#[test]
fn malformed_number() {
    assert_eq!(failure_at("-"), (ParseErrorKind::MalformedNumber, 0));
    assert_eq!(failure_at("1-2"), (ParseErrorKind::MalformedNumber, 0));
    assert_eq!(failure_at("1+2"), (ParseErrorKind::MalformedNumber, 0));
    assert_eq!(failure_at("--1"), (ParseErrorKind::MalformedNumber, 0));
    assert_eq!(failure_at("1e"), (ParseErrorKind::MalformedNumber, 0));
    assert_eq!(failure_at("1e+"), (ParseErrorKind::MalformedNumber, 0));
    assert_eq!(failure_at("1.2.3"), (ParseErrorKind::MalformedNumber, 0));
    assert_eq!(failure_at("1e5e5"), (ParseErrorKind::MalformedNumber, 0));
    assert_eq!(failure_at("-e5"), (ParseErrorKind::MalformedNumber, 0));
    assert_eq!(failure_at("[1, 2e]"), (ParseErrorKind::MalformedNumber, 4));
    assert_eq!(failure_at(r#"{"a": -.}"#), (ParseErrorKind::MalformedNumber, 6));
}

#[test]
fn positions_count_characters() {
    assert_eq!(failure_at("\"é\" x"), (ParseErrorKind::TrailingContent, 4));
    assert_eq!(failure_at("[\"あい\", ?]"), (ParseErrorKind::UnexpectedToken, 7));
}

#[test]
fn first_failure_wins() {
    assert_eq!(failure_at("[\"\\x\", 1e, ?"), (ParseErrorKind::InvalidEscape, 2));
    assert_eq!(failure_at("[1e, \"\\x\""), (ParseErrorKind::MalformedNumber, 1));
}
