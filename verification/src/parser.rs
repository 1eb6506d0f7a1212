//! The parser: one function for each production of the grammar.
//!
//! Each function reads `input` from a position and returns what it read and
//! the position after it, exactly as the production of the same name in
//! [`crate::grammar`] says.

use crate::error::{Failure, ParseError, ParseErrorKind};
use crate::grammar::{
    hex_code, hex_value, is_numeral_char, is_scalar, lemma_has_word,
    numeral_end, parse_array, parse_elements, parse_members, parse_number, parse_object,
    parse_string, parse_value, skip_whitespace, string_body, word_false, word_null, word_true,
};
use crate::numeral::is_numeral_text;
use crate::text::string_of;
use crate::tree::Tree;
use crate::value::{lemma_trees, trees, Number, Object, Value};
use vstd::prelude::*;
use vstd::slice::slice_subrange;

verus! {

fn fail<T>(kind: ParseErrorKind, position: usize) -> (r: Result<T, ParseError>)
    ensures
        r matches Err(e) && e.reports(Failure { kind, position: position as int }),
{
    Err(ParseError { kind, position })
}

/// The first position at or after `pos` that holds no whitespace.
pub fn eat_whitespace(input: &[char], pos: usize) -> (end: usize)
    requires
        pos <= input@.len(),
    ensures
        end == skip_whitespace(input@, pos as int),
        pos <= end <= input@.len(),
{
    let mut i = pos;
    while i < input.len() && (input[i] == ' ' || input[i] == '\t' || input[i] == '\n' || input[i]
        == '\r')
        invariant
            pos <= i <= input@.len(),
            skip_whitespace(input@, pos as int) == skip_whitespace(input@, i as int),
        decreases input@.len() - i,
    {
        i += 1;
    }
    i
}

/// The value of a hexadecimal digit.
fn hex_digit(c: char) -> (r: Option<u32>)
    ensures
        match r {
            Some(d) => d < 16 && hex_value(c) == Some(d as int),
            None => hex_value(c) is None,
        },
{
    if c >= '0' && c <= '9' {
        Some(c as u32 - '0' as u32)
    } else if c >= 'a' && c <= 'f' {
        Some(c as u32 - 'a' as u32 + 10)
    } else if c >= 'A' && c <= 'F' {
        Some(c as u32 - 'A' as u32 + 10)
    } else {
        None
    }
}

/// The number that the first `n` hexadecimal digits from `pos` write.
spec fn hex_prefix(s: Seq<char>, pos: int, n: int) -> int
    decreases n,
{
    if n <= 0 {
        0
    } else {
        hex_prefix(s, pos, n - 1) * 16 + hex_value(s[pos + n - 1])->0
    }
}

/// The character that the four hexadecimal digits from `pos` name.
fn escaped_scalar(input: &[char], pos: usize) -> (r: Option<char>)
    requires
        pos <= input@.len(),
    ensures
        match r {
            Some(c) => hex_code(input@, pos as int) matches Some(code) && is_scalar(code) && c
                == code as char,
            None => !(hex_code(input@, pos as int) matches Some(code) && is_scalar(code)),
        },
{
    let len = input.len();
    if len - pos < 4 {
        return None;
    }
    let mut code: u32 = 0;
    let mut i: usize = 0;
    while i < 4
        invariant
            i <= 4,
            pos + 4 <= len == input@.len(),
            forall|k: int| 0 <= k < i ==> hex_value(#[trigger] input@[pos + k]) is Some,
            code as int == hex_prefix(input@, pos as int, i as int),
            code < 0x10000,
            i < 4 ==> code < 0x1000,
            i < 3 ==> code < 0x100,
            i < 2 ==> code < 0x10,
            i < 1 ==> code == 0,
        decreases 4 - i,
    {
        match hex_digit(input[pos + i]) {
            Some(d) => {
                code = code * 16 + d;
            },
            None => {
                return None;
            },
        }
        i += 1;
    }
    proof {
        reveal_with_fuel(hex_prefix, 5);
    }
    std::char::from_u32(code)
}

/// A string whose opening quote is expected at `pos`: the characters up to
/// the closing quote, with each escape replaced by what it stands for.
pub fn string(input: &[char], pos: usize) -> (r: Result<(String, usize), ParseError>)
    requires
        pos <= input@.len(),
    ensures
        match parse_string(input@, pos as int) {
            Ok((text, rest)) => r matches Ok((t, p)) && t@ == text && p == rest,
            Err(f) => r matches Err(e) && e.reports(f),
        },
        r matches Ok((_, p)) ==> pos < p <= input@.len(),
{
    let len = input.len();
    if !(pos < len && input[pos] == '"') {
        return fail(ParseErrorKind::UnexpectedToken, pos);
    }
    let mut text = String::new();
    let mut i: usize = pos + 1;
    loop
        invariant
            pos < i <= len,
            len == input@.len(),
            string_body(input@, i as int, text@, pos as int) == parse_string(input@, pos as int),
        decreases len - i,
    {
        if i >= len {
            return fail(ParseErrorKind::UnterminatedString, pos);
        }
        let c = input[i];
        if c == '"' {
            return Ok((text, i + 1));
        } else if c == '\\' {
            if i + 1 >= len {
                return fail(ParseErrorKind::InvalidEscape, i);
            }
            let e = input[i + 1];
            if e == 'u' {
                match escaped_scalar(input, i + 2) {
                    Some(scalar) => {
                        text.push(scalar);
                        i += 6;
                    },
                    None => {
                        return fail(ParseErrorKind::InvalidUnicodeEscape, i);
                    },
                }
            } else {
                let plain = if e == '"' {
                    '"'
                } else if e == '\\' {
                    '\\'
                } else if e == '/' {
                    '/'
                } else if e == 'b' {
                    '\u{8}'
                } else if e == 'f' {
                    '\u{c}'
                } else if e == 'n' {
                    '\n'
                } else if e == 'r' {
                    '\r'
                } else if e == 't' {
                    '\t'
                } else {
                    return fail(ParseErrorKind::InvalidEscape, i);
                };
                text.push(plain);
                i += 2;
            }
        } else if c == '\t' || c == '\n' || c == '\r' {
            return fail(ParseErrorKind::UnescapedControlChar, i);
        } else {
            text.push(c);
            i += 1;
        }
    }
}

/// A number that starts at `pos`: the longest run of numeral characters,
/// which must be a numeral as a whole.
pub fn number(input: &[char], pos: usize) -> (r: Result<(Number, usize), ParseError>)
    requires
        pos <= input@.len(),
    ensures
        match parse_number(input@, pos as int) {
            Ok((numeral, rest)) => r matches Ok((n, p)) && n@ == numeral && p == rest,
            Err(f) => r matches Err(e) && e.reports(f),
        },
        r matches Ok((_, p)) ==> pos < p <= input@.len(),
{
    let mut end = pos;
    while end < input.len() && is_numeral_character(input[end])
        invariant
            pos <= end <= input@.len(),
            numeral_end(input@, pos as int) == numeral_end(input@, end as int),
        decreases input@.len() - end,
    {
        end += 1;
    }
    if is_numeral_text(slice_subrange(input, pos, end)) {
        Ok((Number::from_numeral(string_of(input, pos, end)), end))
    } else {
        fail(ParseErrorKind::MalformedNumber, pos)
    }
}

fn is_numeral_character(c: char) -> (r: bool)
    ensures
        r == is_numeral_char(c),
{
    (c >= '0' && c <= '9') || c == '.' || c == 'e' || c == 'E' || c == '+' || c == '-'
}

/// A value, after any whitespace.
pub fn value(input: &[char], pos: usize) -> (r: Result<(Value, usize), ParseError>)
    requires
        pos <= input@.len(),
    ensures
        match parse_value(input@, pos as int) {
            Ok((tree, rest)) => r matches Ok((v, p)) && v@ == tree && p == rest,
            Err(f) => r matches Err(e) && e.reports(f),
        },
        r matches Ok((_, p)) ==> pos < p <= input@.len(),
    decreases input@.len() - pos, 1int,
{
    let len = input.len();
    let p = eat_whitespace(input, pos);
    proof {
        lemma_has_word(input@, p as int, word_false());
        lemma_has_word(input@, p as int, word_null());
        lemma_has_word(input@, p as int, word_true());
    }
    if len - p >= 5 && input[p] == 'f' && input[p + 1] == 'a' && input[p + 2] == 'l' && input[p
        + 3] == 's' && input[p + 4] == 'e' {
        return Ok((Value::Boolean(false), p + 5));
    }
    if len - p >= 4 && input[p] == 'n' && input[p + 1] == 'u' && input[p + 2] == 'l' && input[p
        + 3] == 'l' {
        return Ok((Value::Null, p + 4));
    }
    if len - p >= 4 && input[p] == 't' && input[p + 1] == 'r' && input[p + 2] == 'u' && input[p
        + 3] == 'e' {
        return Ok((Value::Boolean(true), p + 4));
    }
    if p >= len {
        return fail(ParseErrorKind::UnexpectedToken, p);
    }
    let c = input[p];
    if c == '{' {
        match object(input, p) {
            Ok((members, rest)) => Ok((Value::Object(members), rest)),
            Err(e) => Err(e),
        }
    } else if c == '[' {
        match array(input, p) {
            Ok((elements, rest)) => Ok((Value::Array(elements), rest)),
            Err(e) => Err(e),
        }
    } else if c == '"' {
        match string(input, p) {
            Ok((text, rest)) => Ok((Value::String(text), rest)),
            Err(e) => Err(e),
        }
    } else if c == '-' || (c >= '0' && c <= '9') {
        match number(input, p) {
            Ok((n, rest)) => Ok((Value::Number(n), rest)),
            Err(e) => Err(e),
        }
    } else {
        fail(ParseErrorKind::UnexpectedToken, p)
    }
}

/// An object whose `{` stands at `pos`: its members, a later value for a
/// name replacing an earlier one.
pub fn object(input: &[char], pos: usize) -> (r: Result<(Object, usize), ParseError>)
    requires
        pos < input@.len(),
        input@[pos as int] == '{',
    ensures
        match parse_object(input@, pos as int) {
            Ok((tree, rest)) => r matches Ok((o, p)) && Tree::Object(o@) == tree && p == rest,
            Err(f) => r matches Err(e) && e.reports(f),
        },
        r matches Ok((_, p)) ==> pos < p <= input@.len(),
    decreases input@.len() - pos, 0int,
{
    let len = input.len();
    let mut members = Object::new();
    let first = eat_whitespace(input, pos + 1);
    if first < len && input[first] == '}' {
        return Ok((members, first + 1));
    }
    let mut cur = pos + 1;
    loop
        invariant
            pos < cur <= len,
            len == input@.len(),
            parse_object(input@, pos as int) == match parse_members(input@, cur as int, members@) {
                Ok((all, rest)) => Ok((Tree::Object(all), rest)),
                Err(f) => Err(f),
            },
        decreases len - cur,
    {
        let p = eat_whitespace(input, cur);
        let (key, after_key) = match string(input, p) {
            Ok(read) => read,
            Err(e) => {
                return Err(e);
            },
        };
        let colon = eat_whitespace(input, after_key);
        if !(colon < len && input[colon] == ':') {
            return fail(ParseErrorKind::MissingDelimiter, colon);
        }
        let (member, after_value) = match value(input, colon + 1) {
            Ok(read) => read,
            Err(e) => {
                return Err(e);
            },
        };
        let next = eat_whitespace(input, after_value);
        members.insert(key, member);
        if !(next < len) {
            return fail(ParseErrorKind::MissingDelimiter, next);
        }
        if input[next] == ',' {
            cur = next + 1;
        } else if input[next] == '}' {
            return Ok((members, next + 1));
        } else {
            return fail(ParseErrorKind::MissingDelimiter, next);
        }
    }
}

/// An array whose `[` stands at `pos`: its elements in order.
pub fn array(input: &[char], pos: usize) -> (r: Result<(Vec<Value>, usize), ParseError>)
    requires
        pos < input@.len(),
        input@[pos as int] == '[',
    ensures
        match parse_array(input@, pos as int) {
            Ok((tree, rest)) => r matches Ok((v, p)) && Tree::Array(trees(v@)) == tree && p
                == rest,
            Err(f) => r matches Err(e) && e.reports(f),
        },
        r matches Ok((_, p)) ==> pos < p <= input@.len(),
    decreases input@.len() - pos, 0int,
{
    let len = input.len();
    let mut elements: Vec<Value> = Vec::new();
    let first = eat_whitespace(input, pos + 1);
    if first < len && input[first] == ']' {
        proof {
            assert(trees(elements@) =~= Seq::<Tree>::empty());
        }
        return Ok((elements, first + 1));
    }
    let (element, rest) = match value(input, pos + 1) {
        Ok(read) => read,
        Err(e) => {
            return Err(e);
        },
    };
    elements.push(element);
    proof {
        lemma_trees(elements@);
        assert(trees(elements@) =~= seq![element@]);
    }
    let mut cur = rest;
    loop
        invariant
            pos < cur <= len,
            len == input@.len(),
            parse_array(input@, pos as int) == match parse_elements(
                input@,
                cur as int,
                trees(elements@),
            ) {
                Ok((all, rest)) => Ok((Tree::Array(all), rest)),
                Err(f) => Err(f),
            },
        decreases len - cur,
    {
        let next = eat_whitespace(input, cur);
        if !(next < len) {
            return fail(ParseErrorKind::MissingDelimiter, next);
        }
        if input[next] == ',' {
            let (element, rest) = match value(input, next + 1) {
                Ok(read) => read,
                Err(e) => {
                    return Err(e);
                },
            };
            proof {
                lemma_trees(elements@);
                lemma_trees(elements@.push(element));
                assert(trees(elements@.push(element)) =~= trees(elements@).push(element@));
            }
            elements.push(element);
            cur = rest;
        } else if input[next] == ']' {
            return Ok((elements, next + 1));
        } else {
            return fail(ParseErrorKind::MissingDelimiter, next);
        }
    }
}

} // verus!
