//! The grammar of JSON text, as functions from text to trees.
//!
//! Each production reads the text `s` from a position and gives either what
//! it read together with the position after it, or the first failure. The
//! productions for members and elements carry what they have read so far, so
//! that they read a list from left to right.

use crate::error::{Failure, ParseErrorKind};
use crate::tree::{insert_member, Tree};
use vstd::prelude::*;

verus! {

/// What a production gives: a result and the position after it, or a failure.
pub type Outcome<T> = Result<(T, int), Failure>;

/// The outcome of a production that fails with `kind` at `position`.
pub open spec fn failure<T>(kind: ParseErrorKind, position: int) -> Outcome<T> {
    Err(Failure { kind, position })
}

/// Space, tab, line feed and carriage return separate tokens; nothing else does.
pub open spec fn is_whitespace(c: char) -> bool {
    c == ' ' || c == '\t' || c == '\n' || c == '\r'
}

/// The first position at or after `pos` that holds no whitespace.
pub open spec fn skip_whitespace(s: Seq<char>, pos: int) -> int
    decreases s.len() - pos,
{
    if 0 <= pos < s.len() && is_whitespace(s[pos]) {
        skip_whitespace(s, pos + 1)
    } else {
        pos
    }
}

/// `word` stands in `s` at `pos`.
pub open spec fn has_word(s: Seq<char>, pos: int, word: Seq<char>) -> bool {
    0 <= pos && pos + word.len() <= s.len() && s.subrange(pos, pos + word.len()) == word
}

pub open spec fn word_false() -> Seq<char> {
    seq!['f', 'a', 'l', 's', 'e']
}

pub open spec fn word_null() -> Seq<char> {
    seq!['n', 'u', 'l', 'l']
}

pub open spec fn word_true() -> Seq<char> {
    seq!['t', 'r', 'u', 'e']
}

pub open spec fn is_digit(c: char) -> bool {
    '0' <= c <= '9'
}

/// The first position at or after `pos` that holds no digit.
pub open spec fn digits_end(text: Seq<char>, pos: int) -> int
    decreases text.len() - pos,
{
    if 0 <= pos < text.len() && is_digit(text[pos]) {
        digits_end(text, pos + 1)
    } else {
        pos
    }
}

/// `text` is a numeral: an optional `-`; digits with at most one `.` among
/// them, at least one digit in all; and optionally an exponent, which is `e`
/// or `E`, an optional sign, and at least one digit. A numeral without `-`
/// starts with a digit.
pub open spec fn is_numeral(text: Seq<char>) -> bool {
    let start = if text.len() > 0 && text[0] == '-' { 1int } else { 0int };
    let whole_end = digits_end(text, start);
    let has_point = whole_end < text.len() && text[whole_end] == '.';
    let mantissa_end = if has_point { digits_end(text, whole_end + 1) } else { whole_end };
    let digits = if has_point { mantissa_end - start - 1 } else { mantissa_end - start };
    &&& text.len() > 0 && (text[0] == '-' || is_digit(text[0]))
    &&& digits >= 1
    &&& mantissa_end == text.len() || {
        let sign = mantissa_end + 1;
        let exponent = if sign < text.len() && (text[sign] == '+' || text[sign] == '-') {
            sign + 1
        } else {
            sign
        };
        &&& text[mantissa_end] == 'e' || text[mantissa_end] == 'E'
        &&& exponent < text.len()
        &&& digits_end(text, exponent) == text.len()
    }
}

/// A character that can occur in a numeral.
pub open spec fn is_numeral_char(c: char) -> bool {
    is_digit(c) || c == '.' || c == 'e' || c == 'E' || c == '+' || c == '-'
}

/// The first position at or after `pos` that holds no character of a numeral.
pub open spec fn numeral_end(s: Seq<char>, pos: int) -> int
    decreases s.len() - pos,
{
    if 0 <= pos < s.len() && is_numeral_char(s[pos]) {
        numeral_end(s, pos + 1)
    } else {
        pos
    }
}

/// A number: the longest run of numeral characters from `pos`, which must be
/// a numeral as a whole.
pub open spec fn parse_number(s: Seq<char>, pos: int) -> Outcome<Seq<char>> {
    let end = numeral_end(s, pos);
    let text = s.subrange(pos, end);
    if is_numeral(text) {
        Ok((text, end))
    } else {
        failure(ParseErrorKind::MalformedNumber, pos)
    }
}

/// The character that a one-letter escape stands for.
pub open spec fn unescape(c: char) -> Option<char> {
    if c == '"' {
        Some('"')
    } else if c == '\\' {
        Some('\\')
    } else if c == '/' {
        Some('/')
    } else if c == 'b' {
        Some('\u{8}')
    } else if c == 'f' {
        Some('\u{c}')
    } else if c == 'n' {
        Some('\n')
    } else if c == 'r' {
        Some('\r')
    } else if c == 't' {
        Some('\t')
    } else {
        None
    }
}

/// The value of a hexadecimal digit, in either case.
pub open spec fn hex_value(c: char) -> Option<int> {
    if '0' <= c <= '9' {
        Some(c as int - '0' as int)
    } else if 'a' <= c <= 'f' {
        Some(c as int - 'a' as int + 10)
    } else if 'A' <= c <= 'F' {
        Some(c as int - 'A' as int + 10)
    } else {
        None
    }
}

/// The number that the four hexadecimal digits from `pos` write, if four stand there.
pub open spec fn hex_code(s: Seq<char>, pos: int) -> Option<int> {
    if 0 <= pos && pos + 4 <= s.len() && hex_value(s[pos]) is Some && hex_value(s[pos + 1]) is Some
        && hex_value(s[pos + 2]) is Some && hex_value(s[pos + 3]) is Some {
        Some(
            ((hex_value(s[pos])->0 * 16 + hex_value(s[pos + 1])->0) * 16 + hex_value(
                s[pos + 2],
            )->0) * 16 + hex_value(s[pos + 3])->0,
        )
    } else {
        None
    }
}

/// `code` is the code of a character: a code point that is no surrogate.
pub open spec fn is_scalar(code: int) -> bool {
    0 <= code < 0xD800 || 0xE000 <= code <= 0x10FFFF
}

/// The rest of a string whose opening quote stands at `start`: `acc` has been
/// read, and `pos` is the next character.
pub open spec fn string_body(s: Seq<char>, pos: int, acc: Seq<char>, start: int) -> Outcome<
    Seq<char>,
>
    decreases s.len() - pos,
{
    if pos < 0 || pos >= s.len() {
        failure(ParseErrorKind::UnterminatedString, start)
    } else if s[pos] == '"' {
        Ok((acc, pos + 1))
    } else if s[pos] == '\\' {
        if pos + 1 >= s.len() {
            failure(ParseErrorKind::InvalidEscape, pos)
        } else if s[pos + 1] == 'u' {
            match hex_code(s, pos + 2) {
                Some(code) if is_scalar(code) => string_body(
                    s,
                    pos + 6,
                    acc.push(code as char),
                    start,
                ),
                _ => failure(ParseErrorKind::InvalidUnicodeEscape, pos),
            }
        } else {
            match unescape(s[pos + 1]) {
                Some(c) => string_body(s, pos + 2, acc.push(c), start),
                None => failure(ParseErrorKind::InvalidEscape, pos),
            }
        }
    } else if s[pos] == '\t' || s[pos] == '\n' || s[pos] == '\r' {
        failure(ParseErrorKind::UnescapedControlChar, pos)
    } else {
        string_body(s, pos + 1, acc.push(s[pos]), start)
    }
}

/// A string: a quote at `pos`, then characters and escapes up to the closing quote.
pub open spec fn parse_string(s: Seq<char>, pos: int) -> Outcome<Seq<char>> {
    if 0 <= pos < s.len() && s[pos] == '"' {
        string_body(s, pos + 1, Seq::empty(), pos)
    } else {
        failure(ParseErrorKind::UnexpectedToken, pos)
    }
}

/// A value, after any whitespace: a literal, an object, an array, a string or
/// a number, told apart by how it starts.
pub open spec fn parse_value(s: Seq<char>, pos: int) -> Outcome<Tree>
    decreases s.len() - pos, 1int,
{
    let p = skip_whitespace(s, pos);
    if pos < 0 {
        failure(ParseErrorKind::UnexpectedToken, pos)
    } else if has_word(s, p, word_false()) {
        Ok((Tree::Boolean(false), p + 5))
    } else if has_word(s, p, word_null()) {
        Ok((Tree::Null, p + 4))
    } else if has_word(s, p, word_true()) {
        Ok((Tree::Boolean(true), p + 4))
    } else if p >= s.len() {
        failure(ParseErrorKind::UnexpectedToken, p)
    } else if s[p] == '{' {
        proof {
            lemma_skip_whitespace(s, pos);
        }
        parse_object(s, p)
    } else if s[p] == '[' {
        proof {
            lemma_skip_whitespace(s, pos);
        }
        parse_array(s, p)
    } else if s[p] == '"' {
        match parse_string(s, p) {
            Ok((text, rest)) => Ok((Tree::String(text), rest)),
            Err(f) => Err(f),
        }
    } else if s[p] == '-' || is_digit(s[p]) {
        match parse_number(s, p) {
            Ok((numeral, rest)) => Ok((Tree::Number(numeral), rest)),
            Err(f) => Err(f),
        }
    } else {
        failure(ParseErrorKind::UnexpectedToken, p)
    }
}

/// Reading from `from` ended at `to`: further on, and inside the text.
pub open spec fn moved(s: Seq<char>, from: int, to: int) -> bool {
    from < to <= s.len()
}

/// An object whose `{` stands at `pos`.
pub open spec fn parse_object(s: Seq<char>, pos: int) -> Outcome<Tree>
    decreases s.len() - pos, 0int,
{
    let p = skip_whitespace(s, pos + 1);
    if pos < 0 || pos >= s.len() {
        failure(ParseErrorKind::UnexpectedToken, pos)
    } else if p < s.len() && s[p] == '}' {
        Ok((Tree::Object(Seq::empty()), p + 1))
    } else {
        match parse_members(s, pos + 1, Seq::empty()) {
            Ok((members, rest)) => Ok((Tree::Object(members), rest)),
            Err(f) => Err(f),
        }
    }
}

/// The members of an object from `pos` to its `}`: `acc` has been read, and a
/// member name comes next. A name that was read before gets the new value.
pub open spec fn parse_members(
    s: Seq<char>,
    pos: int,
    acc: Seq<(Seq<char>, Tree)>,
) -> Outcome<Seq<(Seq<char>, Tree)>>
    decreases s.len() - pos, 2int,
{
    let p = skip_whitespace(s, pos);
    if pos < 0 || pos > s.len() {
        failure(ParseErrorKind::UnexpectedToken, pos)
    } else {
        match parse_string(s, p) {
            Err(f) => Err(f),
            Ok((key, after_key)) => {
                let colon = skip_whitespace(s, after_key);
                if !(colon < s.len() && s[colon] == ':') {
                    failure(ParseErrorKind::MissingDelimiter, colon)
                } else {
                    proof {
                        lemma_skip_whitespace(s, pos);
                        lemma_string_advances(s, p);
                        lemma_skip_whitespace(s, after_key);
                    }
                    match parse_value(s, colon + 1) {
                        Err(f) => Err(f),
                        Ok((value, after_value)) => {
                            let next = skip_whitespace(s, after_value);
                            let members = insert_member(acc, key, value);
                            if !moved(s, colon, after_value) {
                                // Never taken: a value ends after it starts (`laws::lemma_value_read`).
                                failure(ParseErrorKind::MissingDelimiter, after_value)
                            } else if !(next < s.len()) {
                                failure(ParseErrorKind::MissingDelimiter, next)
                            } else if s[next] == ',' {
                                proof {
                                    lemma_skip_whitespace(s, after_value);
                                }
                                parse_members(s, next + 1, members)
                            } else if s[next] == '}' {
                                Ok((members, next + 1))
                            } else {
                                failure(ParseErrorKind::MissingDelimiter, next)
                            }
                        },
                    }
                }
            },
        }
    }
}

/// An array whose `[` stands at `pos`.
pub open spec fn parse_array(s: Seq<char>, pos: int) -> Outcome<Tree>
    decreases s.len() - pos, 0int,
{
    let p = skip_whitespace(s, pos + 1);
    if pos < 0 || pos >= s.len() {
        failure(ParseErrorKind::UnexpectedToken, pos)
    } else if p < s.len() && s[p] == ']' {
        Ok((Tree::Array(Seq::empty()), p + 1))
    } else {
        match parse_value(s, pos + 1) {
            Err(f) => Err(f),
            Ok((first, rest)) => {
                if !moved(s, pos, rest) {
                    // Never taken: a value ends after it starts (`laws::lemma_value_read`).
                    failure(ParseErrorKind::MissingDelimiter, rest)
                } else {
                    match parse_elements(s, rest, seq![first]) {
                        Ok((elements, end)) => Ok((Tree::Array(elements), end)),
                        Err(f) => Err(f),
                    }
                }
            },
        }
    }
}

/// The elements of an array from `pos` to its `]`: `acc` has been read, and a
/// `,` or the `]` comes next.
pub open spec fn parse_elements(s: Seq<char>, pos: int, acc: Seq<Tree>) -> Outcome<Seq<Tree>>
    decreases s.len() - pos, 2int,
{
    let next = skip_whitespace(s, pos);
    if pos < 0 || !(next < s.len()) {
        failure(ParseErrorKind::MissingDelimiter, next)
    } else if s[next] == ',' {
        proof {
            lemma_skip_whitespace(s, pos);
        }
        match parse_value(s, next + 1) {
            Err(f) => Err(f),
            Ok((value, rest)) => {
                if !moved(s, next, rest) {
                    // Never taken: a value ends after it starts (`laws::lemma_value_read`).
                    failure(ParseErrorKind::MissingDelimiter, rest)
                } else {
                    parse_elements(s, rest, acc.push(value))
                }
            },
        }
    } else if s[next] == ']' {
        Ok((acc, next + 1))
    } else {
        failure(ParseErrorKind::MissingDelimiter, next)
    }
}

/// A document: one value, with nothing but whitespace after it.
pub open spec fn parse_text(s: Seq<char>) -> Result<Tree, Failure> {
    match parse_value(s, 0) {
        Err(f) => Err(f),
        Ok((tree, rest)) => {
            let end = skip_whitespace(s, rest);
            if end >= s.len() {
                Ok(tree)
            } else {
                Err(Failure { kind: ParseErrorKind::TrailingContent, position: end })
            }
        },
    }
}

/// Skipping whitespace moves forward, stays inside the text, and stops at a
/// character that is no whitespace.
pub proof fn lemma_skip_whitespace(s: Seq<char>, pos: int)
    requires
        0 <= pos <= s.len(),
    ensures
        pos <= skip_whitespace(s, pos) <= s.len(),
        skip_whitespace(s, pos) < s.len() ==> !is_whitespace(s[skip_whitespace(s, pos)]),
        forall|i: int| pos <= i < skip_whitespace(s, pos) ==> is_whitespace(#[trigger] s[i]),
    decreases s.len() - pos,
{
    if pos < s.len() && is_whitespace(s[pos]) {
        lemma_skip_whitespace(s, pos + 1);
    }
}

/// `word` stands in `s` at `pos` when each of its characters does.
pub proof fn lemma_has_word(s: Seq<char>, pos: int, word: Seq<char>)
    requires
        0 <= pos,
    ensures
        has_word(s, pos, word) <==> pos + word.len() <= s.len() && forall|k: int|
            0 <= k < word.len() ==> s[pos + k] == #[trigger] word[k],
{
    if pos + word.len() <= s.len() {
        let part = s.subrange(pos, pos + word.len());
        if forall|k: int| 0 <= k < word.len() ==> s[pos + k] == #[trigger] word[k] {
            assert(part =~= word);
        }
        if part == word {
            assert forall|k: int| 0 <= k < word.len() implies s[pos + k] == #[trigger] word[k] by {
                assert(part[k] == s[pos + k]);
            }
        }
    }
}

/// A text of two parts stands at `pos` when the first part stands there and
/// the second stands behind it.
pub proof fn lemma_has_word_concat(s: Seq<char>, pos: int, a: Seq<char>, b: Seq<char>)
    requires
        0 <= pos,
    ensures
        has_word(s, pos, a + b) <==> has_word(s, pos, a) && has_word(s, pos + a.len(), b),
{
    lemma_has_word(s, pos, a + b);
    lemma_has_word(s, pos, a);
    lemma_has_word(s, pos + a.len(), b);
    if has_word(s, pos, a + b) {
        assert forall|k: int| 0 <= k < a.len() implies s[pos + k] == #[trigger] a[k] by {
            assert((a + b)[k] == a[k]);
        }
        assert forall|k: int| 0 <= k < b.len() implies s[pos + a.len() + k] == #[trigger] b[k] by {
            assert((a + b)[a.len() + k] == b[k]);
        }
    }
    if has_word(s, pos, a) && has_word(s, pos + a.len(), b) {
        assert forall|k: int| 0 <= k < (a + b).len() implies s[pos + k] == #[trigger] (a + b)[k] by {
            if k < a.len() {
                assert((a + b)[k] == a[k]);
            } else {
                assert((a + b)[k] == b[k - a.len()]);
                assert(s[pos + a.len() + (k - a.len())] == b[k - a.len()]);
            }
        }
    }
}

/// The digits from `pos` end inside the text, at a character that is no digit.
pub proof fn lemma_digits_end(text: Seq<char>, pos: int)
    requires
        0 <= pos <= text.len(),
    ensures
        pos <= digits_end(text, pos) <= text.len(),
        digits_end(text, pos) < text.len() ==> !is_digit(text[digits_end(text, pos)]),
        forall|i: int| pos <= i < digits_end(text, pos) ==> is_digit(#[trigger] text[i]),
    decreases text.len() - pos,
{
    if pos < text.len() && is_digit(text[pos]) {
        lemma_digits_end(text, pos + 1);
    }
}

/// The numeral characters from `pos` end inside the text, at a character that is none.
pub proof fn lemma_numeral_end(s: Seq<char>, pos: int)
    requires
        0 <= pos <= s.len(),
    ensures
        pos <= numeral_end(s, pos) <= s.len(),
        numeral_end(s, pos) < s.len() ==> !is_numeral_char(s[numeral_end(s, pos)]),
        forall|i: int| pos <= i < numeral_end(s, pos) ==> is_numeral_char(#[trigger] s[i]),
    decreases s.len() - pos,
{
    if pos < s.len() && is_numeral_char(s[pos]) {
        lemma_numeral_end(s, pos + 1);
    }
}

/// A string ends after its opening quote, inside the text.
pub proof fn lemma_string_advances(s: Seq<char>, pos: int)
    ensures
        parse_string(s, pos) matches Ok((_, rest)) ==> pos + 2 <= rest <= s.len(),
{
    if 0 <= pos < s.len() && s[pos] == '"' {
        lemma_string_body_advances(s, pos + 1, Seq::empty(), pos);
    }
}

/// The rest of a string ends after the position it is read from, inside the text.
pub proof fn lemma_string_body_advances(s: Seq<char>, pos: int, acc: Seq<char>, start: int)
    ensures
        string_body(s, pos, acc, start) matches Ok((_, rest)) ==> pos < rest <= s.len(),
    decreases s.len() - pos,
{
    if 0 <= pos < s.len() && s[pos] != '"' {
        if s[pos] == '\\' {
            if pos + 1 < s.len() {
                if s[pos + 1] == 'u' {
                    match hex_code(s, pos + 2) {
                        Some(code) if is_scalar(code) => {
                            lemma_string_body_advances(s, pos + 6, acc.push(code as char), start);
                        },
                        _ => {},
                    }
                } else {
                    match unescape(s[pos + 1]) {
                        Some(c) => {
                            lemma_string_body_advances(s, pos + 2, acc.push(c), start);
                        },
                        None => {},
                    }
                }
            }
        } else if !(s[pos] == '\t' || s[pos] == '\n' || s[pos] == '\r') {
            lemma_string_body_advances(s, pos + 1, acc.push(s[pos]), start);
        }
    }
}

} // verus!
