//! How parsing fails.

use vstd::prelude::*;

verus! {

/// Why a text is not a JSON document.
#[derive(Debug, Clone, Copy, PartialEq, Eq)]
pub enum ParseErrorKind {
    /// The character that should start a value or a member name starts none.
    UnexpectedToken,
    /// A `:`, `,`, `}` or `]` is missing where one must stand.
    MissingDelimiter,
    /// The text ends inside a string.
    UnterminatedString,
    /// A backslash is followed by a character that names no escape, or by nothing.
    InvalidEscape,
    /// `\u` is not followed by four hexadecimal digits that name a character.
    InvalidUnicodeEscape,
    /// A tab, line feed or carriage return stands unescaped inside a string.
    UnescapedControlChar,
    /// Something other than whitespace follows the document.
    TrailingContent,
    /// The characters of a number do not form a numeral.
    MalformedNumber,
}

/// The first failure met while parsing, and the index of the character of
/// the input at which it was met.
#[derive(Debug, Clone, Copy, PartialEq, Eq)]
pub struct ParseError {
    pub kind: ParseErrorKind,
    pub position: usize,
}

/// A failure of the grammar: the mathematical side of a [`ParseError`].
pub struct Failure {
    pub kind: ParseErrorKind,
    pub position: int,
}

impl ParseError {
    /// This error reports the failure `failure`.
    pub open spec fn reports(self, failure: Failure) -> bool {
        self.kind == failure.kind && self.position == failure.position
    }
}

} // verus!
