//! A small JSON library: text to value, value to text.
//!
//! [`parse`] reads a document into a [`Value`]; [`stringify`] and [`format`]
//! write a value out, compact or indented. What each of them does is stated
//! over the grammar in [`grammar`] and the forms in [`generate`], and
//! [`laws`] proves how reading and writing fit together.

use vstd::prelude::*;

pub mod error;
pub mod generate;
pub mod grammar;
pub mod laws;
pub mod numeral;
pub mod parser;
pub mod text;
pub mod tree;
pub mod value;

pub use error::{ParseError, ParseErrorKind};
pub use value::{IndexError, Number, Object, Value};

verus! {

/// The value that the document `input` holds: one value, with nothing but
/// whitespace around it. Otherwise the first failure, and where it was met.
pub fn parse(input: &str) -> (r: Result<Value, ParseError>)
    ensures
        match grammar::parse_text(input@) {
            Ok(tree) => r matches Ok(v) && v@ == tree,
            Err(f) => r matches Err(e) && e.reports(f),
        },
{
    let chars = text::chars_of(input);
    let (v, rest) = match parser::value(chars.as_slice(), 0) {
        Ok(read) => read,
        Err(e) => {
            return Err(e);
        },
    };
    let end = parser::eat_whitespace(chars.as_slice(), rest);
    if end >= chars.len() {
        Ok(v)
    } else {
        Err(ParseError { kind: ParseErrorKind::TrailingContent, position: end })
    }
}

/// The compact form of `value`: no whitespace between tokens, strings
/// between quotes as they are.
pub fn stringify(value: &Value) -> (out: String)
    ensures
        out@ == generate::compact_text(value@),
{
    let mut out = String::new();
    generate::write_compact(value, &mut out);
    assert(out@ =~= generate::compact_text(value@));
    out
}

/// The pretty form of `value`: the members of the outermost container stand
/// at column `indent`, each nested container two columns further in.
pub fn format(value: &Value, indent: usize) -> (out: String)
    ensures
        out@ == generate::pretty_text(value@, indent as nat),
{
    let pad = generate::padding(indent);
    let closing = generate::padding(if indent >= 2 { indent - 2 } else { 0 });
    let mut out = String::new();
    generate::write_pretty(value, pad.as_str(), closing.as_str(), &mut out);
    assert(out@ =~= generate::pretty_text(value@, indent as nat));
    out
}

/// The sum of two numbers that fits in a `u64`.
pub fn add(left: u64, right: u64) -> (sum: u64)
    requires
        left + right <= u64::MAX,
    ensures
        sum == left + right,
{
    left + right
}

} // verus!
