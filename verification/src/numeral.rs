//! Telling numerals from other runs of characters.

use crate::grammar::{digits_end, is_numeral};
use vstd::prelude::*;

verus! {

/// The first position at or after `pos` that holds no digit.
pub fn skip_digits(text: &[char], pos: usize) -> (end: usize)
    requires
        pos <= text@.len(),
    ensures
        end == digits_end(text@, pos as int),
        pos <= end <= text@.len(),
{
    let mut i = pos;
    while i < text.len() && text[i] >= '0' && text[i] <= '9'
        invariant
            pos <= i <= text@.len(),
            digits_end(text@, pos as int) == digits_end(text@, i as int),
        decreases text@.len() - i,
    {
        i += 1;
    }
    i
}

/// Whether `text` is a numeral.
pub fn is_numeral_text(text: &[char]) -> (r: bool)
    ensures
        r == is_numeral(text@),
{
    let len = text.len();
    if !(len > 0 && (text[0] == '-' || (text[0] >= '0' && text[0] <= '9'))) {
        return false;
    }
    let start: usize = if text[0] == '-' { 1 } else { 0 };
    let whole_end = skip_digits(text, start);
    let has_point = whole_end < len && text[whole_end] == '.';
    let mantissa_end = if has_point { skip_digits(text, whole_end + 1) } else { whole_end };
    let digits = if has_point { mantissa_end - start - 1 } else { mantissa_end - start };
    if digits < 1 {
        return false;
    }
    if mantissa_end == len {
        return true;
    }
    if !(text[mantissa_end] == 'e' || text[mantissa_end] == 'E') {
        return false;
    }
    let sign = mantissa_end + 1;
    let exponent = if sign < len && (text[sign] == '+' || text[sign] == '-') {
        sign + 1
    } else {
        sign
    };
    exponent < len && skip_digits(text, exponent) == len
}

} // verus!
