//! Characters in and out of strings.

use vstd::prelude::*;

verus! {

/// `std::string::String::push` appends the one character to the string and leaves the
/// rest of it as it was.
pub assume_specification[ std::string::String::push ](s: &mut std::string::String, ch: char)
    ensures
        final(s)@ == old(s)@.push(ch),
;

/// `std::char::from_u32` gives the character with the code `i`, and `None` where
/// `i` is a surrogate or lies above the last code point.
pub assume_specification[ std::char::from_u32 ](i: u32) -> (r: Option<char>)
    ensures
        r == if i < 0xD800 || (0xE000 <= i && i <= 0x10FFFF) {
            Some(i as char)
        } else {
            None::<char>
        },
;

/// The characters of `text`, one by one.
pub fn chars_of(text: &str) -> (chars: Vec<char>)
    ensures
        chars@ == text@,
{
    let mut chars: Vec<char> = Vec::new();
    for c in it: text.chars()
        invariant
            chars@ == it.seq().take(it.index() as int),
            it.seq() == text@,
    {
        chars.push(c);
    }
    chars
}

/// The string made of the characters of `chars` from `from` up to `to`.
pub fn string_of(chars: &[char], from: usize, to: usize) -> (text: String)
    requires
        from <= to <= chars@.len(),
    ensures
        text@ == chars@.subrange(from as int, to as int),
{
    let mut text = String::new();
    let mut i = from;
    while i < to
        invariant
            from <= i <= to <= chars@.len(),
            text@ == chars@.subrange(from as int, i as int),
        decreases to - i,
    {
        text.push(chars[i]);
        i += 1;
    }
    text
}

} // verus!
