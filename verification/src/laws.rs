//! What holds of reading and writing together.
//!
//! - [`lemma_parsed_is_well_formed`]: what was read is well formed.
//! - [`lemma_compact_round_trip`] and [`lemma_pretty_round_trip`]: what was
//!   written reads back as the value it was written from.
//! - [`lemma_reparse`]: reading, writing and reading again changes nothing.
//! - [`lemma_layout_is_immaterial`]: the whitespace between tokens does not
//!   matter.
//!
//! The two round trips are proved once, for any [`Layout`]: the lemmas on
//! the way read a text from left to right as the grammar does.

use crate::error::Failure;
use crate::generate::{
    closing_indent, compact_elements, compact_members, compact_text, pretty_elements,
    pretty_members, pretty_text, quoted, spaces,
};
use crate::grammar::{
    digits_end, has_word, is_digit, is_numeral, is_numeral_char, is_whitespace, lemma_digits_end,
    lemma_has_word, lemma_has_word_concat, lemma_numeral_end, lemma_skip_whitespace,
    lemma_string_advances, moved, numeral_end, parse_array, parse_elements, parse_members,
    parse_number, parse_object, parse_string, parse_text, parse_value, skip_whitespace,
    string_body, word_false, word_null, word_true,
};
use crate::tree::{
    distinct_keys, index_of_key, insert_member, is_plain_char, is_plain_text,
    lemma_array_plain, lemma_array_well_formed, lemma_element_is_smaller, lemma_index_of_key,
    lemma_index_of_key_is, lemma_insert_member_distinct, lemma_member_is_smaller,
    lemma_object_plain, lemma_object_well_formed, Tree,
};
use vstd::prelude::*;

verus! {

/// The members read so far are in order: no name twice, every value well formed.
pub open spec fn members_well_formed(members: Seq<(Seq<char>, Tree)>) -> bool {
    Tree::Object(members).well_formed()
}

/// The elements read so far are well formed.
pub open spec fn elements_well_formed(elements: Seq<Tree>) -> bool {
    Tree::Array(elements).well_formed()
}

/// A value that was read ends after the position it was read from, inside
/// the text, and is well formed.
pub proof fn lemma_value_read(s: Seq<char>, pos: int)
    requires
        0 <= pos <= s.len(),
    ensures
        parse_value(s, pos) matches Ok((tree, rest)) ==> pos < rest <= s.len()
            && tree.well_formed(),
    decreases s.len() - pos, 1int,
{
    lemma_skip_whitespace(s, pos);
    let p = skip_whitespace(s, pos);
    if has_word(s, p, word_false()) || has_word(s, p, word_null()) || has_word(s, p, word_true()) {
    } else if p >= s.len() {
    } else if s[p] == '{' {
        lemma_object_read(s, p);
    } else if s[p] == '[' {
        lemma_array_read(s, p);
    } else if s[p] == '"' {
        lemma_string_advances(s, p);
    } else if s[p] == '-' || is_digit(s[p]) {
        lemma_numeral_end(s, p);
    }
}

/// An object that was read ends after its `{`, inside the text, and is well formed.
pub proof fn lemma_object_read(s: Seq<char>, pos: int)
    requires
        0 <= pos < s.len(),
    ensures
        parse_object(s, pos) matches Ok((tree, rest)) ==> pos < rest <= s.len()
            && tree.well_formed(),
    decreases s.len() - pos, 0int,
{
    lemma_skip_whitespace(s, pos + 1);
    let p = skip_whitespace(s, pos + 1);
    lemma_object_well_formed(Seq::empty());
    if p < s.len() && s[p] == '}' {
    } else {
        lemma_members_read(s, pos + 1, Seq::empty());
    }
}

/// Members that were read end after the position they were read from,
/// inside the text, and are well formed if those read before them were.
pub proof fn lemma_members_read(s: Seq<char>, pos: int, acc: Seq<(Seq<char>, Tree)>)
    requires
        0 <= pos <= s.len(),
        members_well_formed(acc),
    ensures
        parse_members(s, pos, acc) matches Ok((members, rest)) ==> pos < rest <= s.len()
            && members_well_formed(members),
    decreases s.len() - pos, 2int,
{
    lemma_skip_whitespace(s, pos);
    let p = skip_whitespace(s, pos);
    lemma_string_advances(s, p);
    if let Ok((key, after_key)) = parse_string(s, p) {
        lemma_skip_whitespace(s, after_key);
        let colon = skip_whitespace(s, after_key);
        if colon < s.len() && s[colon] == ':' {
            lemma_value_read(s, colon + 1);
            if let Ok((value, after_value)) = parse_value(s, colon + 1) {
                lemma_skip_whitespace(s, after_value);
                let next = skip_whitespace(s, after_value);
                let members = insert_member(acc, key, value);
                assert(members_well_formed(members)) by {
                    lemma_object_well_formed(acc);
                    lemma_object_well_formed(members);
                    lemma_insert_member_distinct(acc, key, value);
                    lemma_index_of_key(acc, key);
                    assert forall|i: int| 0 <= i < members.len() implies (
                    #[trigger] members[i]).1.well_formed() by {
                        if i < acc.len() && i != index_of_key(acc, key) {
                            assert(acc[i].1.well_formed());
                        }
                    }
                }
                if next < s.len() && s[next] == ',' {
                    lemma_members_read(s, next + 1, members);
                }
            }
        }
    }
}

/// An array that was read ends after its `[`, inside the text, and is well formed.
pub proof fn lemma_array_read(s: Seq<char>, pos: int)
    requires
        0 <= pos < s.len(),
    ensures
        parse_array(s, pos) matches Ok((tree, rest)) ==> pos < rest <= s.len()
            && tree.well_formed(),
    decreases s.len() - pos, 0int,
{
    lemma_skip_whitespace(s, pos + 1);
    let p = skip_whitespace(s, pos + 1);
    lemma_array_well_formed(Seq::empty());
    if p < s.len() && s[p] == ']' {
    } else {
        lemma_value_read(s, pos + 1);
        if let Ok((first, rest)) = parse_value(s, pos + 1) {
            lemma_array_well_formed(seq![first]);
            lemma_elements_read(s, rest, seq![first]);
        }
    }
}

/// Elements that were read end after the position they were read from,
/// inside the text, and are well formed if those read before them were.
pub proof fn lemma_elements_read(s: Seq<char>, pos: int, acc: Seq<Tree>)
    requires
        0 <= pos <= s.len(),
        elements_well_formed(acc),
    ensures
        parse_elements(s, pos, acc) matches Ok((elements, rest)) ==> pos < rest <= s.len()
            && elements_well_formed(elements),
    decreases s.len() - pos, 2int,
{
    lemma_skip_whitespace(s, pos);
    let next = skip_whitespace(s, pos);
    if next < s.len() && s[next] == ',' {
        lemma_value_read(s, next + 1);
        if let Ok((value, rest)) = parse_value(s, next + 1) {
            assert(elements_well_formed(acc.push(value))) by {
                lemma_array_well_formed(acc);
                lemma_array_well_formed(acc.push(value));
            }
            lemma_elements_read(s, rest, acc.push(value));
        }
    }
}

/// Whatever `parse_text` reads is well formed: every number in it is a
/// numeral, and no object in it names a member twice.
pub proof fn lemma_parsed_is_well_formed(s: Seq<char>)
    ensures
        parse_text(s) matches Ok(tree) ==> tree.well_formed(),
{
    lemma_value_read(s, 0);
}

/// A value can end at `pos`: the text ends there, or a character stands there
/// that cannot go on a number.
pub open spec fn ends_value(s: Seq<char>, pos: int) -> bool {
    pos == s.len() || (0 <= pos < s.len() && !is_numeral_char(s[pos]))
}

/// `gap` is made of whitespace alone.
pub open spec fn is_gap(gap: Seq<char>) -> bool {
    forall|i: int| 0 <= i < gap.len() ==> is_whitespace(#[trigger] gap[i])
}

/// Whitespace is skipped up to the first character that is none.
pub proof fn lemma_skip_gap(s: Seq<char>, pos: int, gap: Seq<char>)
    requires
        0 <= pos,
        is_gap(gap),
        has_word(s, pos, gap),
        pos + gap.len() == s.len() || !is_whitespace(s[pos + gap.len()]),
    ensures
        skip_whitespace(s, pos) == pos + gap.len(),
    decreases gap.len(),
{
    lemma_has_word(s, pos, gap);
    if gap.len() > 0 {
        assert(s[pos + 0] == gap[0]);
        let rest = gap.drop_first();
        assert forall|k: int| 0 <= k < rest.len() implies s[pos + 1 + k] == #[trigger] rest[k] by {
            assert(s[pos + (k + 1)] == gap[k + 1]);
        }
        lemma_has_word(s, pos + 1, rest);
        assert(is_gap(rest)) by {
            assert forall|i: int| 0 <= i < rest.len() implies is_whitespace(#[trigger] rest[i]) by {
                assert(rest[i] == gap[i + 1]);
            }
        }
        lemma_skip_gap(s, pos + 1, rest);
    }
}

/// Plain text up to a quote reads as itself.
pub proof fn lemma_plain_string_body(s: Seq<char>, pos: int, text: Seq<char>, k: int, start: int)
    requires
        0 <= pos,
        0 <= k <= text.len(),
        is_plain_text(text),
        has_word(s, pos, text + seq!['"']),
    ensures
        string_body(s, pos + k, text.take(k), start) == Ok::<(Seq<char>, int), Failure>(
            (text, pos + text.len() + 1),
        ),
    decreases text.len() - k,
{
    let whole = text + seq!['"'];
    lemma_has_word(s, pos, whole);
    assert(s[pos + k] == whole[k]);
    if k == text.len() {
        assert(text.take(k) =~= text);
    } else {
        assert(whole[k] == text[k]);
        assert(is_plain_char(text[k]));
        assert(text.take(k).push(text[k]) =~= text.take(k + 1));
        lemma_plain_string_body(s, pos, text, k + 1, start);
    }
}

/// Plain text between quotes reads as itself.
pub proof fn lemma_read_quoted(s: Seq<char>, pos: int, text: Seq<char>)
    requires
        0 <= pos,
        is_plain_text(text),
        has_word(s, pos, quoted(text)),
    ensures
        parse_string(s, pos) == Ok::<(Seq<char>, int), Failure>((text, pos + text.len() + 2)),
{
    assert(quoted(text) =~= seq!['"'] + (text + seq!['"']));
    lemma_has_word_concat(s, pos, seq!['"'], text + seq!['"']);
    lemma_has_word(s, pos, seq!['"']);
    assert(s[pos + 0] == seq!['"'][0]);
    lemma_plain_string_body(s, pos + 1, text, 0, pos);
    assert(text.take(0) =~= Seq::<char>::empty());
}

/// Every character of a numeral is a numeral character.
pub proof fn lemma_numeral_chars(text: Seq<char>)
    requires
        is_numeral(text),
    ensures
        forall|i: int| 0 <= i < text.len() ==> is_numeral_char(#[trigger] text[i]),
{
    let start = if text.len() > 0 && text[0] == '-' { 1int } else { 0int };
    lemma_digits_end(text, start);
    let whole_end = digits_end(text, start);
    let has_point = whole_end < text.len() && text[whole_end] == '.';
    if has_point {
        lemma_digits_end(text, whole_end + 1);
    }
    let mantissa_end = if has_point { digits_end(text, whole_end + 1) } else { whole_end };
    if mantissa_end < text.len() {
        let sign = mantissa_end + 1;
        let exponent = if sign < text.len() && (text[sign] == '+' || text[sign] == '-') {
            sign + 1
        } else {
            sign
        };
        lemma_digits_end(text, exponent);
    }
}

/// The numeral characters from `pos` end at `end` when they fill the text up
/// to `end` and a value can end there.
pub proof fn lemma_numeral_end_is(s: Seq<char>, pos: int, end: int)
    requires
        0 <= pos <= end <= s.len(),
        forall|i: int| pos <= i < end ==> is_numeral_char(#[trigger] s[i]),
        ends_value(s, end),
    ensures
        numeral_end(s, pos) == end,
    decreases end - pos,
{
    if pos < end {
        assert(is_numeral_char(s[pos]));
        lemma_numeral_end_is(s, pos + 1, end);
    }
}

/// A numeral reads as itself where a value can end behind it.
pub proof fn lemma_read_numeral(s: Seq<char>, pos: int, numeral: Seq<char>)
    requires
        0 <= pos,
        is_numeral(numeral),
        has_word(s, pos, numeral),
        ends_value(s, pos + numeral.len()),
    ensures
        parse_number(s, pos) == Ok::<(Seq<char>, int), Failure>((numeral, pos + numeral.len())),
{
    lemma_numeral_chars(numeral);
    lemma_has_word(s, pos, numeral);
    assert forall|i: int| pos <= i < pos + numeral.len() implies is_numeral_char(
        #[trigger] s[i],
    ) by {
        assert(s[pos + (i - pos)] == numeral[i - pos]);
    }
    lemma_numeral_end_is(s, pos, pos + numeral.len());
}

/// How a value is laid out as text: what stands between its tokens.
pub enum Layout {
    /// Nothing stands between two tokens.
    Compact,
    /// Members and elements stand on lines of their own, at column `indent`.
    Pretty { indent: nat },
}

impl Layout {
    /// What stands before each member or element.
    pub open spec fn line_start(self) -> Seq<char> {
        match self {
            Layout::Compact => Seq::empty(),
            Layout::Pretty { indent } => seq!['\n'] + spaces(indent),
        }
    }

    /// What stands between a `:` and the value.
    pub open spec fn after_colon(self) -> Seq<char> {
        match self {
            Layout::Compact => Seq::empty(),
            Layout::Pretty { indent } => seq![' '],
        }
    }

    /// What stands before the closing bracket.
    pub open spec fn before_close(self) -> Seq<char> {
        match self {
            Layout::Compact => Seq::empty(),
            Layout::Pretty { indent } => seq!['\n'] + spaces(closing_indent(indent)),
        }
    }

    /// The layout of the values inside a container.
    pub open spec fn nested(self) -> Layout {
        match self {
            Layout::Compact => Layout::Compact,
            Layout::Pretty { indent } => Layout::Pretty { indent: indent + 2 },
        }
    }
}

/// The text of `tree` in `layout`, read from left to right.
pub open spec fn laid_out(tree: Tree, layout: Layout) -> Seq<char>
    decreases tree, 0int, 0int,
{
    match tree {
        Tree::Object(members) => if members.len() == 0 {
            seq!['{', '}']
        } else {
            seq!['{'] + layout.line_start() + member_text(members, 0, layout) + members_after(
                members,
                1,
                layout,
            ) + layout.before_close() + seq!['}']
        },
        Tree::Array(elements) => if elements.len() == 0 {
            seq!['[', ']']
        } else {
            seq!['['] + layout.line_start() + laid_out(elements[0], layout.nested())
                + elements_after(elements, 1, layout) + layout.before_close() + seq![']']
        },
        _ => compact_text(tree),
    }
}

/// The text of the member at `k`: its name, a `:`, and its value.
pub open spec fn member_text(members: Seq<(Seq<char>, Tree)>, k: int, layout: Layout) -> Seq<
    char,
>
    decreases members, 0int, 0int,
{
    if 0 <= k < members.len() {
        quoted(members[k].0) + seq![':'] + layout.after_colon() + laid_out(
            members[k].1,
            layout.nested(),
        )
    } else {
        Seq::empty()
    }
}

/// The text of the members from `k` on, each behind a `,`.
pub open spec fn members_after(members: Seq<(Seq<char>, Tree)>, k: int, layout: Layout) -> Seq<
    char,
>
    decreases members, 1int, members.len() - k,
{
    if 0 <= k < members.len() {
        seq![','] + layout.line_start() + member_text(members, k, layout) + members_after(
            members,
            k + 1,
            layout,
        )
    } else {
        Seq::empty()
    }
}

/// The text of the elements from `k` on, each behind a `,`.
pub open spec fn elements_after(elements: Seq<Tree>, k: int, layout: Layout) -> Seq<char>
    decreases elements, 1int, elements.len() - k,
{
    if 0 <= k < elements.len() {
        seq![','] + layout.line_start() + laid_out(elements[k], layout.nested())
            + elements_after(elements, k + 1, layout)
    } else {
        Seq::empty()
    }
}

/// A character with which the text of a value can start.
pub open spec fn starts_value(c: char) -> bool {
    c == '"' || c == '{' || c == '[' || c == 't' || c == 'f' || c == 'n' || c == '-' || is_digit(c)
}

/// What a layout puts between tokens is whitespace.
pub proof fn lemma_layout_gaps(layout: Layout)
    ensures
        is_gap(layout.line_start()),
        is_gap(layout.after_colon()),
        is_gap(layout.before_close()),
        layout.before_close().len() > 0 ==> layout.before_close()[0] == '\n',
{
}

/// The text of a well-formed value is not empty, and starts as a value starts.
pub proof fn lemma_laid_out_starts(tree: Tree, layout: Layout)
    requires
        tree.well_formed(),
    ensures
        laid_out(tree, layout).len() > 0,
        starts_value(laid_out(tree, layout)[0]),
{
    match tree {
        Tree::Object(members) => {
            if members.len() > 0 {
                let rest = layout.line_start() + member_text(members, 0, layout) + members_after(
                    members,
                    1,
                    layout,
                ) + layout.before_close() + seq!['}'];
                assert(laid_out(tree, layout) =~= seq!['{'] + rest);
            }
        },
        Tree::Array(elements) => {
            if elements.len() > 0 {
                let rest = layout.line_start() + laid_out(elements[0], layout.nested())
                    + elements_after(elements, 1, layout) + layout.before_close() + seq![']'];
                assert(laid_out(tree, layout) =~= seq!['['] + rest);
            }
        },
        _ => {},
    }
}

/// Where a value starts, none of the three words stands unless the value is one.
proof fn lemma_words_at(s: Seq<char>, pos: int)
    requires
        0 <= pos < s.len(),
    ensures
        has_word(s, pos, word_false()) ==> s[pos] == 'f',
        has_word(s, pos, word_null()) ==> s[pos] == 'n',
        has_word(s, pos, word_true()) ==> s[pos] == 't',
{
    lemma_has_word(s, pos, word_false());
    lemma_has_word(s, pos, word_null());
    lemma_has_word(s, pos, word_true());
    assert(word_false()[0] == 'f');
    assert(word_null()[0] == 'n');
    assert(word_true()[0] == 't');
    if has_word(s, pos, word_false()) {
        assert(s[pos + 0] == word_false()[0]);
    }
    if has_word(s, pos, word_null()) {
        assert(s[pos + 0] == word_null()[0]);
    }
    if has_word(s, pos, word_true()) {
        assert(s[pos + 0] == word_true()[0]);
    }
}

/// The text of a value, behind whitespace and where a value can end, reads
/// as the value.
pub proof fn lemma_read_value(s: Seq<char>, pos: int, gap: Seq<char>, tree: Tree, layout: Layout)
    requires
        0 <= pos,
        is_gap(gap),
        tree.well_formed(),
        tree.plain(),
        has_word(s, pos, gap + laid_out(tree, layout)),
        ends_value(s, pos + gap.len() + laid_out(tree, layout).len()),
    ensures
        parse_value(s, pos) == Ok::<(Tree, int), Failure>(
            (tree, pos + gap.len() + laid_out(tree, layout).len()),
        ),
    decreases tree, 1int, 0int,
{
    let text = laid_out(tree, layout);
    let p = pos + gap.len();
    lemma_has_word_concat(s, pos, gap, text);
    lemma_laid_out_starts(tree, layout);
    lemma_has_word(s, p, text);
    assert(s[p + 0] == text[0]);
    lemma_skip_gap(s, pos, gap);
    lemma_words_at(s, p);
    match tree {
        Tree::String(x) => {
            lemma_read_quoted(s, p, x);
        },
        Tree::Number(numeral) => {
            lemma_read_numeral(s, p, numeral);
        },
        Tree::Boolean(b) => {},
        Tree::Null => {},
        Tree::Object(members) => {
            lemma_read_object(s, p, members, layout);
        },
        Tree::Array(elements) => {
            lemma_read_array(s, p, elements, layout);
        },
    }
}

/// The text of an object reads as the object.
pub proof fn lemma_read_object(
    s: Seq<char>,
    pos: int,
    members: Seq<(Seq<char>, Tree)>,
    layout: Layout,
)
    requires
        0 <= pos,
        Tree::Object(members).well_formed(),
        Tree::Object(members).plain(),
        has_word(s, pos, laid_out(Tree::Object(members), layout)),
    ensures
        parse_object(s, pos) == Ok::<(Tree, int), Failure>(
            (Tree::Object(members), pos + laid_out(Tree::Object(members), layout).len()),
        ),
    decreases Tree::Object(members), 0int, members.len() + 1,
{
    let text = laid_out(Tree::Object(members), layout);
    lemma_has_word(s, pos, text);
    assert(s[pos + 0] == text[0]);
    if members.len() == 0 {
        assert(s[pos + 1] == text[1]);
        assert(members =~= Seq::empty());
    } else {
        let inner = members_from(members, 0, layout);
        assert(text =~= seq!['{'] + inner);
        lemma_has_word_concat(s, pos, seq!['{'], inner);
        lemma_read_members(s, pos + 1, members, 0, layout);
        assert(members.take(0) =~= Seq::empty());
        // The first member starts with a quote, so the object is not empty.
        let rest = member_text(members, 0, layout) + members_after(members, 1, layout)
            + layout.before_close() + seq!['}'];
        assert(inner =~= layout.line_start() + rest);
        lemma_has_word_concat(s, pos + 1, layout.line_start(), rest);
        lemma_layout_gaps(layout);
        let q = pos + 1 + layout.line_start().len();
        lemma_has_word(s, q, rest);
        assert(rest[0] == '"');
        assert(s[q + 0] == rest[0]);
        lemma_skip_gap(s, pos + 1, layout.line_start());
    }
}

/// The text from the member at `k` to the end of the object.
pub open spec fn members_from(members: Seq<(Seq<char>, Tree)>, k: int, layout: Layout) -> Seq<
    char,
> {
    layout.line_start() + member_text(members, k, layout) + members_after(members, k + 1, layout)
        + layout.before_close() + seq!['}']
}

/// Whitespace is skipped up to the first character that is none: here, none is skipped.
proof fn lemma_no_gap(s: Seq<char>, pos: int)
    requires
        0 <= pos < s.len(),
        !is_whitespace(s[pos]),
    ensures
        skip_whitespace(s, pos) == pos,
{
}

/// Where the parts of the member at `k` stand in a text that holds the
/// members from `k` on.
proof fn lemma_member_parts(
    s: Seq<char>,
    pos: int,
    members: Seq<(Seq<char>, Tree)>,
    k: int,
    layout: Layout,
)
    requires
        0 <= pos,
        0 <= k < members.len(),
        has_word(s, pos, members_from(members, k, layout)),
    ensures
        ({
            let key = pos + layout.line_start().len();
            let colon = key + members[k].0.len() + 2;
            let value = colon + 1;
            let value_len = layout.after_colon().len() + laid_out(
                members[k].1,
                layout.nested(),
            ).len();
            let after_value = value + value_len;
            &&& has_word(s, pos, layout.line_start())
            &&& has_word(s, key, quoted(members[k].0))
            &&& colon < s.len() && s[colon] == ':'
            &&& has_word(
                s,
                value,
                layout.after_colon() + laid_out(members[k].1, layout.nested()),
            )
            &&& if k + 1 < members.len() {
                &&& after_value < s.len() && s[after_value] == ','
                &&& has_word(s, after_value + 1, members_from(members, k + 1, layout))
                &&& members_from(members, k, layout).len() == after_value + 1 - pos
                    + members_from(members, k + 1, layout).len()
            } else {
                let end = after_value + layout.before_close().len();
                &&& has_word(s, after_value, layout.before_close())
                &&& end < s.len() && s[end] == '}'
                &&& members_from(members, k, layout).len() == end + 1 - pos
            }
        }),
{
    let key = members[k].0;
    let value_text = layout.after_colon() + laid_out(members[k].1, layout.nested());
    let later = members_after(members, k + 1, layout);
    let close = layout.before_close() + seq!['}'];
    let q = pos + layout.line_start().len();
    let colon = q + key.len() + 2;
    let after_value = colon + 1 + value_text.len();
    assert(members_from(members, k, layout) =~= layout.line_start() + (quoted(key) + (seq![':']
        + (value_text + (later + close)))));
    lemma_has_word_concat(
        s,
        pos,
        layout.line_start(),
        quoted(key) + (seq![':'] + (value_text + (later + close))),
    );
    lemma_has_word_concat(s, q, quoted(key), seq![':'] + (value_text + (later + close)));
    lemma_has_word_concat(s, colon, seq![':'], value_text + (later + close));
    lemma_has_word_concat(s, colon + 1, value_text, later + close);
    lemma_has_word(s, colon, seq![':']);
    assert(s[colon + 0] == seq![':'][0]);
    if k + 1 < members.len() {
        let next = members_from(members, k + 1, layout);
        assert(later + close =~= seq![','] + next);
        lemma_has_word_concat(s, after_value, seq![','], next);
        lemma_has_word(s, after_value, seq![',']);
        assert(s[after_value + 0] == seq![','][0]);
    } else {
        assert(later + close =~= close);
        lemma_has_word_concat(s, after_value, layout.before_close(), seq!['}']);
        let end = after_value + layout.before_close().len();
        lemma_has_word(s, end, seq!['}']);
        assert(s[end + 0] == seq!['}'][0]);
    }
}

/// What has been read of the members after the member at `k`: the members up to it.
proof fn lemma_member_inserted(members: Seq<(Seq<char>, Tree)>, k: int)
    requires
        0 <= k < members.len(),
        distinct_keys(members),
    ensures
        insert_member(members.take(k), members[k].0, members[k].1) == members.take(k + 1),
{
    let acc = members.take(k);
    assert forall|j: int| 0 <= j < acc.len() implies (#[trigger] acc[j]).0 != members[k].0 by {
        assert(members[j].0 != members[k].0);
    }
    lemma_index_of_key_is(acc, members[k].0, acc.len() as int);
    assert(insert_member(acc, members[k].0, members[k].1) =~= members.take(k + 1));
}

/// The text of the members from `k` on reads as those members, after the
/// ones before them.
pub proof fn lemma_read_members(
    s: Seq<char>,
    pos: int,
    members: Seq<(Seq<char>, Tree)>,
    k: int,
    layout: Layout,
)
    requires
        0 <= pos,
        0 <= k < members.len(),
        Tree::Object(members).well_formed(),
        Tree::Object(members).plain(),
        has_word(s, pos, members_from(members, k, layout)),
    ensures
        parse_members(s, pos, members.take(k)) == Ok::<(Seq<(Seq<char>, Tree)>, int), Failure>(
            (members, pos + members_from(members, k, layout).len()),
        ),
    decreases Tree::Object(members), 0int, members.len() - k,
{
    lemma_layout_gaps(layout);
    lemma_object_well_formed(members);
    lemma_object_plain(members);
    lemma_member_parts(s, pos, members, k, layout);
    lemma_member_inserted(members, k);
    let key = members[k].0;
    let value = members[k].1;
    let value_text = laid_out(value, layout.nested());
    let q = pos + layout.line_start().len();
    let colon = q + key.len() + 2;
    let after_value = colon + 1 + layout.after_colon().len() + value_text.len();
    // The name.
    lemma_has_word(s, q, quoted(key));
    assert(s[q + 0] == quoted(key)[0]);
    lemma_skip_gap(s, pos, layout.line_start());
    lemma_read_quoted(s, q, key);
    assert(parse_string(s, skip_whitespace(s, pos)) == Ok::<(Seq<char>, int), Failure>(
        (key, colon),
    ));
    // The colon.
    lemma_no_gap(s, colon);
    // The value.
    lemma_laid_out_starts(value, layout.nested());
    if k + 1 < members.len() {
        lemma_no_gap(s, after_value);
    } else {
        let end = after_value + layout.before_close().len();
        lemma_has_word(s, after_value, layout.before_close());
        if layout.before_close().len() > 0 {
            assert(s[after_value + 0] == layout.before_close()[0]);
        }
        lemma_skip_gap(s, after_value, layout.before_close());
        assert(members.take(k + 1) =~= members);
    }
    assert(ends_value(s, after_value));
    lemma_member_is_smaller(Tree::Object(members), k);
    lemma_read_value(s, colon + 1, layout.after_colon(), value, layout.nested());
    assert(parse_value(s, colon + 1) == Ok::<(Tree, int), Failure>((value, after_value)));
    assert(moved(s, colon, after_value));
    if k + 1 < members.len() {
        lemma_read_members(s, after_value + 1, members, k + 1, layout);
    }
}

/// The text of an array reads as the array.
pub proof fn lemma_read_array(s: Seq<char>, pos: int, elements: Seq<Tree>, layout: Layout)
    requires
        0 <= pos,
        Tree::Array(elements).well_formed(),
        Tree::Array(elements).plain(),
        has_word(s, pos, laid_out(Tree::Array(elements), layout)),
    ensures
        parse_array(s, pos) == Ok::<(Tree, int), Failure>(
            (Tree::Array(elements), pos + laid_out(Tree::Array(elements), layout).len()),
        ),
    decreases Tree::Array(elements), 0int, elements.len() + 1,
{
    let text = laid_out(Tree::Array(elements), layout);
    lemma_has_word(s, pos, text);
    assert(s[pos + 0] == text[0]);
    if elements.len() == 0 {
        assert(s[pos + 1] == text[1]);
        assert(elements =~= Seq::empty());
    } else {
        lemma_layout_gaps(layout);
        lemma_array_well_formed(elements);
        lemma_array_plain(elements);
        let first = elements[0];
        let first_text = laid_out(first, layout.nested());
        let later = elements_after(elements, 1, layout);
        let close = layout.before_close() + seq![']'];
        assert(text =~= seq!['['] + ((layout.line_start() + first_text) + (later + close)));
        lemma_has_word_concat(s, pos, seq!['['], (layout.line_start() + first_text) + (later
            + close));
        lemma_has_word_concat(s, pos + 1, layout.line_start() + first_text, later + close);
        lemma_has_word_concat(s, pos + 1, layout.line_start(), first_text);
        let q = pos + 1 + layout.line_start().len();
        let after_first = q + first_text.len();
        // The array is not empty: its first element does not start with `]`.
        lemma_laid_out_starts(first, layout.nested());
        lemma_has_word(s, q, first_text);
        assert(s[q + 0] == first_text[0]);
        lemma_skip_gap(s, pos + 1, layout.line_start());
        // The first element.
        lemma_has_word(s, after_first, later + close);
        lemma_elements_after_starts(elements, 1, layout);
        assert(s[after_first + 0] == (later + close)[0]);
        lemma_element_is_smaller(Tree::Array(elements), 0);
        lemma_read_value(s, pos + 1, layout.line_start(), first, layout.nested());
        assert(seq![first] =~= elements.take(1));
        lemma_read_elements(s, after_first, elements, 1, layout);
    }
}

/// What follows an element is a `,`, a line break or the closing bracket.
proof fn lemma_elements_after_starts(elements: Seq<Tree>, k: int, layout: Layout)
    ensures
        ({
            let text = elements_after(elements, k, layout) + (layout.before_close() + seq![']']);
            text.len() > 0 && (text[0] == ',' || text[0] == '\n' || text[0] == ']')
        }),
{
    lemma_layout_gaps(layout);
    if 0 <= k < elements.len() {
        assert(elements_after(elements, k, layout) =~= seq![','] + (layout.line_start()
            + laid_out(elements[k], layout.nested()) + elements_after(elements, k + 1, layout)));
    }
}

/// The text behind the element before `k` reads as the elements from `k`
/// on, after the ones before them.
pub proof fn lemma_read_elements(
    s: Seq<char>,
    pos: int,
    elements: Seq<Tree>,
    k: int,
    layout: Layout,
)
    requires
        0 <= pos,
        1 <= k <= elements.len(),
        Tree::Array(elements).well_formed(),
        Tree::Array(elements).plain(),
        has_word(
            s,
            pos,
            elements_after(elements, k, layout) + (layout.before_close() + seq![']']),
        ),
    ensures
        parse_elements(s, pos, elements.take(k)) == Ok::<(Seq<Tree>, int), Failure>(
            (
                elements,
                pos + elements_after(elements, k, layout).len() + layout.before_close().len() + 1,
            ),
        ),
    decreases Tree::Array(elements), 0int, elements.len() - k,
{
    lemma_layout_gaps(layout);
    lemma_array_well_formed(elements);
    lemma_array_plain(elements);
    let close = layout.before_close() + seq![']'];
    if k < elements.len() {
        let element = elements[k];
        let element_text = laid_out(element, layout.nested());
        let later = elements_after(elements, k + 1, layout);
        assert(elements_after(elements, k, layout) + close =~= seq![','] + ((layout.line_start()
            + element_text) + (later + close)));
        lemma_has_word_concat(s, pos, seq![','], (layout.line_start() + element_text) + (later
            + close));
        lemma_has_word_concat(s, pos + 1, layout.line_start() + element_text, later + close);
        lemma_has_word(s, pos, seq![',']);
        assert(s[pos + 0] == seq![','][0]);
        lemma_no_gap(s, pos);
        let after_element = pos + 1 + layout.line_start().len() + element_text.len();
        lemma_has_word(s, after_element, later + close);
        lemma_elements_after_starts(elements, k + 1, layout);
        assert(s[after_element + 0] == (later + close)[0]);
        lemma_element_is_smaller(Tree::Array(elements), k);
        lemma_read_value(s, pos + 1, layout.line_start(), element, layout.nested());
        lemma_laid_out_starts(element, layout.nested());
        assert(elements.take(k).push(element) =~= elements.take(k + 1));
        lemma_read_elements(s, after_element, elements, k + 1, layout);
    } else {
        assert(elements_after(elements, k, layout) =~= Seq::<char>::empty());
        assert(elements_after(elements, k, layout) + close =~= close);
        lemma_has_word_concat(s, pos, layout.before_close(), seq![']']);
        let end = pos + layout.before_close().len();
        lemma_has_word(s, end, seq![']']);
        assert(s[end + 0] == seq![']'][0]);
        lemma_skip_gap(s, pos, layout.before_close());
        assert(elements.take(k) =~= elements);
    }
}

/// The compact form is the compact layout.
pub proof fn lemma_compact_is_laid_out(tree: Tree)
    ensures
        compact_text(tree) == laid_out(tree, Layout::Compact),
    decreases tree, 2int, 0int,
{
    let layout = Layout::Compact;
    match tree {
        Tree::Object(members) => {
            if members.len() > 0 {
                lemma_compact_member(members, 0);
                lemma_compact_members(members, 1);
                assert(compact_members(members, 0) =~= Seq::<char>::empty());
                assert(compact_members(members, 1) =~= member_text(members, 0, layout));
                assert(layout.line_start() =~= Seq::<char>::empty());
                assert(layout.before_close() =~= Seq::<char>::empty());
                assert(compact_text(tree) =~= laid_out(tree, layout));
            } else {
                assert(compact_text(tree) =~= laid_out(tree, layout));
            }
        },
        Tree::Array(elements) => {
            if elements.len() > 0 {
                lemma_element_is_smaller(tree, 0);
                lemma_compact_is_laid_out(elements[0]);
                lemma_compact_elements(elements, 1);
                assert(compact_elements(elements, 0) =~= Seq::<char>::empty());
                assert(compact_elements(elements, 1) =~= laid_out(elements[0], layout));
                assert(layout.line_start() =~= Seq::<char>::empty());
                assert(layout.before_close() =~= Seq::<char>::empty());
                assert(compact_text(tree) =~= laid_out(tree, layout));
            } else {
                assert(compact_text(tree) =~= laid_out(tree, layout));
            }
        },
        _ => {},
    }
}

/// The compact form of a member is its text in the compact layout.
proof fn lemma_compact_member(members: Seq<(Seq<char>, Tree)>, k: int)
    requires
        0 <= k < members.len(),
    ensures
        quoted(members[k].0) + seq![':'] + compact_text(members[k].1) == member_text(
            members,
            k,
            Layout::Compact,
        ),
    decreases Tree::Object(members), 0int, 0int,
{
    lemma_member_is_smaller(Tree::Object(members), k);
    lemma_compact_is_laid_out(members[k].1);
    assert(quoted(members[k].0) + seq![':'] + compact_text(members[k].1) =~= member_text(
        members,
        k,
        Layout::Compact,
    ));
}

/// The compact form of all members is that of the first `k` and, behind it,
/// the text of the others.
proof fn lemma_compact_members(members: Seq<(Seq<char>, Tree)>, k: int)
    requires
        1 <= k <= members.len(),
    ensures
        compact_members(members, members.len() as int) == compact_members(members, k)
            + members_after(members, k, Layout::Compact),
    decreases Tree::Object(members), 1int, members.len() - k,
{
    let layout = Layout::Compact;
    if k < members.len() {
        lemma_compact_member(members, k);
        lemma_compact_members(members, k + 1);
        assert(compact_members(members, k + 1) + members_after(members, k + 1, layout)
            =~= compact_members(members, k) + members_after(members, k, layout));
    } else {
        assert(compact_members(members, k) + members_after(members, k, layout)
            =~= compact_members(members, k));
    }
}

/// The compact form of all elements is that of the first `k` and, behind
/// it, the text of the others.
proof fn lemma_compact_elements(elements: Seq<Tree>, k: int)
    requires
        1 <= k <= elements.len(),
    ensures
        compact_elements(elements, elements.len() as int) == compact_elements(elements, k)
            + elements_after(elements, k, Layout::Compact),
    decreases Tree::Array(elements), 0int, elements.len() - k,
{
    let layout = Layout::Compact;
    if k < elements.len() {
        lemma_element_is_smaller(Tree::Array(elements), k);
        lemma_compact_is_laid_out(elements[k]);
        lemma_compact_elements(elements, k + 1);
        assert(compact_elements(elements, k + 1) + elements_after(elements, k + 1, layout)
            =~= compact_elements(elements, k) + elements_after(elements, k, layout));
    } else {
        assert(compact_elements(elements, k) + elements_after(elements, k, layout)
            =~= compact_elements(elements, k));
    }
}

/// The pretty form at column `indent` is the pretty layout at that column.
pub proof fn lemma_pretty_is_laid_out(tree: Tree, indent: nat)
    ensures
        pretty_text(tree, indent) == laid_out(tree, Layout::Pretty { indent }),
    decreases tree, 2int, 0int,
{
    let layout = Layout::Pretty { indent };
    match tree {
        Tree::Object(members) => {
            if members.len() > 0 {
                lemma_pretty_member(members, 0, indent);
                lemma_pretty_members(members, 1, indent);
                assert(pretty_members(members, 0, indent) =~= Seq::<char>::empty());
                assert(pretty_members(members, 1, indent) =~= member_text(members, 0, layout));
                assert(pretty_text(tree, indent) =~= laid_out(tree, layout));
            }
        },
        Tree::Array(elements) => {
            if elements.len() > 0 {
                lemma_element_is_smaller(tree, 0);
                lemma_pretty_is_laid_out(elements[0], indent + 2);
                lemma_pretty_elements(elements, 1, indent);
                assert(pretty_elements(elements, 0, indent) =~= Seq::<char>::empty());
                assert(pretty_elements(elements, 1, indent) =~= laid_out(
                    elements[0],
                    layout.nested(),
                ));
                assert(pretty_text(tree, indent) =~= laid_out(tree, layout));
            }
        },
        _ => {},
    }
}

/// The pretty form of a member is its text in the pretty layout.
proof fn lemma_pretty_member(members: Seq<(Seq<char>, Tree)>, k: int, indent: nat)
    requires
        0 <= k < members.len(),
    ensures
        quoted(members[k].0) + seq![':', ' '] + pretty_text(members[k].1, indent + 2)
            == member_text(members, k, Layout::Pretty { indent }),
    decreases Tree::Object(members), 0int, 0int,
{
    lemma_member_is_smaller(Tree::Object(members), k);
    lemma_pretty_is_laid_out(members[k].1, indent + 2);
    assert(quoted(members[k].0) + seq![':', ' '] + pretty_text(members[k].1, indent + 2)
        =~= member_text(members, k, Layout::Pretty { indent }));
}

/// The pretty form of all members is that of the first `k` and, behind it,
/// the text of the others.
proof fn lemma_pretty_members(members: Seq<(Seq<char>, Tree)>, k: int, indent: nat)
    requires
        1 <= k <= members.len(),
    ensures
        pretty_members(members, members.len() as int, indent) == pretty_members(
            members,
            k,
            indent,
        ) + members_after(members, k, Layout::Pretty { indent }),
    decreases Tree::Object(members), 1int, members.len() - k,
{
    let layout = Layout::Pretty { indent };
    if k < members.len() {
        lemma_pretty_member(members, k, indent);
        lemma_pretty_members(members, k + 1, indent);
        assert(pretty_members(members, k + 1, indent) + members_after(members, k + 1, layout)
            =~= pretty_members(members, k, indent) + members_after(members, k, layout));
    } else {
        assert(pretty_members(members, k, indent) + members_after(members, k, layout)
            =~= pretty_members(members, k, indent));
    }
}

/// The pretty form of all elements is that of the first `k` and, behind it,
/// the text of the others.
proof fn lemma_pretty_elements(elements: Seq<Tree>, k: int, indent: nat)
    requires
        1 <= k <= elements.len(),
    ensures
        pretty_elements(elements, elements.len() as int, indent) == pretty_elements(
            elements,
            k,
            indent,
        ) + elements_after(elements, k, Layout::Pretty { indent }),
    decreases Tree::Array(elements), 0int, elements.len() - k,
{
    let layout = Layout::Pretty { indent };
    if k < elements.len() {
        lemma_element_is_smaller(Tree::Array(elements), k);
        lemma_pretty_is_laid_out(elements[k], indent + 2);
        lemma_pretty_elements(elements, k + 1, indent);
        assert(pretty_elements(elements, k + 1, indent) + elements_after(elements, k + 1, layout)
            =~= pretty_elements(elements, k, indent) + elements_after(elements, k, layout));
    } else {
        assert(pretty_elements(elements, k, indent) + elements_after(elements, k, layout)
            =~= pretty_elements(elements, k, indent));
    }
}

/// A text laid out from a well-formed, plain value reads as that value.
pub proof fn lemma_laid_out_round_trip(tree: Tree, layout: Layout)
    requires
        tree.well_formed(),
        tree.plain(),
    ensures
        parse_text(laid_out(tree, layout)) == Ok::<Tree, Failure>(tree),
{
    let s = laid_out(tree, layout);
    assert(s.subrange(0, s.len() as int) =~= s);
    assert(Seq::<char>::empty() + s =~= s);
    lemma_read_value(s, 0, Seq::empty(), tree, layout);
}

/// Writing a value in the compact form and reading the text gives the value
/// back, if the value is well formed and its strings are plain: the compact
/// form escapes nothing, so a quote, a backslash, a tab, a line feed or a
/// carriage return in a string does not come back.
pub proof fn lemma_compact_round_trip(tree: Tree)
    requires
        tree.well_formed(),
        tree.plain(),
    ensures
        parse_text(compact_text(tree)) == Ok::<Tree, Failure>(tree),
{
    lemma_compact_is_laid_out(tree);
    lemma_laid_out_round_trip(tree, Layout::Compact);
}

/// Writing a value in the pretty form, at any column, and reading the text
/// gives the value back, under the same conditions as for the compact form.
pub proof fn lemma_pretty_round_trip(tree: Tree, indent: nat)
    requires
        tree.well_formed(),
        tree.plain(),
    ensures
        parse_text(pretty_text(tree, indent)) == Ok::<Tree, Failure>(tree),
{
    lemma_pretty_is_laid_out(tree, indent);
    lemma_laid_out_round_trip(tree, Layout::Pretty { indent });
}

/// Reading, writing and reading again gives what the first reading gave:
/// for a text `s` that reads as a value with plain strings, the compact form
/// of that value reads as the same value.
pub proof fn lemma_reparse(s: Seq<char>)
    requires
        parse_text(s) matches Ok(tree) && tree.plain(),
    ensures
        parse_text(compact_text(parse_text(s)->Ok_0)) == parse_text(s),
{
    lemma_parsed_is_well_formed(s);
    lemma_compact_round_trip(parse_text(s)->Ok_0);
}

/// Whitespace between tokens does not matter: the pretty form of a value,
/// at any column, reads as its compact form does.
pub proof fn lemma_layout_is_immaterial(tree: Tree, indent: nat)
    requires
        tree.well_formed(),
        tree.plain(),
    ensures
        parse_text(pretty_text(tree, indent)) == parse_text(compact_text(tree)),
{
    lemma_compact_round_trip(tree);
    lemma_pretty_round_trip(tree, indent);
}

} // verus!
