//! The serializer: a value as text, compact or indented.

use crate::grammar::{word_false, word_null, word_true};
use crate::tree::{lemma_element_is_smaller, lemma_member_is_smaller, Tree};
use crate::value::{lemma_trees, Value};
use vstd::prelude::*;

verus! {

/// `text` between quotes, as it is: no character is escaped.
pub open spec fn quoted(text: Seq<char>) -> Seq<char> {
    seq!['"'] + text + seq!['"']
}

/// `n` spaces.
pub open spec fn spaces(n: nat) -> Seq<char> {
    Seq::new(n, |i: int| ' ')
}

/// The compact form: no whitespace between tokens.
pub open spec fn compact_text(tree: Tree) -> Seq<char>
    decreases tree, 0int,
{
    match tree {
        Tree::String(text) => quoted(text),
        Tree::Number(numeral) => numeral,
        Tree::Boolean(b) => if b {
            word_true()
        } else {
            word_false()
        },
        Tree::Null => word_null(),
        Tree::Object(members) => seq!['{'] + compact_members(members, members.len() as int)
            + seq!['}'],
        Tree::Array(elements) => seq!['['] + compact_elements(elements, elements.len() as int)
            + seq![']'],
    }
}

/// The compact form of the first `n` members, with a `,` between two of them.
pub open spec fn compact_members(members: Seq<(Seq<char>, Tree)>, n: int) -> Seq<char>
    decreases members, n,
{
    if n <= 0 || n > members.len() {
        Seq::empty()
    } else {
        compact_members(members, n - 1) + (if n > 1 {
            seq![',']
        } else {
            Seq::empty()
        }) + quoted(members[n - 1].0) + seq![':'] + compact_text(members[n - 1].1)
    }
}

/// The compact form of the first `n` elements, with a `,` between two of them.
pub open spec fn compact_elements(elements: Seq<Tree>, n: int) -> Seq<char>
    decreases elements, n,
{
    if n <= 0 || n > elements.len() {
        Seq::empty()
    } else {
        compact_elements(elements, n - 1) + (if n > 1 {
            seq![',']
        } else {
            Seq::empty()
        }) + compact_text(elements[n - 1])
    }
}

/// The column of the bracket that closes a container whose members stand at
/// column `indent`: two to the left, and never left of the margin.
pub open spec fn closing_indent(indent: nat) -> nat {
    if indent >= 2 {
        (indent - 2) as nat
    } else {
        0
    }
}

/// What stands between two members or elements in the pretty form.
pub open spec fn line_break(indent: nat) -> Seq<char> {
    seq![',', '\n'] + spaces(indent)
}

/// The pretty form: each member and element on a line of its own at column
/// `indent`, nested containers two columns further in, and an empty
/// container as its two brackets.
pub open spec fn pretty_text(tree: Tree, indent: nat) -> Seq<char>
    decreases tree, 0int,
{
    match tree {
        Tree::Object(members) => if members.len() == 0 {
            seq!['{', '}']
        } else {
            seq!['{', '\n'] + spaces(indent) + pretty_members(
                members,
                members.len() as int,
                indent,
            ) + seq!['\n'] + spaces(closing_indent(indent)) + seq!['}']
        },
        Tree::Array(elements) => if elements.len() == 0 {
            seq!['[', ']']
        } else {
            seq!['[', '\n'] + spaces(indent) + pretty_elements(
                elements,
                elements.len() as int,
                indent,
            ) + seq!['\n'] + spaces(closing_indent(indent)) + seq![']']
        },
        _ => compact_text(tree),
    }
}

/// The pretty form of the first `n` members, which stand at column `indent`.
pub open spec fn pretty_members(members: Seq<(Seq<char>, Tree)>, n: int, indent: nat) -> Seq<
    char,
>
    decreases members, n,
{
    if n <= 0 || n > members.len() {
        Seq::empty()
    } else {
        pretty_members(members, n - 1, indent) + (if n > 1 {
            line_break(indent)
        } else {
            Seq::empty()
        }) + quoted(members[n - 1].0) + seq![':', ' '] + pretty_text(members[n - 1].1, indent + 2)
    }
}

/// The pretty form of the first `n` elements, which stand at column `indent`.
pub open spec fn pretty_elements(elements: Seq<Tree>, n: int, indent: nat) -> Seq<char>
    decreases elements, n,
{
    if n <= 0 || n > elements.len() {
        Seq::empty()
    } else {
        pretty_elements(elements, n - 1, indent) + (if n > 1 {
            line_break(indent)
        } else {
            Seq::empty()
        }) + pretty_text(elements[n - 1], indent + 2)
    }
}

/// Appends `text` between quotes.
fn write_quoted(text: &str, out: &mut String)
    ensures
        final(out)@ == old(out)@ + quoted(text@),
{
    out.push('"');
    out.append(text);
    out.push('"');
    assert(out@ =~= old(out)@ + quoted(text@));
}

/// Appends a scalar, which reads the same in both forms.
fn write_scalar(value: &Value, out: &mut String)
    requires
        !(value@ is Object),
        !(value@ is Array),
    ensures
        final(out)@ == old(out)@ + compact_text(value@),
{
    match value {
        Value::String(text) => {
            write_quoted(text.as_str(), out);
        },
        Value::Number(number) => {
            out.append(number.as_str());
        },
        Value::Boolean(true) => {
            proof {
                reveal_strlit("true");
            }
            out.append("true");
            assert(out@ =~= old(out)@ + word_true());
        },
        Value::Boolean(false) => {
            proof {
                reveal_strlit("false");
            }
            out.append("false");
            assert(out@ =~= old(out)@ + word_false());
        },
        Value::Null => {
            proof {
                reveal_strlit("null");
            }
            out.append("null");
            assert(out@ =~= old(out)@ + word_null());
        },
        _ => {},
    }
}

/// Appends the compact form of `value`.
pub fn write_compact(value: &Value, out: &mut String)
    ensures
        final(out)@ == old(out)@ + compact_text(value@),
    decreases value@,
{
    match value {
        Value::Object(object) => {
            out.push('{');
            let n = object.len();
            let mut i: usize = 0;
            while i < n
                invariant
                    i <= n == object@.len(),
                    value@ == Tree::Object(object@),
                    out@ == old(out)@ + seq!['{'] + compact_members(object@, i as int),
                decreases n - i,
            {
                if i > 0 {
                    out.push(',');
                }
                write_quoted(object.key(i).as_str(), out);
                out.push(':');
                proof {
                    lemma_member_is_smaller(value@, i as int);
                }
                write_compact(object.value(i), out);
                i += 1;
                assert(out@ =~= old(out)@ + seq!['{'] + compact_members(object@, i as int));
            }
            out.push('}');
            assert(out@ =~= old(out)@ + compact_text(value@));
        },
        Value::Array(elements) => {
            proof {
                lemma_trees(elements@);
            }
            out.push('[');
            let n = elements.len();
            let mut i: usize = 0;
            while i < n
                invariant
                    i <= n == elements@.len(),
                    value@ == Tree::Array(value@->Array_0),
                    value@->Array_0.len() == n,
                    forall|k: int| 0 <= k < n ==> (#[trigger] value@->Array_0[k]) == elements@[k]@,
                    out@ == old(out)@ + seq!['['] + compact_elements(value@->Array_0, i as int),
                decreases n - i,
            {
                if i > 0 {
                    out.push(',');
                }
                proof {
                    lemma_element_is_smaller(value@, i as int);
                }
                write_compact(&elements[i], out);
                i += 1;
                assert(out@ =~= old(out)@ + seq!['['] + compact_elements(
                    value@->Array_0,
                    i as int,
                ));
            }
            out.push(']');
            assert(out@ =~= old(out)@ + compact_text(value@));
        },
        _ => {
            write_scalar(value, out);
        },
    }
}

/// A string of `n` spaces.
pub fn padding(n: usize) -> (pad: String)
    ensures
        pad@ == spaces(n as nat),
{
    let mut pad = String::new();
    let mut i: usize = 0;
    while i < n
        invariant
            i <= n,
            pad@ == spaces(i as nat),
        decreases n - i,
    {
        pad.push(' ');
        i += 1;
        assert(pad@ =~= spaces(i as nat));
    }
    pad
}

/// Appends the pretty form of `value`, whose members stand behind `pad` and
/// whose closing bracket stands behind `closing`.
pub fn write_pretty(value: &Value, pad: &str, closing: &str, out: &mut String)
    requires
        pad@ == spaces(pad@.len()),
        closing@ == spaces(closing_indent(pad@.len())),
    ensures
        final(out)@ == old(out)@ + pretty_text(value@, pad@.len()),
    decreases value@,
{
    let ghost indent = pad@.len();
    match value {
        Value::Object(object) => {
            let n = object.len();
            out.push('{');
            if n > 0 {
                let mut inner = pad.to_owned();
                inner.push(' ');
                inner.push(' ');
                assert(inner@ =~= spaces(indent + 2));
                out.push('\n');
                out.append(pad);
                let mut i: usize = 0;
                while i < n
                    invariant
                        i <= n == object@.len(),
                        n > 0,
                        value@ == Tree::Object(object@),
                        indent == pad@.len(),
                        pad@ == spaces(indent),
                        inner@ == spaces(indent + 2),
                        out@ == old(out)@ + seq!['{', '\n'] + spaces(indent) + pretty_members(
                            object@,
                            i as int,
                            indent,
                        ),
                    decreases n - i,
                {
                    if i > 0 {
                        out.push(',');
                        out.push('\n');
                        out.append(pad);
                    }
                    write_quoted(object.key(i).as_str(), out);
                    out.push(':');
                    out.push(' ');
                    proof {
                        lemma_member_is_smaller(value@, i as int);
                    }
                    write_pretty(object.value(i), inner.as_str(), pad, out);
                    i += 1;
                    assert(out@ =~= old(out)@ + seq!['{', '\n'] + spaces(indent) + pretty_members(
                        object@,
                        i as int,
                        indent,
                    ));
                }
                out.push('\n');
                out.append(closing);
            }
            out.push('}');
            assert(out@ =~= old(out)@ + pretty_text(value@, indent));
        },
        Value::Array(elements) => {
            proof {
                lemma_trees(elements@);
            }
            let n = elements.len();
            out.push('[');
            if n > 0 {
                let mut inner = pad.to_owned();
                inner.push(' ');
                inner.push(' ');
                assert(inner@ =~= spaces(indent + 2));
                out.push('\n');
                out.append(pad);
                let mut i: usize = 0;
                while i < n
                    invariant
                        i <= n == elements@.len(),
                        n > 0,
                        value@ == Tree::Array(value@->Array_0),
                        value@->Array_0.len() == n,
                        forall|k: int|
                            0 <= k < n ==> (#[trigger] value@->Array_0[k]) == elements@[k]@,
                        indent == pad@.len(),
                        pad@ == spaces(indent),
                        inner@ == spaces(indent + 2),
                        out@ == old(out)@ + seq!['[', '\n'] + spaces(indent) + pretty_elements(
                            value@->Array_0,
                            i as int,
                            indent,
                        ),
                    decreases n - i,
                {
                    if i > 0 {
                        out.push(',');
                        out.push('\n');
                        out.append(pad);
                    }
                    proof {
                        lemma_element_is_smaller(value@, i as int);
                    }
                    write_pretty(&elements[i], inner.as_str(), pad, out);
                    i += 1;
                    assert(out@ =~= old(out)@ + seq!['[', '\n'] + spaces(indent)
                        + pretty_elements(value@->Array_0, i as int, indent));
                }
                out.push('\n');
                out.append(closing);
            }
            out.push(']');
            assert(out@ =~= old(out)@ + pretty_text(value@, indent));
        },
        _ => {
            write_scalar(value, out);
        },
    }
}

} // verus!
