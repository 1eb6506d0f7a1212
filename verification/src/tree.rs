//! The mathematical model of a JSON value.
//!
//! A [`Tree`] is what a value looks like on paper: strings are sequences of
//! characters, numbers are the numerals that denote them, and the members of
//! an object stand in the order in which they are written out. A [`Datum`]
//! forgets that order: it is what two values must share to be equal.

use vstd::prelude::*;

verus! {

/// A JSON value as a tree of mathematical sequences.
pub enum Tree {
    String(Seq<char>),
    /// The numeral that denotes the number, sign and exponent included.
    Number(Seq<char>),
    Boolean(bool),
    Null,
    /// The members in the order in which they are written out.
    Object(Seq<(Seq<char>, Tree)>),
    Array(Seq<Tree>),
}

/// What a value means once the order of object members is forgotten.
pub enum Datum {
    String(Seq<char>),
    Number(Seq<char>),
    Boolean(bool),
    Null,
    Object(Map<Seq<char>, Datum>),
    Array(Seq<Datum>),
}

/// The index of the first member named `key`, or `members.len()` if there is none.
pub open spec fn index_of_key(members: Seq<(Seq<char>, Tree)>, key: Seq<char>) -> int
    decreases members.len(),
{
    if members.len() == 0 {
        0
    } else if members[0].0 == key {
        0
    } else {
        1 + index_of_key(members.drop_first(), key)
    }
}

/// Some member is named `key`.
pub open spec fn has_key(members: Seq<(Seq<char>, Tree)>, key: Seq<char>) -> bool {
    index_of_key(members, key) < members.len()
}

/// No two members share a name.
pub open spec fn distinct_keys(members: Seq<(Seq<char>, Tree)>) -> bool {
    forall|i: int, j: int| 0 <= i < j < members.len() ==> members[i].0 != members[j].0
}

/// The members after `key` has been given `value`: the member of that name is
/// overwritten where it stands, and a new name goes to the end.
pub open spec fn insert_member(
    members: Seq<(Seq<char>, Tree)>,
    key: Seq<char>,
    value: Tree,
) -> Seq<(Seq<char>, Tree)> {
    let i = index_of_key(members, key);
    if i < members.len() {
        members.update(i, (key, value))
    } else {
        members.push((key, value))
    }
}

/// A character that the compact and pretty forms can carry inside quotes and
/// that reads back as itself.
pub open spec fn is_plain_char(c: char) -> bool {
    c != '"' && c != '\\' && c != '\t' && c != '\n' && c != '\r'
}

/// Every character of `text` is plain.
pub open spec fn is_plain_text(text: Seq<char>) -> bool {
    forall|i: int| 0 <= i < text.len() ==> is_plain_char(#[trigger] text[i])
}

impl Tree {
    /// Every number is a numeral of the grammar and no object names a member twice.
    pub open spec fn well_formed(self) -> bool
        decreases self,
    {
        match self {
            Tree::Number(numeral) => crate::grammar::is_numeral(numeral),
            Tree::Object(members) => {
                &&& distinct_keys(members)
                &&& forall|i: int|
                    0 <= i < members.len() ==> (#[trigger] members[i]).1.well_formed()
            },
            Tree::Array(elements) => forall|i: int|
                0 <= i < elements.len() ==> (#[trigger] elements[i]).well_formed(),
            _ => true,
        }
    }

    /// Every string in the tree, member names included, is plain text.
    pub open spec fn plain(self) -> bool
        decreases self,
    {
        match self {
            Tree::String(text) => is_plain_text(text),
            Tree::Object(members) => forall|i: int|
                0 <= i < members.len() ==> {
                    &&& is_plain_text((#[trigger] members[i]).0)
                    &&& members[i].1.plain()
                },
            Tree::Array(elements) => forall|i: int|
                0 <= i < elements.len() ==> (#[trigger] elements[i]).plain(),
            _ => true,
        }
    }

    /// The value with the order of object members forgotten. Where a name
    /// occurs twice, its first member counts.
    pub open spec fn datum(self) -> Datum
        decreases self,
    {
        match self {
            Tree::String(text) => Datum::String(text),
            Tree::Number(numeral) => Datum::Number(numeral),
            Tree::Boolean(b) => Datum::Boolean(b),
            Tree::Null => Datum::Null,
            Tree::Object(members) => Datum::Object(
                Map::new(
                    |key: Seq<char>| has_key(members, key),
                    |key: Seq<char>|
                        {
                            let i = index_of_key(members, key);
                            if 0 <= i < members.len() {
                                members[i].1.datum()
                            } else {
                                arbitrary()
                            }
                        },
                ),
            ),
            Tree::Array(elements) => Datum::Array(
                Seq::new(
                    elements.len(),
                    |i: int|
                        if 0 <= i < elements.len() {
                            elements[i].datum()
                        } else {
                            arbitrary()
                        },
                ),
            ),
        }
    }
}

/// An object is well formed when its names are distinct and its values well formed.
pub proof fn lemma_object_well_formed(members: Seq<(Seq<char>, Tree)>)
    ensures
        Tree::Object(members).well_formed() <==> distinct_keys(members) && forall|i: int|
            0 <= i < members.len() ==> (#[trigger] members[i]).1.well_formed(),
{
    assert(Tree::Object(members)->Object_0 == members);
}

/// An array is well formed when its elements are.
pub proof fn lemma_array_well_formed(elements: Seq<Tree>)
    ensures
        Tree::Array(elements).well_formed() <==> forall|i: int|
            0 <= i < elements.len() ==> (#[trigger] elements[i]).well_formed(),
{
    assert(Tree::Array(elements)->Array_0 == elements);
}

/// An object is plain when its names and its values are.
pub proof fn lemma_object_plain(members: Seq<(Seq<char>, Tree)>)
    ensures
        Tree::Object(members).plain() <==> forall|i: int|
            0 <= i < members.len() ==> is_plain_text((#[trigger] members[i]).0)
                && members[i].1.plain(),
{
    assert(Tree::Object(members)->Object_0 == members);
}

/// An array is plain when its elements are.
pub proof fn lemma_array_plain(elements: Seq<Tree>)
    ensures
        Tree::Array(elements).plain() <==> forall|i: int|
            0 <= i < elements.len() ==> (#[trigger] elements[i]).plain(),
{
    assert(Tree::Array(elements)->Array_0 == elements);
}

/// `index_of_key` is in range, and no member before it has the name.
pub proof fn lemma_index_of_key(members: Seq<(Seq<char>, Tree)>, key: Seq<char>)
    ensures
        0 <= index_of_key(members, key) <= members.len(),
        forall|j: int| 0 <= j < index_of_key(members, key) ==> (#[trigger] members[j]).0 != key,
        has_key(members, key) ==> members[index_of_key(members, key)].0 == key,
    decreases members.len(),
{
    if members.len() > 0 && members[0].0 != key {
        let rest = members.drop_first();
        lemma_index_of_key(rest, key);
        assert forall|j: int| 0 <= j < index_of_key(members, key) implies (#[trigger] members[j]).0
            != key by {
            if j > 0 {
                assert(members[j] == rest[j - 1]);
            }
        }
        if has_key(members, key) {
            assert(members[index_of_key(members, key)] == rest[index_of_key(rest, key)]);
        }
    }
}

/// The first member with the name is where `index_of_key` points.
pub proof fn lemma_index_of_key_is(members: Seq<(Seq<char>, Tree)>, key: Seq<char>, i: int)
    requires
        0 <= i <= members.len(),
        forall|j: int| 0 <= j < i ==> (#[trigger] members[j]).0 != key,
        i < members.len() ==> members[i].0 == key,
    ensures
        index_of_key(members, key) == i,
{
    lemma_index_of_key(members, key);
    let k = index_of_key(members, key);
    if k < i {
        assert(members[k].0 == key);
    } else if k > i {
        assert(members[i].0 == key);
    }
}

/// Among distinct names, each member is the first of its name.
pub proof fn lemma_distinct_keys_index(members: Seq<(Seq<char>, Tree)>, i: int)
    requires
        distinct_keys(members),
        0 <= i < members.len(),
    ensures
        index_of_key(members, members[i].0) == i,
{
    lemma_index_of_key_is(members, members[i].0, i);
}

/// Giving a name a value keeps the names distinct.
pub proof fn lemma_insert_member_distinct(
    members: Seq<(Seq<char>, Tree)>,
    key: Seq<char>,
    value: Tree,
)
    requires
        distinct_keys(members),
    ensures
        distinct_keys(insert_member(members, key, value)),
{
    lemma_index_of_key(members, key);
    let after = insert_member(members, key, value);
    assert forall|i: int, j: int| 0 <= i < j < after.len() implies after[i].0 != after[j].0 by {
        if index_of_key(members, key) < members.len() {
            assert(members[i].0 != members[j].0);
        } else if j < members.len() {
            assert(members[i].0 != members[j].0);
        } else {
            assert(members[i].0 != key);
        }
    }
}

/// Last write wins: giving a name a value changes the meaning of the object
/// at that name and nowhere else.
pub proof fn lemma_insert_member_datum(
    members: Seq<(Seq<char>, Tree)>,
    key: Seq<char>,
    value: Tree,
)
    ensures
        Tree::Object(insert_member(members, key, value)).datum() == Datum::Object(
            Tree::Object(members).datum()->Object_0.insert(key, value.datum()),
        ),
{
    let after = insert_member(members, key, value);
    let before_map = Tree::Object(members).datum()->Object_0;
    let after_map = Tree::Object(after).datum()->Object_0;
    lemma_index_of_key(members, key);
    let at = index_of_key(members, key);
    assert forall|k: Seq<char>| #![auto] index_of_key(after, k) == if k == key {
        at
    } else if has_key(members, k) {
        index_of_key(members, k)
    } else {
        after.len() as int
    } by {
        lemma_index_of_key(members, k);
        let ik = index_of_key(members, k);
        if k == key {
            assert forall|j: int| 0 <= j < at implies (#[trigger] after[j]).0 != k by {
                assert(members[j].0 != k);
            }
            lemma_index_of_key_is(after, k, at);
        } else if ik < members.len() {
            assert forall|j: int| 0 <= j < ik implies (#[trigger] after[j]).0 != k by {
                assert(members[j].0 != k);
            }
            lemma_index_of_key_is(after, k, ik);
        } else {
            assert forall|j: int| 0 <= j < after.len() implies (#[trigger] after[j]).0 != k by {
                if j < members.len() {
                    assert(members[j].0 != k);
                }
            }
            lemma_index_of_key_is(after, k, after.len() as int);
        }
    }
    assert(after_map =~= before_map.insert(key, value.datum())) by {
        assert forall|k: Seq<char>| after_map.dom().contains(k) implies #[trigger] after_map[k]
            == before_map.insert(key, value.datum())[k] by {
            lemma_index_of_key(members, k);
        }
    }
}

/// The order of members does not matter: two objects with distinct names
/// that hold the same members mean the same.
pub proof fn lemma_member_order_is_immaterial(
    a: Seq<(Seq<char>, Tree)>,
    b: Seq<(Seq<char>, Tree)>,
)
    requires
        distinct_keys(a),
        distinct_keys(b),
        forall|i: int| 0 <= i < a.len() ==> b.contains(#[trigger] a[i]),
        forall|j: int| 0 <= j < b.len() ==> a.contains(#[trigger] b[j]),
    ensures
        Tree::Object(a).datum() == Tree::Object(b).datum(),
{
    let left = Tree::Object(a).datum()->Object_0;
    let right = Tree::Object(b).datum()->Object_0;
    assert forall|key: Seq<char>| has_key(a, key) implies has_key(b, key) && a[index_of_key(
        a,
        key,
    )].1 == b[index_of_key(b, key)].1 by {
        lemma_index_of_key(a, key);
        let i = index_of_key(a, key);
        assert(b.contains(a[i]));
        let j = choose|j: int| 0 <= j < b.len() && b[j] == a[i];
        lemma_distinct_keys_index(b, j);
    }
    assert forall|key: Seq<char>| has_key(b, key) implies has_key(a, key) by {
        lemma_index_of_key(b, key);
        let j = index_of_key(b, key);
        assert(a.contains(b[j]));
        let i = choose|i: int| 0 <= i < a.len() && a[i] == b[j];
        lemma_distinct_keys_index(a, i);
    }
    assert(left =~= right) by {
        assert forall|key: Seq<char>| left.dom().contains(key) implies #[trigger] left[key]
            == right[key] by {
            lemma_index_of_key(a, key);
            lemma_index_of_key(b, key);
        }
    }
}

/// The value of a member is a smaller tree than the object.
pub proof fn lemma_member_is_smaller(tree: Tree, i: int)
    requires
        tree is Object,
        0 <= i < tree->Object_0.len(),
    ensures
        decreases_to!(tree => tree->Object_0[i].1),
{
    match tree {
        Tree::Object(members) => {
            assert(decreases_to!(tree => members));
            assert(decreases_to!(members => members[i]));
            assert(decreases_to!(members[i] => members[i].1));
        },
        _ => {},
    }
}

/// An element is a smaller tree than the array.
pub proof fn lemma_element_is_smaller(tree: Tree, i: int)
    requires
        tree is Array,
        0 <= i < tree->Array_0.len(),
    ensures
        decreases_to!(tree => tree->Array_0[i]),
{
    match tree {
        Tree::Array(elements) => {
            assert(decreases_to!(tree => elements));
            assert(decreases_to!(elements => elements[i]));
        },
        _ => {},
    }
}

} // verus!
