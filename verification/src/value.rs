//! The value model: numbers, objects, and the six kinds of value.

use crate::grammar::is_numeral;
use crate::numeral::is_numeral_text;
use crate::text::chars_of;
use crate::tree::{
    distinct_keys, has_key, index_of_key, insert_member, lemma_distinct_keys_index,
    lemma_element_is_smaller, lemma_index_of_key, lemma_index_of_key_is,
    lemma_insert_member_distinct, lemma_member_is_smaller, Tree,
};
use vstd::prelude::*;
use vstd::std_specs::cmp::PartialEqSpecImpl;

verus! {

/// A number, held as the numeral that denotes it.
#[derive(Debug)]
pub struct Number {
    text: String,
}

/// The members of an object: each name once, in the order in which the names
/// were first given.
#[derive(Debug)]
pub struct Object {
    members: Vec<(String, Value)>,
}

/// Any JSON value.
#[derive(Debug)]
pub enum Value {
    String(String),
    Number(Number),
    Boolean(bool),
    Null,
    Object(Object),
    Array(Vec<Value>),
}

/// Why a value has nothing at a key or a position.
#[derive(Debug, Clone, Copy, PartialEq, Eq)]
pub enum IndexError {
    /// The value is not of the kind that the index is for.
    TypeMismatch,
    /// The object has no member of that name.
    MissingKey,
    /// The array is not that long.
    OutOfBounds,
}

/// The trees of a sequence of values.
pub open spec fn trees(values: Seq<Value>) -> Seq<Tree>
    decreases values,
{
    Seq::new(
        values.len(),
        |i: int|
            if 0 <= i < values.len() {
                values[i].view()
            } else {
                arbitrary()
            },
    )
}

/// The trees of a sequence of members.
pub open spec fn member_trees(members: Seq<(String, Value)>) -> Seq<(Seq<char>, Tree)>
    decreases members,
{
    Seq::new(
        members.len(),
        |i: int|
            if 0 <= i < members.len() {
                (members[i].0@, members[i].1.view())
            } else {
                arbitrary()
            },
    )
}

/// `trees` goes element by element.
pub proof fn lemma_trees(values: Seq<Value>)
    ensures
        trees(values).len() == values.len(),
        forall|i: int| 0 <= i < values.len() ==> (#[trigger] trees(values)[i]) == values[i]@,
{
}

impl View for Number {
    type V = Seq<char>;

    closed spec fn view(&self) -> Seq<char> {
        self.text@
    }
}

impl View for Object {
    type V = Seq<(Seq<char>, Tree)>;

    closed spec fn view(&self) -> Seq<(Seq<char>, Tree)>
        decreases self,
    {
        member_trees(self.members@)
    }
}

impl View for Value {
    type V = Tree;

    open spec fn view(&self) -> Tree
        decreases self,
    {
        match self {
            Value::String(text) => Tree::String(text@),
            Value::Number(number) => Tree::Number(number@),
            Value::Boolean(b) => Tree::Boolean(*b),
            Value::Null => Tree::Null,
            Value::Object(object) => Tree::Object(object.view()),
            Value::Array(elements) => Tree::Array(trees(elements@)),
        }
    }
}

impl Number {
    #[verifier::type_invariant]
    closed spec fn is_a_numeral(&self) -> bool {
        is_numeral(self.text@)
    }

    /// The number that `text` denotes, if `text` is a numeral.
    pub fn new(text: &str) -> (r: Option<Number>)
        ensures
            match r {
                Some(number) => number@ == text@ && is_numeral(text@),
                None => !is_numeral(text@),
            },
    {
        let chars = chars_of(text);
        if is_numeral_text(chars.as_slice()) {
            Some(Number { text: text.to_owned() })
        } else {
            None
        }
    }

    /// The number that the numeral `text` denotes.
    pub(crate) fn from_numeral(text: String) -> (number: Number)
        requires
            is_numeral(text@),
        ensures
            number@ == text@,
    {
        Number { text }
    }

    /// The numeral.
    pub fn as_str(&self) -> (text: &str)
        ensures
            text@ == self@,
            is_numeral(text@),
    {
        proof {
            use_type_invariant(self);
        }
        self.text.as_str()
    }
}

impl Object {
    #[verifier::type_invariant]
    closed spec fn names_are_distinct(&self) -> bool {
        distinct_keys(member_trees(self.members@))
    }

    /// The object without members.
    pub fn new() -> (object: Object)
        ensures
            object@ == Seq::<(Seq<char>, Tree)>::empty(),
    {
        Object { members: Vec::new() }
    }

    /// How many members the object has.
    pub fn len(&self) -> (n: usize)
        ensures
            n == self@.len(),
    {
        self.members.len()
    }

    /// Whether the object has no member.
    pub fn is_empty(&self) -> (r: bool)
        ensures
            r == (self@.len() == 0),
    {
        self.members.len() == 0
    }

    /// The name of the member at `i`, which no other member has.
    pub fn key(&self, i: usize) -> (key: &String)
        requires
            i < self@.len(),
        ensures
            key@ == self@[i as int].0,
            index_of_key(self@, key@) == i,
    {
        proof {
            use_type_invariant(self);
            lemma_distinct_keys_index(self@, i as int);
        }
        &self.members[i].0
    }

    /// The value of the member at `i`.
    pub fn value(&self, i: usize) -> (value: &Value)
        requires
            i < self@.len(),
        ensures
            value@ == self@[i as int].1,
    {
        &self.members[i].1
    }

    /// Where the member named `key` stands.
    pub fn position(&self, key: &str) -> (r: Option<usize>)
        ensures
            match r {
                Some(i) => has_key(self@, key@) && i == index_of_key(self@, key@),
                None => !has_key(self@, key@),
            },
    {
        let name = key.to_owned();
        let mut i: usize = 0;
        while i < self.members.len()
            invariant
                i <= self.members.len(),
                name@ == key@,
                forall|j: int| 0 <= j < i ==> (#[trigger] self@[j]).0 != key@,
            decreases self.members.len() - i,
        {
            if self.members[i].0 == name {
                proof {
                    lemma_index_of_key_is(self@, key@, i as int);
                }
                return Some(i);
            }
            i += 1;
        }
        proof {
            lemma_index_of_key_is(self@, key@, i as int);
        }
        None
    }

    /// The value of the member named `key`.
    pub fn get(&self, key: &str) -> (r: Option<&Value>)
        ensures
            match r {
                Some(value) => has_key(self@, key@) && value@ == self@[index_of_key(
                    self@,
                    key@,
                )].1,
                None => !has_key(self@, key@),
            },
    {
        match self.position(key) {
            Some(i) => Some(&self.members[i].1),
            None => None,
        }
    }

    /// Gives the name `key` the value `value`: a member of that name is
    /// overwritten where it stands, and a new name goes to the end.
    pub fn insert(&mut self, key: String, value: Value)
        ensures
            final(self)@ == insert_member(old(self)@, key@, value@),
    {
        proof {
            use_type_invariant(&*self);
            lemma_insert_member_distinct(self@, key@, value@);
            lemma_index_of_key(self@, key@);
        }
        let found = self.position(key.as_str());
        let mut members: Vec<(String, Value)> = Vec::new();
        core::mem::swap(&mut self.members, &mut members);
        match found {
            Some(i) => {
                members[i] = (key, value);
            },
            None => {
                members.push((key, value));
            },
        }
        proof {
            assert(member_trees(members@) =~= insert_member(old(self)@, key@, value@));
        }
        core::mem::swap(&mut self.members, &mut members);
    }
}

impl Value {
    /// The value of the member named `key`, where this value is an object.
    pub fn get(&self, key: &str) -> (r: Result<&Value, IndexError>)
        ensures
            match self@ {
                Tree::Object(members) => if has_key(members, key@) {
                    r matches Ok(value) && value@ == members[index_of_key(members, key@)].1
                } else {
                    r == Err::<&Value, IndexError>(IndexError::MissingKey)
                },
                _ => r == Err::<&Value, IndexError>(IndexError::TypeMismatch),
            },
    {
        match self {
            Value::Object(object) => match object.get(key) {
                Some(value) => Ok(value),
                None => Err(IndexError::MissingKey),
            },
            _ => Err(IndexError::TypeMismatch),
        }
    }

    /// The element at `index`, where this value is an array.
    pub fn at(&self, index: usize) -> (r: Result<&Value, IndexError>)
        ensures
            match self@ {
                Tree::Array(elements) => if index < elements.len() {
                    r matches Ok(value) && value@ == elements[index as int]
                } else {
                    r == Err::<&Value, IndexError>(IndexError::OutOfBounds)
                },
                _ => r == Err::<&Value, IndexError>(IndexError::TypeMismatch),
            },
    {
        match self {
            Value::Array(elements) => {
                proof {
                    lemma_trees(elements@);
                }
                if index < elements.len() {
                    Ok(&elements[index])
                } else {
                    Err(IndexError::OutOfBounds)
                }
            },
            _ => Err(IndexError::TypeMismatch),
        }
    }
}

/// Whether two arrays mean the same: as long, and element by element.
fn same_elements(a: &Vec<Value>, b: &Vec<Value>) -> (r: bool)
    ensures
        r == (Tree::Array(trees(a@)).datum() == Tree::Array(trees(b@)).datum()),
    decreases Tree::Array(trees(a@)), 0int,
{
    let ghost left = Tree::Array(trees(a@)).datum()->Array_0;
    let ghost right = Tree::Array(trees(b@)).datum()->Array_0;
    proof {
        lemma_trees(a@);
        lemma_trees(b@);
    }
    if a.len() != b.len() {
        assert(left.len() != right.len());
        return false;
    }
    let mut i: usize = 0;
    while i < a.len()
        invariant
            i <= a.len() == b.len(),
            left == Tree::Array(trees(a@)).datum()->Array_0,
            right == Tree::Array(trees(b@)).datum()->Array_0,
            forall|k: int| 0 <= k < i ==> a@[k]@.datum() == b@[k]@.datum(),
        decreases a.len() - i,
    {
        proof {
            lemma_trees(a@);
            lemma_trees(b@);
            lemma_element_is_smaller(Tree::Array(trees(a@)), i as int);
        }
        if !same_datum(&a[i], &b[i]) {
            assert(left[i as int] != right[i as int]);
            return false;
        }
        i += 1;
    }
    proof {
        lemma_trees(a@);
        lemma_trees(b@);
        assert(left =~= right);
    }
    true
}

/// Whether two objects mean the same: the same names, and under each name
/// values that mean the same, in whatever order the members stand.
fn same_members(a: &Object, b: &Object) -> (r: bool)
    ensures
        r == (Tree::Object(a@).datum() == Tree::Object(b@).datum()),
    decreases Tree::Object(a@), 0int,
{
    let ghost left = Tree::Object(a@).datum()->Object_0;
    let ghost right = Tree::Object(b@).datum()->Object_0;
    let mut i: usize = 0;
    while i < a.len()
        invariant
            i <= a@.len(),
            left == Tree::Object(a@).datum()->Object_0,
            right == Tree::Object(b@).datum()->Object_0,
            forall|k: int|
                0 <= k < i ==> has_key(b@, (#[trigger] a@[k]).0) && a@[k].1.datum()
                    == b@[index_of_key(b@, a@[k].0)].1.datum(),
        decreases a@.len() - i,
    {
        let key = a.key(i);
        match b.position(key.as_str()) {
            None => {
                assert(left.dom().contains(key@) && !right.dom().contains(key@));
                return false;
            },
            Some(j) => {
                proof {
                    lemma_member_is_smaller(Tree::Object(a@), i as int);
                }
                if !same_datum(a.value(i), b.value(j)) {
                    assert(left[key@] != right[key@]);
                    return false;
                }
            },
        }
        i += 1;
    }
    let mut j: usize = 0;
    while j < b.len()
        invariant
            j <= b@.len(),
            left == Tree::Object(a@).datum()->Object_0,
            right == Tree::Object(b@).datum()->Object_0,
            forall|k: int| 0 <= k < j ==> has_key(a@, (#[trigger] b@[k]).0),
        decreases b@.len() - j,
    {
        let key = b.key(j);
        if a.position(key.as_str()).is_none() {
            assert(right.dom().contains(key@) && !left.dom().contains(key@));
            return false;
        }
        j += 1;
    }
    proof {
        assert forall|key: Seq<char>| left.dom().contains(key) <==> right.dom().contains(
            key,
        ) by {
            lemma_index_of_key(a@, key);
            lemma_index_of_key(b@, key);
            if has_key(a@, key) {
                assert(has_key(b@, a@[index_of_key(a@, key)].0));
            }
            if has_key(b@, key) {
                assert(has_key(a@, b@[index_of_key(b@, key)].0));
            }
        }
        assert forall|key: Seq<char>| left.dom().contains(key) implies left[key] == right[key] by {
            lemma_index_of_key(a@, key);
            lemma_index_of_key(b@, key);
            let k = index_of_key(a@, key);
            assert(has_key(a@, key));
            assert(a@[k].0 == key);
            assert(has_key(b@, a@[k].0));
            assert(a@[k].1.datum() == b@[index_of_key(b@, a@[k].0)].1.datum());
            assert(left[key] == a@[k].1.datum());
            assert(right.dom().contains(key));
            assert(right[key] == b@[index_of_key(b@, key)].1.datum());
        }
        assert(left =~= right);
    }
    true
}

/// Whether two values mean the same.
fn same_datum(a: &Value, b: &Value) -> (r: bool)
    ensures
        r == (a@.datum() == b@.datum()),
    decreases a@, 1int,
{
    match (a, b) {
        (Value::String(x), Value::String(y)) => *x == *y,
        (Value::Number(x), Value::Number(y)) => x.text == y.text,
        (Value::Boolean(x), Value::Boolean(y)) => *x == *y,
        (Value::Null, Value::Null) => true,
        (Value::Object(x), Value::Object(y)) => same_members(x, y),
        (Value::Array(x), Value::Array(y)) => same_elements(x, y),
        _ => false,
    }
}

/// Two values are equal when they mean the same: numbers by their numerals,
/// arrays element by element, and objects by what each name holds, in
/// whatever order the members stand.
impl PartialEq for Value {
    fn eq(&self, other: &Value) -> (r: bool) {
        same_datum(self, other)
    }
}

impl PartialEqSpecImpl for Value {
    open spec fn obeys_eq_spec() -> bool {
        true
    }

    open spec fn eq_spec(&self, other: &Value) -> bool {
        self@.datum() == other@.datum()
    }
}

} // verus!
