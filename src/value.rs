use vstd::prelude::*;
use vstd::string::*;

verus! {

/// A JSON-like value as handed to the library.
///
/// A number is held as its JSON text (`42`, `-1.5e3`), which is also how it is
/// compared and rendered. An object is an ordered list of entries whose keys
/// are unique (see `Json::wf`).
#[derive(Debug, PartialEq)]
pub enum Value {
    Null,
    Bool(bool),
    Number(String),
    String(String),
    Array(Vec<Value>),
    Object(Vec<(String, Value)>),
}

/// The mathematical model of a `Value`.
pub enum Json {
    Null,
    Bool(bool),
    Number(Seq<char>),
    Str(Seq<char>),
    Array(Seq<Json>),
    Object(Seq<(Seq<char>, Json)>),
}

impl Value {
    pub open spec fn view(&self) -> Json
        decreases self,
    {
        match self {
            Value::Null => Json::Null,
            Value::Bool(b) => Json::Bool(*b),
            Value::Number(n) => Json::Number(n@),
            Value::String(s) => Json::Str(s@),
            Value::Array(items) => Json::Array(
                Seq::new(
                    items.len() as nat,
                    |i: int|
                        if 0 <= i < items.len() {
                            items[i].view()
                        } else {
                            Json::Null
                        },
                ),
            ),
            Value::Object(entries) => Json::Object(
                Seq::new(
                    entries.len() as nat,
                    |i: int|
                        if 0 <= i < entries.len() {
                            (entries[i].0@, entries[i].1.view())
                        } else {
                            (Seq::empty(), Json::Null)
                        },
                ),
            ),
        }
    }
}

} // verus!

verus! {

/// The JSON text of a string: quoted, with the characters that JSON requires
/// escaped.
pub uninterp spec fn json_quoted(s: Seq<char>) -> Seq<char>;

/// Relies on serde_json's `Display` of a string value: it writes the string
/// as a JSON string literal, which depends on the characters alone.
#[verifier::external_body]
fn quote_json_string(s: &String) -> (r: String)
    ensures
        r@ == json_quoted(s@),
{
    serde_json::Value::String(s.clone()).to_string()
}

impl Json {
    /// Keys of every object in the tree are unique.
    pub open spec fn wf(self) -> bool
        decreases self,
    {
        match self {
            Json::Array(items) => forall|i: int| 0 <= i < items.len() ==> (#[trigger] items[i]).wf(),
            Json::Object(entries) => {
                &&& forall|i: int, j: int|
                    0 <= i < j < entries.len() ==> (#[trigger] entries[i]).0 != (#[trigger] entries[j]).0
                &&& forall|i: int| 0 <= i < entries.len() ==> (#[trigger] entries[i]).1.wf()
            },
            _ => true,
        }
    }

    pub open spec fn is_container(self) -> bool {
        self is Array || self is Object
    }

    /// The text of a leaf value, as it is rendered and tokenised.
    pub open spec fn leaf_text(self) -> Seq<char> {
        match self {
            Json::Null => seq!['n', 'u', 'l', 'l'],
            Json::Bool(b) => if b {
                seq!['t', 'r', 'u', 'e']
            } else {
                seq!['f', 'a', 'l', 's', 'e']
            },
            Json::Number(t) => t,
            Json::Str(s) => json_quoted(s),
            _ => Seq::empty(),
        }
    }
}

pub open spec fn has_key(entries: Seq<(Seq<char>, Json)>, key: Seq<char>) -> bool {
    exists|i: int| 0 <= i < entries.len() && (#[trigger] entries[i]).0 == key
}

pub open spec fn lines_of(v: Seq<String>) -> Seq<Seq<char>> {
    v.map_values(|s: String| s@)
}

impl Value {
    /// A copy of the whole tree.
    pub fn deep_copy(&self) -> (r: Value)
        ensures
            r@ == self@,
        decreases self,
    {
        match self {
            Value::Null => Value::Null,
            Value::Bool(b) => Value::Bool(*b),
            Value::Number(n) => Value::Number(n.clone()),
            Value::String(s) => Value::String(s.clone()),
            Value::Array(items) => {
                let mut out: Vec<Value> = Vec::new();
                let mut i: usize = 0;
                while i < items.len()
                    invariant
                        i <= items.len(),
                        out.len() == i,
                        *self is Array,
                        self->Array_0 == *items,
                        forall|j: int| 0 <= j < i ==> (#[trigger] out[j])@ == items[j]@,
                    decreases items.len() - i,
                {
                    proof {
                        vstd::std_specs::vec::axiom_vec_index_decreases(*items, i as int);
                        assert(decreases_to!(*self => self->Array_0));
                        assert(decreases_to!(*self => items[i as int]));
                    }
                    let c = items[i].deep_copy();
                    out.push(c);
                    i = i + 1;
                }
                let r = Value::Array(out);
                assert(r@->Array_0 =~= self@->Array_0);
                r
            },
            Value::Object(entries) => {
                let mut out: Vec<(String, Value)> = Vec::new();
                let mut i: usize = 0;
                while i < entries.len()
                    invariant
                        i <= entries.len(),
                        out.len() == i,
                        *self is Object,
                        self->Object_0 == *entries,
                        forall|j: int| 0 <= j < i ==> (#[trigger] out[j]).0@ == entries[j].0@ && out[j].1@ == entries[j].1@,
                    decreases entries.len() - i,
                {
                    proof {
                        vstd::std_specs::vec::axiom_vec_index_decreases(*entries, i as int);
                        assert(decreases_to!(*self => self->Object_0));
                        assert(decreases_to!(*entries => entries[i as int]));
                        assert(decreases_to!(*self => entries[i as int].1));
                    }
                    let k = entries[i].0.clone();
                    let c = entries[i].1.deep_copy();
                    out.push((k, c));
                    i = i + 1;
                }
                let r = Value::Object(out);
                assert(r@->Object_0 =~= self@->Object_0);
                r
            },
        }
    }

    /// The text of a leaf: `null`, `true`, `false`, a number's text or a
    /// quoted string.
    pub fn leaf_text(&self) -> (r: String)
        requires
            !self@.is_container(),
        ensures
            r@ == self@.leaf_text(),
    {
        match self {
            Value::Null => {
                proof { reveal_strlit("null"); }
                String::from_str("null")
            },
            Value::Bool(b) => {
                if *b {
                    proof { reveal_strlit("true"); }
                    String::from_str("true")
                } else {
                    proof { reveal_strlit("false"); }
                    String::from_str("false")
                }
            },
            Value::Number(n) => n.clone(),
            Value::String(s) => quote_json_string(s),
            _ => String::new(),
        }
    }
}

/// Equality of two values of which at least one is a leaf, or which are of
/// different kinds.
pub fn leaves_equal(a: &Value, b: &Value) -> (r: bool)
    requires
        !(a@ is Array && b@ is Array),
        !(a@ is Object && b@ is Object),
    ensures
        r == (a@ == b@),
{
    match (a, b) {
        (Value::Null, Value::Null) => true,
        (Value::Bool(x), Value::Bool(y)) => *x == *y,
        (Value::Number(x), Value::Number(y)) => x.eq(y),
        (Value::String(x), Value::String(y)) => x.eq(y),
        _ => false,
    }
}

} // verus!

verus! {

/// Nesting depth of a tree: leaves have depth 0.
pub open spec fn depth(j: Json) -> nat
    decreases j, 0int,
{
    match j {
        Json::Array(s) => 1 + depth_items(s, s.len() as int),
        Json::Object(es) => 1 + depth_members(es, es.len() as int),
        _ => 0,
    }
}

pub open spec fn depth_items(s: Seq<Json>, n: int) -> nat
    decreases s, n,
{
    if n <= 0 || n > s.len() {
        0
    } else {
        let d = depth(s[n - 1]);
        let rest = depth_items(s, n - 1);
        if d > rest { d } else { rest }
    }
}

pub open spec fn depth_members(es: Seq<(Seq<char>, Json)>, n: int) -> nat
    decreases es, n,
{
    if n <= 0 || n > es.len() {
        0
    } else {
        let d = depth(es[n - 1].1);
        let rest = depth_members(es, n - 1);
        if d > rest { d } else { rest }
    }
}

pub proof fn lemma_depth_items(s: Seq<Json>, n: int, i: int)
    requires
        0 <= i < n <= s.len(),
    ensures
        depth(s[i]) <= depth_items(s, n),
    decreases n,
{
    if i < n - 1 {
        lemma_depth_items(s, n - 1, i);
    }
}

pub proof fn lemma_depth_members(es: Seq<(Seq<char>, Json)>, n: int, i: int)
    requires
        0 <= i < n <= es.len(),
    ensures
        depth(es[i].1) <= depth_members(es, n),
    decreases n,
{
    if i < n - 1 {
        lemma_depth_members(es, n - 1, i);
    }
}

/// An element of an array is less deep than the array.
pub proof fn lemma_item_depth(v: &Value, i: int)
    requires
        *v is Array,
        0 <= i < v->Array_0.len(),
    ensures
        depth(v->Array_0[i]@) < depth(v@),
{
    let s = v@->Array_0;
    assert(s[i] == v->Array_0[i]@);
    lemma_depth_items(s, s.len() as int, i);
}

/// A member's value is less deep than its object.
pub proof fn lemma_member_depth(v: &Value, i: int)
    requires
        *v is Object,
        0 <= i < v->Object_0.len(),
    ensures
        depth(v->Object_0[i].1@) < depth(v@),
{
    let es = v@->Object_0;
    assert(es[i].1 == v->Object_0[i].1@);
    lemma_depth_members(es, es.len() as int, i);
}

/// The model of an object's members.
pub open spec fn members_view(v: Seq<(String, Value)>) -> Seq<(Seq<char>, Json)> {
    Seq::new(v.len(), |i: int| (v[i].0@, v[i].1@))
}

/// The position of the first member under `key` at `i` or after; -1 if none.
pub open spec fn key_index_from(es: Seq<(Seq<char>, Json)>, key: Seq<char>, i: int) -> int
    decreases es.len() - i,
{
    if i < 0 || i >= es.len() {
        -1
    } else if es[i].0 == key {
        i
    } else {
        key_index_from(es, key, i + 1)
    }
}

/// The position of the first member of `entries` under `key`.
pub fn find_key(entries: &Vec<(String, Value)>, key: &String) -> (r: Option<usize>)
    ensures
        r is None <==> !has_key(members_view(entries@), key@),
        r is Some ==> r->Some_0 < entries.len() && entries[r->Some_0 as int].0@ == key@,
        r is Some ==> r->Some_0 as int == key_index_from(members_view(entries@), key@, 0),
        r is None ==> key_index_from(members_view(entries@), key@, 0) == -1,
{
    let mut i: usize = 0;
    while i < entries.len()
        invariant
            i <= entries.len(),
            forall|j: int| 0 <= j < i ==> (#[trigger] entries[j]).0@ != key@,
            key_index_from(members_view(entries@), key@, 0) == key_index_from(members_view(entries@), key@, i as int),
        decreases entries.len() - i,
    {
        proof { assert(members_view(entries@)[i as int].0 == entries[i as int].0@); }
        if entries[i].0.eq(key) {
            proof { assert(members_view(entries@)[i as int].0 == key@); }
            return Some(i);
        }
        i = i + 1;
    }
    proof {
        assert forall|j: int| 0 <= j < entries.len() implies (#[trigger] members_view(entries@)[j]).0 != key@ by {
            assert(members_view(entries@)[j].0 == entries[j].0@);
        }
    }
    None
}

/// Structural equality of two trees.
pub fn json_eq(a: &Value, b: &Value) -> (r: bool)
    ensures
        r == (a@ == b@),
    decreases a,
{
    match (a, b) {
        (Value::Array(x), Value::Array(y)) => {
            if x.len() != y.len() {
                proof { assert(a@->Array_0.len() != b@->Array_0.len()); }
                return false;
            }
            let mut i: usize = 0;
            while i < x.len()
                invariant
                    *a is Array,
                    a->Array_0 == *x,
                    *b is Array,
                    b->Array_0 == *y,
                    x.len() == y.len(),
                    i <= x.len(),
                    forall|j: int| 0 <= j < i ==> (#[trigger] x[j])@ == y[j]@,
                decreases x.len() - i,
            {
                proof {
                    vstd::std_specs::vec::axiom_vec_index_decreases(*x, i as int);
                    assert(decreases_to!(*a => a->Array_0));
                }
                if !json_eq(&x[i], &y[i]) {
                    proof { assert(a@->Array_0[i as int] != b@->Array_0[i as int]); }
                    return false;
                }
                i = i + 1;
            }
            proof { assert(a@->Array_0 =~= b@->Array_0); }
            true
        },
        (Value::Object(x), Value::Object(y)) => {
            if x.len() != y.len() {
                proof { assert(a@->Object_0.len() != b@->Object_0.len()); }
                return false;
            }
            let mut i: usize = 0;
            while i < x.len()
                invariant
                    *a is Object,
                    a->Object_0 == *x,
                    *b is Object,
                    b->Object_0 == *y,
                    x.len() == y.len(),
                    i <= x.len(),
                    forall|j: int| 0 <= j < i ==> (#[trigger] x[j]).0@ == y[j].0@ && x[j].1@ == y[j].1@,
                decreases x.len() - i,
            {
                proof {
                    vstd::std_specs::vec::axiom_vec_index_decreases(*x, i as int);
                    assert(decreases_to!(*a => a->Object_0));
                    assert(decreases_to!(x[i as int] => x[i as int].1));
                }
                if !x[i].0.eq(&y[i].0) {
                    proof { assert(a@->Object_0[i as int] != b@->Object_0[i as int]); }
                    return false;
                }
                if !json_eq(&x[i].1, &y[i].1) {
                    proof { assert(a@->Object_0[i as int] != b@->Object_0[i as int]); }
                    return false;
                }
                i = i + 1;
            }
            proof { assert(a@->Object_0 =~= b@->Object_0); }
            true
        },
        _ => leaves_equal(a, b),
    }
}

} // verus!
