//! The JSON-like value that entities, predicates and exports are made of,
//! with its mathematical model.

use vstd::prelude::*;
use vstd::string::*;

verus! {

broadcast use vstd::std_specs::vec::axiom_vec_index_decreases;

/// A JSON-like value. Numbers keep their decimal text.
#[derive(Debug, PartialEq)]
pub enum Value {
    Null,
    Bool(bool),
    Number(String),
    Text(String),
    Array(Vec<Value>),
    Object(Vec<(String, Value)>),
}

/// The mathematical model of a `Value`.
pub ghost enum Json {
    Null,
    Bool(bool),
    Number(Seq<char>),
    Text(Seq<char>),
    Array(Seq<Json>),
    Object(Seq<(Seq<char>, Json)>),
}

/// The models of a sequence of values, in order.
pub open spec fn items_model(s: Seq<Value>) -> Seq<Json>
    decreases s, s.len(),
{
    if s.len() == 0 {
        Seq::empty()
    } else {
        items_model(s.drop_last()).push(value_model(s.last()))
    }
}

/// The models of a sequence of named values, in order.
pub open spec fn fields_model(s: Seq<(String, Value)>) -> Seq<(Seq<char>, Json)>
    decreases s, s.len(),
{
    if s.len() == 0 {
        Seq::empty()
    } else {
        fields_model(s.drop_last()).push((s.last().0@, value_model(s.last().1)))
    }
}

pub open spec fn value_model(v: Value) -> Json
    decreases v, 0nat,
{
    match v {
        Value::Null => Json::Null,
        Value::Bool(b) => Json::Bool(b),
        Value::Number(n) => Json::Number(n@),
        Value::Text(t) => Json::Text(t@),
        Value::Array(a) => Json::Array(items_model(a@)),
        Value::Object(o) => Json::Object(fields_model(o@)),
    }
}

impl View for Value {
    type V = Json;

    open spec fn view(&self) -> Json {
        value_model(*self)
    }
}


/// The model of a sequence of values holds the model of each, in order.
pub proof fn lemma_items_model(s: Seq<Value>)
    ensures
        items_model(s).len() == s.len(),
        forall|i: int| 0 <= i < s.len() ==> #[trigger] items_model(s)[i] == s[i]@,
    decreases s.len(),
{
    if s.len() > 0 {
        lemma_items_model(s.drop_last());
    }
}

/// The model of a sequence of named values holds each name and model, in order.
pub proof fn lemma_fields_model(s: Seq<(String, Value)>)
    ensures
        fields_model(s).len() == s.len(),
        forall|i: int|
            0 <= i < s.len() ==> #[trigger] fields_model(s)[i] == (s[i].0@, s[i].1@),
    decreases s.len(),
{
    if s.len() > 0 {
        lemma_fields_model(s.drop_last());
    }
}

impl Value {
    /// A copy of the value, equal to it in the model.
    pub fn deep_copy(&self) -> (r: Value)
        ensures
            r@ == self@,
        decreases self,
    {
        match self {
            Value::Null => Value::Null,
            Value::Bool(b) => Value::Bool(*b),
            Value::Number(n) => Value::Number(n.clone()),
            Value::Text(t) => Value::Text(t.clone()),
            Value::Array(a) => {
                let out = copy_items(a);
                Value::Array(out)
            },
            Value::Object(o) => {
                let out = copy_fields(o);
                Value::Object(out)
            },
        }
    }
}

/// A copy of a sequence of values, equal to it in the model.
pub fn copy_items(a: &Vec<Value>) -> (out: Vec<Value>)
    ensures
        items_model(out@) == items_model(a@),
    decreases a,
{
    let mut out: Vec<Value> = Vec::new();
    let mut i: usize = 0;
    while i < a.len()
        invariant
            i <= a.len(),
            out@.len() == i,
            forall|j: int| 0 <= j < i ==> #[trigger] out@[j]@ == a@[j]@,
        decreases a.len() - i,
    {
        let c = a[i].deep_copy();
        out.push(c);
        i = i + 1;
    }
    proof {
        lemma_items_model(out@);
        lemma_items_model(a@);
        assert(items_model(out@) =~= items_model(a@));
    }
    out
}

/// A copy of a sequence of named values, equal to it in the model.
pub fn copy_fields(o: &Vec<(String, Value)>) -> (out: Vec<(String, Value)>)
    ensures
        fields_model(out@) == fields_model(o@),
    decreases o,
{
    let mut out: Vec<(String, Value)> = Vec::new();
    let mut i: usize = 0;
    while i < o.len()
        invariant
            i <= o.len(),
            out@.len() == i,
            forall|j: int|
                0 <= j < i ==> #[trigger] out@[j].0@ == o@[j].0@ && out@[j].1@ == o@[j].1@,
        decreases o.len() - i,
    {
        let name = o[i].0.clone();
        let c = o[i].1.deep_copy();
        out.push((name, c));
        i = i + 1;
    }
    proof {
        lemma_fields_model(out@);
        lemma_fields_model(o@);
        assert(fields_model(out@) =~= fields_model(o@));
    }
    out
}


/// The name of the identifier field.
pub open spec fn uid_key() -> Seq<char> {
    seq!['u', 'i', 'd']
}

/// `i` is the position of the first field named `k`.
pub open spec fn first_field(fs: Seq<(Seq<char>, Json)>, k: Seq<char>, i: int) -> bool {
    &&& 0 <= i < fs.len()
    &&& fs[i].0 == k
    &&& forall|j: int| 0 <= j < i ==> fs[j].0 != k
}

/// Some field is named `k`.
pub open spec fn has_field(fs: Seq<(Seq<char>, Json)>, k: Seq<char>) -> bool {
    exists|i: int| 0 <= i < fs.len() && fs[i].0 == k
}

/// The value of the first field named `k`, if any.
pub open spec fn field_value(fs: Seq<(Seq<char>, Json)>, k: Seq<char>) -> Option<Json> {
    if has_field(fs, k) {
        Some(fs[choose|i: int| first_field(fs, k, i)].1)
    } else {
        None
    }
}

/// The fields with the first field named `k` set to `v`, or with `(k, v)`
/// added at the end where no field is named `k`.
pub open spec fn set_field(fs: Seq<(Seq<char>, Json)>, k: Seq<char>, v: Json) -> Seq<(Seq<char>, Json)> {
    if has_field(fs, k) {
        fs.update(choose|i: int| first_field(fs, k, i), (k, v))
    } else {
        fs.push((k, v))
    }
}

/// Where some field is named `k`, exactly one position is the first such.
pub proof fn lemma_first_field(fs: Seq<(Seq<char>, Json)>, k: Seq<char>)
    ensures
        has_field(fs, k) ==> first_field(fs, k, choose|i: int| first_field(fs, k, i)),
        forall|i: int, j: int| first_field(fs, k, i) && first_field(fs, k, j) ==> i == j,
        forall|i: int| first_field(fs, k, i) ==> has_field(fs, k),
{
    if has_field(fs, k) {
        let i = choose|i: int| 0 <= i < fs.len() && fs[i].0 == k;
        lemma_first_at_most(fs, k, i);
    }
}

proof fn lemma_first_at_most(fs: Seq<(Seq<char>, Json)>, k: Seq<char>, i: int)
    requires
        0 <= i < fs.len(),
        fs[i].0 == k,
    ensures
        exists|m: int| first_field(fs, k, m),
    decreases i,
{
    if exists|j: int| 0 <= j < i && fs[j].0 == k {
        let j = choose|j: int| 0 <= j < i && fs[j].0 == k;
        lemma_first_at_most(fs, k, j);
    } else {
        assert(first_field(fs, k, i));
    }
}

/// The position of the first field named `k`, if any.
pub fn find_field(fs: &Vec<(String, Value)>, k: &String) -> (r: Option<usize>)
    ensures
        match r {
            Some(i) => first_field(fields_model(fs@), k@, i as int),
            None => !has_field(fields_model(fs@), k@),
        },
{
    proof {
        lemma_fields_model(fs@);
    }
    let mut i: usize = 0;
    while i < fs.len()
        invariant
            i <= fs.len(),
            fields_model(fs@).len() == fs@.len(),
            forall|j: int|
                0 <= j < fs.len() ==> #[trigger] fields_model(fs@)[j] == (fs@[j].0@, fs@[j].1@),
            forall|j: int| 0 <= j < i ==> fields_model(fs@)[j].0 != k@,
        decreases fs.len() - i,
    {
        if fs[i].0 == *k {
            return Some(i);
        }
        i = i + 1;
    }
    None
}

/// Sets the first field named `k` to `v`, or adds `(k, v)` at the end where
/// no field is named `k`.
pub fn put_field(fs: &mut Vec<(String, Value)>, k: String, v: Value)
    ensures
        fields_model(final(fs)@) == set_field(fields_model(old(fs)@), k@, v@),
{
    let ghost kv = k@;
    let ghost vv = v@;
    let found = find_field(fs, &k);
    proof {
        lemma_first_field(fields_model(fs@), k@);
        lemma_fields_model(fs@);
    }
    match found {
        Some(i) => {
            fs.set(i, (k, v));
            proof {
                lemma_fields_model(fs@);
                assert(fields_model(fs@) =~= fields_model(old(fs)@).update(i as int, (kv, vv)));
            }
        },
        None => {
            fs.push((k, v));
            proof {
                lemma_fields_model(fs@);
                assert(fields_model(fs@) =~= fields_model(old(fs)@).push((kv, vv)));
            }
        },
    }
}

/// A string holding the name of the identifier field.
pub fn uid_name() -> (r: String)
    ensures
        r@ == uid_key(),
{
    let r = String::from_str("uid");
    proof {
        reveal_strlit("uid");
        assert(r@ =~= uid_key());
    }
    r
}

} // verus!
