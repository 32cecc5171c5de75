//! Values that dynconf expressions compute.

use vstd::prelude::*;
use crate::keyed::{find_entry, key_index, keys_of, lemma_key_index};
use crate::text::{bool_text, bool_to_string, int_decimal, int_to_string, str_to_string};

verus! {

/// A computed value. A dictionary's entries keep their order; the first
/// entry of a key is the one that counts.
#[derive(Debug)]
pub enum Value {
    String(String),
    Boolean(bool),
    Integer(i64),
    Array(Vec<Value>),
    Dict(Vec<(String, Value)>),
    Null,
}

/// The type of a value.
#[derive(Debug, Clone, Copy, PartialEq, Eq)]
pub enum ValueType {
    String,
    Boolean,
    Integer,
    Array,
    Dict,
    Null,
}

/// A value as plain values.
pub enum DynTree {
    Text(Seq<char>),
    Boolean(bool),
    Integer(i64),
    Array(Seq<DynTree>),
    Dict(Seq<(Seq<char>, DynTree)>),
    Null,
}

/// A value as plain values.
pub open spec fn dyn_view(v: Value) -> DynTree
    decreases v,
{
    match v {
        Value::String(s) => DynTree::Text(s@),
        Value::Boolean(b) => DynTree::Boolean(b),
        Value::Integer(i) => DynTree::Integer(i),
        Value::Array(vs) => DynTree::Array(items_view(vs@)),
        Value::Dict(es) => DynTree::Dict(dict_view(es@)),
        Value::Null => DynTree::Null,
    }
}

/// The items of an array as plain values.
pub open spec fn items_view(vs: Seq<Value>) -> Seq<DynTree>
    decreases vs,
{
    if vs.len() == 0 {
        Seq::empty()
    } else {
        seq![dyn_view(vs[0])] + items_view(vs.drop_first())
    }
}

/// The entries of a dictionary as plain values.
pub open spec fn dict_view(es: Seq<(String, Value)>) -> Seq<(Seq<char>, DynTree)>
    decreases es,
{
    if es.len() == 0 {
        Seq::empty()
    } else {
        seq![(es[0].0@, dyn_view(es[0].1))] + dict_view(es.drop_first())
    }
}

impl View for Value {
    type V = DynTree;

    open spec fn view(&self) -> DynTree {
        dyn_view(*self)
    }
}

/// The view of the items has one item per item, each the view of it.
pub proof fn lemma_items_view(vs: Seq<Value>)
    ensures
        items_view(vs).len() == vs.len(),
        forall|i: int| 0 <= i < vs.len() ==> #[trigger] items_view(vs)[i] == dyn_view(vs[i]),
    decreases vs.len(),
{
    if vs.len() > 0 {
        lemma_items_view(vs.drop_first());
        assert forall|i: int| 0 <= i < vs.len() implies #[trigger] items_view(vs)[i] == dyn_view(vs[i]) by {
            if i > 0 {
                assert(vs[i] == vs.drop_first()[i - 1]);
            }
        }
    }
}

/// The view of the entries has one entry per entry, each the view of it.
pub proof fn lemma_dict_view(es: Seq<(String, Value)>)
    ensures
        dict_view(es).len() == es.len(),
        forall|i: int| 0 <= i < es.len() ==> #[trigger] dict_view(es)[i] == (es[i].0@, dyn_view(es[i].1)),
    decreases es.len(),
{
    if es.len() > 0 {
        lemma_dict_view(es.drop_first());
        assert forall|i: int| 0 <= i < es.len() implies #[trigger] dict_view(es)[i] == (es[i].0@, dyn_view(es[i].1)) by {
            if i > 0 {
                assert(es[i] == es.drop_first()[i - 1]);
            }
        }
    }
}

/// The view of the items with one more item.
pub proof fn lemma_items_view_push(vs: Seq<Value>, v: Value)
    ensures
        items_view(vs.push(v)) == items_view(vs).push(dyn_view(v)),
{
    lemma_items_view(vs);
    lemma_items_view(vs.push(v));
    assert(items_view(vs.push(v)) =~= items_view(vs).push(dyn_view(v)));
}

/// The view of the entries with one more entry.
pub proof fn lemma_dict_view_push(es: Seq<(String, Value)>, e: (String, Value))
    ensures
        dict_view(es.push(e)) == dict_view(es).push((e.0@, dyn_view(e.1))),
{
    lemma_dict_view(es);
    lemma_dict_view(es.push(e));
    assert(dict_view(es.push(e)) =~= dict_view(es).push((e.0@, dyn_view(e.1))));
}

/// The keys of dictionary entries, as plain values.
pub open spec fn tree_keys(es: Seq<(Seq<char>, DynTree)>) -> Seq<Seq<char>> {
    es.map_values(|e: (Seq<char>, DynTree)| e.0)
}

/// The value of the first entry of `key`, if any.
pub open spec fn dict_get(es: Seq<(Seq<char>, DynTree)>, key: Seq<char>) -> Option<DynTree> {
    let i = key_index(tree_keys(es), key);
    if i >= 0 {
        Some(es[i].1)
    } else {
        None
    }
}

/// The name of a type, as it is shown to users.
pub open spec fn type_label(t: ValueType) -> Seq<char> {
    match t {
        ValueType::String => "string"@,
        ValueType::Boolean => "boolean"@,
        ValueType::Integer => "integer"@,
        ValueType::Array => "array"@,
        ValueType::Dict => "object"@,
        ValueType::Null => "null"@,
    }
}

/// The type of a value.
pub open spec fn tree_type(v: DynTree) -> ValueType {
    match v {
        DynTree::Text(_) => ValueType::String,
        DynTree::Boolean(_) => ValueType::Boolean,
        DynTree::Integer(_) => ValueType::Integer,
        DynTree::Array(_) => ValueType::Array,
        DynTree::Dict(_) => ValueType::Dict,
        DynTree::Null => ValueType::Null,
    }
}

/// Why a value could not be used as asked.
#[derive(Debug, Clone, PartialEq, Eq)]
pub enum ValueError {
    /// An array has no text.
    ArrayToString,
    /// A dictionary has no text.
    DictToString,
}

/// The text of a value: a string's own, a boolean's or number's, `null`
/// for null; arrays and dictionaries have none.
pub open spec fn tree_text(v: DynTree) -> Result<Seq<char>, ValueError> {
    match v {
        DynTree::Text(s) => Ok(s),
        DynTree::Boolean(b) => Ok(bool_text(b)),
        DynTree::Integer(i) => Ok(int_decimal(i as int)),
        DynTree::Array(_) => Err(ValueError::ArrayToString),
        DynTree::Dict(_) => Err(ValueError::DictToString),
        DynTree::Null => Ok("null"@),
    }
}

impl ValueType {
    /// The name of the type, as it is shown to users.
    pub fn name(&self) -> (r: &'static str)
        ensures
            r@ == type_label(*self),
    {
        match self {
            ValueType::String => "string",
            ValueType::Boolean => "boolean",
            ValueType::Integer => "integer",
            ValueType::Array => "array",
            ValueType::Dict => "object",
            ValueType::Null => "null",
        }
    }
}

fn clone_items(vs: &Vec<Value>) -> (out: Vec<Value>)
    ensures
        items_view(out@) == items_view(vs@),
    decreases vs,
{
    let mut out: Vec<Value> = Vec::new();
    proof {
        lemma_items_view(vs@);
    }
    for i in 0..vs.len()
        invariant
            out@.len() == i,
            forall|j: int| 0 <= j < i ==> dyn_view(#[trigger] out@[j]) == dyn_view(vs@[j]),
    {
        proof {
            assert(decreases_to!(*vs => vs[i as int]));
        }
        let v = vs[i].deep_clone();
        out.push(v);
    }
    proof {
        lemma_items_view(out@);
        assert(items_view(out@) =~= items_view(vs@));
    }
    out
}

fn clone_dict(es: &Vec<(String, Value)>) -> (out: Vec<(String, Value)>)
    ensures
        dict_view(out@) == dict_view(es@),
    decreases es,
{
    let mut out: Vec<(String, Value)> = Vec::new();
    proof {
        lemma_dict_view(es@);
    }
    for i in 0..es.len()
        invariant
            out@.len() == i,
            forall|j: int| 0 <= j < i ==> (#[trigger] out@[j]).0@ == es@[j].0@ && dyn_view(out@[j].1) == dyn_view(es@[j].1),
    {
        proof {
            assert(decreases_to!(*es => es[i as int]));
            assert(decreases_to!(es[i as int] => es[i as int].1));
        }
        let k = es[i].0.clone();
        let v = es[i].1.deep_clone();
        out.push((k, v));
    }
    proof {
        lemma_dict_view(out@);
        assert(dict_view(out@) =~= dict_view(es@));
    }
    out
}

impl Value {
    /// A copy of the value.
    pub fn deep_clone(&self) -> (r: Value)
        ensures
            r@ == self@,
        decreases self,
    {
        match self {
            Value::String(s) => Value::String(s.clone()),
            Value::Boolean(b) => Value::Boolean(*b),
            Value::Integer(i) => Value::Integer(*i),
            Value::Array(vs) => Value::Array(clone_items(vs)),
            Value::Dict(es) => Value::Dict(clone_dict(es)),
            Value::Null => Value::Null,
        }
    }

    /// The text of the value (see `tree_text`).
    pub fn try_to_string(self) -> (r: Result<String, ValueError>)
        ensures
            match tree_text(self@) {
                Ok(t) => r matches Ok(s) && s@ == t,
                Err(e) => r == Err::<String, ValueError>(e),
            },
    {
        match self {
            Value::String(s) => Ok(s),
            Value::Boolean(b) => Ok(bool_to_string(b)),
            Value::Integer(i) => Ok(int_to_string(i)),
            Value::Array(_) => Err(ValueError::ArrayToString),
            Value::Dict(_) => Err(ValueError::DictToString),
            Value::Null => {
                proof {
                    reveal_strlit("null");
                }
                Ok(str_to_string("null"))
            },
        }
    }

    /// The type of the value.
    pub fn typename(&self) -> (r: ValueType)
        ensures
            r == tree_type(self@),
    {
        match self {
            Value::String(_) => ValueType::String,
            Value::Boolean(_) => ValueType::Boolean,
            Value::Integer(_) => ValueType::Integer,
            Value::Array(_) => ValueType::Array,
            Value::Dict(_) => ValueType::Dict,
            Value::Null => ValueType::Null,
        }
    }
}

} // verus!
