//! Values, and the mathematical model that the contracts speak of.

use vstd::prelude::*;
use crate::primitive::Scalar;

verus! {

/// A value of any supported shape.
#[derive(Debug, PartialEq)]
pub enum Value {
    Primitive(Scalar),
    Text(String),
    Option(Option<Box<Value>>),
    Sequence(Vec<Value>),
    Array(Vec<Value>),
    Tuple(Vec<Value>),
    /// The entries in the order in which they are written.
    Mapping(Vec<(Value, Value)>),
    /// The members in their declared order.
    Record(Vec<Value>),
    /// The discriminant and the members of the payload.
    Union(u16, Vec<Value>),
}

/// The mathematical model of a [`Value`].
pub enum Val {
    Primitive(Scalar),
    Text(Seq<char>),
    Option(Option<Box<Val>>),
    Sequence(Seq<Val>),
    Array(Seq<Val>),
    Tuple(Seq<Val>),
    Mapping(Seq<(Val, Val)>),
    Record(Seq<Val>),
    Union(u16, Seq<Val>),
}

/// The model of `v`.
pub open spec fn model(v: Value) -> Val
    decreases v,
{
    match v {
        Value::Primitive(x) => Val::Primitive(x),
        Value::Text(t) => Val::Text(t@),
        Value::Option(None) => Val::Option(None),
        Value::Option(Some(x)) => Val::Option(Some(Box::new(model(*x)))),
        Value::Sequence(items) => Val::Sequence(models(items@)),
        Value::Array(items) => Val::Array(models(items@)),
        Value::Tuple(items) => Val::Tuple(models(items@)),
        Value::Mapping(entries) => Val::Mapping(entry_models(entries@)),
        Value::Record(items) => Val::Record(models(items@)),
        Value::Union(id, items) => Val::Union(id, models(items@)),
    }
}

/// The models of `items`, one for one.
pub open spec fn models(items: Seq<Value>) -> Seq<Val>
    decreases items,
{
    Seq::new(
        items.len(),
        |i: int|
            if 0 <= i < items.len() {
                model(items[i])
            } else {
                Val::Option(None)
            },
    )
}

/// The models of `entries`, one for one.
pub open spec fn entry_models(entries: Seq<(Value, Value)>) -> Seq<(Val, Val)>
    decreases entries,
{
    Seq::new(
        entries.len(),
        |i: int|
            if 0 <= i < entries.len() {
                (model(entries[i].0), model(entries[i].1))
            } else {
                (Val::Option(None), Val::Option(None))
            },
    )
}

impl View for Value {
    type V = Val;

    open spec fn view(&self) -> Val {
        model(*self)
    }
}

impl Value {
    /// Whether two values are the same value.
    pub fn same(&self, other: &Value) -> (r: bool)
        ensures
            r == (self@ == other@),
        decreases *self, 0nat,
    {
        match (self, other) {
            (Value::Primitive(a), Value::Primitive(b)) => *a == *b,
            (Value::Text(a), Value::Text(b)) => *a == *b,
            (Value::Option(None), Value::Option(None)) => true,
            (Value::Option(Some(a)), Value::Option(Some(b))) => a.same(b),
            (Value::Sequence(a), Value::Sequence(b)) => same_all(a, b),
            (Value::Array(a), Value::Array(b)) => same_all(a, b),
            (Value::Tuple(a), Value::Tuple(b)) => same_all(a, b),
            (Value::Mapping(a), Value::Mapping(b)) => same_entries(a, b),
            (Value::Record(a), Value::Record(b)) => same_all(a, b),
            (Value::Union(i, a), Value::Union(j, b)) => *i == *j && same_all(a, b),
            _ => false,
        }
    }

    /// The unit value: the tuple without members.
    pub fn unit() -> (r: Value)
        ensures
            r@ == Val::Tuple(Seq::empty()),
    {
        let items: Vec<Value> = Vec::new();
        assert(models(items@) =~= Seq::empty());
        Value::Tuple(items)
    }

    /// A copy of this value.
    pub fn duplicate(&self) -> (r: Value)
        ensures
            r@ == self@,
        decreases *self, 0nat,
    {
        match self {
            Value::Primitive(x) => Value::Primitive(*x),
            Value::Text(t) => Value::Text(t.clone()),
            Value::Option(None) => Value::Option(None),
            Value::Option(Some(x)) => Value::Option(Some(Box::new(x.duplicate()))),
            Value::Sequence(items) => Value::Sequence(duplicate_all(items)),
            Value::Array(items) => Value::Array(duplicate_all(items)),
            Value::Tuple(items) => Value::Tuple(duplicate_all(items)),
            Value::Mapping(entries) => Value::Mapping(duplicate_entries(entries)),
            Value::Record(items) => Value::Record(duplicate_all(items)),
            Value::Union(id, items) => Value::Union(*id, duplicate_all(items)),
        }
    }
}

/// Whether two lists hold the same values in the same order.
pub fn same_all(a: &Vec<Value>, b: &Vec<Value>) -> (r: bool)
    ensures
        r == (models(a@) == models(b@)),
    decreases *a, 1nat,
{
    if a.len() != b.len() {
        assert(models(a@).len() != models(b@).len());
        return false;
    }
    let mut i: usize = 0;
    while i < a.len()
        invariant
            i <= a.len() == b.len(),
            forall|j: int| 0 <= j < i ==> model(#[trigger] a@[j]) == model(b@[j]),
        decreases a.len() - i,
    {
        if !a[i].same(&b[i]) {
            assert(models(a@)[i as int] != models(b@)[i as int]);
            return false;
        }
        i += 1;
    }
    assert(models(a@) =~= models(b@));
    true
}

/// Whether two lists hold the same entries in the same order.
pub fn same_entries(a: &Vec<(Value, Value)>, b: &Vec<(Value, Value)>) -> (r: bool)
    ensures
        r == (entry_models(a@) == entry_models(b@)),
    decreases *a, 1nat,
{
    if a.len() != b.len() {
        assert(entry_models(a@).len() != entry_models(b@).len());
        return false;
    }
    let mut i: usize = 0;
    while i < a.len()
        invariant
            i <= a.len() == b.len(),
            forall|j: int|
                0 <= j < i ==> model((#[trigger] a@[j]).0) == model(b@[j].0) && model(a@[j].1)
                    == model(b@[j].1),
        decreases a.len() - i,
    {
        if !a[i].0.same(&b[i].0) || !a[i].1.same(&b[i].1) {
            assert(entry_models(a@)[i as int] != entry_models(b@)[i as int]);
            return false;
        }
        i += 1;
    }
    assert(entry_models(a@) =~= entry_models(b@));
    true
}

/// A copy of a list of values.
pub fn duplicate_all(items: &Vec<Value>) -> (r: Vec<Value>)
    ensures
        models(r@) == models(items@),
    decreases *items, 1nat,
{
    let mut r: Vec<Value> = Vec::new();
    let mut i: usize = 0;
    while i < items.len()
        invariant
            i <= items.len(),
            r.len() == i,
            forall|j: int| 0 <= j < i ==> model(#[trigger] r@[j]) == model(items@[j]),
        decreases items.len() - i,
    {
        r.push(items[i].duplicate());
        i += 1;
    }
    assert(models(r@) =~= models(items@));
    r
}

/// A copy of a list of entries.
pub fn duplicate_entries(entries: &Vec<(Value, Value)>) -> (r: Vec<(Value, Value)>)
    ensures
        entry_models(r@) == entry_models(entries@),
    decreases *entries, 1nat,
{
    let mut r: Vec<(Value, Value)> = Vec::new();
    let mut i: usize = 0;
    while i < entries.len()
        invariant
            i <= entries.len(),
            r.len() == i,
            forall|j: int|
                0 <= j < i ==> model((#[trigger] r@[j]).0) == model(entries@[j].0) && model(
                    r@[j].1,
                ) == model(entries@[j].1),
        decreases entries.len() - i,
    {
        r.push((entries[i].0.duplicate(), entries[i].1.duplicate()));
        i += 1;
    }
    assert(entry_models(r@) =~= entry_models(entries@));
    r
}

} // verus!
