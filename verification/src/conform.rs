//! Whether a value can be encoded as a value of a shape.

use vstd::prelude::*;
use crate::proxy::ProxyHooks;
use crate::schema::{Enum, Field, Payload, ProxyType, Shape, Struct};
use crate::value::{entry_models, models, Val, Value};
use crate::wire::{
    conforms, distinct_keys, fits, fits_all, fits_entries, fits_enum, fits_field, fits_fields,
    fits_payload, fits_proxy, fits_struct, fits_tuple,
};

verus! {

/// Whether `shape` admits `value`, so that the value can be encoded.
pub fn conforming<H: ProxyHooks>(hooks: &H, shape: &Shape, value: &Value) -> (r: bool)
    ensures
        r == conforms(hooks, *shape, value@),
    decreases *shape, 1nat, 0nat,
{
    match shape {
        Shape::Primitive(k) => match value {
            Value::Primitive(x) => x.primitive() == *k,
            _ => false,
        },
        Shape::Text => match value {
            Value::Text(t) => t.as_str().as_bytes().len() <= 0xffff_ffff,
            _ => false,
        },
        Shape::Option(inner) => match value {
            Value::Option(Some(x)) => conforming(hooks, inner, x),
            Value::Option(None) => true,
            _ => false,
        },
        Shape::Sequence(elem) => match value {
            Value::Sequence(items) => {
                assert(value@ == Val::Sequence(models(items@)));
                items.len() <= 0xffff_ffff && conforming_all(hooks, elem, items)
            },
            _ => false,
        },
        Shape::Array(elem, len) => match value {
            Value::Array(items) => {
                assert(value@ == Val::Array(models(items@)));
                match len {
                    Some(n) => items.len() == *n && conforming_all(hooks, elem, items),
                    None => false,
                }
            },
            _ => false,
        },
        Shape::Tuple(shapes) => match value {
            Value::Tuple(items) => {
                assert(value@ == Val::Tuple(models(items@)));
                conforming_tuple(hooks, shapes, items)
            },
            _ => false,
        },
        Shape::Mapping(_, _) => match value {
            Value::Mapping(entries) => {
                assert(value@ == Val::Mapping(entry_models(entries@)));
                entries.len() <= 0xffff_ffff && distinct(entries) && conforming_entries(
                    hooks,
                    shape,
                    entries,
                )
            },
            _ => false,
        },
        Shape::Record(st) => conforming_struct(hooks, st, value),
        Shape::Union(en) => conforming_enum(hooks, en, value),
    }
}

/// Whether `elem` admits each of `items`.
pub fn conforming_all<H: ProxyHooks>(hooks: &H, elem: &Shape, items: &Vec<Value>) -> (r: bool)
    ensures
        r == fits_all(hooks, *elem, models(items@), false),
    decreases *elem, 2nat, 0nat,
{
    let mut i: usize = 0;
    while i < items.len()
        invariant
            i <= items.len(),
            forall|j: int| 0 <= j < i ==> fits(hooks, *elem, #[trigger] models(items@)[j], false),
        decreases items.len() - i,
    {
        assert(models(items@)[i as int] == items@[i as int]@);
        if !conforming(hooks, elem, &items[i]) {
            return false;
        }
        i += 1;
    }
    true
}

/// Whether there are as many `items` as `shapes` and each shape admits the
/// item at its position.
pub fn conforming_tuple<H: ProxyHooks>(hooks: &H, shapes: &Vec<Shape>, items: &Vec<Value>) -> (r:
    bool)
    ensures
        r == fits_tuple(hooks, shapes@, models(items@), false),
    decreases *shapes, 0nat, 0nat,
{
    if items.len() != shapes.len() {
        return false;
    }
    let mut i: usize = 0;
    while i < shapes.len()
        invariant
            i <= shapes.len() == items.len(),
            forall|j: int|
                0 <= j < i ==> fits(hooks, shapes@[j], #[trigger] models(items@)[j], false),
        decreases shapes.len() - i,
    {
        assert(models(items@)[i as int] == items@[i as int]@);
        if !conforming(hooks, &shapes[i], &items[i]) {
            return false;
        }
        i += 1;
    }
    true
}

/// Whether no two of `entries` have the same key.
pub fn distinct(entries: &Vec<(Value, Value)>) -> (r: bool)
    ensures
        r == distinct_keys(entry_models(entries@)),
{
    let ghost all = entry_models(entries@);
    let mut j: usize = 0;
    while j < entries.len()
        invariant
            j <= entries.len(),
            all == entry_models(entries@),
            forall|a: int, b: int|
                0 <= a < b < j ==> (#[trigger] all[a]).0 != (#[trigger] all[b]).0,
        decreases entries.len() - j,
    {
        let mut i: usize = 0;
        while i < j
            invariant
                i <= j < entries.len(),
                all == entry_models(entries@),
                forall|a: int| 0 <= a < i ==> (#[trigger] all[a]).0 != all[j as int].0,
            decreases j - i,
        {
            if entries[i].0.same(&entries[j].0) {
                assert(all[i as int].0 == all[j as int].0);
                return false;
            }
            i += 1;
        }
        j += 1;
    }
    true
}

/// Whether the map shape `shape` admits the key and the value of each of
/// `entries`.
pub fn conforming_entries<H: ProxyHooks>(
    hooks: &H,
    shape: &Shape,
    entries: &Vec<(Value, Value)>,
) -> (r: bool)
    ensures
        r == fits_entries(hooks, *shape, entry_models(entries@), false),
    decreases *shape, 0nat, 0nat,
{
    match shape {
        Shape::Mapping(key, value) => {
            let mut i: usize = 0;
            while i < entries.len()
                invariant
                    i <= entries.len(),
                    *shape == Shape::Mapping(*key, *value),
                    forall|j: int|
                        0 <= j < i ==> fits(
                            hooks,
                            **key,
                            (#[trigger] entry_models(entries@)[j]).0,
                            false,
                        ) && fits(hooks, **value, entry_models(entries@)[j].1, false),
                decreases entries.len() - i,
            {
                assert(entry_models(entries@)[i as int] == (
                    entries@[i as int].0@,
                    entries@[i as int].1@,
                ));
                proof {
                    assert(decreases_to!(*shape => shape->Mapping_0));
                    assert(decreases_to!(*shape => shape->Mapping_1));
                }
                if !conforming(hooks, key, &entries[i].0) || !conforming(
                    hooks,
                    value,
                    &entries[i].1,
                ) {
                    return false;
                }
                i += 1;
            }
            true
        },
        _ => false,
    }
}

/// Whether the shape of `proxy` admits what `value` is converted to.
pub fn conforming_proxy<H: ProxyHooks>(hooks: &H, proxy: &ProxyType, value: &Value) -> (r: bool)
    ensures
        r == fits_proxy(hooks, *proxy, value@, false),
    decreases *proxy, 0nat, 0nat,
{
    let p = hooks.to_proxy(proxy.hook, value);
    conforming(hooks, &proxy.ty, &p)
}

/// Whether the member `field` admits `value`.
pub fn conforming_field<H: ProxyHooks>(hooks: &H, field: &Field, value: &Value) -> (r: bool)
    ensures
        r == fits_field(hooks, *field, value@, false),
    decreases *field, 0nat, 0nat,
{
    match &field.proxy {
        Some(proxy) => conforming_proxy(hooks, proxy, value),
        None => conforming(hooks, &field.ty, value),
    }
}

/// Whether there are as many `items` as `fields` and each field admits the
/// item at its position.
pub fn conforming_fields<H: ProxyHooks>(hooks: &H, fields: &Vec<Field>, items: &Vec<Value>) -> (r:
    bool)
    ensures
        r == fits_fields(hooks, fields@, models(items@), false),
    decreases *fields, 0nat, 0nat,
{
    if items.len() != fields.len() {
        return false;
    }
    let mut i: usize = 0;
    while i < fields.len()
        invariant
            i <= fields.len() == items.len(),
            forall|j: int|
                0 <= j < i ==> fits_field(hooks, fields@[j], #[trigger] models(items@)[j], false),
        decreases fields.len() - i,
    {
        assert(models(items@)[i as int] == items@[i as int]@);
        if !conforming_field(hooks, &fields[i], &items[i]) {
            return false;
        }
        i += 1;
    }
    true
}

/// Whether `value` is a value of the struct `struct_`.
pub fn conforming_struct<H: ProxyHooks>(hooks: &H, struct_: &Struct, value: &Value) -> (r: bool)
    ensures
        r == fits_struct(hooks, *struct_, value@, false),
    decreases *struct_, 0nat, 0nat,
{
    match value {
        Value::Record(items) => struct_.named && conforming_fields(hooks, &struct_.fields, items),
        Value::Tuple(items) => !struct_.named && conforming_fields(hooks, &struct_.fields, items),
        _ => false,
    }
}

/// Whether `items` are the members of the payload `payload`.
pub fn conforming_payload<H: ProxyHooks>(hooks: &H, payload: &Payload, items: &Vec<Value>) -> (r:
    bool)
    ensures
        r == fits_payload(hooks, *payload, models(items@), false),
    decreases *payload, 0nat, 0nat,
{
    match payload {
        Payload::Empty => items.len() == 0,
        Payload::Positional(shapes) => conforming_tuple(hooks, shapes, items),
        Payload::Named(fields) => conforming_fields(hooks, fields, items),
    }
}

/// Whether `value` is a value of the union `enum_`.
pub fn conforming_enum<H: ProxyHooks>(hooks: &H, enum_: &Enum, value: &Value) -> (r: bool)
    ensures
        r == fits_enum(hooks, *enum_, value@, false),
    decreases *enum_, 0nat, 0nat,
{
    match value {
        Value::Union(id, items) => (*id as usize) < enum_.variants.len() && conforming_payload(
            hooks,
            &enum_.variants[*id as usize].payload,
            items,
        ),
        _ => false,
    }
}

} // verus!
