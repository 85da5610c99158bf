//! Encoding.

use vstd::prelude::*;
use crate::conform::conforming;
use crate::primitive::{push_le, ser_text};
use crate::proxy::ProxyHooks;
use crate::schema::{Enum, Field, Payload, ProxyType, Shape, Struct};
use crate::value::{entry_models, models, Value};
use crate::wire::{
    conforms, encoding, encoding_entries, encoding_enum, encoding_field, encoding_fields,
    encoding_payload, encoding_proxy, encoding_repeat, encoding_struct, encoding_tuple, fits_all,
    fits_entries, fits_enum, fits_field, fits_fields, fits_payload, fits_proxy, fits_struct,
    fits_tuple,
};

verus! {

/// Appends to `s` the wire bytes of `value` as a value of `shape`.
pub fn ser_bin<H: ProxyHooks>(hooks: &H, shape: &Shape, value: &Value, s: &mut Vec<u8>)
    requires
        conforms(hooks, *shape, value@),
    ensures
        final(s)@ == old(s)@ + encoding(hooks, *shape, value@),
    decreases *shape, 1nat, 0nat,
{
    match shape {
        Shape::Primitive(_) => {
            match value {
                Value::Primitive(x) => {
                    x.ser_bin(s);
                },
                _ => {},
            }
        },
        Shape::Text => {
            match value {
                Value::Text(t) => {
                    ser_text(t.as_str(), s);
                },
                _ => {},
            }
        },
        Shape::Option(inner) => {
            match value {
                Value::Option(Some(x)) => {
                    s.push(1u8);
                    ser_bin(hooks, inner, x, s);
                    assert(s@ =~= old(s)@ + encoding(hooks, *shape, value@));
                },
                _ => {
                    s.push(0u8);
                    assert(s@ =~= old(s)@ + encoding(hooks, *shape, value@));
                },
            }
        },
        Shape::Sequence(elem) => {
            match value {
                Value::Sequence(items) => {
                    push_le(items.len() as u64, 4, s);
                    ser_repeat(hooks, elem, items, s);
                    assert(s@ =~= old(s)@ + encoding(hooks, *shape, value@));
                },
                _ => {},
            }
        },
        Shape::Array(elem, _) => {
            match value {
                Value::Array(items) => {
                    ser_repeat(hooks, elem, items, s);
                },
                _ => {},
            }
        },
        Shape::Tuple(shapes) => {
            match value {
                Value::Tuple(items) => {
                    ser_tuple(hooks, shapes, items, s);
                },
                _ => {},
            }
        },
        Shape::Mapping(_, _) => {
            match value {
                Value::Mapping(entries) => {
                    push_le(entries.len() as u64, 4, s);
                    ser_entries(hooks, shape, entries, s);
                    assert(s@ =~= old(s)@ + encoding(hooks, *shape, value@));
                },
                _ => {},
            }
        },
        Shape::Record(st) => {
            if st.named {
                derive_ser_bin_struct(hooks, st, value, s);
            } else {
                derive_ser_bin_struct_unnamed(hooks, st, value, s);
            }
        },
        Shape::Union(en) => {
            derive_ser_bin_enum(hooks, en, value, s);
        },
    }
}

/// The wire bytes of `value` as a value of `shape`, in a buffer of their own.
pub fn serialize_bin<H: ProxyHooks>(hooks: &H, shape: &Shape, value: &Value) -> (s: Vec<u8>)
    requires
        conforms(hooks, *shape, value@),
    ensures
        s@ == encoding(hooks, *shape, value@),
{
    let mut s: Vec<u8> = Vec::new();
    ser_bin(hooks, shape, value, &mut s);
    assert(s@ =~= encoding(hooks, *shape, value@));
    s
}

/// The wire bytes of `value` as a value of `shape`, if the shape admits the
/// value; `None` if it does not.
pub fn try_serialize_bin<H: ProxyHooks>(hooks: &H, shape: &Shape, value: &Value) -> (r: Option<
    Vec<u8>,
>)
    ensures
        r is Some <==> conforms(hooks, *shape, value@),
        r matches Some(s) ==> s@ == encoding(hooks, *shape, value@),
{
    if conforming(hooks, shape, value) {
        Some(serialize_bin(hooks, shape, value))
    } else {
        None
    }
}

/// Appends to `s` the wire bytes of `items`, each a value of `elem`, one
/// behind the other and without a count.
pub fn ser_repeat<H: ProxyHooks>(hooks: &H, elem: &Shape, items: &Vec<Value>, s: &mut Vec<u8>)
    requires
        fits_all(hooks, *elem, models(items@), false),
    ensures
        final(s)@ == old(s)@ + encoding_repeat(hooks, *elem, models(items@), items.len() as nat),
    decreases *elem, 2nat, 0nat,
{
    let mut i: usize = 0;
    assert(s@ =~= old(s)@ + encoding_repeat(hooks, *elem, models(items@), 0));
    while i < items.len()
        invariant
            i <= items.len(),
            fits_all(hooks, *elem, models(items@), false),
            s@ == old(s)@ + encoding_repeat(hooks, *elem, models(items@), i as nat),
        decreases items.len() - i,
    {
        assert(models(items@)[i as int] == items@[i as int]@);
        ser_bin(hooks, elem, &items[i], s);
        i += 1;
        assert(s@ =~= old(s)@ + encoding_repeat(hooks, *elem, models(items@), i as nat));
    }
}

/// Appends to `s` the wire bytes of `items`, each a value of the shape at its
/// position, one behind the other.
pub fn ser_tuple<H: ProxyHooks>(
    hooks: &H,
    shapes: &Vec<Shape>,
    items: &Vec<Value>,
    s: &mut Vec<u8>,
)
    requires
        fits_tuple(hooks, shapes@, models(items@), false),
    ensures
        final(s)@ == old(s)@ + encoding_tuple(hooks, shapes@, models(items@), shapes@.len()),
    decreases *shapes, 0nat, 0nat,
{
    let mut i: usize = 0;
    assert(s@ =~= old(s)@ + encoding_tuple(hooks, shapes@, models(items@), 0));
    while i < shapes.len()
        invariant
            i <= shapes.len(),
            fits_tuple(hooks, shapes@, models(items@), false),
            s@ == old(s)@ + encoding_tuple(hooks, shapes@, models(items@), i as nat),
        decreases shapes.len() - i,
    {
        assert(models(items@)[i as int] == items@[i as int]@);
        ser_bin(hooks, &shapes[i], &items[i], s);
        i += 1;
        assert(s@ =~= old(s)@ + encoding_tuple(hooks, shapes@, models(items@), i as nat));
    }
}

/// Appends to `s` the wire bytes of `entries` of the map shape `shape`: each
/// key, then its value, without a count.
pub fn ser_entries<H: ProxyHooks>(
    hooks: &H,
    shape: &Shape,
    entries: &Vec<(Value, Value)>,
    s: &mut Vec<u8>,
)
    requires
        fits_entries(hooks, *shape, entry_models(entries@), false),
    ensures
        final(s)@ == old(s)@ + encoding_entries(
            hooks,
            *shape,
            entry_models(entries@),
            entries.len() as nat,
        ),
    decreases *shape, 0nat, 0nat,
{
    match shape {
        Shape::Mapping(key, value) => {
            let mut i: usize = 0;
            assert(s@ =~= old(s)@ + encoding_entries(hooks, *shape, entry_models(entries@), 0));
            while i < entries.len()
                invariant
                    i <= entries.len(),
                    *shape == Shape::Mapping(*key, *value),
                    fits_entries(hooks, *shape, entry_models(entries@), false),
                    s@ == old(s)@ + encoding_entries(
                        hooks,
                        *shape,
                        entry_models(entries@),
                        i as nat,
                    ),
                decreases entries.len() - i,
            {
                assert(entry_models(entries@)[i as int] == (
                    entries@[i as int].0@,
                    entries@[i as int].1@,
                ));
                proof {
                    assert(decreases_to!(*shape => shape->Mapping_0));
                    assert(decreases_to!(*shape => shape->Mapping_1));
                }
                ser_bin(hooks, key, &entries[i].0, s);
                ser_bin(hooks, value, &entries[i].1, s);
                i += 1;
                assert(s@ =~= old(s)@ + encoding_entries(
                    hooks,
                    *shape,
                    entry_models(entries@),
                    i as nat,
                ));
            }
        },
        _ => {},
    }
}

/// Appends to `s` the wire bytes of `value` through `proxy`: the value is
/// converted to its representation, and that is encoded.
pub fn derive_ser_bin_proxy<H: ProxyHooks>(
    hooks: &H,
    proxy: &ProxyType,
    value: &Value,
    s: &mut Vec<u8>,
)
    requires
        fits_proxy(hooks, *proxy, value@, false),
    ensures
        final(s)@ == old(s)@ + encoding_proxy(hooks, *proxy, value@),
    decreases *proxy, 0nat, 0nat,
{
    let p = hooks.to_proxy(proxy.hook, value);
    ser_bin(hooks, &proxy.ty, &p, s);
}

/// Appends to `s` the wire bytes of `value` as the member `field`.
pub fn ser_field<H: ProxyHooks>(hooks: &H, field: &Field, value: &Value, s: &mut Vec<u8>)
    requires
        fits_field(hooks, *field, value@, false),
    ensures
        final(s)@ == old(s)@ + encoding_field(hooks, *field, value@),
    decreases *field, 0nat, 0nat,
{
    match &field.proxy {
        Some(proxy) => derive_ser_bin_proxy(hooks, proxy, value, s),
        None => ser_bin(hooks, &field.ty, value, s),
    }
}

/// Appends to `s` the wire bytes of `items`, each a value of the field at its
/// position, one behind the other.
pub fn ser_fields<H: ProxyHooks>(
    hooks: &H,
    fields: &Vec<Field>,
    items: &Vec<Value>,
    s: &mut Vec<u8>,
)
    requires
        fits_fields(hooks, fields@, models(items@), false),
    ensures
        final(s)@ == old(s)@ + encoding_fields(hooks, fields@, models(items@), fields@.len()),
    decreases *fields, 0nat, 0nat,
{
    let mut i: usize = 0;
    assert(s@ =~= old(s)@ + encoding_fields(hooks, fields@, models(items@), 0));
    while i < fields.len()
        invariant
            i <= fields.len(),
            fits_fields(hooks, fields@, models(items@), false),
            s@ == old(s)@ + encoding_fields(hooks, fields@, models(items@), i as nat),
        decreases fields.len() - i,
    {
        assert(models(items@)[i as int] == items@[i as int]@);
        ser_field(hooks, &fields[i], &items[i], s);
        i += 1;
        assert(s@ =~= old(s)@ + encoding_fields(hooks, fields@, models(items@), i as nat));
    }
}

/// Appends to `s` the wire bytes of a value of the struct `struct_` with
/// named members: the bytes of each member in declared order, a proxied member
/// through its proxy. No name and no mark stands between them.
pub fn derive_ser_bin_struct<H: ProxyHooks>(
    hooks: &H,
    struct_: &Struct,
    value: &Value,
    s: &mut Vec<u8>,
)
    requires
        struct_.named,
        fits_struct(hooks, *struct_, value@, false),
    ensures
        final(s)@ == old(s)@ + encoding_struct(hooks, *struct_, value@),
    decreases *struct_, 0nat, 0nat,
{
    match value {
        Value::Record(items) => ser_fields(hooks, &struct_.fields, items, s),
        _ => {},
    }
}

/// Appends to `s` the wire bytes of a value of the struct `struct_` with
/// positional members: the bytes of each member in declared order, a proxied
/// member through its proxy.
pub fn derive_ser_bin_struct_unnamed<H: ProxyHooks>(
    hooks: &H,
    struct_: &Struct,
    value: &Value,
    s: &mut Vec<u8>,
)
    requires
        !struct_.named,
        fits_struct(hooks, *struct_, value@, false),
    ensures
        final(s)@ == old(s)@ + encoding_struct(hooks, *struct_, value@),
    decreases *struct_, 0nat, 0nat,
{
    match value {
        Value::Tuple(items) => ser_fields(hooks, &struct_.fields, items, s),
        _ => {},
    }
}

/// Appends to `s` the wire bytes of the payload `items` of a union variant.
pub fn ser_payload<H: ProxyHooks>(
    hooks: &H,
    payload: &Payload,
    items: &Vec<Value>,
    s: &mut Vec<u8>,
)
    requires
        fits_payload(hooks, *payload, models(items@), false),
    ensures
        final(s)@ == old(s)@ + encoding_payload(hooks, *payload, models(items@)),
    decreases *payload, 0nat, 0nat,
{
    match payload {
        Payload::Empty => {
            assert(s@ =~= old(s)@ + encoding_payload(hooks, *payload, models(items@)));
        },
        Payload::Positional(shapes) => ser_tuple(hooks, shapes, items, s),
        Payload::Named(fields) => ser_fields(hooks, fields, items, s),
    }
}

/// Appends to `s` the wire bytes of a value of the union `enum_`: the
/// position of its variant in two bytes, least significant first, then the
/// payload of that variant.
pub fn derive_ser_bin_enum<H: ProxyHooks>(hooks: &H, enum_: &Enum, value: &Value, s: &mut Vec<u8>)
    requires
        fits_enum(hooks, *enum_, value@, false),
    ensures
        final(s)@ == old(s)@ + encoding_enum(hooks, *enum_, value@),
    decreases *enum_, 0nat, 0nat,
{
    match value {
        Value::Union(id, items) => {
            push_le(*id as u64, 2, s);
            ser_payload(hooks, &enum_.variants[*id as usize].payload, items, s);
            assert(s@ =~= old(s)@ + encoding_enum(hooks, *enum_, value@));
        },
        _ => {},
    }
}

} // verus!
