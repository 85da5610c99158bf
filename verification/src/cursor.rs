//! The cursor only moves forward.

use vstd::prelude::*;
use crate::error::Fault;
use crate::primitive::uint_decoding;
use crate::proxy::ProxyHooks;
use crate::schema::{Enum, Field, Payload, ProxyType, Shape, Struct};
use crate::value::Val;
use crate::wire::{
    decoding, decoding_entries, decoding_enum, decoding_field, decoding_fields, decoding_payload,
    decoding_proxy, decoding_repeat, decoding_struct, decoding_tuple, members, put,
};

verus! {

/// A decode that started at `o` in a buffer of `size` bytes left the cursor
/// at or behind `o`, and inside the buffer if `o` was inside it.
pub open spec fn forward<T>(r: Result<(T, int), Fault>, o: int, size: int) -> bool {
    match r {
        Ok((_, end)) => o <= end && (o <= size ==> end <= size),
        Err(f) => o <= f.o && (o <= size ==> f.o <= size) && f.s == size,
    }
}

/// The cursor only moves forward, and never out of the buffer: whatever the
/// bytes, a decode ends at or behind the offset at which it began, and a
/// failure names an offset at or behind it and the size of the buffer.
pub proof fn lemma_forward<H: ProxyHooks>(hooks: &H, shape: Shape, d: Seq<u8>, o: int)
    requires
        0 <= o,
    ensures
        forward(decoding(hooks, shape, d, o), o, d.len() as int),
    decreases shape, 1nat, 0nat,
{
    match shape {
        Shape::Primitive(_) => {},
        Shape::Text => {},
        Shape::Option(inner) => {
            lemma_forward(hooks, *inner, d, o + 1);
        },
        Shape::Sequence(elem) => {
            match uint_decoding(d, o, 4) {
                Ok((n, start)) => lemma_repeat_forward(hooks, *elem, d, start, n, Seq::empty()),
                Err(_) => {},
            }
        },
        Shape::Array(elem, len) => {
            match len {
                Some(n) => lemma_repeat_forward(hooks, *elem, d, o, n as nat, Seq::empty()),
                None => {},
            }
        },
        Shape::Tuple(shapes) => {
            lemma_tuple_forward(hooks, shapes@, d, o, 0, Seq::empty());
        },
        Shape::Mapping(_, _) => {
            match uint_decoding(d, o, 4) {
                Ok((n, start)) => lemma_entries_forward(hooks, shape, d, start, n, Seq::empty()),
                Err(_) => {},
            }
        },
        Shape::Record(st) => {
            lemma_struct_forward(hooks, st, d, o);
        },
        Shape::Union(en) => {
            lemma_enum_forward(hooks, en, d, o);
        },
    }
}

/// As [`lemma_forward`], of a value of a struct.
pub proof fn lemma_struct_forward<H: ProxyHooks>(hooks: &H, st: Struct, d: Seq<u8>, o: int)
    requires
        0 <= o,
    ensures
        forward(decoding_struct(hooks, st, d, o), o, d.len() as int),
    decreases st, 0nat, 0nat,
{
    lemma_fields_forward(hooks, st.fields@, d, o, 0, Seq::empty());
}

/// As [`lemma_forward`], of the payload of a union variant.
pub proof fn lemma_payload_forward<H: ProxyHooks>(hooks: &H, payload: Payload, d: Seq<u8>, o: int)
    requires
        0 <= o,
    ensures
        forward(decoding_payload(hooks, payload, d, o), o, d.len() as int),
    decreases payload, 0nat, 0nat,
{
    match payload {
        Payload::Empty => {},
        Payload::Positional(shapes) => {
            lemma_tuple_forward(hooks, shapes@, d, o, 0, Seq::empty());
        },
        Payload::Named(fields) => {
            lemma_fields_forward(hooks, fields@, d, o, 0, Seq::empty());
        },
    }
}

/// As [`lemma_forward`], of a value of a union.
pub proof fn lemma_enum_forward<H: ProxyHooks>(hooks: &H, en: Enum, d: Seq<u8>, o: int)
    requires
        0 <= o,
    ensures
        forward(decoding_enum(hooks, en, d, o), o, d.len() as int),
    decreases en, 0nat, 0nat,
{
    match uint_decoding(d, o, 2) {
        Ok((id, start)) => {
            if id < en.variants.len() {
                lemma_payload_forward(hooks, en.variants@[id as int].payload, d, start);
            }
        },
        Err(_) => {},
    }
}

/// As [`lemma_forward`], of a value through a proxy.
pub proof fn lemma_proxy_forward<H: ProxyHooks>(hooks: &H, proxy: ProxyType, d: Seq<u8>, o: int)
    requires
        0 <= o,
    ensures
        forward(decoding_proxy(hooks, proxy, d, o), o, d.len() as int),
    decreases proxy, 0nat, 0nat,
{
    lemma_forward(hooks, proxy.ty, d, o);
}

/// As [`lemma_forward`], of a member of a record.
pub proof fn lemma_field_forward<H: ProxyHooks>(hooks: &H, field: Field, d: Seq<u8>, o: int)
    requires
        0 <= o,
    ensures
        forward(decoding_field(hooks, field, d, o), o, d.len() as int),
    decreases field, 0nat, 0nat,
{
    match field.proxy {
        Some(proxy) => lemma_proxy_forward(hooks, proxy, d, o),
        None => lemma_forward(hooks, field.ty, d, o),
    }
}

/// As [`lemma_forward`], of `n` values of one shape.
pub proof fn lemma_repeat_forward<H: ProxyHooks>(
    hooks: &H,
    elem: Shape,
    d: Seq<u8>,
    o: int,
    n: nat,
    acc: Seq<Val>,
)
    requires
        0 <= o,
    ensures
        forward(decoding_repeat(hooks, elem, d, o, n, acc), o, d.len() as int),
    decreases elem, 2nat, n,
{
    if n > 0 {
        lemma_forward(hooks, elem, d, o);
        match decoding(hooks, elem, d, o) {
            Ok((x, next)) => lemma_repeat_forward(
                hooks,
                elem,
                d,
                next,
                (n - 1) as nat,
                acc.push(x),
            ),
            Err(_) => {},
        }
    }
}

/// As [`lemma_forward`], of values of the shapes from position `i` on.
pub proof fn lemma_tuple_forward<H: ProxyHooks>(
    hooks: &H,
    shapes: Seq<Shape>,
    d: Seq<u8>,
    o: int,
    i: nat,
    acc: Seq<Val>,
)
    requires
        0 <= o,
    ensures
        forward(decoding_tuple(hooks, shapes, d, o, i, acc), o, d.len() as int),
    decreases shapes, 0nat, shapes.len() - i,
{
    if i < shapes.len() {
        lemma_forward(hooks, shapes[i as int], d, o);
        match decoding(hooks, shapes[i as int], d, o) {
            Ok((x, next)) => lemma_tuple_forward(hooks, shapes, d, next, i + 1, acc.push(x)),
            Err(_) => {},
        }
    }
}

/// As [`lemma_forward`], of `n` entries of a map.
pub proof fn lemma_entries_forward<H: ProxyHooks>(
    hooks: &H,
    shape: Shape,
    d: Seq<u8>,
    o: int,
    n: nat,
    acc: Seq<(Val, Val)>,
)
    requires
        0 <= o,
    ensures
        forward(decoding_entries(hooks, shape, d, o, n, acc), o, d.len() as int),
    decreases shape, 0nat, n,
{
    match shape {
        Shape::Mapping(key, value) => {
            if n > 0 {
                lemma_forward(hooks, *key, d, o);
                match decoding(hooks, *key, d, o) {
                    Ok((k, mid)) => {
                        lemma_forward(hooks, *value, d, mid);
                        match decoding(hooks, *value, d, mid) {
                            Ok((x, next)) => lemma_entries_forward(
                                hooks,
                                shape,
                                d,
                                next,
                                (n - 1) as nat,
                                put(acc, k, x),
                            ),
                            Err(_) => {},
                        }
                    },
                    Err(_) => {},
                }
            }
        },
        _ => {},
    }
}

/// As [`lemma_forward`], of the members of a record from position `i` on.
pub proof fn lemma_fields_forward<H: ProxyHooks>(
    hooks: &H,
    fields: Seq<Field>,
    d: Seq<u8>,
    o: int,
    i: nat,
    acc: Seq<Val>,
)
    requires
        0 <= o,
    ensures
        forward(decoding_fields(hooks, fields, d, o, i, acc), o, d.len() as int),
    decreases fields, 0nat, fields.len() - i,
{
    if i < fields.len() {
        lemma_field_forward(hooks, fields[i as int], d, o);
        match decoding_field(hooks, fields[i as int], d, o) {
            Ok((x, next)) => lemma_fields_forward(hooks, fields, d, next, i + 1, acc.push(x)),
            Err(_) => {},
        }
    }
}

} // verus!
