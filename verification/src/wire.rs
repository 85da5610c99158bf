//! The wire format, stated over the model of values: which values a shape
//! admits, the bytes of a value, and what decoding a buffer gives.

use vstd::prelude::*;
use vstd::utf8::*;
use crate::error::{ErrKind, Fault};
use crate::primitive::{le_bytes, text_decoding, text_encoding, uint_decoding, Primitive};
use crate::proxy::ProxyHooks;
use crate::schema::{Enum, Field, Payload, ProxyType, Shape, Struct};
use crate::value::Val;

verus! {

/// A decoded value with the offset behind it, or the failure.
pub type Decoded = Result<(Val, int), Fault>;

/// Decoded members with the offset behind them, or the failure.
pub type DecodedList = Result<(Seq<Val>, int), Fault>;

/// Decoded entries with the offset behind them, or the failure.
pub type DecodedEntries = Result<(Seq<(Val, Val)>, int), Fault>;

/// No two entries have the same key.
pub open spec fn distinct_keys(entries: Seq<(Val, Val)>) -> bool {
    forall|i: int, j: int|
        0 <= i < j < entries.len() ==> (#[trigger] entries[i]).0 != (#[trigger] entries[j]).0
}

/// `shape` admits `v`: the value has the form that the shape describes, its
/// counts fit four bytes, its map keys are distinct, and what a proxied member
/// is converted to is admitted by the proxy's shape. With `exact`, each such
/// conversion is moreover undone by its counterpart.
pub open spec fn fits<H: ProxyHooks>(hooks: &H, shape: Shape, v: Val, exact: bool) -> bool
    decreases shape, 1nat,
{
    match shape {
        Shape::Primitive(k) => v matches Val::Primitive(x) && x.kind() == k,
        Shape::Text => v matches Val::Text(t) && encode_utf8(t).len() <= u32::MAX,
        Shape::Option(inner) => {
            &&& v matches Val::Option(x)
            &&& x matches Some(y) ==> fits(hooks, *inner, *y, exact)
        },
        Shape::Sequence(elem) => {
            &&& v matches Val::Sequence(items)
            &&& items.len() <= u32::MAX
            &&& fits_all(hooks, *elem, items, exact)
        },
        Shape::Array(elem, len) => {
            &&& v matches Val::Array(items)
            &&& len matches Some(n)
            &&& items.len() == n
            &&& fits_all(hooks, *elem, items, exact)
        },
        Shape::Tuple(shapes) => {
            &&& v matches Val::Tuple(items)
            &&& fits_tuple(hooks, shapes@, items, exact)
        },
        Shape::Mapping(_, _) => {
            &&& v matches Val::Mapping(entries)
            &&& entries.len() <= u32::MAX
            &&& distinct_keys(entries)
            &&& fits_entries(hooks, shape, entries, exact)
        },
        Shape::Record(st) => fits_struct(hooks, st, v, exact),
        Shape::Union(en) => fits_enum(hooks, en, v, exact),
    }
}

/// `elem` admits each of `items`.
pub open spec fn fits_all<H: ProxyHooks>(
    hooks: &H,
    elem: Shape,
    items: Seq<Val>,
    exact: bool,
) -> bool
    decreases elem, 2nat,
{
    forall|i: int| 0 <= i < items.len() ==> fits(hooks, elem, #[trigger] items[i], exact)
}

/// The map shape `shape` admits the key and the value of each of `entries`.
pub open spec fn fits_entries<H: ProxyHooks>(
    hooks: &H,
    shape: Shape,
    entries: Seq<(Val, Val)>,
    exact: bool,
) -> bool
    decreases shape, 0nat,
{
    match shape {
        Shape::Mapping(key, value) => forall|i: int|
            0 <= i < entries.len() ==> fits(hooks, *key, (#[trigger] entries[i]).0, exact) && fits(
                hooks,
                *value,
                entries[i].1,
                exact,
            ),
        _ => false,
    }
}

/// There are as many `items` as `shapes`, and each shape admits the item at
/// its position.
pub open spec fn fits_tuple<H: ProxyHooks>(
    hooks: &H,
    shapes: Seq<Shape>,
    items: Seq<Val>,
    exact: bool,
) -> bool
    decreases shapes, 0nat,
{
    &&& items.len() == shapes.len()
    &&& forall|i: int| 0 <= i < shapes.len() ==> fits(hooks, shapes[i], #[trigger] items[i], exact)
}

/// `proxy` admits `v`: its shape admits what `v` is converted to; with
/// `exact`, converting that back gives `v`.
pub open spec fn fits_proxy<H: ProxyHooks>(hooks: &H, proxy: ProxyType, v: Val, exact: bool) -> bool
    decreases proxy, 0nat,
{
    &&& fits(hooks, proxy.ty, hooks.to_proxy_spec(proxy.hook, v), exact)
    &&& exact ==> hooks.from_proxy_spec(proxy.hook, hooks.to_proxy_spec(proxy.hook, v)) == v
}

/// The member `field` admits `v`: through its proxy if it has one, else by
/// its shape.
pub open spec fn fits_field<H: ProxyHooks>(hooks: &H, field: Field, v: Val, exact: bool) -> bool
    decreases field, 0nat,
{
    match field.proxy {
        Some(proxy) => fits_proxy(hooks, proxy, v, exact),
        None => fits(hooks, field.ty, v, exact),
    }
}

/// There are as many `items` as `fields`, and each field admits the item at
/// its position.
pub open spec fn fits_fields<H: ProxyHooks>(
    hooks: &H,
    fields: Seq<Field>,
    items: Seq<Val>,
    exact: bool,
) -> bool
    decreases fields, 0nat,
{
    &&& items.len() == fields.len()
    &&& forall|i: int|
        0 <= i < fields.len() ==> fits_field(hooks, fields[i], #[trigger] items[i], exact)
}

/// `v` is a value of the struct `st`: a `Record` where the members are
/// named, a `Tuple` where they are positional, of members that the fields admit.
pub open spec fn fits_struct<H: ProxyHooks>(hooks: &H, st: Struct, v: Val, exact: bool) -> bool
    decreases st, 0nat,
{
    if st.named {
        v matches Val::Record(items) && fits_fields(hooks, st.fields@, items, exact)
    } else {
        v matches Val::Tuple(items) && fits_fields(hooks, st.fields@, items, exact)
    }
}

/// `items` are the members of the payload `payload`.
pub open spec fn fits_payload<H: ProxyHooks>(
    hooks: &H,
    payload: Payload,
    items: Seq<Val>,
    exact: bool,
) -> bool
    decreases payload, 0nat,
{
    match payload {
        Payload::Empty => items.len() == 0,
        Payload::Positional(shapes) => fits_tuple(hooks, shapes@, items, exact),
        Payload::Named(fields) => fits_fields(hooks, fields@, items, exact),
    }
}

/// `v` is a value of the union `en`: its discriminant is the position of a
/// variant, and its members are those of that variant's payload.
pub open spec fn fits_enum<H: ProxyHooks>(hooks: &H, en: Enum, v: Val, exact: bool) -> bool
    decreases en, 0nat,
{
    &&& v matches Val::Union(id, items)
    &&& id < en.variants.len()
    &&& fits_payload(hooks, en.variants@[id as int].payload, items, exact)
}

/// `v` is a value of `shape` that can be encoded.
pub open spec fn conforms<H: ProxyHooks>(hooks: &H, shape: Shape, v: Val) -> bool {
    fits(hooks, shape, v, false)
}

/// `v` is a value of `shape` that can be encoded, and no conversion on the
/// way loses anything of it.
pub open spec fn faithful<H: ProxyHooks>(hooks: &H, shape: Shape, v: Val) -> bool {
    fits(hooks, shape, v, true)
}

/// The members of a struct value, whichever form it has.
pub open spec fn members(st: Struct, v: Val) -> Seq<Val> {
    if st.named {
        v->Record_0
    } else {
        v->Tuple_0
    }
}

/// The struct value with the given members.
pub open spec fn struct_val(st: Struct, items: Seq<Val>) -> Val {
    if st.named {
        Val::Record(items)
    } else {
        Val::Tuple(items)
    }
}

/// The wire bytes of `v` as a value of `shape`.
pub open spec fn encoding<H: ProxyHooks>(hooks: &H, shape: Shape, v: Val) -> Seq<u8>
    decreases shape, 1nat, 0nat,
{
    match shape {
        Shape::Primitive(_) => v->Primitive_0.encoding(),
        Shape::Text => text_encoding(v->Text_0),
        Shape::Option(inner) => match v {
            Val::Option(Some(x)) => seq![1u8] + encoding(hooks, *inner, *x),
            _ => seq![0u8],
        },
        Shape::Sequence(elem) => {
            let items = v->Sequence_0;
            le_bytes(items.len(), 4) + encoding_repeat(hooks, *elem, items, items.len())
        },
        Shape::Array(elem, _) => {
            let items = v->Array_0;
            encoding_repeat(hooks, *elem, items, items.len())
        },
        Shape::Tuple(shapes) => encoding_tuple(hooks, shapes@, v->Tuple_0, shapes@.len()),
        Shape::Mapping(_, _) => {
            let entries = v->Mapping_0;
            le_bytes(entries.len(), 4) + encoding_entries(hooks, shape, entries, entries.len())
        },
        Shape::Record(st) => encoding_struct(hooks, st, v),
        Shape::Union(en) => encoding_enum(hooks, en, v),
    }
}

/// The wire bytes of the first `n` of `items`, each a value of `elem`.
pub open spec fn encoding_repeat<H: ProxyHooks>(
    hooks: &H,
    elem: Shape,
    items: Seq<Val>,
    n: nat,
) -> Seq<u8>
    decreases elem, 2nat, n,
{
    if n == 0 || n > items.len() {
        Seq::empty()
    } else {
        encoding_repeat(hooks, elem, items, (n - 1) as nat) + encoding(hooks, elem, items[n - 1])
    }
}

/// The wire bytes of the first `n` of `items`, each a value of the shape at
/// its position.
pub open spec fn encoding_tuple<H: ProxyHooks>(
    hooks: &H,
    shapes: Seq<Shape>,
    items: Seq<Val>,
    n: nat,
) -> Seq<u8>
    decreases shapes, 0nat, n,
{
    if n == 0 || n > shapes.len() {
        Seq::empty()
    } else {
        encoding_tuple(hooks, shapes, items, (n - 1) as nat) + encoding(
            hooks,
            shapes[n - 1],
            items[n - 1],
        )
    }
}

/// The wire bytes of the first `n` of `entries` of the map shape `shape`:
/// each key, then its value.
pub open spec fn encoding_entries<H: ProxyHooks>(
    hooks: &H,
    shape: Shape,
    entries: Seq<(Val, Val)>,
    n: nat,
) -> Seq<u8>
    decreases shape, 0nat, n,
{
    match shape {
        Shape::Mapping(key, value) => {
            if n == 0 || n > entries.len() {
                Seq::empty()
            } else {
                encoding_entries(hooks, shape, entries, (n - 1) as nat) + encoding(
                    hooks,
                    *key,
                    entries[n - 1].0,
                ) + encoding(hooks, *value, entries[n - 1].1)
            }
        },
        _ => Seq::empty(),
    }
}

/// The wire bytes of `v` through `proxy`: those of what `v` is converted to.
pub open spec fn encoding_proxy<H: ProxyHooks>(hooks: &H, proxy: ProxyType, v: Val) -> Seq<u8>
    decreases proxy, 0nat, 0nat,
{
    encoding(hooks, proxy.ty, hooks.to_proxy_spec(proxy.hook, v))
}

/// The wire bytes of `v` as the member `field`.
pub open spec fn encoding_field<H: ProxyHooks>(hooks: &H, field: Field, v: Val) -> Seq<u8>
    decreases field, 0nat, 0nat,
{
    match field.proxy {
        Some(proxy) => encoding_proxy(hooks, proxy, v),
        None => encoding(hooks, field.ty, v),
    }
}

/// The wire bytes of the first `n` of `items`, each a value of the field at
/// its position.
pub open spec fn encoding_fields<H: ProxyHooks>(
    hooks: &H,
    fields: Seq<Field>,
    items: Seq<Val>,
    n: nat,
) -> Seq<u8>
    decreases fields, 0nat, n,
{
    if n == 0 || n > fields.len() {
        Seq::empty()
    } else {
        encoding_fields(hooks, fields, items, (n - 1) as nat) + encoding_field(
            hooks,
            fields[n - 1],
            items[n - 1],
        )
    }
}

/// The wire bytes of a struct value: those of its members in declared order.
pub open spec fn encoding_struct<H: ProxyHooks>(hooks: &H, st: Struct, v: Val) -> Seq<u8>
    decreases st, 0nat, 0nat,
{
    encoding_fields(hooks, st.fields@, members(st, v), st.fields@.len())
}

/// The wire bytes of the members `items` of the payload `payload`.
pub open spec fn encoding_payload<H: ProxyHooks>(
    hooks: &H,
    payload: Payload,
    items: Seq<Val>,
) -> Seq<u8>
    decreases payload, 0nat, 0nat,
{
    match payload {
        Payload::Empty => Seq::empty(),
        Payload::Positional(shapes) => encoding_tuple(hooks, shapes@, items, shapes@.len()),
        Payload::Named(fields) => encoding_fields(hooks, fields@, items, fields@.len()),
    }
}

/// The wire bytes of a union value: the discriminant in two bytes, then the
/// payload of the variant that it names.
pub open spec fn encoding_enum<H: ProxyHooks>(hooks: &H, en: Enum, v: Val) -> Seq<u8>
    decreases en, 0nat, 0nat,
{
    let id = v->Union_0;
    if id < en.variants.len() {
        le_bytes(id as nat, 2) + encoding_payload(
            hooks,
            en.variants@[id as int].payload,
            v->Union_1,
        )
    } else {
        le_bytes(id as nat, 2)
    }
}

/// The entries after `key` has been given `value`: the first entry with that
/// key now holds the value; where there is none, the entry is added at the end.
pub open spec fn put(entries: Seq<(Val, Val)>, key: Val, value: Val) -> Seq<(Val, Val)> {
    if exists|j: int| first_with_key(entries, key, j) {
        entries.update(choose|j: int| first_with_key(entries, key, j), (key, value))
    } else {
        entries.push((key, value))
    }
}

/// `j` is the position of the first entry with the key `key`.
pub open spec fn first_with_key(entries: Seq<(Val, Val)>, key: Val, j: int) -> bool {
    &&& 0 <= j < entries.len()
    &&& entries[j].0 == key
    &&& forall|i: int| 0 <= i < j ==> (#[trigger] entries[i]).0 != key
}

/// What decoding a value of `shape` at offset `o` of `d` gives.
pub open spec fn decoding<H: ProxyHooks>(hooks: &H, shape: Shape, d: Seq<u8>, o: int) -> Decoded
    decreases shape, 1nat, 0nat,
{
    match shape {
        Shape::Primitive(k) => match k.decoding(d, o) {
            Ok((x, end)) => Ok((Val::Primitive(x), end)),
            Err(f) => Err(f),
        },
        Shape::Text => match text_decoding(d, o) {
            Ok((t, end)) => Ok((Val::Text(t), end)),
            Err(f) => Err(f),
        },
        Shape::Option(inner) => match uint_decoding(d, o, 1) {
            Ok((flag, start)) => {
                if flag == 1 {
                    match decoding(hooks, *inner, d, start) {
                        Ok((x, end)) => Ok((Val::Option(Some(Box::new(x))), end)),
                        Err(f) => Err(f),
                    }
                } else {
                    Ok((Val::Option(None), start))
                }
            },
            Err(f) => Err(f),
        },
        Shape::Sequence(elem) => match uint_decoding(d, o, 4) {
            Ok((n, start)) => match decoding_repeat(hooks, *elem, d, start, n, Seq::empty()) {
                Ok((items, end)) => Ok((Val::Sequence(items), end)),
                Err(f) => Err(f),
            },
            Err(f) => Err(f),
        },
        Shape::Array(elem, len) => match len {
            Some(n) => match decoding_repeat(hooks, *elem, d, o, n as nat, Seq::empty()) {
                Ok((items, end)) => Ok((Val::Array(items), end)),
                Err(f) => Err(f),
            },
            None => Err(Fault { kind: ErrKind::WrongArrayLength, o, l: 0, s: d.len() as int }),
        },
        Shape::Tuple(shapes) => match decoding_tuple(hooks, shapes@, d, o, 0, Seq::empty()) {
            Ok((items, end)) => Ok((Val::Tuple(items), end)),
            Err(f) => Err(f),
        },
        Shape::Mapping(_, _) => match uint_decoding(d, o, 4) {
            Ok((n, start)) => match decoding_entries(hooks, shape, d, start, n, Seq::empty()) {
                Ok((entries, end)) => Ok((Val::Mapping(entries), end)),
                Err(f) => Err(f),
            },
            Err(f) => Err(f),
        },
        Shape::Record(st) => decoding_struct(hooks, st, d, o),
        Shape::Union(en) => decoding_enum(hooks, en, d, o),
    }
}

/// What decoding `n` more values of `elem` at offset `o` of `d` gives, behind
/// the values `acc` that were decoded before them.
pub open spec fn decoding_repeat<H: ProxyHooks>(
    hooks: &H,
    elem: Shape,
    d: Seq<u8>,
    o: int,
    n: nat,
    acc: Seq<Val>,
) -> DecodedList
    decreases elem, 2nat, n,
{
    if n == 0 {
        Ok((acc, o))
    } else {
        match decoding(hooks, elem, d, o) {
            Ok((x, next)) => decoding_repeat(hooks, elem, d, next, (n - 1) as nat, acc.push(x)),
            Err(f) => Err(f),
        }
    }
}

/// What decoding the values of `shapes` from position `i` on gives, at offset
/// `o` of `d`, behind the values `acc` that were decoded before them.
pub open spec fn decoding_tuple<H: ProxyHooks>(
    hooks: &H,
    shapes: Seq<Shape>,
    d: Seq<u8>,
    o: int,
    i: nat,
    acc: Seq<Val>,
) -> DecodedList
    decreases shapes, 0nat, shapes.len() - i,
{
    if i >= shapes.len() {
        Ok((acc, o))
    } else {
        match decoding(hooks, shapes[i as int], d, o) {
            Ok((x, next)) => decoding_tuple(hooks, shapes, d, next, i + 1, acc.push(x)),
            Err(f) => Err(f),
        }
    }
}

/// What decoding `n` more entries of the map shape `shape` at offset `o` of
/// `d` gives, behind the entries `acc`. An entry whose key was seen before
/// replaces the value of that key: the last one written wins.
pub open spec fn decoding_entries<H: ProxyHooks>(
    hooks: &H,
    shape: Shape,
    d: Seq<u8>,
    o: int,
    n: nat,
    acc: Seq<(Val, Val)>,
) -> DecodedEntries
    decreases shape, 0nat, n,
{
    match shape {
        Shape::Mapping(key, value) => {
            if n == 0 {
                Ok((acc, o))
            } else {
                match decoding(hooks, *key, d, o) {
                    Ok((k, mid)) => match decoding(hooks, *value, d, mid) {
                        Ok((x, next)) => decoding_entries(
                            hooks,
                            shape,
                            d,
                            next,
                            (n - 1) as nat,
                            put(acc, k, x),
                        ),
                        Err(f) => Err(f),
                    },
                    Err(f) => Err(f),
                }
            }
        },
        _ => Ok((acc, o)),
    }
}

/// What decoding a value through `proxy` gives: the representation is
/// decoded, then converted back.
pub open spec fn decoding_proxy<H: ProxyHooks>(
    hooks: &H,
    proxy: ProxyType,
    d: Seq<u8>,
    o: int,
) -> Decoded
    decreases proxy, 0nat, 0nat,
{
    match decoding(hooks, proxy.ty, d, o) {
        Ok((p, end)) => Ok((hooks.from_proxy_spec(proxy.hook, p), end)),
        Err(f) => Err(f),
    }
}

/// What decoding a value of the member `field` at offset `o` of `d` gives.
pub open spec fn decoding_field<H: ProxyHooks>(
    hooks: &H,
    field: Field,
    d: Seq<u8>,
    o: int,
) -> Decoded
    decreases field, 0nat, 0nat,
{
    match field.proxy {
        Some(proxy) => decoding_proxy(hooks, proxy, d, o),
        None => decoding(hooks, field.ty, d, o),
    }
}

/// What decoding the values of `fields` from position `i` on gives, at offset
/// `o` of `d`, behind the values `acc` that were decoded before them.
pub open spec fn decoding_fields<H: ProxyHooks>(
    hooks: &H,
    fields: Seq<Field>,
    d: Seq<u8>,
    o: int,
    i: nat,
    acc: Seq<Val>,
) -> DecodedList
    decreases fields, 0nat, fields.len() - i,
{
    if i >= fields.len() {
        Ok((acc, o))
    } else {
        match decoding_field(hooks, fields[i as int], d, o) {
            Ok((x, next)) => decoding_fields(hooks, fields, d, next, i + 1, acc.push(x)),
            Err(f) => Err(f),
        }
    }
}

/// What decoding a struct value gives: its members are read in declared
/// order, with nothing between them.
pub open spec fn decoding_struct<H: ProxyHooks>(
    hooks: &H,
    st: Struct,
    d: Seq<u8>,
    o: int,
) -> Decoded
    decreases st, 0nat, 0nat,
{
    match decoding_fields(hooks, st.fields@, d, o, 0, Seq::empty()) {
        Ok((items, end)) => Ok((struct_val(st, items), end)),
        Err(f) => Err(f),
    }
}

/// What decoding the members of the payload `payload` at offset `o` of `d`
/// gives.
pub open spec fn decoding_payload<H: ProxyHooks>(
    hooks: &H,
    payload: Payload,
    d: Seq<u8>,
    o: int,
) -> DecodedList
    decreases payload, 0nat, 0nat,
{
    match payload {
        Payload::Empty => Ok((Seq::empty(), o)),
        Payload::Positional(shapes) => decoding_tuple(hooks, shapes@, d, o, 0, Seq::empty()),
        Payload::Named(fields) => decoding_fields(hooks, fields@, d, o, 0, Seq::empty()),
    }
}

/// What decoding a union value gives: the discriminant is read from two
/// bytes; one that names no variant is `UnknownVariant`, at the offset behind
/// it; else the payload of the variant that it names follows.
pub open spec fn decoding_enum<H: ProxyHooks>(hooks: &H, en: Enum, d: Seq<u8>, o: int) -> Decoded
    decreases en, 0nat, 0nat,
{
    match uint_decoding(d, o, 2) {
        Ok((id, start)) => {
            if id < en.variants.len() {
                match decoding_payload(hooks, en.variants@[id as int].payload, d, start) {
                    Ok((items, end)) => Ok((Val::Union(id as u16, items), end)),
                    Err(f) => Err(f),
                }
            } else {
                Err(
                    Fault {
                        kind: ErrKind::UnknownVariant { id: id as u16 },
                        o: start,
                        l: 0,
                        s: d.len() as int,
                    },
                )
            }
        },
        Err(f) => Err(f),
    }
}

} // verus!
