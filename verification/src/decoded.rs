//! What decoding gives is a value of the shape.

use vstd::prelude::*;
use vstd::utf8::*;
use crate::primitive::{lemma_le_bytes_of_value, lemma_pow256_values, uint_decoding};
use crate::proxy::{NoProxy, ProxyHooks};
use crate::schema::{Enum, Field, Payload, ProxyType, Shape, Struct};
use crate::value::Val;
use crate::wire::{
    decoding, decoding_entries, decoding_enum, decoding_field, decoding_fields, decoding_payload,
    decoding_proxy, decoding_repeat, decoding_struct, decoding_tuple, distinct_keys,
    first_with_key, fits, fits_all, fits_entries, fits_enum, fits_field, fits_fields,
    fits_payload, fits_proxy, fits_struct, fits_tuple, put, Decoded,
};

verus! {

/// Every representation is that of the value it stands for: converting a
/// representation back and forth gives the representation.
pub open spec fn retracting<H: ProxyHooks>(hooks: &H) -> bool {
    forall|hook: usize, p: Val| #[trigger]
        hooks.to_proxy_spec(hook, hooks.from_proxy_spec(hook, p)) == p
}

/// The hooks of a schema without proxies are retracting.
pub proof fn lemma_no_proxy_retracting()
    ensures
        retracting(&NoProxy),
{
}

/// Where an entry has the key `key`, some entry is the first with it.
pub proof fn lemma_first_with_key(entries: Seq<(Val, Val)>, key: Val, j: int)
    requires
        0 <= j < entries.len(),
        entries[j].0 == key,
    ensures
        exists|i: int| first_with_key(entries, key, i),
    decreases j,
{
    if exists|i: int| 0 <= i < j && (#[trigger] entries[i]).0 == key {
        let i = choose|i: int| 0 <= i < j && (#[trigger] entries[i]).0 == key;
        lemma_first_with_key(entries, key, i);
    } else {
        assert(first_with_key(entries, key, j));
    }
}

/// Giving a key a value keeps the keys distinct, adds at most one entry, and
/// leaves every other entry as it was.
pub proof fn lemma_put(entries: Seq<(Val, Val)>, key: Val, value: Val)
    requires
        distinct_keys(entries),
    ensures
        distinct_keys(put(entries, key, value)),
        put(entries, key, value).len() <= entries.len() + 1,
        forall|i: int|
            0 <= i < put(entries, key, value).len() ==> #[trigger] put(entries, key, value)[i] == (
                key,
                value,
            ) || (i < entries.len() && put(entries, key, value)[i] == entries[i]),
{
    let after = put(entries, key, value);
    if exists|j: int| first_with_key(entries, key, j) {
        let j = choose|j: int| first_with_key(entries, key, j);
        assert forall|a: int, b: int| 0 <= a < b < after.len() implies (#[trigger] after[a]).0 != (
            #[trigger] after[b]).0 by {
            assert(after[a].0 == entries[a].0);
            assert(after[b].0 == entries[b].0);
        }
    } else {
        assert forall|a: int, b: int| 0 <= a < b < after.len() implies (#[trigger] after[a]).0 != (
            #[trigger] after[b]).0 by {
            if b == entries.len() {
                if entries[a].0 == key {
                    lemma_first_with_key(entries, key, a);
                }
            } else {
                assert(after[a] == entries[a]);
                assert(after[b] == entries[b]);
            }
        }
    }
}

/// `r`, if it is a value, is one that `shape` admits; with `exact`, one that
/// no conversion loses anything of.
pub open spec fn gives_fit<H: ProxyHooks>(
    hooks: &H,
    shape: Shape,
    r: Decoded,
    exact: bool,
) -> bool {
    r matches Ok((v, _)) ==> fits(hooks, shape, v, exact)
}

/// With retracting hooks, whatever the bytes: what decoding gives is a value
/// that the shape admits; this holds with `exact` as without.
pub proof fn lemma_decoded<H: ProxyHooks>(hooks: &H, shape: Shape, d: Seq<u8>, o: int, exact: bool)
    requires
        retracting(hooks),
    ensures
        gives_fit(hooks, shape, decoding(hooks, shape, d, o), exact),
    decreases shape, 1nat, 0nat,
{
    match shape {
        Shape::Primitive(_) => {},
        Shape::Text => {
            match uint_decoding(d, o, 4) {
                Ok((n, start)) => {
                    lemma_le_bytes_of_value(d.subrange(o, o + 4));
                    lemma_pow256_values();
                    if start + n <= d.len() && valid_utf8(d.subrange(start, start + n)) {
                        decode_utf8_encode_utf8(d.subrange(start, start + n));
                    }
                },
                Err(_) => {},
            }
        },
        Shape::Option(inner) => {
            lemma_decoded(hooks, *inner, d, o + 1, exact);
        },
        Shape::Sequence(elem) => {
            match uint_decoding(d, o, 4) {
                Ok((n, start)) => {
                    lemma_le_bytes_of_value(d.subrange(o, o + 4));
                    lemma_pow256_values();
                    lemma_repeat_decoded(hooks, *elem, d, start, n, Seq::empty(), exact);
                },
                Err(_) => {},
            }
        },
        Shape::Array(elem, len) => {
            match len {
                Some(n) => lemma_repeat_decoded(hooks, *elem, d, o, n as nat, Seq::empty(), exact),
                None => {},
            }
        },
        Shape::Tuple(shapes) => {
            lemma_tuple_decoded(hooks, shapes@, d, o, 0, Seq::empty(), exact);
        },
        Shape::Mapping(_, _) => {
            match uint_decoding(d, o, 4) {
                Ok((n, start)) => {
                    lemma_le_bytes_of_value(d.subrange(o, o + 4));
                    lemma_pow256_values();
                    lemma_entries_decoded(hooks, shape, d, start, n, Seq::empty(), exact);
                },
                Err(_) => {},
            }
        },
        Shape::Record(st) => {
            lemma_struct_decoded(hooks, st, d, o, exact);
        },
        Shape::Union(en) => {
            lemma_enum_decoded(hooks, en, d, o, exact);
        },
    }
    assert(gives_fit(hooks, shape, decoding(hooks, shape, d, o), exact));
}

/// As [`lemma_decoded`], of `n` values of one shape behind values that the
/// shape admits.
pub proof fn lemma_repeat_decoded<H: ProxyHooks>(
    hooks: &H,
    elem: Shape,
    d: Seq<u8>,
    o: int,
    n: nat,
    acc: Seq<Val>,
    exact: bool,
)
    requires
        retracting(hooks),
        fits_all(hooks, elem, acc, exact),
    ensures
        decoding_repeat(hooks, elem, d, o, n, acc) matches Ok((items, _)) ==> items.len()
            == acc.len() + n && fits_all(hooks, elem, items, exact),
    decreases elem, 2nat, n,
{
    if n > 0 {
        lemma_decoded(hooks, elem, d, o, exact);
        match decoding(hooks, elem, d, o) {
            Ok((x, next)) => {
                lemma_repeat_decoded(hooks, elem, d, next, (n - 1) as nat, acc.push(x), exact);
            },
            Err(_) => {},
        }
    }
}

/// As [`lemma_decoded`], of values of the shapes from position `i` on, behind
/// values that the shapes before `i` admit.
pub proof fn lemma_tuple_decoded<H: ProxyHooks>(
    hooks: &H,
    shapes: Seq<Shape>,
    d: Seq<u8>,
    o: int,
    i: nat,
    acc: Seq<Val>,
    exact: bool,
)
    requires
        retracting(hooks),
        i <= shapes.len(),
        acc.len() == i,
        forall|j: int| 0 <= j < i ==> fits(hooks, shapes[j], #[trigger] acc[j], exact),
    ensures
        decoding_tuple(hooks, shapes, d, o, i, acc) matches Ok((items, _)) ==> fits_tuple(
            hooks,
            shapes,
            items,
            exact,
        ),
    decreases shapes, 0nat, shapes.len() - i,
{
    if i < shapes.len() {
        lemma_decoded(hooks, shapes[i as int], d, o, exact);
        match decoding(hooks, shapes[i as int], d, o) {
            Ok((x, next)) => {
                lemma_tuple_decoded(hooks, shapes, d, next, i + 1, acc.push(x), exact);
            },
            Err(_) => {},
        }
    }
}

/// As [`lemma_decoded`], of `n` entries of a map behind entries with
/// distinct keys that the map's shape admits.
pub proof fn lemma_entries_decoded<H: ProxyHooks>(
    hooks: &H,
    shape: Shape,
    d: Seq<u8>,
    o: int,
    n: nat,
    acc: Seq<(Val, Val)>,
    exact: bool,
)
    requires
        retracting(hooks),
        shape is Mapping,
        distinct_keys(acc),
        fits_entries(hooks, shape, acc, exact),
    ensures
        decoding_entries(hooks, shape, d, o, n, acc) matches Ok((entries, _)) ==> entries.len()
            <= acc.len() + n && distinct_keys(entries) && fits_entries(
            hooks,
            shape,
            entries,
            exact,
        ),
    decreases shape, 0nat, n,
{
    match shape {
        Shape::Mapping(key, value) => {
            if n > 0 {
                lemma_decoded(hooks, *key, d, o, exact);
                match decoding(hooks, *key, d, o) {
                    Ok((k, mid)) => {
                        lemma_decoded(hooks, *value, d, mid, exact);
                        match decoding(hooks, *value, d, mid) {
                            Ok((x, next)) => {
                                lemma_put(acc, k, x);
                                lemma_entries_decoded(
                                    hooks,
                                    shape,
                                    d,
                                    next,
                                    (n - 1) as nat,
                                    put(acc, k, x),
                                    exact,
                                );
                            },
                            Err(_) => {},
                        }
                    },
                    Err(_) => {},
                }
            }
        },
        _ => {},
    }
}

/// As [`lemma_decoded`], of a value through a proxy.
pub proof fn lemma_proxy_decoded<H: ProxyHooks>(
    hooks: &H,
    proxy: ProxyType,
    d: Seq<u8>,
    o: int,
    exact: bool,
)
    requires
        retracting(hooks),
    ensures
        decoding_proxy(hooks, proxy, d, o) matches Ok((v, _)) ==> fits_proxy(
            hooks,
            proxy,
            v,
            exact,
        ),
    decreases proxy, 0nat, 0nat,
{
    lemma_decoded(hooks, proxy.ty, d, o, exact);
}

/// As [`lemma_decoded`], of a member of a record.
pub proof fn lemma_field_decoded<H: ProxyHooks>(
    hooks: &H,
    field: Field,
    d: Seq<u8>,
    o: int,
    exact: bool,
)
    requires
        retracting(hooks),
    ensures
        decoding_field(hooks, field, d, o) matches Ok((v, _)) ==> fits_field(
            hooks,
            field,
            v,
            exact,
        ),
    decreases field, 0nat, 0nat,
{
    match field.proxy {
        Some(proxy) => lemma_proxy_decoded(hooks, proxy, d, o, exact),
        None => lemma_decoded(hooks, field.ty, d, o, exact),
    }
}

/// As [`lemma_decoded`], of the members of a record from position `i` on,
/// behind values that the fields before `i` admit.
pub proof fn lemma_fields_decoded<H: ProxyHooks>(
    hooks: &H,
    fields: Seq<Field>,
    d: Seq<u8>,
    o: int,
    i: nat,
    acc: Seq<Val>,
    exact: bool,
)
    requires
        retracting(hooks),
        i <= fields.len(),
        acc.len() == i,
        forall|j: int| 0 <= j < i ==> fits_field(hooks, fields[j], #[trigger] acc[j], exact),
    ensures
        decoding_fields(hooks, fields, d, o, i, acc) matches Ok((items, _)) ==> fits_fields(
            hooks,
            fields,
            items,
            exact,
        ),
    decreases fields, 0nat, fields.len() - i,
{
    if i < fields.len() {
        lemma_field_decoded(hooks, fields[i as int], d, o, exact);
        match decoding_field(hooks, fields[i as int], d, o) {
            Ok((x, next)) => {
                lemma_fields_decoded(hooks, fields, d, next, i + 1, acc.push(x), exact);
            },
            Err(_) => {},
        }
    }
}

/// As [`lemma_decoded`], of a value of a struct.
pub proof fn lemma_struct_decoded<H: ProxyHooks>(
    hooks: &H,
    st: Struct,
    d: Seq<u8>,
    o: int,
    exact: bool,
)
    requires
        retracting(hooks),
    ensures
        decoding_struct(hooks, st, d, o) matches Ok((v, _)) ==> fits_struct(hooks, st, v, exact),
    decreases st, 0nat, 0nat,
{
    lemma_fields_decoded(hooks, st.fields@, d, o, 0, Seq::empty(), exact);
}

/// As [`lemma_decoded`], of the payload of a union variant.
pub proof fn lemma_payload_decoded<H: ProxyHooks>(
    hooks: &H,
    payload: Payload,
    d: Seq<u8>,
    o: int,
    exact: bool,
)
    requires
        retracting(hooks),
    ensures
        decoding_payload(hooks, payload, d, o) matches Ok((items, _)) ==> fits_payload(
            hooks,
            payload,
            items,
            exact,
        ),
    decreases payload, 0nat, 0nat,
{
    match payload {
        Payload::Empty => {},
        Payload::Positional(shapes) => {
            lemma_tuple_decoded(hooks, shapes@, d, o, 0, Seq::empty(), exact);
        },
        Payload::Named(fields) => {
            lemma_fields_decoded(hooks, fields@, d, o, 0, Seq::empty(), exact);
        },
    }
}

/// As [`lemma_decoded`], of a value of a union.
pub proof fn lemma_enum_decoded<H: ProxyHooks>(hooks: &H, en: Enum, d: Seq<u8>, o: int, exact: bool)
    requires
        retracting(hooks),
    ensures
        decoding_enum(hooks, en, d, o) matches Ok((v, _)) ==> fits_enum(hooks, en, v, exact),
    decreases en, 0nat, 0nat,
{
    match uint_decoding(d, o, 2) {
        Ok((id, start)) => {
            lemma_le_bytes_of_value(d.subrange(o, o + 2));
            lemma_pow256_values();
            if id < en.variants.len() {
                lemma_payload_decoded(hooks, en.variants@[id as int].payload, d, start, exact);
            }
        },
        Err(_) => {},
    }
}

} // verus!
