//! Decoding undoes encoding: the proof, shape by shape.

use vstd::prelude::*;
use crate::error::Fault;
use crate::primitive::{
    le_bytes, le_value, lemma_le_bytes_len, lemma_le_value_of_bytes, lemma_pow256_values,
    lemma_scalar_round_trip, lemma_text_round_trip,
};
use crate::proxy::ProxyHooks;
use crate::schema::{Enum, Field, Payload, ProxyType, Shape, Struct};
use crate::value::Val;
use crate::wire::{
    Decoded, DecodedList, decoding, decoding_entries, decoding_enum, decoding_field,
    decoding_fields, decoding_payload, decoding_proxy, decoding_repeat, decoding_struct,
    decoding_tuple, distinct_keys, encoding, encoding_entries, encoding_enum, encoding_field,
    encoding_fields, encoding_payload, encoding_proxy, encoding_repeat, encoding_struct,
    encoding_tuple, first_with_key, fits, fits_all, fits_entries, fits_enum, fits_field,
    fits_fields, fits_payload, fits_proxy, fits_struct, fits_tuple, members, put,
};

verus! {

/// Where `a` and then `b` stand at offset `o` of `d`, each of them stands
/// there by itself.
pub proof fn lemma_window_split(d: Seq<u8>, o: int, a: Seq<u8>, b: Seq<u8>)
    requires
        0 <= o,
        o + a.len() + b.len() <= d.len(),
        d.subrange(o, o + a.len() + b.len()) == a + b,
    ensures
        d.subrange(o, o + a.len()) == a,
        d.subrange(o + a.len(), o + a.len() + b.len()) == b,
{
    let w = d.subrange(o, o + a.len() + b.len());
    assert forall|i: int| 0 <= i < a.len() implies d.subrange(o, o + a.len())[i] == a[i] by {
        assert(w[i] == (a + b)[i]);
    }
    assert(d.subrange(o, o + a.len()) =~= a);
    assert forall|i: int| 0 <= i < b.len() implies d.subrange(
        o + a.len(),
        o + a.len() + b.len(),
    )[i] == b[i] by {
        assert(w[a.len() + i] == (a + b)[a.len() + i]);
    }
    assert(d.subrange(o + a.len(), o + a.len() + b.len()) =~= b);
}

/// A single byte spells itself.
pub proof fn lemma_le_value_one(b: u8)
    ensures
        le_value(seq![b]) == b,
{
    reveal_with_fuel(le_value, 2);
    assert(seq![b].drop_first().len() == 0);
}

/// `r` is a value with the cursor at `end` behind it; with `exact`, the
/// value is `v`.
pub open spec fn decodes_to(r: Decoded, v: Val, end: int, exact: bool) -> bool {
    r matches Ok((x, e)) && e == end && (exact ==> x == v)
}

/// As [`decodes_to`], of a list of values.
pub open spec fn decodes_list_to(r: DecodedList, items: Seq<Val>, end: int, exact: bool) -> bool {
    r matches Ok((x, e)) && e == end && (exact ==> x == items)
}

/// Decoding the encoding of a value that its shape admits, wherever the
/// encoding stands in a buffer, gives a value and leaves the cursor behind the
/// encoding; where no conversion on the way loses anything, it is the value
/// that was encoded.
pub proof fn lemma_decoding_of_encoding<H: ProxyHooks>(
    hooks: &H,
    shape: Shape,
    v: Val,
    d: Seq<u8>,
    o: int,
    exact: bool,
)
    requires
        fits(hooks, shape, v, exact),
        0 <= o,
        o + encoding(hooks, shape, v).len() <= d.len(),
        d.subrange(o, o + encoding(hooks, shape, v).len()) == encoding(hooks, shape, v),
    ensures
        decodes_to(
            decoding(hooks, shape, d, o),
            v,
            o + encoding(hooks, shape, v).len(),
            exact,
        ),
    decreases shape, 1nat, 0nat,
{
    match shape {
        Shape::Primitive(_) => {
            lemma_scalar_round_trip(v->Primitive_0, d, o);
            assert(decodes_to(
                decoding(hooks, shape, d, o),
                v,
                o + encoding(hooks, shape, v).len(),
                exact,
            ));
        },
        Shape::Text => {
            lemma_text_round_trip(v->Text_0, d, o);
            assert(decodes_to(
                decoding(hooks, shape, d, o),
                v,
                o + encoding(hooks, shape, v).len(),
                exact,
            ));
        },
        Shape::Option(inner) => {
            match v {
                Val::Option(Some(x)) => {
                    let body = encoding(hooks, *inner, *x);
                    lemma_window_split(d, o, seq![1u8], body);
                    lemma_le_value_one(1u8);
                    lemma_decoding_of_encoding(hooks, *inner, *x, d, o + 1, exact);
                },
                _ => {
                    lemma_le_value_one(0u8);
                },
            }
            assert(decodes_to(
                decoding(hooks, shape, d, o),
                v,
                o + encoding(hooks, shape, v).len(),
                exact,
            ));
        },
        Shape::Sequence(elem) => {
            let items = v->Sequence_0;
            let head = le_bytes(items.len(), 4);
            let body = encoding_repeat(hooks, *elem, items, items.len());
            lemma_le_bytes_len(items.len(), 4);
            lemma_pow256_values();
            lemma_le_value_of_bytes(items.len(), 4);
            lemma_window_split(d, o, head, body);
            let acc = lemma_repeat_decoding(
                hooks,
                *elem,
                items,
                d,
                o + 4,
                items.len(),
                items.len(),
                exact,
            );
            assert(items.take(items.len() as int) =~= items);
            assert(decodes_to(
                decoding(hooks, shape, d, o),
                v,
                o + encoding(hooks, shape, v).len(),
                exact,
            ));
        },
        Shape::Array(elem, _) => {
            let items = v->Array_0;
            let acc = lemma_repeat_decoding(
                hooks,
                *elem,
                items,
                d,
                o,
                items.len(),
                items.len(),
                exact,
            );
            assert(items.take(items.len() as int) =~= items);
            assert(decodes_to(
                decoding(hooks, shape, d, o),
                v,
                o + encoding(hooks, shape, v).len(),
                exact,
            ));
        },
        Shape::Tuple(shapes) => {
            let items = v->Tuple_0;
            let acc = lemma_tuple_decoding(hooks, shapes@, items, d, o, shapes@.len(), exact);
            assert(items.take(items.len() as int) =~= items);
            assert(decodes_to(
                decoding(hooks, shape, d, o),
                v,
                o + encoding(hooks, shape, v).len(),
                exact,
            ));
        },
        Shape::Mapping(_, _) => {
            let entries = v->Mapping_0;
            let head = le_bytes(entries.len(), 4);
            let body = encoding_entries(hooks, shape, entries, entries.len());
            lemma_le_bytes_len(entries.len(), 4);
            lemma_pow256_values();
            lemma_le_value_of_bytes(entries.len(), 4);
            lemma_window_split(d, o, head, body);
            let acc = lemma_entries_decoding(
                hooks,
                shape,
                entries,
                d,
                o + 4,
                entries.len(),
                entries.len(),
                exact,
            );
            assert(entries.take(entries.len() as int) =~= entries);
            assert(decoding_entries(hooks, shape, d, o + 4, entries.len(), Seq::empty()) == Ok::<
                (Seq<(Val, Val)>, int),
                Fault,
            >((acc, o + 4 + body.len())));
            assert(decodes_to(
                decoding(hooks, shape, d, o),
                v,
                o + encoding(hooks, shape, v).len(),
                exact,
            ));
        },
        Shape::Record(st) => {
            lemma_struct_decoding(hooks, st, v, d, o, exact);
            assert(decodes_to(
                decoding(hooks, shape, d, o),
                v,
                o + encoding(hooks, shape, v).len(),
                exact,
            ));
        },
        Shape::Union(en) => {
            lemma_enum_decoding(hooks, en, v, d, o, exact);
            assert(decodes_to(
                decoding(hooks, shape, d, o),
                v,
                o + encoding(hooks, shape, v).len(),
                exact,
            ));
        },
    }
}

/// Decoding `n` values of `elem` where the encodings of the first `k` of
/// `items` stand comes, behind those `k`, to decoding the rest with the `k`
/// decoded values in hand.
pub proof fn lemma_repeat_decoding<H: ProxyHooks>(
    hooks: &H,
    elem: Shape,
    items: Seq<Val>,
    d: Seq<u8>,
    o: int,
    n: nat,
    k: nat,
    exact: bool,
) -> (acc: Seq<Val>)
    requires
        k <= n == items.len(),
        fits_all(hooks, elem, items, exact),
        0 <= o,
        o + encoding_repeat(hooks, elem, items, k).len() <= d.len(),
        d.subrange(o, o + encoding_repeat(hooks, elem, items, k).len()) == encoding_repeat(
            hooks,
            elem,
            items,
            k,
        ),
    ensures
        decoding_repeat(hooks, elem, d, o, n, Seq::empty()) == decoding_repeat(
            hooks,
            elem,
            d,
            o + encoding_repeat(hooks, elem, items, k).len(),
            (n - k) as nat,
            acc,
        ),
        exact ==> acc == items.take(k as int),
    decreases elem, 2nat, k,
{
    if k == 0 {
        assert(items.take(0) =~= Seq::empty());
        Seq::empty()
    } else {
        let before = encoding_repeat(hooks, elem, items, (k - 1) as nat);
        let chunk = encoding(hooks, elem, items[k - 1]);
        lemma_window_split(d, o, before, chunk);
        let prev = lemma_repeat_decoding(hooks, elem, items, d, o, n, (k - 1) as nat, exact);
        lemma_decoding_of_encoding(hooks, elem, items[k - 1], d, o + before.len(), exact);
        let x = decoding(hooks, elem, d, o + before.len())->Ok_0.0;
        assert(items.take(k - 1).push(items[k - 1]) =~= items.take(k as int));
        prev.push(x)
    }
}

/// As [`lemma_repeat_decoding`], of values of the shapes at their positions.
pub proof fn lemma_tuple_decoding<H: ProxyHooks>(
    hooks: &H,
    shapes: Seq<Shape>,
    items: Seq<Val>,
    d: Seq<u8>,
    o: int,
    k: nat,
    exact: bool,
) -> (acc: Seq<Val>)
    requires
        k <= shapes.len(),
        fits_tuple(hooks, shapes, items, exact),
        0 <= o,
        o + encoding_tuple(hooks, shapes, items, k).len() <= d.len(),
        d.subrange(o, o + encoding_tuple(hooks, shapes, items, k).len()) == encoding_tuple(
            hooks,
            shapes,
            items,
            k,
        ),
    ensures
        decoding_tuple(hooks, shapes, d, o, 0, Seq::empty()) == decoding_tuple(
            hooks,
            shapes,
            d,
            o + encoding_tuple(hooks, shapes, items, k).len(),
            k,
            acc,
        ),
        exact ==> acc == items.take(k as int),
    decreases shapes, 0nat, k,
{
    if k == 0 {
        assert(items.take(0) =~= Seq::empty());
        Seq::empty()
    } else {
        let before = encoding_tuple(hooks, shapes, items, (k - 1) as nat);
        let chunk = encoding(hooks, shapes[k - 1], items[k - 1]);
        lemma_window_split(d, o, before, chunk);
        let prev = lemma_tuple_decoding(hooks, shapes, items, d, o, (k - 1) as nat, exact);
        lemma_decoding_of_encoding(hooks, shapes[k - 1], items[k - 1], d, o + before.len(), exact);
        let x = decoding(hooks, shapes[k - 1], d, o + before.len())->Ok_0.0;
        assert(items.take(k - 1).push(items[k - 1]) =~= items.take(k as int));
        prev.push(x)
    }
}

/// As [`lemma_repeat_decoding`], of the entries of a map.
pub proof fn lemma_entries_decoding<H: ProxyHooks>(
    hooks: &H,
    shape: Shape,
    entries: Seq<(Val, Val)>,
    d: Seq<u8>,
    o: int,
    n: nat,
    k: nat,
    exact: bool,
) -> (acc: Seq<(Val, Val)>)
    requires
        k <= n == entries.len(),
        fits_entries(hooks, shape, entries, exact),
        exact ==> distinct_keys(entries),
        0 <= o,
        o + encoding_entries(hooks, shape, entries, k).len() <= d.len(),
        d.subrange(o, o + encoding_entries(hooks, shape, entries, k).len()) == encoding_entries(
            hooks,
            shape,
            entries,
            k,
        ),
    ensures
        decoding_entries(hooks, shape, d, o, n, Seq::empty()) == decoding_entries(
            hooks,
            shape,
            d,
            o + encoding_entries(hooks, shape, entries, k).len(),
            (n - k) as nat,
            acc,
        ),
        exact ==> acc == entries.take(k as int),
    decreases shape, 0nat, k,
{
    if k == 0 {
        assert(entries.take(0) =~= Seq::empty());
        Seq::empty()
    } else {
        let key = *shape->Mapping_0;
        let value = *shape->Mapping_1;
        let before = encoding_entries(hooks, shape, entries, (k - 1) as nat);
        let first = encoding(hooks, key, entries[k - 1].0);
        let second = encoding(hooks, value, entries[k - 1].1);
        assert(encoding_entries(hooks, shape, entries, k) =~= before + (first + second));
        lemma_window_split(d, o, before, first + second);
        lemma_window_split(d, o + before.len(), first, second);
        let prev = lemma_entries_decoding(hooks, shape, entries, d, o, n, (k - 1) as nat, exact);
        lemma_decoding_of_encoding(hooks, key, entries[k - 1].0, d, o + before.len(), exact);
        lemma_decoding_of_encoding(
            hooks,
            value,
            entries[k - 1].1,
            d,
            o + before.len() + first.len(),
            exact,
        );
        let a = decoding(hooks, key, d, o + before.len())->Ok_0.0;
        let b = decoding(hooks, value, d, o + before.len() + first.len())->Ok_0.0;
        if exact {
            assert(!exists|j: int| first_with_key(prev, a, j)) by {
                if exists|j: int| first_with_key(prev, a, j) {
                    let j = choose|j: int| first_with_key(prev, a, j);
                    assert(entries[j].0 == entries[k - 1].0);
                }
            }
            assert(entries.take(k - 1).push(entries[k - 1]) =~= entries.take(k as int));
        }
        put(prev, a, b)
    }
}

/// Decoding through a proxy the encoding of a value through that proxy.
pub proof fn lemma_proxy_decoding<H: ProxyHooks>(
    hooks: &H,
    proxy: ProxyType,
    v: Val,
    d: Seq<u8>,
    o: int,
    exact: bool,
)
    requires
        fits_proxy(hooks, proxy, v, exact),
        0 <= o,
        o + encoding_proxy(hooks, proxy, v).len() <= d.len(),
        d.subrange(o, o + encoding_proxy(hooks, proxy, v).len()) == encoding_proxy(hooks, proxy, v),
    ensures
        decodes_to(
            decoding_proxy(hooks, proxy, d, o),
            v,
            o + encoding_proxy(hooks, proxy, v).len(),
            exact,
        ),
    decreases proxy, 0nat, 0nat,
{
    lemma_decoding_of_encoding(hooks, proxy.ty, hooks.to_proxy_spec(proxy.hook, v), d, o, exact);
}

/// Decoding as a member the encoding of a value as that member.
pub proof fn lemma_field_decoding<H: ProxyHooks>(
    hooks: &H,
    field: Field,
    v: Val,
    d: Seq<u8>,
    o: int,
    exact: bool,
)
    requires
        fits_field(hooks, field, v, exact),
        0 <= o,
        o + encoding_field(hooks, field, v).len() <= d.len(),
        d.subrange(o, o + encoding_field(hooks, field, v).len()) == encoding_field(hooks, field, v),
    ensures
        decodes_to(
            decoding_field(hooks, field, d, o),
            v,
            o + encoding_field(hooks, field, v).len(),
            exact,
        ),
    decreases field, 0nat, 0nat,
{
    match field.proxy {
        Some(proxy) => lemma_proxy_decoding(hooks, proxy, v, d, o, exact),
        None => lemma_decoding_of_encoding(hooks, field.ty, v, d, o, exact),
    }
}

/// As [`lemma_repeat_decoding`], of the members of a record.
pub proof fn lemma_fields_decoding<H: ProxyHooks>(
    hooks: &H,
    fields: Seq<Field>,
    items: Seq<Val>,
    d: Seq<u8>,
    o: int,
    k: nat,
    exact: bool,
) -> (acc: Seq<Val>)
    requires
        k <= fields.len(),
        fits_fields(hooks, fields, items, exact),
        0 <= o,
        o + encoding_fields(hooks, fields, items, k).len() <= d.len(),
        d.subrange(o, o + encoding_fields(hooks, fields, items, k).len()) == encoding_fields(
            hooks,
            fields,
            items,
            k,
        ),
    ensures
        decoding_fields(hooks, fields, d, o, 0, Seq::empty()) == decoding_fields(
            hooks,
            fields,
            d,
            o + encoding_fields(hooks, fields, items, k).len(),
            k,
            acc,
        ),
        exact ==> acc == items.take(k as int),
    decreases fields, 0nat, k,
{
    if k == 0 {
        assert(items.take(0) =~= Seq::empty());
        Seq::empty()
    } else {
        let before = encoding_fields(hooks, fields, items, (k - 1) as nat);
        let chunk = encoding_field(hooks, fields[k - 1], items[k - 1]);
        lemma_window_split(d, o, before, chunk);
        let prev = lemma_fields_decoding(hooks, fields, items, d, o, (k - 1) as nat, exact);
        lemma_field_decoding(hooks, fields[k - 1], items[k - 1], d, o + before.len(), exact);
        let x = decoding_field(hooks, fields[k - 1], d, o + before.len())->Ok_0.0;
        assert(items.take(k - 1).push(items[k - 1]) =~= items.take(k as int));
        prev.push(x)
    }
}

/// Decoding as a struct the encoding of a value of that struct.
pub proof fn lemma_struct_decoding<H: ProxyHooks>(
    hooks: &H,
    st: Struct,
    v: Val,
    d: Seq<u8>,
    o: int,
    exact: bool,
)
    requires
        fits_struct(hooks, st, v, exact),
        0 <= o,
        o + encoding_struct(hooks, st, v).len() <= d.len(),
        d.subrange(o, o + encoding_struct(hooks, st, v).len()) == encoding_struct(hooks, st, v),
    ensures
        decodes_to(
            decoding_struct(hooks, st, d, o),
            v,
            o + encoding_struct(hooks, st, v).len(),
            exact,
        ),
    decreases st, 0nat, 0nat,
{
    let items = members(st, v);
    let acc = lemma_fields_decoding(hooks, st.fields@, items, d, o, st.fields@.len(), exact);
    assert(items.take(items.len() as int) =~= items);
}

/// Decoding as a payload the encoding of the members of that payload.
pub proof fn lemma_payload_decoding<H: ProxyHooks>(
    hooks: &H,
    payload: Payload,
    items: Seq<Val>,
    d: Seq<u8>,
    o: int,
    exact: bool,
)
    requires
        fits_payload(hooks, payload, items, exact),
        0 <= o,
        o + encoding_payload(hooks, payload, items).len() <= d.len(),
        d.subrange(o, o + encoding_payload(hooks, payload, items).len()) == encoding_payload(
            hooks,
            payload,
            items,
        ),
    ensures
        decodes_list_to(
            decoding_payload(hooks, payload, d, o),
            items,
            o + encoding_payload(hooks, payload, items).len(),
            exact,
        ),
    decreases payload, 0nat, 0nat,
{
    match payload {
        Payload::Empty => {
            assert(items =~= Seq::empty());
        },
        Payload::Positional(shapes) => {
            let acc = lemma_tuple_decoding(hooks, shapes@, items, d, o, shapes@.len(), exact);
            assert(items.take(items.len() as int) =~= items);
        },
        Payload::Named(fields) => {
            let acc = lemma_fields_decoding(hooks, fields@, items, d, o, fields@.len(), exact);
            assert(items.take(items.len() as int) =~= items);
        },
    }
}

/// Decoding as a union the encoding of a value of that union.
pub proof fn lemma_enum_decoding<H: ProxyHooks>(
    hooks: &H,
    en: Enum,
    v: Val,
    d: Seq<u8>,
    o: int,
    exact: bool,
)
    requires
        fits_enum(hooks, en, v, exact),
        0 <= o,
        o + encoding_enum(hooks, en, v).len() <= d.len(),
        d.subrange(o, o + encoding_enum(hooks, en, v).len()) == encoding_enum(hooks, en, v),
    ensures
        decodes_to(
            decoding_enum(hooks, en, d, o),
            v,
            o + encoding_enum(hooks, en, v).len(),
            exact,
        ),
    decreases en, 0nat, 0nat,
{
    let id = v->Union_0;
    let items = v->Union_1;
    let payload = en.variants@[id as int].payload;
    let head = le_bytes(id as nat, 2);
    let body = encoding_payload(hooks, payload, items);
    lemma_le_bytes_len(id as nat, 2);
    lemma_pow256_values();
    lemma_le_value_of_bytes(id as nat, 2);
    lemma_window_split(d, o, head, body);
    lemma_payload_decoding(hooks, payload, items, d, o + 2, exact);
}

} // verus!
