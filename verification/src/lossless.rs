//! Hooks that lose nothing.

use vstd::prelude::*;
use crate::proxy::{NoProxy, ProxyHooks};
use crate::schema::{Enum, Field, Payload, ProxyType, Shape, Struct};
use crate::value::Val;
use crate::wire::{
    fits, fits_all, fits_entries, fits_enum, fits_field, fits_fields, fits_payload, fits_proxy,
    fits_struct, fits_tuple, members,
};

verus! {

/// Every conversion of `hooks` is undone by its counterpart.
pub open spec fn lossless<H: ProxyHooks>(hooks: &H) -> bool {
    forall|hook: usize, v: Val| #[trigger]
        hooks.from_proxy_spec(hook, hooks.to_proxy_spec(hook, v)) == v
}

/// The hooks of a schema without proxies lose nothing.
pub proof fn lemma_no_proxy_lossless()
    ensures
        lossless(&NoProxy),
{
}

/// With hooks that lose nothing, nothing is lost of a value that its shape
/// admits.
pub proof fn lemma_lossless<H: ProxyHooks>(hooks: &H, shape: Shape, v: Val)
    requires
        lossless(hooks),
        fits(hooks, shape, v, false),
    ensures
        fits(hooks, shape, v, true),
    decreases shape, 1nat,
{
    match shape {
        Shape::Primitive(_) => {},
        Shape::Text => {},
        Shape::Option(inner) => {
            match v {
                Val::Option(Some(x)) => lemma_lossless(hooks, *inner, *x),
                _ => {},
            }
        },
        Shape::Sequence(elem) => lemma_lossless_all(hooks, *elem, v->Sequence_0),
        Shape::Array(elem, _) => lemma_lossless_all(hooks, *elem, v->Array_0),
        Shape::Tuple(shapes) => lemma_lossless_tuple(hooks, shapes@, v->Tuple_0),
        Shape::Mapping(_, _) => lemma_lossless_entries(hooks, shape, v->Mapping_0),
        Shape::Record(st) => lemma_lossless_struct(hooks, st, v),
        Shape::Union(en) => lemma_lossless_enum(hooks, en, v),
    }
}

/// As [`lemma_lossless`], of a value of a struct.
pub proof fn lemma_lossless_struct<H: ProxyHooks>(hooks: &H, st: Struct, v: Val)
    requires
        lossless(hooks),
        fits_struct(hooks, st, v, false),
    ensures
        fits_struct(hooks, st, v, true),
    decreases st, 0nat,
{
    lemma_lossless_fields(hooks, st.fields@, members(st, v));
}

/// As [`lemma_lossless`], of the payload of a union variant.
pub proof fn lemma_lossless_payload<H: ProxyHooks>(hooks: &H, payload: Payload, items: Seq<Val>)
    requires
        lossless(hooks),
        fits_payload(hooks, payload, items, false),
    ensures
        fits_payload(hooks, payload, items, true),
    decreases payload, 0nat,
{
    match payload {
        Payload::Empty => {},
        Payload::Positional(shapes) => lemma_lossless_tuple(hooks, shapes@, items),
        Payload::Named(fields) => lemma_lossless_fields(hooks, fields@, items),
    }
}

/// As [`lemma_lossless`], of a value of a union.
pub proof fn lemma_lossless_enum<H: ProxyHooks>(hooks: &H, en: Enum, v: Val)
    requires
        lossless(hooks),
        fits_enum(hooks, en, v, false),
    ensures
        fits_enum(hooks, en, v, true),
    decreases en, 0nat,
{
    lemma_lossless_payload(hooks, en.variants@[v->Union_0 as int].payload, v->Union_1);
}

/// As [`lemma_lossless`], of a value through a proxy.
pub proof fn lemma_lossless_proxy<H: ProxyHooks>(hooks: &H, proxy: ProxyType, v: Val)
    requires
        lossless(hooks),
        fits_proxy(hooks, proxy, v, false),
    ensures
        fits_proxy(hooks, proxy, v, true),
    decreases proxy, 0nat,
{
    lemma_lossless(hooks, proxy.ty, hooks.to_proxy_spec(proxy.hook, v));
}

/// As [`lemma_lossless`], of a member of a record.
pub proof fn lemma_lossless_field<H: ProxyHooks>(hooks: &H, field: Field, v: Val)
    requires
        lossless(hooks),
        fits_field(hooks, field, v, false),
    ensures
        fits_field(hooks, field, v, true),
    decreases field, 0nat,
{
    match field.proxy {
        Some(proxy) => lemma_lossless_proxy(hooks, proxy, v),
        None => lemma_lossless(hooks, field.ty, v),
    }
}

/// As [`lemma_lossless`], of values of one shape.
pub proof fn lemma_lossless_all<H: ProxyHooks>(hooks: &H, elem: Shape, items: Seq<Val>)
    requires
        lossless(hooks),
        fits_all(hooks, elem, items, false),
    ensures
        fits_all(hooks, elem, items, true),
    decreases elem, 2nat,
{
    assert forall|i: int| 0 <= i < items.len() implies fits(
        hooks,
        elem,
        #[trigger] items[i],
        true,
    ) by {
        lemma_lossless(hooks, elem, items[i]);
    }
}

/// As [`lemma_lossless`], of values of the shapes at their positions.
pub proof fn lemma_lossless_tuple<H: ProxyHooks>(hooks: &H, shapes: Seq<Shape>, items: Seq<Val>)
    requires
        lossless(hooks),
        fits_tuple(hooks, shapes, items, false),
    ensures
        fits_tuple(hooks, shapes, items, true),
    decreases shapes, 0nat,
{
    assert forall|i: int| 0 <= i < shapes.len() implies fits(
        hooks,
        shapes[i],
        #[trigger] items[i],
        true,
    ) by {
        lemma_lossless(hooks, shapes[i], items[i]);
    }
}

/// As [`lemma_lossless`], of the entries of a map.
pub proof fn lemma_lossless_entries<H: ProxyHooks>(
    hooks: &H,
    shape: Shape,
    entries: Seq<(Val, Val)>,
)
    requires
        lossless(hooks),
        fits_entries(hooks, shape, entries, false),
    ensures
        fits_entries(hooks, shape, entries, true),
    decreases shape, 0nat,
{
    let key = *shape->Mapping_0;
    let value = *shape->Mapping_1;
    assert forall|i: int| 0 <= i < entries.len() implies fits(
        hooks,
        key,
        (#[trigger] entries[i]).0,
        true,
    ) && fits(hooks, value, entries[i].1, true) by {
        lemma_lossless(hooks, key, entries[i].0);
        lemma_lossless(hooks, value, entries[i].1);
    }
}

/// As [`lemma_lossless`], of the members of a record.
pub proof fn lemma_lossless_fields<H: ProxyHooks>(hooks: &H, fields: Seq<Field>, items: Seq<Val>)
    requires
        lossless(hooks),
        fits_fields(hooks, fields, items, false),
    ensures
        fits_fields(hooks, fields, items, true),
    decreases fields, 0nat,
{
    assert forall|i: int| 0 <= i < fields.len() implies fits_field(
        hooks,
        fields[i],
        #[trigger] items[i],
        true,
    ) by {
        lemma_lossless_field(hooks, fields[i], items[i]);
    }
}

} // verus!
