//! Decoding.

use vstd::prelude::*;
use crate::error::{DeBinErr, ErrKind};
use crate::cursor::{lemma_enum_forward, lemma_forward, lemma_proxy_forward, lemma_struct_forward};
use crate::primitive::{de_text, de_uint, lemma_pow256_values};
use crate::proxy::ProxyHooks;
use crate::schema::{Enum, Field, Payload, ProxyType, Shape, Struct};
use crate::value::{entry_models, models, Value};
use crate::wire::{
    decoding, decoding_entries, decoding_enum, decoding_field, decoding_fields, decoding_payload,
    decoding_proxy, decoding_repeat, decoding_struct, decoding_tuple, first_with_key, put,
    Decoded, DecodedEntries, DecodedList,
};

verus! {

/// The outcome `r` of a decode that left the cursor at `cursor` is the one
/// that `want` states: the value with the cursor behind it, or the failure with
/// the cursor where the failure lies.
pub open spec fn decoded_as(r: Result<Value, DeBinErr>, cursor: usize, want: Decoded) -> bool {
    match want {
        Ok((v, end)) => r matches Ok(x) && x@ == v && cursor == end,
        Err(f) => r matches Err(e) && e@ == f && cursor == f.o,
    }
}

/// As [`decoded_as`], of a list of values.
pub open spec fn decoded_list_as(
    r: Result<Vec<Value>, DeBinErr>,
    cursor: usize,
    want: DecodedList,
) -> bool {
    match want {
        Ok((items, end)) => r matches Ok(x) && models(x@) == items && cursor == end,
        Err(f) => r matches Err(e) && e@ == f && cursor == f.o,
    }
}

/// As [`decoded_as`], of a list of entries.
pub open spec fn decoded_entries_as(
    r: Result<Vec<(Value, Value)>, DeBinErr>,
    cursor: usize,
    want: DecodedEntries,
) -> bool {
    match want {
        Ok((entries, end)) => r matches Ok(x) && entry_models(x@) == entries && cursor == end,
        Err(f) => r matches Err(e) && e@ == f && cursor == f.o,
    }
}

/// Decodes a value of `shape` at the cursor `o` of `d`. The cursor moves
/// behind the value; on a failure it stands where the failure lies, and
/// nothing of the value is kept.
pub fn de_bin<H: ProxyHooks>(hooks: &H, shape: &Shape, o: &mut usize, d: &[u8]) -> (r: Result<
    Value,
    DeBinErr,
>)
    ensures
        decoded_as(r, *final(o), decoding(hooks, *shape, d@, *old(o) as int)),
        *old(o) <= *final(o),
        *old(o) <= d.len() ==> *final(o) <= d.len(),
    decreases *shape, 1nat, 0nat,
{
    proof {
        lemma_forward(hooks, *shape, d@, *o as int);
    }
    match shape {
        Shape::Primitive(k) => match k.de_bin(o, d) {
            Ok(x) => Ok(Value::Primitive(x)),
            Err(e) => Err(e),
        },
        Shape::Text => match de_text(o, d) {
            Ok(t) => Ok(Value::Text(t)),
            Err(e) => Err(e),
        },
        Shape::Option(inner) => match de_uint(o, d, 1) {
            Ok(flag) => {
                if flag == 1 {
                    match de_bin(hooks, inner, o, d) {
                        Ok(x) => Ok(Value::Option(Some(Box::new(x)))),
                        Err(e) => Err(e),
                    }
                } else {
                    Ok(Value::Option(None))
                }
            },
            Err(e) => Err(e),
        },
        Shape::Sequence(elem) => match de_uint(o, d, 4) {
            Ok(n) => {
                proof {
                    lemma_pow256_values();
                }
                match de_repeat(hooks, elem, n as usize, o, d) {
                    Ok(items) => Ok(Value::Sequence(items)),
                    Err(e) => Err(e),
                }
            },
            Err(e) => Err(e),
        },
        Shape::Array(elem, len) => match len {
            Some(n) => match de_repeat(hooks, elem, *n, o, d) {
                Ok(items) => Ok(Value::Array(items)),
                Err(e) => Err(e),
            },
            None => Err(DeBinErr { kind: ErrKind::WrongArrayLength, o: *o, l: 0, s: d.len() }),
        },
        Shape::Tuple(shapes) => match de_tuple(hooks, shapes, o, d) {
            Ok(items) => Ok(Value::Tuple(items)),
            Err(e) => Err(e),
        },
        Shape::Mapping(_, _) => match de_uint(o, d, 4) {
            Ok(n) => {
                proof {
                    lemma_pow256_values();
                }
                match de_entries(hooks, shape, n as usize, o, d) {
                    Ok(entries) => Ok(Value::Mapping(entries)),
                    Err(e) => Err(e),
                }
            },
            Err(e) => Err(e),
        },
        Shape::Record(st) => {
            if st.named {
                derive_de_bin_struct(hooks, st, o, d)
            } else {
                derive_de_bin_struct_unnamed(hooks, st, o, d)
            }
        },
        Shape::Union(en) => derive_de_bin_enum(hooks, en, o, d),
    }
}

/// Decodes a value of `shape` from the start of `d`. Bytes behind the value
/// are not looked at.
pub fn deserialize_bin<H: ProxyHooks>(hooks: &H, shape: &Shape, d: &[u8]) -> (r: Result<
    Value,
    DeBinErr,
>)
    ensures
        match decoding(hooks, *shape, d@, 0) {
            Ok((v, _)) => r matches Ok(x) && x@ == v,
            Err(f) => r matches Err(e) && e@ == f,
        },
{
    let mut o: usize = 0;
    de_bin(hooks, shape, &mut o, d)
}

/// Decodes `n` values of `elem`, one behind the other, at the cursor `o` of
/// `d`. The first failure ends the decode.
pub fn de_repeat<H: ProxyHooks>(hooks: &H, elem: &Shape, n: usize, o: &mut usize, d: &[u8]) -> (r:
    Result<Vec<Value>, DeBinErr>)
    ensures
        decoded_list_as(
            r,
            *final(o),
            decoding_repeat(hooks, *elem, d@, *old(o) as int, n as nat, Seq::empty()),
        ),
    decreases *elem, 2nat, 0nat,
{
    let mut out: Vec<Value> = Vec::new();
    let mut i: usize = 0;
    assert(models(out@) =~= Seq::empty());
    while i < n
        invariant
            i <= n,
            decoding_repeat(hooks, *elem, d@, *old(o) as int, n as nat, Seq::empty())
                == decoding_repeat(hooks, *elem, d@, *o as int, (n - i) as nat, models(out@)),
        decreases n - i,
    {
        let ghost before = models(out@);
        match de_bin(hooks, elem, o, d) {
            Ok(x) => {
                out.push(x);
                assert(models(out@) =~= before.push(x@));
            },
            Err(e) => {
                return Err(e);
            },
        }
        i += 1;
    }
    Ok(out)
}

/// Decodes one value of each of `shapes`, one behind the other, at the cursor
/// `o` of `d`. The first failure ends the decode.
pub fn de_tuple<H: ProxyHooks>(hooks: &H, shapes: &Vec<Shape>, o: &mut usize, d: &[u8]) -> (r:
    Result<Vec<Value>, DeBinErr>)
    ensures
        decoded_list_as(
            r,
            *final(o),
            decoding_tuple(hooks, shapes@, d@, *old(o) as int, 0, Seq::empty()),
        ),
    decreases *shapes, 0nat, 0nat,
{
    let mut out: Vec<Value> = Vec::new();
    let mut i: usize = 0;
    assert(models(out@) =~= Seq::empty());
    while i < shapes.len()
        invariant
            i <= shapes.len(),
            decoding_tuple(hooks, shapes@, d@, *old(o) as int, 0, Seq::empty()) == decoding_tuple(
                hooks,
                shapes@,
                d@,
                *o as int,
                i as nat,
                models(out@),
            ),
        decreases shapes.len() - i,
    {
        let ghost before = models(out@);
        match de_bin(hooks, &shapes[i], o, d) {
            Ok(x) => {
                out.push(x);
                assert(models(out@) =~= before.push(x@));
            },
            Err(e) => {
                return Err(e);
            },
        }
        i += 1;
    }
    Ok(out)
}

/// Gives `key` the value `value` in `entries`: in the first entry with that
/// key, or in a new entry at the end where there is none.
pub fn put_entry(entries: &mut Vec<(Value, Value)>, key: Value, value: Value)
    ensures
        entry_models(final(entries)@) == put(entry_models(old(entries)@), key@, value@),
{
    let ghost before = entry_models(entries@);
    let mut j: usize = 0;
    while j < entries.len()
        invariant
            j <= entries.len(),
            entries@ == old(entries)@,
            before == entry_models(entries@),
            forall|i: int| 0 <= i < j ==> (#[trigger] before[i]).0 != key@,
        decreases entries.len() - j,
    {
        if entries[j].0.same(&key) {
            assert(before[j as int].0 == key@);
            assert(first_with_key(before, key@, j as int));
            let ghost found = choose|k: int| first_with_key(before, key@, k);
            assert(found == j) by {
                if found < j {
                    assert(before[found].0 != key@);
                }
                if j < found {
                    assert(before[j as int].0 != key@);
                }
            }
            entries.set(j, (key, value));
            assert(entry_models(entries@) =~= before.update(j as int, (key@, value@)));
            return ;
        }
        j += 1;
    }
    assert(!exists|k: int| first_with_key(before, key@, k));
    entries.push((key, value));
    assert(entry_models(entries@) =~= before.push((key@, value@)));
}

/// Decodes `n` entries of the map shape `shape`, each a key and then its
/// value, at the cursor `o` of `d`. A key that comes again replaces the value
/// that it had. The first failure ends the decode.
pub fn de_entries<H: ProxyHooks>(hooks: &H, shape: &Shape, n: usize, o: &mut usize, d: &[u8]) -> (r:
    Result<Vec<(Value, Value)>, DeBinErr>)
    ensures
        decoded_entries_as(
            r,
            *final(o),
            decoding_entries(hooks, *shape, d@, *old(o) as int, n as nat, Seq::empty()),
        ),
    decreases *shape, 0nat, 0nat,
{
    let mut out: Vec<(Value, Value)> = Vec::new();
    assert(entry_models(out@) =~= Seq::empty());
    match shape {
        Shape::Mapping(key, value) => {
            let mut i: usize = 0;
            while i < n
                invariant
                    i <= n,
                    *shape == Shape::Mapping(*key, *value),
                    decoding_entries(hooks, *shape, d@, *old(o) as int, n as nat, Seq::empty())
                        == decoding_entries(
                        hooks,
                        *shape,
                        d@,
                        *o as int,
                        (n - i) as nat,
                        entry_models(out@),
                    ),
                decreases n - i,
            {
                proof {
                    assert(decreases_to!(*shape => shape->Mapping_0));
                    assert(decreases_to!(*shape => shape->Mapping_1));
                }
                let k = match de_bin(hooks, key, o, d) {
                    Ok(k) => k,
                    Err(e) => {
                        return Err(e);
                    },
                };
                let x = match de_bin(hooks, value, o, d) {
                    Ok(x) => x,
                    Err(e) => {
                        return Err(e);
                    },
                };
                put_entry(&mut out, k, x);
                i += 1;
            }
            Ok(out)
        },
        _ => Ok(out),
    }
}

/// Decodes a value through `proxy` at the cursor `o` of `d`: the
/// representation is decoded, then converted back.
pub fn derive_de_bin_proxy<H: ProxyHooks>(
    hooks: &H,
    proxy: &ProxyType,
    o: &mut usize,
    d: &[u8],
) -> (r: Result<Value, DeBinErr>)
    ensures
        decoded_as(r, *final(o), decoding_proxy(hooks, *proxy, d@, *old(o) as int)),
        *old(o) <= *final(o),
        *old(o) <= d.len() ==> *final(o) <= d.len(),
    decreases *proxy, 0nat, 0nat,
{
    proof {
        lemma_proxy_forward(hooks, *proxy, d@, *o as int);
    }
    match de_bin(hooks, &proxy.ty, o, d) {
        Ok(p) => Ok(hooks.from_proxy(proxy.hook, &p)),
        Err(e) => Err(e),
    }
}

/// Decodes a value of the member `field` at the cursor `o` of `d`.
pub fn de_field<H: ProxyHooks>(hooks: &H, field: &Field, o: &mut usize, d: &[u8]) -> (r: Result<
    Value,
    DeBinErr,
>)
    ensures
        decoded_as(r, *final(o), decoding_field(hooks, *field, d@, *old(o) as int)),
    decreases *field, 0nat, 0nat,
{
    match &field.proxy {
        Some(proxy) => derive_de_bin_proxy(hooks, proxy, o, d),
        None => de_bin(hooks, &field.ty, o, d),
    }
}

/// Decodes one value of each of `fields`, one behind the other, at the cursor
/// `o` of `d`. The first failure ends the decode.
pub fn de_fields<H: ProxyHooks>(hooks: &H, fields: &Vec<Field>, o: &mut usize, d: &[u8]) -> (r:
    Result<Vec<Value>, DeBinErr>)
    ensures
        decoded_list_as(
            r,
            *final(o),
            decoding_fields(hooks, fields@, d@, *old(o) as int, 0, Seq::empty()),
        ),
    decreases *fields, 0nat, 0nat,
{
    let mut out: Vec<Value> = Vec::new();
    let mut i: usize = 0;
    assert(models(out@) =~= Seq::empty());
    while i < fields.len()
        invariant
            i <= fields.len(),
            decoding_fields(hooks, fields@, d@, *old(o) as int, 0, Seq::empty())
                == decoding_fields(hooks, fields@, d@, *o as int, i as nat, models(out@)),
        decreases fields.len() - i,
    {
        let ghost before = models(out@);
        match de_field(hooks, &fields[i], o, d) {
            Ok(x) => {
                out.push(x);
                assert(models(out@) =~= before.push(x@));
            },
            Err(e) => {
                return Err(e);
            },
        }
        i += 1;
    }
    Ok(out)
}

/// Decodes a value of the struct `struct_` with named members at the cursor
/// `o` of `d`: each member in declared order, a proxied member through its
/// proxy. The bytes carry no names, so members declared in another order than
/// the one they were written in decode to other values without a failure.
pub fn derive_de_bin_struct<H: ProxyHooks>(
    hooks: &H,
    struct_: &Struct,
    o: &mut usize,
    d: &[u8],
) -> (r: Result<Value, DeBinErr>)
    requires
        struct_.named,
    ensures
        decoded_as(r, *final(o), decoding_struct(hooks, *struct_, d@, *old(o) as int)),
        *old(o) <= *final(o),
        *old(o) <= d.len() ==> *final(o) <= d.len(),
    decreases *struct_, 0nat, 0nat,
{
    proof {
        lemma_struct_forward(hooks, *struct_, d@, *o as int);
    }
    match de_fields(hooks, &struct_.fields, o, d) {
        Ok(items) => Ok(Value::Record(items)),
        Err(e) => Err(e),
    }
}

/// Decodes a value of the struct `struct_` with positional members at the
/// cursor `o` of `d`: each member in declared order, a proxied member through
/// its proxy.
pub fn derive_de_bin_struct_unnamed<H: ProxyHooks>(
    hooks: &H,
    struct_: &Struct,
    o: &mut usize,
    d: &[u8],
) -> (r: Result<Value, DeBinErr>)
    requires
        !struct_.named,
    ensures
        decoded_as(r, *final(o), decoding_struct(hooks, *struct_, d@, *old(o) as int)),
        *old(o) <= *final(o),
        *old(o) <= d.len() ==> *final(o) <= d.len(),
    decreases *struct_, 0nat, 0nat,
{
    proof {
        lemma_struct_forward(hooks, *struct_, d@, *o as int);
    }
    match de_fields(hooks, &struct_.fields, o, d) {
        Ok(items) => Ok(Value::Tuple(items)),
        Err(e) => Err(e),
    }
}

/// Decodes the payload of a union variant at the cursor `o` of `d`.
pub fn de_payload<H: ProxyHooks>(hooks: &H, payload: &Payload, o: &mut usize, d: &[u8]) -> (r:
    Result<Vec<Value>, DeBinErr>)
    ensures
        decoded_list_as(r, *final(o), decoding_payload(hooks, *payload, d@, *old(o) as int)),
    decreases *payload, 0nat, 0nat,
{
    match payload {
        Payload::Empty => {
            let out: Vec<Value> = Vec::new();
            assert(models(out@) =~= Seq::empty());
            Ok(out)
        },
        Payload::Positional(shapes) => de_tuple(hooks, shapes, o, d),
        Payload::Named(fields) => de_fields(hooks, fields, o, d),
    }
}

/// Decodes a value of the union `enum_` at the cursor `o` of `d`: the
/// discriminant from two bytes, least significant first, then the payload of
/// the variant at that position. A discriminant that is no position of a
/// variant is `UnknownVariant`, with the cursor behind the discriminant.
pub fn derive_de_bin_enum<H: ProxyHooks>(hooks: &H, enum_: &Enum, o: &mut usize, d: &[u8]) -> (r:
    Result<Value, DeBinErr>)
    ensures
        decoded_as(r, *final(o), decoding_enum(hooks, *enum_, d@, *old(o) as int)),
        *old(o) <= *final(o),
        *old(o) <= d.len() ==> *final(o) <= d.len(),
    decreases *enum_, 0nat, 0nat,
{
    proof {
        lemma_enum_forward(hooks, *enum_, d@, *o as int);
    }
    let id = match de_uint(o, d, 2) {
        Ok(n) => {
            proof {
                lemma_pow256_values();
            }
            n as u16
        },
        Err(e) => {
            return Err(e);
        },
    };
    if (id as usize) < enum_.variants.len() {
        match de_payload(hooks, &enum_.variants[id as usize].payload, o, d) {
            Ok(items) => Ok(Value::Union(id, items)),
            Err(e) => Err(e),
        }
    } else {
        Err(DeBinErr { kind: ErrKind::UnknownVariant { id }, o: *o, l: 0, s: d.len() })
    }
}

} // verus!
