//! A buffer that is cut off decodes as the whole one does, or not at all.

use vstd::prelude::*;
use crate::cursor::{
    lemma_entries_forward, lemma_field_forward, lemma_fields_forward, lemma_forward,
    lemma_payload_forward, lemma_repeat_forward, lemma_tuple_forward,
};
use crate::error::{ErrKind, Fault};
use crate::primitive::{text_decoding, uint_decoding};
use crate::proxy::ProxyHooks;
use crate::schema::{Enum, Field, Payload, ProxyType, Shape, Struct};
use crate::value::Val;
use crate::wire::{
    decoding, decoding_entries, decoding_enum, decoding_field, decoding_fields, decoding_payload,
    decoding_proxy, decoding_repeat, decoding_struct, decoding_tuple, members, put,
};

verus! {

/// `r` is the failure `UnexpectedEof`.
pub open spec fn is_eof<T>(r: Result<T, Fault>) -> bool {
    r matches Err(f) && f.kind == ErrKind::UnexpectedEof
}

/// `small` is `big` cut off at some length.
pub open spec fn cut_of(small: Seq<u8>, big: Seq<u8>) -> bool {
    small.len() <= big.len() && small == big.take(small.len() as int)
}

/// How the outcome `cut` of a decode of a buffer cut off at `size` bytes
/// follows from the outcome `whole` of the same decode of the whole buffer:
/// where the whole decode gave a value without going beyond `size`, the cut one
/// gives the same; where it gave a value and went beyond, the cut one fails with
/// `UnexpectedEof`.
pub open spec fn cut_outcome<T>(
    whole: Result<(T, int), Fault>,
    cut: Result<(T, int), Fault>,
    size: int,
) -> bool {
    match whole {
        Ok((_, end)) => if end <= size {
            cut == whole
        } else {
            is_eof(cut)
        },
        Err(_) => true,
    }
}

/// As [`lemma_cut`], of an unsigned number.
pub proof fn lemma_uint_cut(big: Seq<u8>, small: Seq<u8>, o: int, w: nat)
    requires
        cut_of(small, big),
        0 <= o <= small.len(),
    ensures
        cut_outcome(uint_decoding(big, o, w), uint_decoding(small, o, w), small.len() as int),
{
    if o + w <= small.len() {
        assert(small.subrange(o, o + w) =~= big.subrange(o, o + w));
    }
}

/// As [`lemma_cut`], of a text.
pub proof fn lemma_text_cut(big: Seq<u8>, small: Seq<u8>, o: int)
    requires
        cut_of(small, big),
        0 <= o <= small.len(),
    ensures
        cut_outcome(text_decoding(big, o), text_decoding(small, o), small.len() as int),
{
    lemma_uint_cut(big, small, o, 4);
    match uint_decoding(big, o, 4) {
        Ok((n, start)) => {
            if start + n <= small.len() {
                assert(small.subrange(start, start + n) =~= big.subrange(start, start + n));
            }
        },
        Err(_) => {},
    }
}

/// Whatever the bytes: where a decode of a buffer gives a value, the same
/// decode of the buffer cut off gives the same value if the first did not go
/// beyond the cut, and fails with `UnexpectedEof` if it did.
pub proof fn lemma_cut<H: ProxyHooks>(hooks: &H, shape: Shape, big: Seq<u8>, small: Seq<u8>, o: int)
    requires
        cut_of(small, big),
        0 <= o <= small.len(),
    ensures
        cut_outcome(
            decoding(hooks, shape, big, o),
            decoding(hooks, shape, small, o),
            small.len() as int,
        ),
    decreases shape, 1nat, 0nat,
{
    let size = small.len() as int;
    match shape {
        Shape::Primitive(k) => {
            lemma_uint_cut(big, small, o, k.width());
        },
        Shape::Text => {
            lemma_text_cut(big, small, o);
        },
        Shape::Option(inner) => {
            lemma_uint_cut(big, small, o, 1);
            lemma_forward(hooks, *inner, big, o + 1);
            if o + 1 <= size {
                lemma_cut(hooks, *inner, big, small, o + 1);
            }
        },
        Shape::Sequence(elem) => {
            lemma_uint_cut(big, small, o, 4);
            match uint_decoding(big, o, 4) {
                Ok((n, start)) => {
                    lemma_repeat_forward(hooks, *elem, big, start, n, Seq::empty());
                    if start <= size {
                        lemma_repeat_cut(hooks, *elem, big, small, start, n, Seq::empty());
                    }
                },
                Err(_) => {},
            }
        },
        Shape::Array(elem, len) => {
            match len {
                Some(n) => lemma_repeat_cut(hooks, *elem, big, small, o, n as nat, Seq::empty()),
                None => {},
            }
        },
        Shape::Tuple(shapes) => {
            lemma_tuple_cut(hooks, shapes@, big, small, o, 0, Seq::empty());
        },
        Shape::Mapping(_, _) => {
            lemma_uint_cut(big, small, o, 4);
            match uint_decoding(big, o, 4) {
                Ok((n, start)) => {
                    lemma_entries_forward(hooks, shape, big, start, n, Seq::empty());
                    if start <= size {
                        lemma_entries_cut(hooks, shape, big, small, start, n, Seq::empty());
                    }
                },
                Err(_) => {},
            }
        },
        Shape::Record(st) => {
            lemma_struct_cut(hooks, st, big, small, o);
        },
        Shape::Union(en) => {
            lemma_enum_cut(hooks, en, big, small, o);
        },
    }
    assert(cut_outcome(
        decoding(hooks, shape, big, o),
        decoding(hooks, shape, small, o),
        small.len() as int,
    ));
}

/// As [`lemma_cut`], of `n` values of one shape.
pub proof fn lemma_repeat_cut<H: ProxyHooks>(
    hooks: &H,
    elem: Shape,
    big: Seq<u8>,
    small: Seq<u8>,
    o: int,
    n: nat,
    acc: Seq<Val>,
)
    requires
        cut_of(small, big),
        0 <= o <= small.len(),
    ensures
        cut_outcome(
            decoding_repeat(hooks, elem, big, o, n, acc),
            decoding_repeat(hooks, elem, small, o, n, acc),
            small.len() as int,
        ),
    decreases elem, 2nat, n,
{
    if n > 0 {
        lemma_cut(hooks, elem, big, small, o);
        lemma_forward(hooks, elem, big, o);
        match decoding(hooks, elem, big, o) {
            Ok((x, next)) => {
                lemma_repeat_forward(hooks, elem, big, next, (n - 1) as nat, acc.push(x));
                if next <= small.len() {
                    lemma_repeat_cut(hooks, elem, big, small, next, (n - 1) as nat, acc.push(x));
                }
            },
            Err(_) => {},
        }
    }
}

/// As [`lemma_cut`], of values of the shapes from position `i` on.
pub proof fn lemma_tuple_cut<H: ProxyHooks>(
    hooks: &H,
    shapes: Seq<Shape>,
    big: Seq<u8>,
    small: Seq<u8>,
    o: int,
    i: nat,
    acc: Seq<Val>,
)
    requires
        cut_of(small, big),
        0 <= o <= small.len(),
    ensures
        cut_outcome(
            decoding_tuple(hooks, shapes, big, o, i, acc),
            decoding_tuple(hooks, shapes, small, o, i, acc),
            small.len() as int,
        ),
    decreases shapes, 0nat, shapes.len() - i,
{
    if i < shapes.len() {
        lemma_cut(hooks, shapes[i as int], big, small, o);
        lemma_forward(hooks, shapes[i as int], big, o);
        match decoding(hooks, shapes[i as int], big, o) {
            Ok((x, next)) => {
                lemma_tuple_forward(hooks, shapes, big, next, i + 1, acc.push(x));
                if next <= small.len() {
                    lemma_tuple_cut(hooks, shapes, big, small, next, i + 1, acc.push(x));
                }
            },
            Err(_) => {},
        }
    }
}

/// As [`lemma_cut`], of `n` entries of a map.
pub proof fn lemma_entries_cut<H: ProxyHooks>(
    hooks: &H,
    shape: Shape,
    big: Seq<u8>,
    small: Seq<u8>,
    o: int,
    n: nat,
    acc: Seq<(Val, Val)>,
)
    requires
        cut_of(small, big),
        0 <= o <= small.len(),
    ensures
        cut_outcome(
            decoding_entries(hooks, shape, big, o, n, acc),
            decoding_entries(hooks, shape, small, o, n, acc),
            small.len() as int,
        ),
    decreases shape, 0nat, n,
{
    match shape {
        Shape::Mapping(key, value) => {
            if n > 0 {
                lemma_cut(hooks, *key, big, small, o);
                lemma_forward(hooks, *key, big, o);
                match decoding(hooks, *key, big, o) {
                    Ok((k, mid)) => {
                        lemma_forward(hooks, *value, big, mid);
                        if mid <= small.len() {
                            lemma_cut(hooks, *value, big, small, mid);
                        }
                        match decoding(hooks, *value, big, mid) {
                            Ok((x, next)) => {
                                lemma_entries_forward(
                                    hooks,
                                    shape,
                                    big,
                                    next,
                                    (n - 1) as nat,
                                    put(acc, k, x),
                                );
                                if next <= small.len() {
                                    lemma_entries_cut(
                                        hooks,
                                        shape,
                                        big,
                                        small,
                                        next,
                                        (n - 1) as nat,
                                        put(acc, k, x),
                                    );
                                }
                            },
                            Err(_) => {},
                        }
                    },
                    Err(_) => {},
                }
            }
        },
        _ => {},
    }
}

/// As [`lemma_cut`], of a value through a proxy.
pub proof fn lemma_proxy_cut<H: ProxyHooks>(
    hooks: &H,
    proxy: ProxyType,
    big: Seq<u8>,
    small: Seq<u8>,
    o: int,
)
    requires
        cut_of(small, big),
        0 <= o <= small.len(),
    ensures
        cut_outcome(
            decoding_proxy(hooks, proxy, big, o),
            decoding_proxy(hooks, proxy, small, o),
            small.len() as int,
        ),
    decreases proxy, 0nat, 0nat,
{
    lemma_cut(hooks, proxy.ty, big, small, o);
}

/// As [`lemma_cut`], of a member of a record.
pub proof fn lemma_field_cut<H: ProxyHooks>(
    hooks: &H,
    field: Field,
    big: Seq<u8>,
    small: Seq<u8>,
    o: int,
)
    requires
        cut_of(small, big),
        0 <= o <= small.len(),
    ensures
        cut_outcome(
            decoding_field(hooks, field, big, o),
            decoding_field(hooks, field, small, o),
            small.len() as int,
        ),
    decreases field, 0nat, 0nat,
{
    match field.proxy {
        Some(proxy) => lemma_proxy_cut(hooks, proxy, big, small, o),
        None => lemma_cut(hooks, field.ty, big, small, o),
    }
}

/// As [`lemma_cut`], of the members of a record from position `i` on.
pub proof fn lemma_fields_cut<H: ProxyHooks>(
    hooks: &H,
    fields: Seq<Field>,
    big: Seq<u8>,
    small: Seq<u8>,
    o: int,
    i: nat,
    acc: Seq<Val>,
)
    requires
        cut_of(small, big),
        0 <= o <= small.len(),
    ensures
        cut_outcome(
            decoding_fields(hooks, fields, big, o, i, acc),
            decoding_fields(hooks, fields, small, o, i, acc),
            small.len() as int,
        ),
    decreases fields, 0nat, fields.len() - i,
{
    if i < fields.len() {
        lemma_field_cut(hooks, fields[i as int], big, small, o);
        lemma_field_forward(hooks, fields[i as int], big, o);
        match decoding_field(hooks, fields[i as int], big, o) {
            Ok((x, next)) => {
                lemma_fields_forward(hooks, fields, big, next, i + 1, acc.push(x));
                if next <= small.len() {
                    lemma_fields_cut(hooks, fields, big, small, next, i + 1, acc.push(x));
                }
            },
            Err(_) => {},
        }
    }
}

/// As [`lemma_cut`], of a value of a struct.
pub proof fn lemma_struct_cut<H: ProxyHooks>(
    hooks: &H,
    st: Struct,
    big: Seq<u8>,
    small: Seq<u8>,
    o: int,
)
    requires
        cut_of(small, big),
        0 <= o <= small.len(),
    ensures
        cut_outcome(
            decoding_struct(hooks, st, big, o),
            decoding_struct(hooks, st, small, o),
            small.len() as int,
        ),
    decreases st, 0nat, 0nat,
{
    lemma_fields_cut(hooks, st.fields@, big, small, o, 0, Seq::empty());
}

/// As [`lemma_cut`], of the payload of a union variant.
pub proof fn lemma_payload_cut<H: ProxyHooks>(
    hooks: &H,
    payload: Payload,
    big: Seq<u8>,
    small: Seq<u8>,
    o: int,
)
    requires
        cut_of(small, big),
        0 <= o <= small.len(),
    ensures
        cut_outcome(
            decoding_payload(hooks, payload, big, o),
            decoding_payload(hooks, payload, small, o),
            small.len() as int,
        ),
    decreases payload, 0nat, 0nat,
{
    match payload {
        Payload::Empty => {},
        Payload::Positional(shapes) => {
            lemma_tuple_cut(hooks, shapes@, big, small, o, 0, Seq::empty());
        },
        Payload::Named(fields) => {
            lemma_fields_cut(hooks, fields@, big, small, o, 0, Seq::empty());
        },
    }
}

/// As [`lemma_cut`], of a value of a union.
pub proof fn lemma_enum_cut<H: ProxyHooks>(
    hooks: &H,
    en: Enum,
    big: Seq<u8>,
    small: Seq<u8>,
    o: int,
)
    requires
        cut_of(small, big),
        0 <= o <= small.len(),
    ensures
        cut_outcome(
            decoding_enum(hooks, en, big, o),
            decoding_enum(hooks, en, small, o),
            small.len() as int,
        ),
    decreases en, 0nat, 0nat,
{
    lemma_uint_cut(big, small, o, 2);
    match uint_decoding(big, o, 2) {
        Ok((id, start)) => {
            if id < en.variants.len() {
                lemma_payload_forward(hooks, en.variants@[id as int].payload, big, start);
                if start <= small.len() {
                    lemma_payload_cut(hooks, en.variants@[id as int].payload, big, small, start);
                }
            }
        },
        Err(_) => {},
    }
}

} // verus!
