//! What holds of the wire format: decoding undoes encoding, a cut-off
//! encoding is never taken for a value, and malformed input is named.

use vstd::prelude::*;
use vstd::utf8::*;
use crate::cursor::lemma_forward;
use crate::decoded::{lemma_decoded, retracting};
use crate::error::{ErrKind, Fault};
use crate::lossless::{lemma_lossless, lossless};
use crate::primitive::{le_bytes, le_value};
use crate::proxy::ProxyHooks;
use crate::round_trip::lemma_decoding_of_encoding;
use crate::schema::{Enum, Shape};
use crate::truncation::{is_eof, lemma_cut};
use crate::value::Val;
use crate::wire::{
    conforms, decoding, decoding_enum, encoding, encoding_entries, encoding_repeat, encoding_tuple,
    faithful,
};

verus! {

/// Round trip: decoding the encoding of a value gives the value back, and
/// takes all of the encoding. This holds of every value that its shape admits
/// and that no conversion of a proxy loses anything of.
pub proof fn lemma_round_trip<H: ProxyHooks>(hooks: &H, shape: Shape, v: Val)
    requires
        faithful(hooks, shape, v),
    ensures
        decoding(hooks, shape, encoding(hooks, shape, v), 0) == Ok::<(Val, int), Fault>(
            (v, encoding(hooks, shape, v).len() as int),
        ),
{
    let enc = encoding(hooks, shape, v);
    assert(enc.subrange(0, enc.len() as int) =~= enc);
    lemma_decoding_of_encoding(hooks, shape, v, enc, 0, true);
}

/// Truncation safety: decoding a proper beginning of the encoding of a value
/// that its shape admits fails with `UnexpectedEof`.
pub proof fn lemma_truncation<H: ProxyHooks>(hooks: &H, shape: Shape, v: Val, n: int)
    requires
        conforms(hooks, shape, v),
        0 <= n < encoding(hooks, shape, v).len(),
    ensures
        is_eof(decoding(hooks, shape, encoding(hooks, shape, v).take(n), 0)),
{
    let d = encoding(hooks, shape, v);
    assert(d.subrange(0, d.len() as int) =~= d);
    lemma_decoding_of_encoding(hooks, shape, v, d, 0, false);
    lemma_truncation_of_accepted(hooks, shape, d, n);
}

/// Discriminant bounds: where the two bytes at the cursor spell a number
/// that is no position of a variant, decoding a union fails with
/// `UnknownVariant` of that number, at the offset behind the two bytes.
pub proof fn lemma_unknown_variant<H: ProxyHooks>(hooks: &H, en: Enum, d: Seq<u8>, o: int)
    requires
        0 <= o,
        o + 2 <= d.len(),
        le_value(d.subrange(o, o + 2)) >= en.variants.len(),
    ensures
        decoding(hooks, Shape::Union(en), d, o) == Err::<(Val, int), Fault>(
            Fault {
                kind: ErrKind::UnknownVariant { id: le_value(d.subrange(o, o + 2)) as u16 },
                o: o + 2,
                l: 0,
                s: d.len() as int,
            },
        ),
{
    assert(decoding(hooks, Shape::Union(en), d, o) == decoding_enum(hooks, en, d, o));
}

/// Text validity: where the count at the cursor is followed by that many
/// bytes and they are not valid UTF-8, decoding a text fails with
/// `InvalidUtf8`, at the offset of those bytes.
pub proof fn lemma_invalid_text<H: ProxyHooks>(hooks: &H, d: Seq<u8>, o: int)
    requires
        0 <= o,
        o + 4 <= d.len(),
        o + 4 + le_value(d.subrange(o, o + 4)) <= d.len(),
        !valid_utf8(d.subrange(o + 4, o + 4 + le_value(d.subrange(o, o + 4)))),
    ensures
        decoding(hooks, Shape::Text, d, o) == Err::<(Val, int), Fault>(
            Fault {
                kind: ErrKind::InvalidUtf8,
                o: o + 4,
                l: le_value(d.subrange(o, o + 4)) as int,
                s: d.len() as int,
            },
        ),
{
}

/// Round trip with hooks that lose nothing, those of a schema without
/// proxies among them: decoding the encoding of any value that its shape
/// admits gives the value back.
pub proof fn lemma_round_trip_lossless<H: ProxyHooks>(hooks: &H, shape: Shape, v: Val)
    requires
        lossless(hooks),
        conforms(hooks, shape, v),
    ensures
        decoding(hooks, shape, encoding(hooks, shape, v), 0) == Ok::<(Val, int), Fault>(
            (v, encoding(hooks, shape, v).len() as int),
        ),
{
    lemma_lossless(hooks, shape, v);
    lemma_round_trip(hooks, shape, v);
}

/// The entries of a map as pairs: each a tuple of the key and the value.
pub open spec fn entry_pairs(entries: Seq<(Val, Val)>) -> Seq<Val> {
    Seq::new(entries.len(), |i: int| Val::Tuple(seq![entries[i].0, entries[i].1]))
}

/// The first `n` entries of a map are written as the first `n` of its pairs
/// are, as values of the tuple of the key's shape and the value's.
pub proof fn lemma_entries_as_pairs<H: ProxyHooks>(
    hooks: &H,
    map: Shape,
    pair: Shape,
    entries: Seq<(Val, Val)>,
    n: nat,
)
    requires
        map is Mapping,
        pair is Tuple,
        pair->Tuple_0@ == seq![*map->Mapping_0, *map->Mapping_1],
        n <= entries.len(),
    ensures
        encoding_entries(hooks, map, entries, n) == encoding_repeat(
            hooks,
            pair,
            entry_pairs(entries),
            n,
        ),
    decreases n,
{
    if n > 0 {
        lemma_entries_as_pairs(hooks, map, pair, entries, (n - 1) as nat);
        let shapes = pair->Tuple_0@;
        let items = seq![entries[n - 1].0, entries[n - 1].1];
        reveal_with_fuel(encoding_tuple, 3);
        assert(encoding(hooks, pair, Val::Tuple(items)) == encoding_tuple(hooks, shapes, items, 2));
        assert(encoding_tuple(hooks, shapes, items, 2) =~= encoding(
            hooks,
            *map->Mapping_0,
            entries[n - 1].0,
        ) + encoding(hooks, *map->Mapping_1, entries[n - 1].1));
        assert(encoding_entries(hooks, map, entries, n) =~= encoding_repeat(
            hooks,
            pair,
            entry_pairs(entries),
            n,
        ));
    }
}

/// A map is written exactly as the sequence of its pairs is.
pub proof fn lemma_map_as_sequence<H: ProxyHooks>(
    hooks: &H,
    map: Shape,
    sequence: Shape,
    entries: Seq<(Val, Val)>,
)
    requires
        map is Mapping,
        sequence is Sequence,
        (*sequence->Sequence_0) is Tuple,
        (*sequence->Sequence_0)->Tuple_0@ == seq![*map->Mapping_0, *map->Mapping_1],
    ensures
        encoding(hooks, map, Val::Mapping(entries)) == encoding(
            hooks,
            sequence,
            Val::Sequence(entry_pairs(entries)),
        ),
{
    lemma_entries_as_pairs(hooks, map, *sequence->Sequence_0, entries, entries.len());
}

/// A sequence is written as its count in four bytes and then as the array of
/// its elements is.
pub proof fn lemma_sequence_as_array<H: ProxyHooks>(
    hooks: &H,
    sequence: Shape,
    array: Shape,
    items: Seq<Val>,
)
    requires
        sequence is Sequence,
        array is Array,
        array->Array_0 == sequence->Sequence_0,
    ensures
        encoding(hooks, sequence, Val::Sequence(items)) == le_bytes(items.len(), 4) + encoding(
            hooks,
            array,
            Val::Array(items),
        ),
{
}

/// Truncation safety of every buffer that decodes: where decoding a buffer
/// gives a value, decoding any beginning of the buffer that ends before the end
/// of that value fails with `UnexpectedEof`.
pub proof fn lemma_truncation_of_accepted<H: ProxyHooks>(
    hooks: &H,
    shape: Shape,
    d: Seq<u8>,
    n: int,
)
    requires
        decoding(hooks, shape, d, 0) matches Ok((_, end)) && 0 <= n < end,
    ensures
        is_eof(decoding(hooks, shape, d.take(n), 0)),
{
    lemma_forward(hooks, shape, d, 0);
    lemma_cut(hooks, shape, d, d.take(n), 0);
}

/// What decoding gives can be encoded again. With retracting hooks, those
/// of a schema without proxies among them, and whatever the bytes: a decoded
/// value is one that the shape admits, and nothing of it is lost on the way
/// back to the wire.
pub proof fn lemma_decoded_conforms<H: ProxyHooks>(hooks: &H, shape: Shape, d: Seq<u8>, o: int)
    requires
        retracting(hooks),
    ensures
        decoding(hooks, shape, d, o) matches Ok((v, _)) ==> conforms(hooks, shape, v) && faithful(
            hooks,
            shape,
            v,
        ),
{
    lemma_decoded(hooks, shape, d, o, false);
    lemma_decoded(hooks, shape, d, o, true);
}

} // verus!
