//! Fixed-width scalars and length-prefixed text.

use vstd::prelude::*;
use vstd::slice::*;
use vstd::utf8::*;
use crate::error::{eof, DeBinErr, ErrKind, Fault};

verus! {

/// The kinds of fixed-width scalar.
#[derive(Debug, Clone, Copy, PartialEq, Eq, Structural)]
pub enum Primitive {
    Bool,
    U8,
    U16,
    U32,
    U64,
    I8,
    I16,
    I32,
    I64,
    F32,
    F64,
}

/// A scalar value. A float is held as its IEEE 754 bit pattern.
#[derive(Debug, Clone, Copy, PartialEq, Eq, Structural)]
pub enum Scalar {
    Bool(bool),
    U8(u8),
    U16(u16),
    U32(u32),
    U64(u64),
    I8(i8),
    I16(i16),
    I32(i32),
    I64(i64),
    F32(u32),
    F64(u64),
}

/// 256 to the power `n`.
pub open spec fn pow256(n: nat) -> nat
    decreases n,
{
    if n == 0 {
        1
    } else {
        256 * pow256((n - 1) as nat)
    }
}

/// The `w` low bytes of `x`, least significant first.
pub open spec fn le_bytes(x: nat, w: nat) -> Seq<u8>
    decreases w,
{
    if w == 0 {
        Seq::empty()
    } else {
        seq![(x % 256) as u8] + le_bytes(x / 256, (w - 1) as nat)
    }
}

/// The number that `b` spells, least significant byte first.
pub open spec fn le_value(b: Seq<u8>) -> nat
    decreases b.len(),
{
    if b.len() == 0 {
        0
    } else {
        b[0] as nat + 256 * le_value(b.drop_first())
    }
}

/// A number written at width `w` takes `w` bytes.
pub proof fn lemma_le_bytes_len(x: nat, w: nat)
    ensures
        le_bytes(x, w).len() == w,
    decreases w,
{
    if w > 0 {
        lemma_le_bytes_len(x / 256, (w - 1) as nat);
    }
}

/// Reading back the bytes of a number that fits gives the number.
pub proof fn lemma_le_value_of_bytes(x: nat, w: nat)
    requires
        x < pow256(w),
    ensures
        le_value(le_bytes(x, w)) == x,
    decreases w,
{
    if w > 0 {
        let rest = le_bytes(x / 256, (w - 1) as nat);
        lemma_le_value_of_bytes(x / 256, (w - 1) as nat);
        assert(le_bytes(x, w).drop_first() =~= rest);
    }
}

/// Bytes spell a number below 256 to the power of their count, and writing
/// that number at their width gives them back.
pub proof fn lemma_le_bytes_of_value(b: Seq<u8>)
    ensures
        le_value(b) < pow256(b.len()),
        le_bytes(le_value(b), b.len()) == b,
    decreases b.len(),
{
    if b.len() > 0 {
        lemma_le_bytes_of_value(b.drop_first());
        let rest = le_value(b.drop_first());
        let x = le_value(b);
        assert(x % 256 == b[0] as nat && x / 256 == rest);
        assert(le_bytes(x, b.len()) =~= b);
    } else {
        assert(le_bytes(0, 0) =~= b);
    }
}

/// The powers of 256 at the widths of the scalars.
pub proof fn lemma_pow256_values()
    ensures
        pow256(1) == 0x100,
        pow256(2) == 0x1_0000,
        pow256(4) == 0x1_0000_0000,
        pow256(8) == 0x1_0000_0000_0000_0000,
{
    reveal_with_fuel(pow256, 9);
}

/// What reading an unsigned number of `w` bytes at offset `o` of `d` gives:
/// the number and the offset behind it, or `UnexpectedEof` where fewer than
/// `w` bytes are left.
pub open spec fn uint_decoding(d: Seq<u8>, o: int, w: nat) -> Result<(nat, int), Fault> {
    if 0 <= o && o + w <= d.len() {
        Ok((le_value(d.subrange(o, o + w)), o + w))
    } else {
        Err(eof(o, w as int, d.len() as int))
    }
}

impl Primitive {
    /// The number of bytes that a scalar of this kind takes on the wire.
    pub open spec fn width(self) -> nat {
        match self {
            Primitive::Bool | Primitive::U8 | Primitive::I8 => 1,
            Primitive::U16 | Primitive::I16 => 2,
            Primitive::U32 | Primitive::I32 | Primitive::F32 => 4,
            Primitive::U64 | Primitive::I64 | Primitive::F64 => 8,
        }
    }

    /// The scalar of this kind whose wire bytes spell `n`. For a signed kind
    /// `n` is read in two's complement; for `Bool` every `n` but 0 is `true`.
    pub open spec fn scalar(self, n: nat) -> Scalar {
        match self {
            Primitive::Bool => Scalar::Bool(n != 0),
            Primitive::U8 => Scalar::U8(n as u8),
            Primitive::U16 => Scalar::U16(n as u16),
            Primitive::U32 => Scalar::U32(n as u32),
            Primitive::U64 => Scalar::U64(n as u64),
            Primitive::I8 => Scalar::I8(if n < 0x80 { n as i8 } else { (n - 0x100) as i8 }),
            Primitive::I16 => Scalar::I16(
                if n < 0x8000 { n as i16 } else { (n - 0x1_0000) as i16 },
            ),
            Primitive::I32 => Scalar::I32(
                if n < 0x8000_0000 { n as i32 } else { (n - 0x1_0000_0000) as i32 },
            ),
            Primitive::I64 => Scalar::I64(
                if n < 0x8000_0000_0000_0000 {
                    n as i64
                } else {
                    (n - 0x1_0000_0000_0000_0000) as i64
                },
            ),
            Primitive::F32 => Scalar::F32(n as u32),
            Primitive::F64 => Scalar::F64(n as u64),
        }
    }

    /// What decoding a scalar of this kind at offset `o` of `d` gives: the
    /// scalar and the offset behind it, or the failure.
    pub open spec fn decoding(self, d: Seq<u8>, o: int) -> Result<(Scalar, int), Fault> {
        match uint_decoding(d, o, self.width()) {
            Ok((n, end)) => Ok((self.scalar(n), end)),
            Err(f) => Err(f),
        }
    }

    /// The number of bytes that a scalar of this kind takes on the wire.
    pub fn size(&self) -> (w: usize)
        ensures
            w == self.width(),
    {
        match self {
            Primitive::Bool | Primitive::U8 | Primitive::I8 => 1,
            Primitive::U16 | Primitive::I16 => 2,
            Primitive::U32 | Primitive::I32 | Primitive::F32 => 4,
            Primitive::U64 | Primitive::I64 | Primitive::F64 => 8,
        }
    }
}

impl Scalar {
    /// The kind of this scalar.
    pub open spec fn kind(self) -> Primitive {
        match self {
            Scalar::Bool(_) => Primitive::Bool,
            Scalar::U8(_) => Primitive::U8,
            Scalar::U16(_) => Primitive::U16,
            Scalar::U32(_) => Primitive::U32,
            Scalar::U64(_) => Primitive::U64,
            Scalar::I8(_) => Primitive::I8,
            Scalar::I16(_) => Primitive::I16,
            Scalar::I32(_) => Primitive::I32,
            Scalar::I64(_) => Primitive::I64,
            Scalar::F32(_) => Primitive::F32,
            Scalar::F64(_) => Primitive::F64,
        }
    }

    /// The number that the wire bytes of this scalar spell: 0 or 1 for a
    /// `Bool`, the two's complement image of a signed integer, the bit pattern
    /// of a float.
    pub open spec fn image(self) -> nat {
        match self {
            Scalar::Bool(b) => if b { 1 } else { 0 },
            Scalar::U8(x) => x as nat,
            Scalar::U16(x) => x as nat,
            Scalar::U32(x) => x as nat,
            Scalar::U64(x) => x as nat,
            Scalar::I8(x) => (if x < 0 { x + 0x100 } else { x as int }) as nat,
            Scalar::I16(x) => (if x < 0 { x + 0x1_0000 } else { x as int }) as nat,
            Scalar::I32(x) => (if x < 0 { x + 0x1_0000_0000 } else { x as int }) as nat,
            Scalar::I64(x) => (if x < 0 { x + 0x1_0000_0000_0000_0000 } else { x as int }) as nat,
            Scalar::F32(x) => x as nat,
            Scalar::F64(x) => x as nat,
        }
    }

    /// The wire bytes of this scalar.
    pub open spec fn encoding(self) -> Seq<u8> {
        le_bytes(self.image(), self.kind().width())
    }

    /// The kind of this scalar.
    pub fn primitive(&self) -> (k: Primitive)
        ensures
            k == self.kind(),
    {
        match self {
            Scalar::Bool(_) => Primitive::Bool,
            Scalar::U8(_) => Primitive::U8,
            Scalar::U16(_) => Primitive::U16,
            Scalar::U32(_) => Primitive::U32,
            Scalar::U64(_) => Primitive::U64,
            Scalar::I8(_) => Primitive::I8,
            Scalar::I16(_) => Primitive::I16,
            Scalar::I32(_) => Primitive::I32,
            Scalar::I64(_) => Primitive::I64,
            Scalar::F32(_) => Primitive::F32,
            Scalar::F64(_) => Primitive::F64,
        }
    }

    /// The number that the wire bytes of this scalar spell.
    fn bits(&self) -> (x: u64)
        ensures
            x == self.image(),
    {
        match self {
            Scalar::Bool(b) => if *b { 1 } else { 0 },
            Scalar::U8(x) => *x as u64,
            Scalar::U16(x) => *x as u64,
            Scalar::U32(x) => *x as u64,
            Scalar::U64(x) => *x,
            Scalar::I8(x) => if *x < 0 { (*x + 0x7f + 1) as u64 + 0x80 } else { *x as u64 },
            Scalar::I16(x) => if *x < 0 { (*x + 0x7fff + 1) as u64 + 0x8000 } else { *x as u64 },
            Scalar::I32(x) => if *x < 0 {
                (*x + 0x7fff_ffff + 1) as u64 + 0x8000_0000
            } else {
                *x as u64
            },
            Scalar::I64(x) => if *x < 0 {
                (*x + 0x7fff_ffff_ffff_ffff + 1) as u64 + 0x8000_0000_0000_0000
            } else {
                *x as u64
            },
            Scalar::F32(x) => *x as u64,
            Scalar::F64(x) => *x,
        }
    }

    /// Appends the wire bytes of this scalar to `s`.
    pub fn ser_bin(&self, s: &mut Vec<u8>)
        ensures
            final(s)@ == old(s)@ + self.encoding(),
    {
        let w = self.primitive().size();
        push_le(self.bits(), w, s);
    }
}

/// The image of a scalar fits its width, and reading the image back at the
/// scalar's kind gives the scalar.
pub proof fn lemma_scalar_image(x: Scalar)
    ensures
        x.image() < pow256(x.kind().width()),
        x.kind().scalar(x.image()) == x,
{
    lemma_pow256_values();
}

/// Decoding the wire bytes of a scalar, wherever they stand in a buffer,
/// gives the scalar back.
pub proof fn lemma_scalar_round_trip(x: Scalar, d: Seq<u8>, o: int)
    requires
        0 <= o,
        o + x.encoding().len() <= d.len(),
        d.subrange(o, o + x.encoding().len()) == x.encoding(),
    ensures
        x.encoding().len() == x.kind().width(),
        x.kind().decoding(d, o) == Ok::<(Scalar, int), Fault>((x, o + x.kind().width())),
{
    lemma_scalar_image(x);
    lemma_le_bytes_len(x.image(), x.kind().width());
    lemma_le_value_of_bytes(x.image(), x.kind().width());
}

/// Appends the `w` low bytes of `x` to `s`, least significant first.
pub fn push_le(x: u64, w: usize, s: &mut Vec<u8>)
    ensures
        final(s)@ == old(s)@ + le_bytes(x as nat, w as nat),
{
    let mut rest: u64 = x;
    let mut i: usize = 0;
    while i < w
        invariant
            i <= w,
            s@ + le_bytes(rest as nat, (w - i) as nat) == old(s)@ + le_bytes(x as nat, w as nat),
        decreases w - i,
    {
        let ghost before = s@;
        s.push((rest % 256) as u8);
        proof {
            let tail = le_bytes((rest / 256) as nat, (w - i - 1) as nat);
            assert(s@ + tail =~= before + le_bytes(rest as nat, (w - i) as nat));
        }
        rest = rest / 256;
        i += 1;
    }
    assert(s@ + le_bytes(rest as nat, 0) =~= s@);
}

/// Reads the number that the `w` bytes at offset `o` of `d` spell.
pub fn read_le(d: &[u8], o: usize, w: usize) -> (x: u64)
    requires
        w <= 8,
        o + w <= d.len(),
    ensures
        x == le_value(d@.subrange(o as int, o + w)),
{
    let mut x: u64 = 0;
    let mut i: usize = w;
    proof {
        lemma_pow256_values();
    }
    while i > 0
        invariant
            i <= w <= 8,
            o + w <= d.len(),
            x == le_value(d@.subrange(o + i, o + w)),
        decreases i,
    {
        i -= 1;
        proof {
            let higher = d@.subrange(o + i + 1, o + w);
            let whole = d@.subrange(o + i, o + w);
            assert(whole.drop_first() =~= higher);
            lemma_le_bytes_of_value(higher);
            lemma_pow256_bound((w - i - 1) as nat);
        }
        x = x * 256 + d[o + i] as u64;
    }
    x
}

/// Seven bytes spell a number that leaves room for one more byte in 64 bits.
proof fn lemma_pow256_bound(n: nat)
    requires
        n <= 7,
    ensures
        pow256(n) <= 0x100_0000_0000_0000,
{
    reveal_with_fuel(pow256, 9);
}

impl Primitive {
    /// The scalar of this kind whose wire bytes spell `n`.
    fn make(&self, n: u64) -> (x: Scalar)
        requires
            n < pow256(self.width()),
        ensures
            x == self.scalar(n as nat),
    {
        proof {
            lemma_pow256_values();
        }
        match self {
            Primitive::Bool => Scalar::Bool(n != 0),
            Primitive::U8 => Scalar::U8(n as u8),
            Primitive::U16 => Scalar::U16(n as u16),
            Primitive::U32 => Scalar::U32(n as u32),
            Primitive::U64 => Scalar::U64(n),
            Primitive::I8 => Scalar::I8(
                if n < 0x80 { n as i8 } else { (n - 0x80) as i8 - 0x7f - 1 },
            ),
            Primitive::I16 => Scalar::I16(
                if n < 0x8000 { n as i16 } else { (n - 0x8000) as i16 - 0x7fff - 1 },
            ),
            Primitive::I32 => Scalar::I32(
                if n < 0x8000_0000 { n as i32 } else { (n - 0x8000_0000) as i32 - 0x7fff_ffff - 1 },
            ),
            Primitive::I64 => Scalar::I64(
                if n < 0x8000_0000_0000_0000 {
                    n as i64
                } else {
                    (n - 0x8000_0000_0000_0000) as i64 - 0x7fff_ffff_ffff_ffff - 1
                },
            ),
            Primitive::F32 => Scalar::F32(n as u32),
            Primitive::F64 => Scalar::F64(n),
        }
    }

    /// Decodes a scalar of this kind at the cursor `o` of `d`. The cursor moves
    /// behind the scalar; where fewer bytes are left than the scalar takes,
    /// the cursor stays and the failure is `UnexpectedEof`.
    pub fn de_bin(&self, o: &mut usize, d: &[u8]) -> (r: Result<Scalar, DeBinErr>)
        ensures
            match self.decoding(d@, *old(o) as int) {
                Ok((x, end)) => r == Ok::<Scalar, DeBinErr>(x) && *final(o) == end,
                Err(f) => r matches Err(e) && e@ == f && *final(o) == f.o,
            },
    {
        match de_uint(o, d, self.size()) {
            Ok(n) => Ok(self.make(n)),
            Err(e) => Err(e),
        }
    }
}

/// Reads an unsigned number of `w` bytes at the cursor `o` of `d`. The cursor
/// moves behind the number; where fewer than `w` bytes are left, the cursor
/// stays and the failure is `UnexpectedEof`.
pub fn de_uint(o: &mut usize, d: &[u8], w: usize) -> (r: Result<u64, DeBinErr>)
    requires
        w <= 8,
    ensures
        match uint_decoding(d@, *old(o) as int, w as nat) {
            Ok((n, end)) => r == Ok::<u64, DeBinErr>(n as u64) && n < pow256(w as nat) && n
                <= u64::MAX && *final(o) == end,
            Err(f) => r matches Err(e) && e@ == f && *final(o) == f.o,
        },
{
    if *o > d.len() || d.len() - *o < w {
        return Err(DeBinErr { kind: ErrKind::UnexpectedEof, o: *o, l: w, s: d.len() });
    }
    let n = read_le(d, *o, w);
    proof {
        lemma_le_bytes_of_value(d@.subrange(*o as int, *o + w));
        lemma_pow256_bound_8(w as nat);
    }
    *o = *o + w;
    Ok(n)
}

/// Up to eight bytes spell a number of 64 bits.
proof fn lemma_pow256_bound_8(n: nat)
    requires
        n <= 8,
    ensures
        pow256(n) <= 0x1_0000_0000_0000_0000,
{
    reveal_with_fuel(pow256, 9);
}

/// The wire bytes of a text: the count of its UTF-8 bytes in four bytes, then
/// those bytes.
pub open spec fn text_encoding(t: Seq<char>) -> Seq<u8> {
    le_bytes(encode_utf8(t).len(), 4) + encode_utf8(t)
}

/// What decoding a text at offset `o` of `d` gives: the text and the offset
/// behind it, or the failure.
pub open spec fn text_decoding(d: Seq<u8>, o: int) -> Result<(Seq<char>, int), Fault> {
    match uint_decoding(d, o, 4) {
        Ok((n, start)) => {
            if start + n > d.len() {
                Err(eof(start, n as int, d.len() as int))
            } else if !valid_utf8(d.subrange(start, start + n)) {
                Err(Fault { kind: ErrKind::InvalidUtf8, o: start, l: n as int, s: d.len() as int })
            } else {
                Ok((decode_utf8(d.subrange(start, start + n)), start + n))
            }
        },
        Err(f) => Err(f),
    }
}

/// `String::from_utf8` of the standard library: it gives a string exactly
/// when the bytes are valid UTF-8, and the string is then made of those bytes.
#[verifier::external_body]
fn string_from_utf8(bytes: Vec<u8>) -> (r: Option<String>)
    ensures
        r is Some <==> valid_utf8(bytes@),
        r matches Some(t) ==> encode_utf8(t@) == bytes@,
{
    String::from_utf8(bytes).ok()
}

/// Appends the wire bytes of the text `t` to `s`.
pub fn ser_text(t: &str, s: &mut Vec<u8>)
    requires
        encode_utf8(t@).len() <= u32::MAX,
    ensures
        final(s)@ == old(s)@ + text_encoding(t@),
{
    let bytes = t.as_bytes();
    push_le(bytes.len() as u64, 4, s);
    let ghost mid = s@;
    let mut i: usize = 0;
    while i < bytes.len()
        invariant
            i <= bytes.len(),
            s@ == mid + bytes@.take(i as int),
        decreases bytes.len() - i,
    {
        s.push(bytes[i]);
        assert(bytes@.take(i + 1) =~= bytes@.take(i as int).push(bytes@[i as int]));
        i += 1;
    }
    assert(bytes@.take(i as int) =~= bytes@);
    assert(s@ =~= old(s)@ + text_encoding(t@));
}

/// Decodes a text at the cursor `o` of `d`. The count is read first; then the
/// bytes that are left are held against it, and only then the bytes are checked
/// as UTF-8. On a failure the cursor stands where the failure says.
pub fn de_text(o: &mut usize, d: &[u8]) -> (r: Result<String, DeBinErr>)
    ensures
        match text_decoding(d@, *old(o) as int) {
            Ok((t, end)) => r matches Ok(x) && x@ == t && *final(o) == end,
            Err(f) => r matches Err(e) && e@ == f && *final(o) == f.o,
        },
{
    let n = match de_uint(o, d, 4) {
        Ok(n) => {
            proof {
                lemma_pow256_values();
            }
            n as usize
        },
        Err(e) => {
            return Err(e);
        },
    };
    if d.len() - *o < n {
        return Err(DeBinErr { kind: ErrKind::UnexpectedEof, o: *o, l: n, s: d.len() });
    }
    let run = slice_to_vec(slice_subrange(d, *o, *o + n));
    match string_from_utf8(run) {
        Some(t) => {
            proof {
                encode_utf8_decode_utf8(t@);
            }
            *o = *o + n;
            Ok(t)
        },
        None => Err(DeBinErr { kind: ErrKind::InvalidUtf8, o: *o, l: n, s: d.len() }),
    }
}

/// Decoding the wire bytes of a text, wherever they stand in a buffer, gives
/// the text back.
pub proof fn lemma_text_round_trip(t: Seq<char>, d: Seq<u8>, o: int)
    requires
        encode_utf8(t).len() <= u32::MAX,
        0 <= o,
        o + text_encoding(t).len() <= d.len(),
        d.subrange(o, o + text_encoding(t).len()) == text_encoding(t),
    ensures
        text_decoding(d, o) == Ok::<(Seq<char>, int), Fault>((t, o + text_encoding(t).len())),
{
    let body = encode_utf8(t);
    let whole = text_encoding(t);
    lemma_le_bytes_len(body.len(), 4);
    lemma_pow256_values();
    lemma_le_value_of_bytes(body.len(), 4);
    assert(d.subrange(o, o + 4) =~= whole.subrange(0, 4));
    assert(whole.subrange(0, 4) =~= le_bytes(body.len(), 4));
    assert(d.subrange(o + 4, o + 4 + body.len()) =~= whole.subrange(4, 4 + body.len() as int));
    assert(whole.subrange(4, 4 + body.len() as int) =~= body);
    encode_utf8_valid_utf8(t);
    encode_utf8_decode_utf8(t);
}

} // verus!
