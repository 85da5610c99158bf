//! Decode failures.

use vstd::prelude::*;

verus! {

/// Why a decode stopped.
#[derive(Debug, Clone, Copy, PartialEq, Eq, Structural)]
pub enum ErrKind {
    /// The buffer ended before the bytes that were asked for.
    UnexpectedEof,
    /// The bytes of a text are not valid UTF-8.
    InvalidUtf8,
    /// The discriminant names no variant of the union.
    UnknownVariant { id: u16 },
    /// An array is described without its length.
    WrongArrayLength,
}

/// A decode failure: its kind, the offset `o` at which the cursor stood, the
/// number `l` of bytes that were wanted there, and the size `s` of the buffer.
#[derive(Debug, Clone, Copy, PartialEq, Eq, Structural)]
pub struct DeBinErr {
    pub kind: ErrKind,
    pub o: usize,
    pub l: usize,
    pub s: usize,
}

/// The mathematical form of a [`DeBinErr`].
pub struct Fault {
    pub kind: ErrKind,
    pub o: int,
    pub l: int,
    pub s: int,
}

impl View for DeBinErr {
    type V = Fault;

    open spec fn view(&self) -> Fault {
        Fault { kind: self.kind, o: self.o as int, l: self.l as int, s: self.s as int }
    }
}

/// The failure of a read of `l` bytes at offset `o` in a buffer of `s` bytes.
pub open spec fn eof(o: int, l: int, s: int) -> Fault {
    Fault { kind: ErrKind::UnexpectedEof, o, l, s }
}

} // verus!
