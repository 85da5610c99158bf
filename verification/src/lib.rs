//! A binary codec for structured values.
//!
//! A value is written against a description of its shape, and read back
//! against the same description. Nothing on the wire names a member or a type:
//!
//! | shape | bytes |
//! |---|---|
//! | integer, float | fixed width, least significant byte first |
//! | bool | one byte, 0 or 1; every byte but 0 reads as `true` |
//! | unit | none |
//! | text | its count of bytes in four bytes, then its UTF-8 bytes |
//! | option | one byte, 1 or 0; the value behind a 1 |
//! | sequence, map | the count in four bytes, then the elements |
//! | array | the elements, without a count |
//! | tuple, record | the members in declared order |
//! | union | the position of the variant in two bytes, then its payload |
//!
//! Decoding moves a cursor forward through a borrowed buffer and reports the
//! first failure as a [`error::DeBinErr`]; it never reads outside the buffer.
//! A map that holds a key twice decodes to the value that was written last.
//!
//! The module [`wire`] states the format over the mathematical model of
//! values, [`ser`] and [`de`] hold the encoder and the decoder, [`conform`] tells
//! whether a value can be encoded, and [`laws`] states what holds of them all;
//! the proofs stand in [`round_trip`], [`lossless`], [`cursor`], [`truncation`]
//! and [`decoded`].

pub mod conform;
pub mod cursor;
pub mod de;
pub mod decoded;
pub mod error;
pub mod laws;
pub mod lossless;
pub mod primitive;
pub mod proxy;
pub mod round_trip;
pub mod schema;
pub mod ser;
pub mod truncation;
pub mod value;
pub mod wire;
