//! Descriptions of the shapes that values take on the wire.

use vstd::prelude::*;
use crate::primitive::Primitive;

verus! {

/// The representation through which a value goes onto the wire in place of
/// its own: the shape of that representation, and the number under which the
/// pair of conversions is known to the hooks that the codec is run with.
#[derive(Debug, PartialEq)]
pub struct ProxyType {
    pub hook: usize,
    pub ty: Shape,
}

/// One member of a record: its name, the shape of its values, and the proxy
/// that stands in for them on the wire, if any. The name never reaches the
/// wire. Where a proxy is set, the wire form is that of the proxy's shape
/// alone, and `ty` only tells the reader what the member holds.
#[derive(Debug, PartialEq)]
pub struct Field {
    pub field_name: String,
    pub ty: Shape,
    pub proxy: Option<ProxyType>,
}

/// A record: members in their declared order. That order is the wire
/// contract. With `named` its values are `Record`s, without it `Tuple`s.
#[derive(Debug, PartialEq)]
pub struct Struct {
    pub name: String,
    pub named: bool,
    pub fields: Vec<Field>,
}

/// What follows the discriminant of a union variant.
#[derive(Debug, PartialEq)]
pub enum Payload {
    Empty,
    Positional(Vec<Shape>),
    Named(Vec<Field>),
}

/// One alternative of a union.
#[derive(Debug, PartialEq)]
pub struct Variant {
    pub name: String,
    pub payload: Payload,
}

/// A union: alternatives in their declared order. The discriminant of an
/// alternative is its position, counted from 0, so reordering the alternatives
/// changes the wire format.
#[derive(Debug, PartialEq)]
pub struct Enum {
    pub name: String,
    pub variants: Vec<Variant>,
}

/// The shape of a value.
#[derive(Debug, PartialEq)]
pub enum Shape {
    Primitive(Primitive),
    Text,
    Option(Box<Shape>),
    Sequence(Box<Shape>),
    /// A fixed number of elements. The number is not on the wire; a
    /// description that leaves it out admits no value.
    Array(Box<Shape>, Option<usize>),
    /// The empty tuple is the unit value.
    Tuple(Vec<Shape>),
    Mapping(Box<Shape>, Box<Shape>),
    Record(Struct),
    Union(Enum),
}

impl Shape {
    /// The shape of the unit value: the tuple without members, which takes no
    /// bytes on the wire.
    pub fn unit() -> (r: Shape)
        ensures
            r matches Shape::Tuple(shapes) && shapes@.len() == 0,
    {
        Shape::Tuple(Vec::new())
    }
}

} // verus!
