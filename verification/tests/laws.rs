use bin_codec::conform::{
    conforming, conforming_enum, conforming_field, conforming_proxy, conforming_struct, distinct,
};
use bin_codec::de::{
    de_bin, derive_de_bin_proxy, derive_de_bin_struct_unnamed, deserialize_bin, put_entry,
};
use bin_codec::error::ErrKind;
use bin_codec::primitive::{Primitive, Scalar};
use bin_codec::proxy::{NoProxy, ProxyHooks};
use bin_codec::schema::{Enum, Field, Payload, ProxyType, Shape, Struct, Variant};
use bin_codec::ser::{derive_ser_bin_proxy, derive_ser_bin_struct_unnamed, serialize_bin};
use bin_codec::value::{Val, Value};

/// Hook 0 writes a `u32` as its decimal digits; every other hook leaves the
/// value as it is.
struct Decimal;

impl ProxyHooks for Decimal {
    fn to_proxy_spec(&self, _hook: usize, _v: Val) -> Val {
        unreachable!()
    }

    fn from_proxy_spec(&self, _hook: usize, _p: Val) -> Val {
        unreachable!()
    }

    fn to_proxy(&self, hook: usize, v: &Value) -> Value {
        match (hook, v) {
            (0, Value::Primitive(Scalar::U32(x))) => Value::Text(format!("{}", x)),
            _ => v.duplicate(),
        }
    }

    fn from_proxy(&self, hook: usize, p: &Value) -> Value {
        match (hook, p) {
            (0, Value::Text(t)) => Value::Primitive(Scalar::U32(t.parse().unwrap_or(0))),
            _ => p.duplicate(),
        }
    }
}

fn u8v(x: u8) -> Value {
    Value::Primitive(Scalar::U8(x))
}

fn text(t: &str) -> Value {
    Value::Text(t.to_string())
}

fn plain(name: &str, ty: Shape) -> Field {
    Field { field_name: name.to_string(), ty, proxy: None }
}

fn samples() -> Vec<(Shape, Value)> {
    let pair = Struct {
        name: "Pair".to_string(),
        named: false,
        fields: vec![
            plain("0", Shape::Primitive(Primitive::I16)),
            plain("1", Shape::Option(Box::new(Shape::Text))),
        ],
    };
    let shape = Enum {
        name: "Shape".to_string(),
        variants: vec![
            Variant { name: "Nothing".to_string(), payload: Payload::Empty },
            Variant {
                name: "Point".to_string(),
                payload: Payload::Named(vec![
                    plain("x", Shape::Primitive(Primitive::I64)),
                    plain("y", Shape::Primitive(Primitive::F64)),
                ]),
            },
            Variant {
                name: "Many".to_string(),
                payload: Payload::Positional(vec![
                    Shape::Sequence(Box::new(Shape::Record(Struct {
                        name: "Pair".to_string(),
                        named: false,
                        fields: vec![
                            plain("0", Shape::Primitive(Primitive::I16)),
                            plain("1", Shape::Option(Box::new(Shape::Text))),
                        ],
                    }))),
                    Shape::Primitive(Primitive::Bool),
                ]),
            },
        ],
    };
    vec![
        (Shape::Primitive(Primitive::U64), Value::Primitive(Scalar::U64(0xdead_beef_0000_0001))),
        (Shape::Primitive(Primitive::I8), Value::Primitive(Scalar::I8(-128))),
        (Shape::Primitive(Primitive::F64), Value::Primitive(Scalar::F64(f64::NAN.to_bits()))),
        (Shape::Text, text("gr\u{fc}\u{df}e \u{1f980}")),
        (Shape::Option(Box::new(Shape::Option(Box::new(Shape::Text)))), Value::Option(Some(Box::new(Value::Option(None))))),
        (
            Shape::Sequence(Box::new(Shape::Tuple(vec![]))),
            Value::Sequence(vec![Value::Tuple(vec![]), Value::Tuple(vec![])]),
        ),
        (
            Shape::Array(Box::new(Shape::Text), Some(3)),
            Value::Array(vec![text("a"), text(""), text("ccc")]),
        ),
        (
            Shape::Mapping(Box::new(Shape::Text), Box::new(Shape::Sequence(Box::new(Shape::Primitive(Primitive::U8))))),
            Value::Mapping(vec![
                (text("k"), Value::Sequence(vec![u8v(1), u8v(2)])),
                (text("l"), Value::Sequence(vec![])),
            ]),
        ),
        (
            Shape::Record(pair),
            Value::Tuple(vec![Value::Primitive(Scalar::I16(-300)), Value::Option(Some(Box::new(text("z"))))]),
        ),
        (
            Shape::Union(shape),
            Value::Union(
                2,
                vec![
                    Value::Sequence(vec![
                        Value::Tuple(vec![Value::Primitive(Scalar::I16(1)), Value::Option(None)]),
                        Value::Tuple(vec![
                            Value::Primitive(Scalar::I16(2)),
                            Value::Option(Some(Box::new(text("two")))),
                        ]),
                    ]),
                    Value::Primitive(Scalar::Bool(true)),
                ],
            ),
        ),
    ]
}

#[test]
fn decoding_undoes_encoding() {
    for (shape, value) in samples() {
        assert!(conforming(&NoProxy, &shape, &value));
        let bytes = serialize_bin(&NoProxy, &shape, &value);
        let mut o = 0usize;
        let back = de_bin(&NoProxy, &shape, &mut o, &bytes);
        assert_eq!(back, Ok(value.duplicate()));
        assert_eq!(o, bytes.len());
        let mut padded = vec![0xee, 0xee, 0xee];
        padded.extend_from_slice(&bytes);
        padded.push(0xee);
        let mut o = 3usize;
        let back = de_bin(&NoProxy, &shape, &mut o, &padded);
        assert_eq!(back, Ok(value));
        assert_eq!(o, 3 + bytes.len());
    }
}

#[test]
fn every_truncation_is_eof() {
    for (shape, value) in samples() {
        let bytes = serialize_bin(&NoProxy, &shape, &value);
        for n in 0..bytes.len() {
            match deserialize_bin(&NoProxy, &shape, &bytes[..n]) {
                Err(e) => {
                    assert_eq!(e.kind, ErrKind::UnexpectedEof);
                    assert_eq!(e.s, n);
                    assert!(e.o <= n);
                },
                Ok(v) => panic!("{} of {} bytes decoded to {:?}", n, bytes.len(), v),
            }
        }
    }
}

#[test]
fn same_tells_values_apart() {
    let all = samples();
    for (i, (_, a)) in all.iter().enumerate() {
        for (j, (_, b)) in all.iter().enumerate() {
            assert_eq!(a.same(b), i == j);
        }
        assert!(a.same(&a.duplicate()));
        assert_eq!(a, &a.duplicate());
    }
    assert!(!Value::Sequence(vec![u8v(1)]).same(&Value::Array(vec![u8v(1)])));
    assert!(!Value::Record(vec![]).same(&Value::Tuple(vec![])));
    assert!(!Value::Union(0, vec![]).same(&Value::Union(1, vec![])));
}

#[test]
fn values_of_another_shape_do_not_conform() {
    let all = samples();
    for (i, (shape, _)) in all.iter().enumerate() {
        for (j, (_, value)) in all.iter().enumerate() {
            assert_eq!(conforming(&NoProxy, shape, value), i == j);
        }
    }
    let arr = Shape::Array(Box::new(Shape::Primitive(Primitive::U8)), Some(2));
    assert!(conforming(&NoProxy, &arr, &Value::Array(vec![u8v(1), u8v(2)])));
    assert!(!conforming(&NoProxy, &arr, &Value::Array(vec![u8v(1)])));
    assert!(!conforming(&NoProxy, &arr, &Value::Array(vec![u8v(1), u8v(2), u8v(3)])));
    assert!(!conforming(&NoProxy, &arr, &Value::Array(vec![u8v(1), text("2")])));
    let named = Struct { name: "N".to_string(), named: true, fields: vec![] };
    assert!(conforming_struct(&NoProxy, &named, &Value::Record(vec![])));
    assert!(!conforming_struct(&NoProxy, &named, &Value::Tuple(vec![])));
    assert!(!conforming_struct(&NoProxy, &named, &Value::Record(vec![u8v(1)])));
    let en = Enum {
        name: "E".to_string(),
        variants: vec![Variant { name: "A".to_string(), payload: Payload::Empty }],
    };
    assert!(conforming_enum(&NoProxy, &en, &Value::Union(0, vec![])));
    assert!(!conforming_enum(&NoProxy, &en, &Value::Union(1, vec![])));
    assert!(!conforming_enum(&NoProxy, &en, &Value::Union(0, vec![u8v(1)])));
}

#[test]
fn repeated_keys_do_not_conform() {
    let shape = Shape::Mapping(
        Box::new(Shape::Primitive(Primitive::U8)),
        Box::new(Shape::Primitive(Primitive::U8)),
    );
    let twice = vec![(u8v(1), u8v(2)), (u8v(3), u8v(4)), (u8v(1), u8v(5))];
    assert!(!distinct(&twice));
    assert!(!conforming(&NoProxy, &shape, &Value::Mapping(twice)));
    let once = vec![(u8v(1), u8v(2)), (u8v(3), u8v(2))];
    assert!(distinct(&once));
    assert!(conforming(&NoProxy, &shape, &Value::Mapping(once)));
}

#[test]
fn put_replaces_the_first_entry_with_the_key() {
    let mut entries = vec![(u8v(1), u8v(10)), (u8v(2), u8v(20))];
    put_entry(&mut entries, u8v(2), u8v(21));
    assert_eq!(entries, vec![(u8v(1), u8v(10)), (u8v(2), u8v(21))]);
    put_entry(&mut entries, u8v(3), u8v(30));
    assert_eq!(entries, vec![(u8v(1), u8v(10)), (u8v(2), u8v(21)), (u8v(3), u8v(30))]);
    put_entry(&mut entries, u8v(1), u8v(11));
    assert_eq!(entries, vec![(u8v(1), u8v(11)), (u8v(2), u8v(21)), (u8v(3), u8v(30))]);
}

#[test]
fn proxied_member_goes_through_its_proxy() {
    let st = Struct {
        name: "Id".to_string(),
        named: false,
        fields: vec![
            Field {
                field_name: "0".to_string(),
                ty: Shape::Primitive(Primitive::U32),
                proxy: Some(ProxyType { hook: 0, ty: Shape::Text }),
            },
            plain("1", Shape::Primitive(Primitive::U32)),
        ],
    };
    let value = Value::Tuple(vec![
        Value::Primitive(Scalar::U32(1234)),
        Value::Primitive(Scalar::U32(1234)),
    ]);
    assert!(conforming_struct(&Decimal, &st, &value));
    let mut bytes = Vec::new();
    derive_ser_bin_struct_unnamed(&Decimal, &st, &value, &mut bytes);
    assert_eq!(bytes, vec![4, 0, 0, 0, b'1', b'2', b'3', b'4', 0xd2, 4, 0, 0]);
    let mut o = 0usize;
    assert_eq!(derive_de_bin_struct_unnamed(&Decimal, &st, &mut o, &bytes), Ok(value));
    assert_eq!(o, 12);
    assert!(!conforming_struct(&NoProxy, &st, &Value::Tuple(vec![
        Value::Primitive(Scalar::U32(1234)),
        Value::Primitive(Scalar::U32(1234)),
    ])));
    assert!(conforming_field(&Decimal, &st.fields[0], &Value::Primitive(Scalar::U32(5))));
    assert!(!conforming_field(&Decimal, &st.fields[0], &Value::Primitive(Scalar::U8(5))));
    assert!(conforming_field(&Decimal, &st.fields[1], &Value::Primitive(Scalar::U32(5))));
    assert!(!conforming_field(&Decimal, &st.fields[1], &text("5")));
}

#[test]
fn proxied_value_on_its_own() {
    let proxy = ProxyType { hook: 0, ty: Shape::Text };
    let value = Value::Primitive(Scalar::U32(70));
    assert!(conforming_proxy(&Decimal, &proxy, &value));
    let mut bytes = vec![0xaa];
    derive_ser_bin_proxy(&Decimal, &proxy, &value, &mut bytes);
    assert_eq!(bytes, vec![0xaa, 2, 0, 0, 0, b'7', b'0']);
    let mut o = 1usize;
    assert_eq!(derive_de_bin_proxy(&Decimal, &proxy, &mut o, &bytes), Ok(value));
    assert_eq!(o, 7);
    let mut o = 1usize;
    let cut = derive_de_bin_proxy(&Decimal, &proxy, &mut o, &bytes[..6]);
    assert_eq!(cut.unwrap_err().kind, ErrKind::UnexpectedEof);
    let other = ProxyType { hook: 1, ty: Shape::Primitive(Primitive::U32) };
    let mut bytes = Vec::new();
    derive_ser_bin_proxy(&Decimal, &other, &Value::Primitive(Scalar::U32(70)), &mut bytes);
    assert_eq!(bytes, vec![70, 0, 0, 0]);
}

#[test]
fn what_decodes_can_be_encoded_again() {
    let shape = Shape::Tuple(vec![
        Shape::Primitive(Primitive::Bool),
        Shape::Option(Box::new(Shape::Primitive(Primitive::U8))),
        Shape::Mapping(
            Box::new(Shape::Primitive(Primitive::U8)),
            Box::new(Shape::Primitive(Primitive::U8)),
        ),
    ]);
    let loose = vec![7, 9, 3, 0, 0, 0, 1, 10, 2, 20, 1, 30];
    let value = deserialize_bin(&NoProxy, &shape, &loose).unwrap();
    assert!(conforming(&NoProxy, &shape, &value));
    let strict = serialize_bin(&NoProxy, &shape, &value);
    assert_eq!(strict, vec![1, 0, 2, 0, 0, 0, 1, 30, 2, 20]);
    assert_eq!(deserialize_bin(&NoProxy, &shape, &strict), Ok(value));
}

#[test]
fn cursor_never_moves_back() {
    for (shape, value) in samples() {
        let bytes = serialize_bin(&NoProxy, &shape, &value);
        for start in 0..bytes.len() + 2 {
            let mut o = start;
            let r = de_bin(&NoProxy, &shape, &mut o, &bytes);
            assert!(o >= start);
            if start <= bytes.len() {
                assert!(o <= bytes.len());
            }
            if let Err(e) = r {
                assert_eq!(e.o, o);
                assert_eq!(e.s, bytes.len());
            }
        }
    }
}
