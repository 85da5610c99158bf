use bin_codec::conform::conforming;
use bin_codec::de::{de_bin, derive_de_bin_enum, derive_de_bin_struct, deserialize_bin};
use bin_codec::error::{DeBinErr, ErrKind};
use bin_codec::primitive::{de_text, de_uint, push_le, read_le, ser_text, Primitive, Scalar};
use bin_codec::proxy::NoProxy;
use bin_codec::schema::{Enum, Field, Payload, Shape, Struct, Variant};
use bin_codec::ser::{
    derive_ser_bin_enum, derive_ser_bin_struct, ser_bin, serialize_bin, try_serialize_bin,
};
use bin_codec::value::Value;

fn field(name: &str, ty: Shape) -> Field {
    Field { field_name: name.to_string(), ty, proxy: None }
}

fn text(t: &str) -> Value {
    Value::Text(t.to_string())
}

fn some(v: Value) -> Value {
    Value::Option(Some(Box::new(v)))
}

fn option_of(shape: Shape) -> Shape {
    Shape::Option(Box::new(shape))
}

fn u32s(xs: &[u32]) -> Vec<Value> {
    xs.iter().map(|x| Value::Primitive(Scalar::U32(*x))).collect()
}

fn foo() -> Enum {
    Enum {
        name: "Foo".to_string(),
        variants: vec![
            Variant { name: "A".to_string(), payload: Payload::Empty },
            Variant {
                name: "B".to_string(),
                payload: Payload::Positional(vec![Shape::Primitive(Primitive::I32)]),
            },
            Variant { name: "C".to_string(), payload: Payload::Named(vec![]) },
        ],
    }
}

fn encode(shape: &Shape, value: &Value) -> Vec<u8> {
    assert!(conforming(&NoProxy, shape, value));
    serialize_bin(&NoProxy, shape, value)
}

#[test]
fn ser_de() {
    let shape = Shape::Record(Struct {
        name: "Test".to_string(),
        named: true,
        fields: vec![
            field("a", Shape::Primitive(Primitive::I32)),
            field("b", Shape::Primitive(Primitive::F32)),
            field("c", option_of(Shape::Text)),
            field("d", option_of(Shape::Text)),
            field("e", option_of(Shape::Mapping(Box::new(Shape::Text), Box::new(Shape::Text)))),
            field(
                "f",
                option_of(Shape::Tuple(vec![
                    Shape::Array(Box::new(Shape::Primitive(Primitive::U32)), Some(4)),
                    Shape::Text,
                ])),
            ),
            field("g", Shape::Tuple(vec![])),
        ],
    });
    let test = Value::Record(vec![
        Value::Primitive(Scalar::I32(1)),
        Value::Primitive(Scalar::F32(2f32.to_bits())),
        some(text("asd")),
        Value::Option(None),
        some(Value::Mapping(vec![(text("a"), text("b"))])),
        some(Value::Tuple(vec![Value::Array(u32s(&[1, 2, 3, 4])), text("tuple")])),
        Value::Tuple(vec![]),
    ]);
    let bytes = encode(&shape, &test);
    let test_deserialized = deserialize_bin(&NoProxy, &shape, &bytes).unwrap();
    assert_eq!(test, test_deserialized);
    assert!(test.same(&test_deserialized));
    assert_eq!(
        bytes,
        vec![
            1, 0, 0, 0, 0, 0, 0, 0x40, 1, 3, 0, 0, 0, b'a', b's', b'd', 0, 1, 1, 0, 0, 0, 1, 0, 0,
            0, b'a', 1, 0, 0, 0, b'b', 1, 1, 0, 0, 0, 2, 0, 0, 0, 3, 0, 0, 0, 4, 0, 0, 0, 5, 0, 0,
            0, b't', b'u', b'p', b'l', b'e',
        ]
    );
}

#[test]
fn option_of_text_bytes() {
    let shape = option_of(Shape::Text);
    assert_eq!(encode(&shape, &some(text("ab"))), vec![1, 2, 0, 0, 0, b'a', b'b']);
    assert_eq!(encode(&shape, &Value::Option(None)), vec![0]);
}

#[test]
fn union_variant_bytes() {
    let shape = Shape::Union(foo());
    let b7 = Value::Union(1, vec![Value::Primitive(Scalar::I32(7))]);
    assert_eq!(encode(&shape, &b7), vec![1, 0, 7, 0, 0, 0]);
    assert_eq!(encode(&shape, &Value::Union(0, vec![])), vec![0, 0]);
    assert_eq!(encode(&shape, &Value::Union(2, vec![])), vec![2, 0]);
    let mut s = vec![9u8];
    derive_ser_bin_enum(&NoProxy, &foo(), &b7, &mut s);
    assert_eq!(s, vec![9, 1, 0, 7, 0, 0, 0]);
}

#[test]
fn union_decoding_by_discriminant() {
    let en = foo();
    let mut o = 0usize;
    assert_eq!(derive_de_bin_enum(&NoProxy, &en, &mut o, &[0, 0]), Ok(Value::Union(0, vec![])));
    assert_eq!(o, 2);
    let mut o = 0usize;
    assert_eq!(
        derive_de_bin_enum(&NoProxy, &en, &mut o, &[1, 0, 7, 0, 0, 0]),
        Ok(Value::Union(1, vec![Value::Primitive(Scalar::I32(7))]))
    );
    assert_eq!(o, 6);
    let mut o = 0usize;
    assert_eq!(derive_de_bin_enum(&NoProxy, &en, &mut o, &[2, 0]), Ok(Value::Union(2, vec![])));
    assert_eq!(o, 2);
}

#[test]
fn unknown_variant_is_an_error() {
    let en = foo();
    let mut o = 0usize;
    let r = derive_de_bin_enum(&NoProxy, &en, &mut o, &[3, 0, 7, 0, 0, 0]);
    assert_eq!(r, Err(DeBinErr { kind: ErrKind::UnknownVariant { id: 3 }, o: 2, l: 0, s: 6 }));
    assert_eq!(o, 2);
    let r = deserialize_bin(&NoProxy, &Shape::Union(foo()), &[0xff, 0xff]);
    assert_eq!(r, Err(DeBinErr { kind: ErrKind::UnknownVariant { id: 0xffff }, o: 2, l: 0, s: 2 }));
}

#[test]
fn record_field_order_is_the_wire_contract() {
    let written = Struct {
        name: "P".to_string(),
        named: true,
        fields: vec![
            field("a", Shape::Primitive(Primitive::I32)),
            field("b", Shape::Primitive(Primitive::F32)),
        ],
    };
    let read = Struct {
        name: "P".to_string(),
        named: true,
        fields: vec![
            field("b", Shape::Primitive(Primitive::F32)),
            field("a", Shape::Primitive(Primitive::I32)),
        ],
    };
    let value = Value::Record(vec![
        Value::Primitive(Scalar::I32(1)),
        Value::Primitive(Scalar::F32(2f32.to_bits())),
    ]);
    let mut bytes = Vec::new();
    derive_ser_bin_struct(&NoProxy, &written, &value, &mut bytes);
    assert_eq!(bytes, vec![1, 0, 0, 0, 0, 0, 0, 0x40]);
    let mut o = 0usize;
    let got = derive_de_bin_struct(&NoProxy, &read, &mut o, &bytes).unwrap();
    assert_eq!(
        got,
        Value::Record(vec![
            Value::Primitive(Scalar::F32(1)),
            Value::Primitive(Scalar::I32(0x4000_0000)),
        ])
    );
    assert_eq!(f32::from_bits(1), 1.0e-45f32);
    assert_eq!(o, 8);
}

#[test]
fn scalars_are_little_endian() {
    let cases: Vec<(Scalar, Vec<u8>)> = vec![
        (Scalar::Bool(false), vec![0]),
        (Scalar::Bool(true), vec![1]),
        (Scalar::U8(0xab), vec![0xab]),
        (Scalar::U16(0x1234), vec![0x34, 0x12]),
        (Scalar::U32(0x1234_5678), vec![0x78, 0x56, 0x34, 0x12]),
        (Scalar::U64(0x0102_0304_0506_0708), vec![8, 7, 6, 5, 4, 3, 2, 1]),
        (Scalar::U64(u64::MAX), vec![0xff; 8]),
        (Scalar::I8(-1), vec![0xff]),
        (Scalar::I8(i8::MIN), vec![0x80]),
        (Scalar::I16(-2), vec![0xfe, 0xff]),
        (Scalar::I32(-2), vec![0xfe, 0xff, 0xff, 0xff]),
        (Scalar::I32(i32::MIN), vec![0, 0, 0, 0x80]),
        (Scalar::I64(-1), vec![0xff; 8]),
        (Scalar::I64(i64::MIN), vec![0, 0, 0, 0, 0, 0, 0, 0x80]),
        (Scalar::I64(i64::MAX), vec![0xff, 0xff, 0xff, 0xff, 0xff, 0xff, 0xff, 0x7f]),
        (Scalar::F32(1.5f32.to_bits()), 1.5f32.to_le_bytes().to_vec()),
        (Scalar::F64((-0.25f64).to_bits()), (-0.25f64).to_le_bytes().to_vec()),
    ];
    for (x, bytes) in cases {
        let mut s = Vec::new();
        x.ser_bin(&mut s);
        assert_eq!(s, bytes);
        let mut o = 0usize;
        assert_eq!(x.primitive().de_bin(&mut o, &s), Ok(x));
        assert_eq!(o, bytes.len());
        assert_eq!(x.primitive().size(), bytes.len());
    }
}

#[test]
fn any_nonzero_byte_is_true() {
    for b in [1u8, 2, 0x80, 0xff] {
        let mut o = 0usize;
        assert_eq!(Primitive::Bool.de_bin(&mut o, &[b]), Ok(Scalar::Bool(true)));
    }
    let mut o = 0usize;
    assert_eq!(Primitive::Bool.de_bin(&mut o, &[0]), Ok(Scalar::Bool(false)));
}

#[test]
fn only_flag_one_is_present() {
    let shape = option_of(Shape::Primitive(Primitive::U8));
    assert_eq!(deserialize_bin(&NoProxy, &shape, &[1, 5]), Ok(some(Value::Primitive(Scalar::U8(5)))));
    assert_eq!(deserialize_bin(&NoProxy, &shape, &[0, 5]), Ok(Value::Option(None)));
    let mut o = 0usize;
    assert_eq!(de_bin(&NoProxy, &shape, &mut o, &[2, 5]), Ok(Value::Option(None)));
    assert_eq!(o, 1);
}

#[test]
fn unit_takes_no_bytes() {
    let unit = Shape::Tuple(vec![]);
    assert_eq!(encode(&unit, &Value::Tuple(vec![])), Vec::<u8>::new());
    let mut o = 3usize;
    assert_eq!(de_bin(&NoProxy, &unit, &mut o, &[1, 2, 3]), Ok(Value::Tuple(vec![])));
    assert_eq!(o, 3);
}

#[test]
fn sequence_has_a_count_and_array_has_none() {
    let elem = Shape::Primitive(Primitive::U16);
    let items = vec![Value::Primitive(Scalar::U16(1)), Value::Primitive(Scalar::U16(0x0203))];
    let seq = Shape::Sequence(Box::new(Shape::Primitive(Primitive::U16)));
    assert_eq!(
        encode(&seq, &Value::Sequence(vec![
            Value::Primitive(Scalar::U16(1)),
            Value::Primitive(Scalar::U16(0x0203)),
        ])),
        vec![2, 0, 0, 0, 1, 0, 3, 2]
    );
    let arr = Shape::Array(Box::new(elem), Some(2));
    assert_eq!(encode(&arr, &Value::Array(items)), vec![1, 0, 3, 2]);
    assert_eq!(
        deserialize_bin(&NoProxy, &arr, &[1, 0, 3, 2, 9]),
        Ok(Value::Array(vec![
            Value::Primitive(Scalar::U16(1)),
            Value::Primitive(Scalar::U16(0x0203)),
        ]))
    );
    assert_eq!(encode(&seq, &Value::Sequence(vec![])), vec![0, 0, 0, 0]);
}

#[test]
fn tuple_is_the_concatenation_of_its_members() {
    let shape = Shape::Tuple(vec![
        Shape::Primitive(Primitive::U8),
        Shape::Text,
        Shape::Primitive(Primitive::Bool),
    ]);
    let value = Value::Tuple(vec![
        Value::Primitive(Scalar::U8(7)),
        text("hi"),
        Value::Primitive(Scalar::Bool(true)),
    ]);
    let bytes = encode(&shape, &value);
    assert_eq!(bytes, vec![7, 2, 0, 0, 0, b'h', b'i', 1]);
    assert_eq!(deserialize_bin(&NoProxy, &shape, &bytes), Ok(value));
}

#[test]
fn map_is_a_counted_run_of_pairs() {
    let shape = Shape::Mapping(
        Box::new(Shape::Primitive(Primitive::U8)),
        Box::new(Shape::Primitive(Primitive::U16)),
    );
    let value = Value::Mapping(vec![
        (Value::Primitive(Scalar::U8(1)), Value::Primitive(Scalar::U16(10))),
        (Value::Primitive(Scalar::U8(2)), Value::Primitive(Scalar::U16(20))),
    ]);
    let bytes = encode(&shape, &value);
    assert_eq!(bytes, vec![2, 0, 0, 0, 1, 10, 0, 2, 20, 0]);
    assert_eq!(deserialize_bin(&NoProxy, &shape, &bytes), Ok(value));
}

#[test]
fn last_write_wins_on_a_repeated_key() {
    let shape = Shape::Mapping(
        Box::new(Shape::Primitive(Primitive::U8)),
        Box::new(Shape::Primitive(Primitive::U8)),
    );
    let bytes = vec![3, 0, 0, 0, 1, 10, 2, 20, 1, 30];
    assert_eq!(
        deserialize_bin(&NoProxy, &shape, &bytes),
        Ok(Value::Mapping(vec![
            (Value::Primitive(Scalar::U8(1)), Value::Primitive(Scalar::U8(30))),
            (Value::Primitive(Scalar::U8(2)), Value::Primitive(Scalar::U8(20))),
        ]))
    );
}

#[test]
fn text_is_counted_utf8() {
    let mut s = Vec::new();
    ser_text("h\u{e9}\u{20ac}", &mut s);
    assert_eq!(s, vec![6, 0, 0, 0, b'h', 0xc3, 0xa9, 0xe2, 0x82, 0xac]);
    let mut o = 0usize;
    assert_eq!(de_text(&mut o, &s), Ok("h\u{e9}\u{20ac}".to_string()));
    assert_eq!(o, 10);
    let mut s = Vec::new();
    ser_text("", &mut s);
    assert_eq!(s, vec![0, 0, 0, 0]);
}

#[test]
fn invalid_utf8_is_an_error() {
    let bytes = vec![2, 0, 0, 0, 0xff, 0xfe, 7];
    let mut o = 0usize;
    let r = de_text(&mut o, &bytes);
    assert_eq!(r, Err(DeBinErr { kind: ErrKind::InvalidUtf8, o: 4, l: 2, s: 7 }));
    assert_eq!(o, 4);
    let r = deserialize_bin(&NoProxy, &Shape::Text, &[1, 0, 0, 0, 0x80]);
    assert_eq!(r, Err(DeBinErr { kind: ErrKind::InvalidUtf8, o: 4, l: 1, s: 5 }));
    let r = deserialize_bin(&NoProxy, &Shape::Text, &[3, 0, 0, 0, 0xe2, 0x82, b'a']);
    assert_eq!(r, Err(DeBinErr { kind: ErrKind::InvalidUtf8, o: 4, l: 3, s: 7 }));
}

#[test]
fn text_longer_than_the_buffer_is_eof() {
    let r = deserialize_bin(&NoProxy, &Shape::Text, &[5, 0, 0, 0, b'a', b'b']);
    assert_eq!(r, Err(DeBinErr { kind: ErrKind::UnexpectedEof, o: 4, l: 5, s: 6 }));
    let r = deserialize_bin(&NoProxy, &Shape::Text, &[0xff, 0xff, 0xff, 0xff, 0xff]);
    assert_eq!(r, Err(DeBinErr { kind: ErrKind::UnexpectedEof, o: 4, l: 0xffff_ffff, s: 5 }));
    let r = deserialize_bin(&NoProxy, &Shape::Text, &[5, 0, 0]);
    assert_eq!(r, Err(DeBinErr { kind: ErrKind::UnexpectedEof, o: 0, l: 4, s: 3 }));
}

#[test]
fn array_without_length_is_an_error() {
    let shape = Shape::Array(Box::new(Shape::Primitive(Primitive::U8)), None);
    let mut o = 1usize;
    let r = de_bin(&NoProxy, &shape, &mut o, &[1, 2, 3]);
    assert_eq!(r, Err(DeBinErr { kind: ErrKind::WrongArrayLength, o: 1, l: 0, s: 3 }));
    assert_eq!(o, 1);
    assert!(!conforming(&NoProxy, &shape, &Value::Array(vec![])));
}

#[test]
fn eof_names_offset_and_want() {
    let mut o = 1usize;
    let r = Primitive::U32.de_bin(&mut o, &[1, 2, 3, 4]);
    assert_eq!(r, Err(DeBinErr { kind: ErrKind::UnexpectedEof, o: 1, l: 4, s: 4 }));
    assert_eq!(o, 1);
    let mut o = 9usize;
    let r = Primitive::U8.de_bin(&mut o, &[1, 2]);
    assert_eq!(r, Err(DeBinErr { kind: ErrKind::UnexpectedEof, o: 9, l: 1, s: 2 }));
    assert_eq!(o, 9);
    let mut o = usize::MAX;
    let r = de_uint(&mut o, &[1, 2], 8);
    assert_eq!(r, Err(DeBinErr { kind: ErrKind::UnexpectedEof, o: usize::MAX, l: 8, s: 2 }));
    let shape = Shape::Tuple(vec![Shape::Primitive(Primitive::U8), Shape::Primitive(Primitive::U16)]);
    let mut o = 0usize;
    let r = de_bin(&NoProxy, &shape, &mut o, &[1, 2]);
    assert_eq!(r, Err(DeBinErr { kind: ErrKind::UnexpectedEof, o: 1, l: 2, s: 2 }));
    assert_eq!(o, 1);
}

#[test]
fn cursor_moves_forward_over_consecutive_values() {
    let mut s = Vec::new();
    ser_bin(&NoProxy, &Shape::Primitive(Primitive::U16), &Value::Primitive(Scalar::U16(5)), &mut s);
    ser_bin(&NoProxy, &Shape::Text, &text("x"), &mut s);
    assert_eq!(s, vec![5, 0, 1, 0, 0, 0, b'x']);
    let mut o = 0usize;
    let a = de_bin(&NoProxy, &Shape::Primitive(Primitive::U16), &mut o, &s);
    assert_eq!((a, o), (Ok(Value::Primitive(Scalar::U16(5))), 2));
    let b = de_bin(&NoProxy, &Shape::Text, &mut o, &s);
    assert_eq!((b, o), (Ok(text("x")), 7));
}

#[test]
fn low_bytes_of_a_number() {
    let mut s = vec![0xaa];
    push_le(0x0102_0304, 2, &mut s);
    assert_eq!(s, vec![0xaa, 4, 3]);
    push_le(0x0102_0304, 0, &mut s);
    assert_eq!(s, vec![0xaa, 4, 3]);
    assert_eq!(read_le(&[9, 4, 3, 2, 1], 1, 4), 0x0102_0304);
    assert_eq!(read_le(&[9, 4, 3, 2, 1], 1, 0), 0);
    let mut o = 1usize;
    assert_eq!(de_uint(&mut o, &[9, 4, 3, 2, 1], 2), Ok(0x0304));
    assert_eq!(o, 3);
}

#[test]
fn unit_helpers() {
    assert_eq!(Shape::unit(), Shape::Tuple(vec![]));
    assert_eq!(Value::unit(), Value::Tuple(vec![]));
    assert!(conforming(&NoProxy, &Shape::unit(), &Value::unit()));
    assert_eq!(encode(&Shape::unit(), &Value::unit()), Vec::<u8>::new());
}

#[test]
fn only_conforming_values_are_encoded() {
    let shape = Shape::Sequence(Box::new(Shape::Primitive(Primitive::U8)));
    let good = Value::Sequence(vec![Value::Primitive(Scalar::U8(1))]);
    let bad = Value::Sequence(vec![Value::Primitive(Scalar::U16(1))]);
    assert_eq!(try_serialize_bin(&NoProxy, &shape, &good), Some(vec![1, 0, 0, 0, 1]));
    assert_eq!(try_serialize_bin(&NoProxy, &shape, &bad), None);
    assert_eq!(try_serialize_bin(&NoProxy, &shape, &Value::Tuple(vec![])), None);
}
