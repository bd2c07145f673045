use sadaby::codec::decode;
use sadaby::codec::encode;
use sadaby::shape::Shape;
use sadaby::shape::Variant;
use sadaby::value::Value;
use sadaby::SadabyError;

fn byte(v: u128) -> Value {
    Value::Uint { width: 1, val: v }
}

#[test]
fn scalar_round_trip() {
    let v = Value::Uint { width: 2, val: 0x1234 };
    let bytes = encode(&v).unwrap();
    assert_eq!(bytes, vec![0x34, 0x12]);
    let s = Shape::Uint { width: 2 };
    assert_eq!(decode(&s, &bytes).unwrap(), v);
}

#[test]
fn scalar_decode_ignores_trailing_bytes() {
    let s = Shape::Uint { width: 2 };
    let got = decode(&s, &[0x34, 0x12, 0xff, 0xff]).unwrap();
    assert_eq!(got, Value::Uint { width: 2, val: 0x1234 });
}

#[test]
fn scalar_decode_short_buffer_fails() {
    let s = Shape::Uint { width: 4 };
    assert_eq!(decode(&s, &[1, 2, 3]), Err(SadabyError::UnexpectedToken));
}

#[test]
fn array_round_trip() {
    let v = Value::Array { width: 2, elems: vec![1, 513, 65535] };
    let bytes = encode(&v).unwrap();
    assert_eq!(bytes, vec![1, 0, 1, 2, 255, 255]);
    let s = Shape::Array { width: 2, count: 3 };
    assert_eq!(decode(&s, &bytes).unwrap(), v);
}

#[test]
fn optional_wire_bytes() {
    let some = Value::Opt(Some(Box::new(byte(5))));
    assert_eq!(encode(&some).unwrap(), vec![83, 5]);
    let none = Value::Opt(None);
    assert_eq!(encode(&none).unwrap(), vec![78]);
}

#[test]
fn optional_round_trip() {
    let s = Shape::Opt(Box::new(Shape::Uint { width: 1 }));
    let some = Value::Opt(Some(Box::new(byte(5))));
    assert_eq!(decode(&s, &encode(&some).unwrap()).unwrap(), some);
    let none = Value::Opt(None);
    assert_eq!(decode(&s, &encode(&none).unwrap()).unwrap(), none);
}

#[test]
fn optional_bad_tag_fails() {
    let s = Shape::Opt(Box::new(Shape::Uint { width: 1 }));
    assert_eq!(decode(&s, &[66, 5]), Err(SadabyError::UnexpectedToken));
    assert_eq!(decode(&s, &[]), Err(SadabyError::UnexpectedToken));
}

#[test]
fn empty_sequence_is_zero_bytes() {
    let v = Value::Sequence(vec![]);
    assert_eq!(encode(&v).unwrap(), Vec::<u8>::new());
    let s = Shape::Sequence(Box::new(Shape::Uint { width: 1 }));
    assert_eq!(decode(&s, &[]).unwrap(), v);
}

#[test]
fn sequence_of_bytes_wire_layout() {
    let v = Value::Sequence(vec![byte(1), byte(2), byte(3)]);
    let bytes = encode(&v).unwrap();
    assert_eq!(bytes, vec![1, 1, 1, 2, 1, 3]);
    let s = Shape::Sequence(Box::new(Shape::Uint { width: 1 }));
    assert_eq!(decode(&s, &bytes).unwrap(), v);
}

#[test]
fn sequence_length_byte_beyond_buffer_fails() {
    let s = Shape::Sequence(Box::new(Shape::Uint { width: 1 }));
    assert_eq!(decode(&s, &[5, 1]), Err(SadabyError::UnexpectedToken));
}

#[test]
fn pair_frames_first_element_only() {
    let v = Value::Pair(Box::new(Value::Uint { width: 2, val: 7 }), Box::new(byte(9)));
    let bytes = encode(&v).unwrap();
    assert_eq!(bytes, vec![2, 7, 0, 9]);
    let s = Shape::Pair(Box::new(Shape::Uint { width: 2 }), Box::new(Shape::Uint { width: 1 }));
    assert_eq!(decode(&s, &bytes).unwrap(), v);
}

#[test]
fn single_field_record_has_no_frame() {
    let v = Value::Rec(vec![Value::Uint { width: 2, val: 0x0102 }]);
    let bytes = encode(&v).unwrap();
    assert_eq!(bytes, vec![2, 1]);
    let s = Shape::Rec(vec![Shape::Uint { width: 2 }]);
    assert_eq!(decode(&s, &bytes).unwrap(), v);
}

#[test]
fn three_field_frame_chain_layout() {
    // Field encodings of lengths 2, 0, and 5: every field framed, the
    // last included, for 10 bytes in all.
    let f0 = Value::Uint { width: 2, val: 0x0201 };
    let f1 = Value::Sequence(vec![]);
    let f2 = Value::Array { width: 1, elems: vec![10, 11, 12, 13, 14] };
    let v = Value::Rec(vec![f0, f1, f2]);
    let bytes = encode(&v).unwrap();
    assert_eq!(bytes, vec![2, 1, 2, 0, 5, 10, 11, 12, 13, 14]);
    let s = Shape::Rec(vec![
        Shape::Uint { width: 2 },
        Shape::Sequence(Box::new(Shape::Uint { width: 1 })),
        Shape::Array { width: 1, count: 5 },
    ]);
    assert_eq!(decode(&s, &bytes).unwrap(), v);
}

#[test]
fn record_decode_empty_buffer_fails() {
    let s = Shape::Rec(vec![Shape::Uint { width: 1 }, Shape::Uint { width: 1 }]);
    assert_eq!(decode(&s, &[]), Err(SadabyError::UnexpectedToken));
}

fn sum_shape() -> Shape {
    // Variants declared as A, B(u8), C = 10, D in that order.
    Shape::Tagged(vec![
        Variant { ordinal: 0, fields: vec![] },
        Variant { ordinal: 1, fields: vec![Shape::Uint { width: 1 }] },
        Variant { ordinal: 10, fields: vec![] },
        Variant { ordinal: 11, fields: vec![] },
    ])
}

#[test]
fn unit_variant_is_single_discriminant_byte() {
    let c = Value::Tagged { ordinal: 10, fields: vec![] };
    assert_eq!(encode(&c).unwrap(), vec![10]);
    assert_eq!(decode(&sum_shape(), &[10]).unwrap(), c);
}

#[test]
fn single_field_variant_has_no_frame() {
    let b = Value::Tagged { ordinal: 1, fields: vec![byte(7)] };
    assert_eq!(encode(&b).unwrap(), vec![1, 7]);
    assert_eq!(decode(&sum_shape(), &[1, 7]).unwrap(), b);
}

#[test]
fn multi_field_variant_frames_every_field() {
    let s = Shape::Tagged(vec![Variant {
        ordinal: 3,
        fields: vec![Shape::Uint { width: 1 }, Shape::Uint { width: 2 }],
    }]);
    let v = Value::Tagged {
        ordinal: 3,
        fields: vec![byte(9), Value::Uint { width: 2, val: 0x0504 }],
    };
    let bytes = encode(&v).unwrap();
    assert_eq!(bytes, vec![3, 1, 9, 2, 4, 5]);
    assert_eq!(decode(&s, &bytes).unwrap(), v);
}

#[test]
fn unknown_discriminant_fails() {
    assert_eq!(decode(&sum_shape(), &[7]), Err(SadabyError::UnexpectedToken));
    assert_eq!(decode(&sum_shape(), &[]), Err(SadabyError::UnexpectedToken));
}

#[test]
fn frame_of_255_bytes_is_accepted() {
    let big = Value::Array { width: 1, elems: vec![7; 255] };
    let v = Value::Rec(vec![big, byte(1)]);
    let bytes = encode(&v).unwrap();
    assert_eq!(bytes.len(), 1 + 255 + 1 + 1);
    assert_eq!(bytes[0], 255);
    let s = Shape::Rec(vec![Shape::Array { width: 1, count: 255 }, Shape::Uint { width: 1 }]);
    assert_eq!(decode(&s, &bytes).unwrap(), v);
}

#[test]
fn frame_of_256_bytes_is_rejected_at_encode_time() {
    let too_big = Value::Array { width: 1, elems: vec![7; 256] };
    let v = Value::Rec(vec![too_big, byte(1)]);
    assert_eq!(encode(&v), None);
    let in_sequence = Value::Sequence(vec![Value::Array { width: 1, elems: vec![7; 256] }]);
    assert_eq!(encode(&in_sequence), None);
}

#[test]
fn unframed_single_field_may_exceed_255_bytes() {
    // A lone record field is written without a frame, so the cap does
    // not apply to it.
    let big = Value::Array { width: 1, elems: vec![7; 300] };
    let v = Value::Rec(vec![big]);
    let bytes = encode(&v).unwrap();
    assert_eq!(bytes.len(), 300);
    let s = Shape::Rec(vec![Shape::Array { width: 1, count: 300 }]);
    assert_eq!(decode(&s, &bytes).unwrap(), v);
}

#[test]
fn nested_record_round_trip() {
    let inner = Value::Rec(vec![byte(1), byte(2)]);
    let v = Value::Rec(vec![inner, Value::Opt(Some(Box::new(byte(3))))]);
    let inner_s = Shape::Rec(vec![Shape::Uint { width: 1 }, Shape::Uint { width: 1 }]);
    let s = Shape::Rec(vec![inner_s, Shape::Opt(Box::new(Shape::Uint { width: 1 }))]);
    let bytes = encode(&v).unwrap();
    assert_eq!(bytes, vec![4, 1, 1, 1, 2, 2, 83, 3]);
    assert_eq!(decode(&s, &bytes).unwrap(), v);
}
