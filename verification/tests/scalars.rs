use sadaby::Sadaby;
use sadaby::SadabyError;
use sadaby::shape::assign_ordinals;
use sadaby::shape::record_shape;
use sadaby::shape::Shape;

#[test]
fn u8_round_trip() {
    assert_eq!(7u8.se_bytes(), vec![7]);
    assert_eq!(u8::de_bytes(&[7]), Ok(7));
    assert_eq!(u8::de_bytes(&[]), Err(SadabyError::UnexpectedToken));
}

#[test]
fn i8_round_trip() {
    assert_eq!((-2i8).se_bytes(), vec![0xfe]);
    assert_eq!(i8::de_bytes(&[0xfe]), Ok(-2));
}

#[test]
fn u16_little_endian() {
    assert_eq!(0x1234u16.se_bytes(), vec![0x34, 0x12]);
    assert_eq!(u16::de_bytes(&[0x34, 0x12]), Ok(0x1234));
    assert_eq!(u16::de_bytes(&[0x34]), Err(SadabyError::UnexpectedToken));
}

#[test]
fn u32_little_endian() {
    assert_eq!(0x01020304u32.se_bytes(), vec![4, 3, 2, 1]);
    assert_eq!(u32::de_bytes(&[4, 3, 2, 1]), Ok(0x01020304));
}

#[test]
fn u64_round_trip() {
    let x = 0x1122334455667788u64;
    assert_eq!(u64::de_bytes(&x.se_bytes()), Ok(x));
    assert_eq!(x.se_bytes(), x.to_le_bytes().to_vec());
}

#[test]
fn u128_round_trip() {
    let x = 0x000102030405060708090a0b0c0d0e0fu128;
    assert_eq!(x.se_bytes(), x.to_le_bytes().to_vec());
    assert_eq!(u128::de_bytes(&x.se_bytes()), Ok(x));
}

#[test]
fn signed_round_trips() {
    assert_eq!(i16::de_bytes(&(-513i16).se_bytes()), Ok(-513));
    assert_eq!(i32::de_bytes(&(-70000i32).se_bytes()), Ok(-70000));
    assert_eq!(i64::de_bytes(&(-5_000_000_000i64).se_bytes()), Ok(-5_000_000_000));
    assert_eq!(i128::de_bytes(&(-1i128).se_bytes()), Ok(-1));
    assert_eq!((-1i128).se_bytes(), vec![0xff; 16]);
}

#[test]
fn bool_wire_bytes() {
    assert_eq!(true.se_bytes(), vec![1]);
    assert_eq!(false.se_bytes(), vec![0]);
    assert_eq!(bool::de_bytes(&[0]), Ok(false));
    assert_eq!(bool::de_bytes(&[1]), Ok(true));
    assert_eq!(bool::de_bytes(&[2]), Err(SadabyError::UnexpectedToken));
}

#[test]
fn char_encodes_low_byte() {
    assert_eq!('A'.se_bytes(), vec![65]);
    assert_eq!(char::de_bytes(&[65]), Ok('A'));
    // A character above one byte keeps only its low eight bits.
    assert_eq!('\u{0141}'.se_bytes(), vec![0x41]);
    assert_eq!(char::de_bytes(&'\u{0141}'.se_bytes()), Ok('A'));
}

#[test]
fn option_wire_bytes() {
    assert_eq!(Some(5u8).se_bytes(), vec![83, 5]);
    assert_eq!(None::<u8>.se_bytes(), vec![78]);
    assert_eq!(Option::<u8>::de_bytes(&[83, 5]), Ok(Some(5)));
    assert_eq!(Option::<u8>::de_bytes(&[78]), Ok(None));
    assert_eq!(Option::<u8>::de_bytes(&[66, 5]), Err(SadabyError::UnexpectedToken));
}

#[test]
fn nested_option_round_trip() {
    let v: Option<Option<u16>> = Some(Some(0x0102));
    assert_eq!(v.se_bytes(), vec![83, 83, 2, 1]);
    assert_eq!(Option::<Option<u16>>::de_bytes(&[83, 83, 2, 1]), Ok(v));
    assert_eq!(Option::<Option<u16>>::de_bytes(&[83, 78]), Ok(Some(None)));
}

#[test]
fn tuple_frames_first_element_only() {
    let v = (0x0102u16, 9u8);
    assert_eq!(v.se_bytes(), vec![2, 2, 1, 9]);
    assert_eq!(<(u16, u8)>::de_bytes(&[2, 2, 1, 9]), Ok((0x0102u16, 9u8)));
    assert_eq!(<(u16, u8)>::de_bytes(&[9, 2, 1]), Err(SadabyError::UnexpectedToken));
}

#[test]
fn zero_field_record_is_refused() {
    assert_eq!(record_shape(vec![]), None);
    assert_eq!(
        record_shape(vec![Shape::Uint { width: 1 }]),
        Some(Shape::Rec(vec![Shape::Uint { width: 1 }]))
    );
}

#[test]
fn ordinal_assignment_counts_and_resets() {
    // Variants A, B(x), C = 10, D in declaration order.
    let decl = vec![None, None, Some(10u8), None];
    assert_eq!(assign_ordinals(&decl), vec![0, 1, 10, 11]);
    let plain = vec![None::<u8>, None, None];
    assert_eq!(assign_ordinals(&plain), vec![0, 1, 2]);
    let wrap = vec![Some(255u8), None];
    assert_eq!(assign_ordinals(&wrap), vec![255, 0]);
}
