use naumi::codec::{CodecError, Convert};
use naumi::varint::{from_var_int, from_var_int_rev, to_var_int, VarInt};

fn round_trip<T: Convert + PartialEq + std::fmt::Debug>(x: T) {
    let mut buf = x.to_bytes_return();
    let y = T::from_bytes(&mut buf).expect("decode failed");
    assert_eq!(y, x);
    assert!(buf.is_empty());
}

#[test]
fn unsigned_boundary_round_trips() {
    round_trip(0u8);
    round_trip(u8::MAX);
    round_trip(0u16);
    round_trip(u16::MAX);
    round_trip(0u32);
    round_trip(u32::MAX);
    round_trip(0u64);
    round_trip(u64::MAX);
    round_trip(0u128);
    round_trip(u128::MAX);
    round_trip(0usize);
    round_trip(usize::MAX);
}

#[test]
fn signed_boundary_round_trips() {
    round_trip(0i8);
    round_trip(i8::MIN);
    round_trip(i8::MAX);
    round_trip(0i16);
    round_trip(i16::MIN);
    round_trip(i16::MAX);
    round_trip(0i32);
    round_trip(i32::MIN);
    round_trip(i32::MAX);
    round_trip(0i64);
    round_trip(i64::MIN);
    round_trip(i64::MAX);
    round_trip(0i128);
    round_trip(i128::MIN);
    round_trip(i128::MAX);
    round_trip(0isize);
    round_trip(isize::MIN);
    round_trip(isize::MAX);
}

#[test]
fn bool_round_trips() {
    round_trip(true);
    round_trip(false);
}

#[test]
fn little_endian_layout() {
    assert_eq!(0xABCDu16.to_bytes_return(), vec![0xCD, 0xAB]);
    assert_eq!(0x0102_0304u32.to_bytes_return(), vec![0x04, 0x03, 0x02, 0x01]);
    assert_eq!((-2i8).to_bytes_return(), vec![0xFE]);
    assert_eq!((-1i16).to_bytes_return(), vec![0xFF, 0xFF]);
    assert_eq!(1usize.to_bytes_return(), vec![1, 0, 0, 0, 0, 0, 0, 0]);
}

#[test]
fn bool_layout_and_invalid_byte() {
    assert_eq!(true.to_bytes_return(), vec![1]);
    assert_eq!(false.to_bytes_return(), vec![0]);
    let mut buf = vec![2u8];
    assert_eq!(bool::from_bytes(&mut buf), Err(CodecError::InvalidData));
}

#[test]
fn primitive_eof() {
    let mut empty: Vec<u8> = vec![];
    assert_eq!(u8::from_bytes(&mut empty), Err(CodecError::UnexpectedEof));
    let mut short = vec![1u8, 2u8];
    assert_eq!(u32::from_bytes(&mut short), Err(CodecError::UnexpectedEof));
    let mut none: Vec<u8> = vec![];
    assert_eq!(bool::from_bytes(&mut none), Err(CodecError::UnexpectedEof));
}

#[test]
fn var_int_forward_encodings() {
    assert_eq!(to_var_int(0), vec![0x00]);
    assert_eq!(to_var_int(127), vec![0x7F]);
    assert_eq!(to_var_int(128), vec![0x80, 0x01]);
    assert_eq!(to_var_int(300), vec![0xAC, 0x02]);
    assert_eq!(to_var_int(u32::MAX), vec![0xFF, 0xFF, 0xFF, 0xFF, 0x0F]);
}

#[test]
fn var_int_forward_decode() {
    assert_eq!(from_var_int(&[0x00]), Ok((0, 1)));
    assert_eq!(from_var_int(&[0x7F]), Ok((127, 1)));
    assert_eq!(from_var_int(&[0x80, 0x01]), Ok((128, 2)));
    assert_eq!(from_var_int(&[0xAC, 0x02, 0x55]), Ok((300, 2)));
    assert_eq!(from_var_int(&[]), Err(CodecError::InvalidData));
    assert_eq!(
        from_var_int(&[0x80, 0x80, 0x80, 0x80, 0x80]),
        Err(CodecError::InvalidData)
    );
    assert_eq!(from_var_int(&[0x80, 0x80]), Err(CodecError::InvalidData));
}

#[test]
fn var_int_reversed_decode() {
    // The tag 300 in reversed orientation sits at the tail of a buffer.
    let buf = vec![0x99u8, 0x02, 0xAC];
    assert_eq!(from_var_int_rev(&buf), Ok((300, 2)));
    let all_continuation = vec![0x80u8, 0x80, 0x80, 0x80, 0x80];
    assert_eq!(from_var_int_rev(&all_continuation), Err(CodecError::InvalidData));
}

#[test]
fn var_int_value_round_trips() {
    for v in [0u32, 1, 127, 128, 255, 300, 16383, 16384, 2097151, u32::MAX] {
        round_trip(VarInt(v));
        let bytes = to_var_int(v);
        let n = bytes.len();
        assert_eq!(from_var_int(&bytes), Ok((v, n)));
    }
}

#[test]
fn var_int_tag_layout() {
    // In-buffer tags are the forward bytes written back to front.
    assert_eq!(VarInt(300).to_bytes_return(), vec![0x02, 0xAC]);
    assert_eq!(VarInt(0).to_bytes_return(), vec![0x00]);
}
