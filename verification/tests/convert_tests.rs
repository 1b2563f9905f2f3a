use binja::convert::ByteOrderConvertible;

fn le<T: ByteOrderConvertible>(bytes: &[u8]) -> T {
    <T as ByteOrderConvertible>::from_le_bytes(bytes)
}

fn be<T: ByteOrderConvertible>(bytes: &[u8]) -> T {
    <T as ByteOrderConvertible>::from_be_bytes(bytes)
}

#[test]
fn from_le_bytes_unsigned() {
    assert_eq!(7u8, le::<u8>(&[7]));
    assert_eq!(0x0201u16, le::<u16>(&[0x01, 0x02]));
    assert_eq!(0x04030201u32, le::<u32>(&[0x01, 0x02, 0x03, 0x04]));
    assert_eq!(0x0807060504030201u64, le::<u64>(&[1, 2, 3, 4, 5, 6, 7, 8]));
    assert_eq!(
        1u128 << 120,
        le::<u128>(&[0, 0, 0, 0, 0, 0, 0, 0, 0, 0, 0, 0, 0, 0, 0, 1])
    );
}

#[test]
fn from_be_bytes_unsigned() {
    assert_eq!(0x0102u16, be::<u16>(&[0x01, 0x02]));
    assert_eq!(0x01020304u32, be::<u32>(&[0x01, 0x02, 0x03, 0x04]));
    assert_eq!(0x0102030405060708u64, be::<u64>(&[1, 2, 3, 4, 5, 6, 7, 8]));
}

#[test]
fn from_bytes_signed() {
    assert_eq!(-1i8, le::<i8>(&[0xff]));
    assert_eq!(-2i16, le::<i16>(&[0xfe, 0xff]));
    assert_eq!(-2i16, be::<i16>(&[0xff, 0xfe]));
    assert_eq!(i32::MIN, be::<i32>(&[0x80, 0, 0, 0]));
    assert_eq!(-1i64, le::<i64>(&[0xff; 8]));
    assert_eq!(-1i128, be::<i128>(&[0xff; 16]));
    assert_eq!(
        i128::MIN,
        le::<i128>(&[0, 0, 0, 0, 0, 0, 0, 0, 0, 0, 0, 0, 0, 0, 0, 0x80])
    );
}
