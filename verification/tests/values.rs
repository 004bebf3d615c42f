//! The typed attribute constructors and accessors.

use zusi_protocol::node::{Attribute, DecodeError};

#[test]
fn from_bytes_keeps_payload_verbatim() {
    let a = Attribute::from_bytes(0x0042, &[1, 2, 3]);
    assert_eq!(a.id, 0x0042);
    assert_eq!(a.value, vec![1, 2, 3]);
}

#[test]
fn u8_round_trip() {
    let a = Attribute::from_u8(0x0001, 0xAB);
    assert_eq!(a.value, vec![0xAB]);
    assert_eq!(a.as_u8().unwrap(), 0xAB);
}

#[test]
fn u16_round_trip_little_endian() {
    let a = Attribute::from_u16(0x0001, 0x1234);
    assert_eq!(a.value, vec![0x34, 0x12]);
    assert_eq!(a.as_u16().unwrap(), 0x1234);
}

#[test]
fn u32_little_endian_layout() {
    let a = Attribute::from_u32(0x0001, 0xDEADBEEF);
    assert_eq!(a.value, vec![0xEF, 0xBE, 0xAD, 0xDE]);
}

#[test]
fn i16_twos_complement_little_endian() {
    let a = Attribute::from_i16(0x0001, -2);
    assert_eq!(a.value, vec![0xFE, 0xFF]);
    let b = Attribute::from_i16(0x0001, 0x0102);
    assert_eq!(b.value, vec![0x02, 0x01]);
}

#[test]
fn string_round_trip() {
    let a = Attribute::from_str(0x0003, "client");
    assert_eq!(a.value, b"client".to_vec());
    assert_eq!(a.to_str().unwrap(), "client");

    let b = Attribute::from_str(0x0003, "Zürich 列車");
    assert_eq!(b.value, "Zürich 列車".as_bytes().to_vec());
    assert_eq!(b.to_str().unwrap(), "Zürich 列車");
}

#[test]
fn accessors_ignore_excess_bytes() {
    let a = Attribute::from_bytes(0x0001, &[0x34, 0x12, 0xFF, 0xFF, 0xFF]);
    assert_eq!(a.as_u8().unwrap(), 0x34);
    assert_eq!(a.as_u16().unwrap(), 0x1234);
}

#[test]
fn too_short_payloads_are_refused() {
    let empty = Attribute::from_bytes(0x0001, &[]);
    assert_eq!(empty.as_u8(), Err(DecodeError::TooShort));
    assert_eq!(empty.as_u16(), Err(DecodeError::TooShort));
    let one = Attribute::from_u8(0x0001, 9);
    assert_eq!(one.as_u16(), Err(DecodeError::TooShort));
}

#[test]
fn invalid_utf8_is_refused() {
    let a = Attribute::from_bytes(0x0003, &[0xFF, 0xFE]);
    assert_eq!(a.to_str(), Err(DecodeError::InvalidUtf8));
    let overlong = Attribute::from_bytes(0x0003, &[0xC0, 0x80]);
    assert_eq!(overlong.to_str(), Err(DecodeError::InvalidUtf8));
}
