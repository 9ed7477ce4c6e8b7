use qr::bitstream::Bitstream;
use qr::error::QrError;

#[test]
fn test_bitstream_bool() {
    let mut b = Bitstream::new();
    b.push(false);
    b.push(true);
    b.push(false);
    b.push(true);
    b.push(false);
    b.push(true);
    b.push(false);
    b.push(true);

    b.push(true);
    b.push(false);
    b.push(true);

    assert_eq!(b.as_bytes(), vec![0b01010101, 0b10100000])
}

#[test]
fn test_bitstream_u8() {
    let mut b = Bitstream::new();
    b.push_u8(0xAB, 8).unwrap();
    b.push_u8(0xAA, 3).unwrap();
    assert_eq!(b.as_bytes(), vec![0xAB, 0x40])
}

#[test]
fn test_bitstream_u16() {
    let mut b = Bitstream::new();
    b.push_u16(0xABCD, 16).unwrap();
    b.push_u16(0x0005, 1).unwrap();
    assert_eq!(b.as_bytes(), vec![0xAB, 0xCD, 0x80])
}

#[test]
fn test_bitstream_u32() {
    let mut b = Bitstream::new();
    b.push_u32(0xABCDEF12, 32).unwrap();
    b.push_u32(0x00000005, 1).unwrap();
    assert_eq!(b.as_bytes(), vec![0xAB, 0xCD, 0xEF, 0x12, 0x80])
}

#[test]
fn width_beyond_the_integer_is_refused() {
    let mut b = Bitstream::new();
    assert_eq!(b.push_u8(1, 9), Err(QrError::WidthExceeded));
    assert_eq!(b.push_u16(1, 17), Err(QrError::WidthExceeded));
    assert_eq!(b.push_u32(1, 33), Err(QrError::WidthExceeded));
    assert_eq!(b.bit_len(), 0);
}

#[test]
fn pushed_value_reads_back() {
    let mut b = Bitstream::new();
    b.push(true);
    b.push_u16(0b10_1100_1110, 10).unwrap();
    let bits = b.into_bits();
    let mut v: u32 = 0;
    for bit in &bits[1..] {
        v = v * 2 + (*bit as u32);
    }
    assert_eq!(v, 0b10_1100_1110);
    assert_eq!(bits.len(), 11);
}

#[test]
fn lengths_and_free_bits() {
    let mut b = Bitstream::from_bytes(&[0x12, 0x34]);
    assert_eq!(b.len(), 2);
    assert_eq!(b.free_bits(), 0);
    b.push(true);
    assert_eq!(b.len(), 3);
    assert_eq!(b.free_bits(), 1);
    assert_eq!(b.as_bytes(), vec![0x12, 0x34, 0x80]);
    assert_eq!(Bitstream::new().len(), 0);
}

#[test]
fn bitstream_into_vec() {
    let mut b = Bitstream::new();
    b.push_u8(0b101, 3).unwrap();
    assert_eq!(Vec::<bool>::from(b), vec![true, false, true]);
}
