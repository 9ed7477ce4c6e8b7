use qr::error::QrError;
use qr::rsec::{
    gf_add, gf_div, gf_mul, gf_sub, poly_mul, qr_format_check, qr_format_encode,
    qr_format_encode_masked, rs_encode, rs_generator_poly,
};

#[test]
fn test_gf_add_sub() {
    assert_eq!(gf_add(0b0101, 0b0110), 0b011);
    assert_eq!(gf_sub(0b0101, 0b0110), 0b011);
}

#[test]
fn test_gf_mul() {
    assert_eq!(gf_mul(0, 0b00101010), 0);
    assert_eq!(gf_mul(0b10001001, 0), 0);
    assert_eq!(gf_mul(0b10001001, 0b00101010), 0b11000011);
}

#[test]
fn test_gf_div() {
    assert_eq!(gf_div(0, 0b00101010), Ok(0));
    assert_eq!(gf_div(0b10001001, 0b00101010), Ok(0b11011100));
}

#[test]
fn gf_div_by_zero_fails() {
    assert_eq!(gf_div(0b10001001, 0), Err(QrError::DivByZero));
    assert_eq!(gf_div(0, 0), Err(QrError::DivByZero));
}

#[test]
fn gf_laws_on_all_pairs() {
    for x in 0..=255u8 {
        assert_eq!(gf_mul(x, 0), 0);
        assert_eq!(gf_add(x, x), 0);
        for y in 0..=255u8 {
            assert_eq!(gf_mul(x, y), gf_mul(y, x));
            if y != 0 {
                assert_eq!(gf_div(gf_mul(x, y), y), Ok(x));
            }
        }
    }
}

#[test]
fn test_poly_mul() {
    let x = vec![0x01, 0x02, 0x03];
    let y = vec![0x04, 0x05, 0x06];
    assert_eq!(poly_mul(&x, &y), vec![0x04, 0x0D, 0x00, 0x03, 0x0A]);
}

#[test]
fn test_poly_mul_weird() {
    let x = vec![1];
    let y = vec![1, 1];
    assert_eq!(poly_mul(&x, &y), vec![1, 1]);
}

#[test]
fn test_gen_poly() {
    assert_eq!(
        rs_generator_poly(16),
        vec![1, 59, 13, 104, 189, 68, 209, 30, 8, 163, 65, 41, 229, 98, 50, 36, 59]
    )
}

#[test]
fn gen_poly_of_zero_is_one() {
    assert_eq!(rs_generator_poly(0), vec![1]);
    assert_eq!(rs_generator_poly(1), vec![1, 1]);
}

#[test]
fn test_encode() {
    let data = vec![
        0x40, 0xD2, 0x75, 0x47, 0x76, 0x17, 0x32, 0x06, 0x27, 0x26, 0x96, 0xC6, 0xC6, 0x96,
        0x70, 0xEC,
    ];
    let res = rs_encode(&data, 10);
    assert_eq!(
        res,
        Ok(vec![
            0x40, 0xD2, 0x75, 0x47, 0x76, 0x17, 0x32, 0x06, 0x27, 0x26, 0x96, 0xC6, 0xC6, 0x96,
            0x70, 0xEC, 0xBC, 0x2A, 0x90, 0x13, 0x6B, 0xAF, 0xEF, 0xFD, 0x4B, 0xE0,
        ])
    )
}

#[test]
fn test_encode_2() {
    let data = vec![
        0x40, 0x77, 0x46, 0x57, 0x37, 0x42, 0x03, 0xA3, 0x30, 0xEC, 0x11, 0xEC, 0x11, 0xEC,
        0x11, 0xEC, 0x11, 0xEC, 0x11,
    ];
    let res = rs_encode(&data, 7);
    assert_eq!(
        res,
        Ok(vec![
            0x40, 0x77, 0x46, 0x57, 0x37, 0x42, 0x03, 0xA3, 0x30, 0xEC, 0x11, 0xEC, 0x11, 0xEC,
            0x11, 0xEC, 0x11, 0xEC, 0x11, 0xD7, 0x39, 0xC0, 0x0C, 0x03, 0x43, 0x5C,
        ])
    )
}

#[test]
fn rs_encode_rejects_long_blocks() {
    let data = vec![7u8; 250];
    assert_eq!(rs_encode(&data, 6), Err(QrError::MessageTooLong));
    assert!(rs_encode(&data, 5).is_ok());
}

#[test]
fn test_format_encode() {
    assert_eq!(qr_format_encode(0b00011), 0b000111101011001)
}

#[test]
fn format_check_and_mask() {
    assert_eq!(qr_format_check(0b00011 << 10), 0b1101011001);
    assert_eq!(qr_format_encode_masked(0b00011), 0b000111101011001 ^ 0b101010000010010);
    assert_eq!(qr_format_encode(0), 0);
}
