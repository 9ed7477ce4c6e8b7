use qr::encoding::{
    data_len, detect_mode, detect_version, encode, get_length_bits, interleave_and_ec,
    num_data_codewords, select_version, ECLevel, Mode,
};
use qr::error::QrError;

#[test]
fn test_detect_mode() {
    assert_eq!(detect_mode("123456"), Ok(Mode::Numeric));
    assert_eq!(detect_mode("123456ABC"), Ok(Mode::Alphanumeric));
    assert_eq!(detect_mode("123456ABCabc'!%&"), Ok(Mode::Byte));
    assert_eq!(detect_mode("123456ABCDEFabcdef'!%&¥"), Err(QrError::UnsupportedInput));
    assert_eq!(detect_mode("一二三四五六七八九十"), Err(QrError::UnsupportedInput));
}

#[test]
fn detect_mode_of_empty_and_symbols() {
    assert_eq!(detect_mode(""), Ok(Mode::Numeric));
    assert_eq!(detect_mode("HELLO WORLD $%*+-./:"), Ok(Mode::Alphanumeric));
    assert_eq!(detect_mode("hello"), Ok(Mode::Byte));
}

#[test]
fn test_get_length_bits() {
    assert_eq!(get_length_bits(Mode::Numeric, 1), Some(10));
    assert_eq!(get_length_bits(Mode::Alphanumeric, 15), Some(11));
    assert_eq!(get_length_bits(Mode::Byte, 29), Some(16));
    assert_eq!(get_length_bits(Mode::Kanji, 14), Some(10));
}

#[test]
fn length_bits_out_of_range() {
    assert_eq!(get_length_bits(Mode::Byte, 0), None);
    assert_eq!(get_length_bits(Mode::Byte, 41), None);
    assert_eq!(get_length_bits(Mode::Byte, 9), Some(8));
    assert_eq!(get_length_bits(Mode::Byte, 10), Some(16));
    assert_eq!(get_length_bits(Mode::Numeric, 40), Some(14));
}

#[test]
fn test_data_len() {
    assert_eq!(data_len(Mode::Byte, 4), 32);
    assert_eq!(data_len(Mode::Numeric, 6), 20);
    assert_eq!(data_len(Mode::Numeric, 7), 24);
    assert_eq!(data_len(Mode::Numeric, 8), 27);
    assert_eq!(data_len(Mode::Alphanumeric, 4), 22);
    assert_eq!(data_len(Mode::Alphanumeric, 5), 28);
}

#[test]
fn data_codeword_counts() {
    assert_eq!(num_data_codewords(1, ECLevel::Low), 19);
    assert_eq!(num_data_codewords(1, ECLevel::Medium), 16);
    assert_eq!(num_data_codewords(1, ECLevel::Quartile), 13);
    assert_eq!(num_data_codewords(1, ECLevel::High), 9);
    assert_eq!(num_data_codewords(5, ECLevel::Quartile), 62);
    assert_eq!(num_data_codewords(40, ECLevel::Low), 2956);
}

#[test]
fn version_selection() {
    assert_eq!(detect_version(Mode::Alphanumeric, 11, ECLevel::Quartile), Some(1));
    assert_eq!(detect_version(Mode::Byte, 17, ECLevel::Low), Some(1));
    assert_eq!(detect_version(Mode::Byte, 18, ECLevel::Low), Some(2));
    assert_eq!(detect_version(Mode::Byte, 2953, ECLevel::Low), Some(40));
    assert_eq!(detect_version(Mode::Byte, 2954, ECLevel::Low), None);
    assert_eq!(select_version(Mode::Byte, 1, ECLevel::Low, 5), Ok(5));
    assert_eq!(select_version(Mode::Byte, 1, ECLevel::Low, 0), Err(QrError::InvalidVersion));
    assert_eq!(select_version(Mode::Byte, 1, ECLevel::Low, 41), Err(QrError::InvalidVersion));
    assert_eq!(select_version(Mode::Byte, 3000, ECLevel::Low, 1), Err(QrError::Capacity));
}

#[test]
fn version_selection_is_monotone() {
    for mode in [Mode::Numeric, Mode::Alphanumeric, Mode::Byte] {
        for ec in [ECLevel::Low, ECLevel::Medium, ECLevel::Quartile, ECLevel::High] {
            let mut last = 0;
            for len in 0..3000 {
                match detect_version(mode, len, ec) {
                    Some(v) => {
                        assert!(v >= last);
                        last = v;
                    }
                    None => last = 41,
                }
            }
        }
    }
}

#[test]
fn encode_hello_world() {
    let cw = encode("HELLO WORLD", Mode::Alphanumeric, 1, ECLevel::Medium).unwrap();
    assert_eq!(
        cw,
        vec![
            0x20, 0x5B, 0x0B, 0x78, 0xD1, 0x72, 0xDC, 0x4D, 0x43, 0x40, 0xEC, 0x11, 0xEC, 0x11,
            0xEC, 0x11, 0xC4, 0x23, 0x27, 0x77, 0xEB, 0xD7, 0xE7, 0xE2, 0x5D, 0x17,
        ]
    );
    assert_eq!(encode("hello", Mode::Numeric, 1, ECLevel::Medium), None);
    assert_eq!(encode("HELLO WORLD", Mode::Alphanumeric, 0, ECLevel::Medium), None);
    assert_eq!(encode("HELLO WORLD", Mode::Kanji, 1, ECLevel::Medium), None);
}

#[test]
fn test_interleave() {
    assert_eq!(
        interleave_and_ec(
            &[
                0x41, 0x14, 0x86, 0x56, 0xC6, 0xC6, 0xF2, 0xC2, 0x07, 0x76, 0xF7, 0x26, 0xC6,
                0x42, 0x12, 0x03, 0x13, 0x23, 0x30, 0xEC, 0x11, 0xEC, 0x11, 0xEC, 0x11, 0xEC,
                0x11, 0xEC, 0x11, 0xEC, 0x11, 0xEC, 0x11, 0xEC, 0x11, 0xEC, 0x11, 0xEC, 0x11,
                0xEC, 0x11, 0xEC, 0x11, 0xEC, 0x11, 0xEC, 0x11, 0xEC, 0x11, 0xEC, 0x11, 0xEC,
                0x11, 0xEC, 0x11, 0xEC, 0x11, 0xEC, 0x11, 0xEC, 0x11, 0xEC,
            ],
            5,
            ECLevel::Quartile
        ),
        vec![
            0x41, 0x03, 0x11, 0x11, 0x14, 0x13, 0xEC, 0xEC, 0x86, 0x23, 0x11, 0x11, 0x56, 0x30,
            0xEC, 0xEC, 0xC6, 0xEC, 0x11, 0x11, 0xC6, 0x11, 0xEC, 0xEC, 0xF2, 0xEC, 0x11, 0x11,
            0xC2, 0x11, 0xEC, 0xEC, 0x07, 0xEC, 0x11, 0x11, 0x76, 0x11, 0xEC, 0xEC, 0xF7, 0xEC,
            0x11, 0x11, 0x26, 0x11, 0xEC, 0xEC, 0xC6, 0xEC, 0x11, 0x11, 0x42, 0x11, 0xEC, 0xEC,
            0x12, 0xEC, 0x11, 0x11, 0xEC, 0xEC, 0x4A, 0x55, 0x87, 0x87, 0x83, 0xF3, 0x93, 0x93,
            0x59, 0x98, 0x07, 0x07, 0x2F, 0xEE, 0x29, 0x29, 0x66, 0xA5, 0x80, 0x80, 0x25, 0x27,
            0x96, 0x96, 0xBB, 0xC8, 0x78, 0x78, 0xCF, 0xED, 0xB8, 0xB8, 0x37, 0x9F, 0x25, 0x25,
            0xAF, 0xBE, 0xB5, 0xB5, 0xC2, 0xB1, 0xCD, 0xCD, 0x7F, 0x23, 0xDE, 0xDE, 0x6B, 0x09,
            0xE7, 0xE7, 0xC1, 0x7A, 0x08, 0x08, 0x9D, 0x9C, 0x2C, 0x2C, 0xD1, 0xD9, 0x51, 0x51,
            0x41, 0x38, 0xAD, 0xAD, 0x89, 0xD8, 0x50, 0x50,
        ]
    )
}
