use qr::bitmap::{make_bitmap, qr_to_bitmap};
use qr::encoding::ECLevel;
use qr::qr::Qr;

#[test]
fn bitmap_of_two_by_one() {
    let bmp = make_bitmap(&[vec![true, false]]).unwrap();
    // 2 pixels: 6 bytes and 2 padding bytes per row, one row
    assert_eq!(bmp.len(), 54 + 8);
    assert_eq!(&bmp[0..2], b"BM");
    assert_eq!(&bmp[2..6], &[62, 0, 0, 0]);
    assert_eq!(&bmp[10..14], &[0x36, 0, 0, 0]);
    assert_eq!(&bmp[14..18], &[0x28, 0, 0, 0]);
    assert_eq!(&bmp[18..22], &[2, 0, 0, 0]);
    assert_eq!(&bmp[22..26], &[1, 0, 0, 0]);
    assert_eq!(&bmp[26..30], &[1, 0, 0x18, 0]);
    assert_eq!(&bmp[34..38], &[8, 0, 0, 0]);
    assert_eq!(&bmp[54..], &[0, 0, 0, 255, 255, 255, 0, 0]);
}

#[test]
fn bitmap_rows_are_bottom_up() {
    let bmp = make_bitmap(&[vec![true, true, true, true], vec![false, false, false, false]]).unwrap();
    assert_eq!(bmp.len(), 54 + 2 * 12);
    assert!(bmp[54..66].iter().all(|b| *b == 255));
    assert!(bmp[66..78].iter().all(|b| *b == 0));
}

#[test]
fn bitmap_refuses_empty_and_ragged() {
    assert_eq!(make_bitmap(&[]), None);
    assert_eq!(make_bitmap(&[vec![]]), None);
    assert_eq!(make_bitmap(&[vec![true], vec![true, false]]), None);
}

#[test]
fn symbol_bitmap_size() {
    let qr = Qr::make_qr("HELLO WORLD", Some(ECLevel::Quartile), None, None).unwrap();
    let bmp = qr_to_bitmap(&qr).unwrap();
    let side = (21 + 8) * 4;
    assert_eq!(bmp.len(), 54 + side * (3 * side + side % 4));
    assert_eq!(&bmp[18..22], &[side as u8, 0, 0, 0]);
    // the top-left finder corner is black: image row side-1-16, column 16
    let row = side - 1 - 16;
    let offset = 54 + row * (3 * side + side % 4) + 3 * 16;
    assert_eq!(&bmp[offset..offset + 3], &[0, 0, 0]);
    // quiet zone is white
    assert_eq!(&bmp[54..57], &[255, 255, 255]);
}
