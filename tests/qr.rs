use qr::encoding::{num_data_codewords, ECLevel};
use qr::error::QrError;
use qr::penalty::score_matrix;
use qr::qr::{
    apply_mask, data_positions, get_alignment_locations, is_alignment_pattern, make_fixed_patterns,
    module_type, version_info, version_to_width, ModuleOrder, ModuleType, Qr,
};
use qr::tables::{ECC_PER_BLOCK, NUM_BLOCKS, REMAINDER_BITS};

#[test]
fn test_alignment_locations_v1() {
    assert_eq!(get_alignment_locations(1), vec![])
}

#[test]
fn test_alignment_locations_v7() {
    assert_eq!(
        get_alignment_locations(7),
        vec![(6, 22), (22, 6), (22, 22), (22, 38), (38, 22), (38, 38)]
    )
}

#[test]
fn alignment_locations_v2() {
    assert_eq!(get_alignment_locations(2), vec![(18, 18)]);
    assert!(is_alignment_pattern(2, (16, 20)));
    assert!(!is_alignment_pattern(2, (15, 18)));
}

#[test]
fn widths() {
    assert_eq!(version_to_width(1), Some(21));
    assert_eq!(version_to_width(40), Some(177));
    assert_eq!(version_to_width(0), None);
    assert_eq!(version_to_width(41), None);
}

#[test]
fn version_information_words() {
    assert_eq!(version_info(7), 0x07C94);
    assert_eq!(version_info(40), 0x28C69);
}

#[test]
fn module_types() {
    assert_eq!(module_type(1, (0, 0)), ModuleType::Finder);
    assert_eq!(module_type(1, (6, 10)), ModuleType::Timing);
    assert_eq!(module_type(1, (13, 8)), ModuleType::Pixel);
    assert_eq!(module_type(1, (8, 2)), ModuleType::Format);
    assert_eq!(module_type(1, (20, 20)), ModuleType::Data);
    assert_eq!(module_type(2, (18, 18)), ModuleType::Alignment);
    assert_eq!(module_type(7, (34, 0)), ModuleType::Version);
}

#[test]
fn fixed_patterns_depend_on_version_only() {
    for v in 1..=40 {
        assert_eq!(make_fixed_patterns(v), make_fixed_patterns(v));
        let b = make_fixed_patterns(v).unwrap();
        let w = 4 * v + 17;
        assert_eq!(b.len(), w);
        assert!(b[w - 8][8]);
        assert!(b[0][0] && b[0][w - 1] && b[w - 1][0]);
        assert!(!b[1][1] && b[2][2]);
        assert_eq!(Qr::make_blank(v, ECLevel::Low).data, Qr::make_blank(v, ECLevel::High).data);
    }
    assert_eq!(make_fixed_patterns(0), None);
    assert_eq!(make_fixed_patterns(41), None);
}

#[test]
fn data_module_count_matches_capacity() {
    let ecs = [ECLevel::Low, ECLevel::Medium, ECLevel::Quartile, ECLevel::High];
    for v in 1..=40usize {
        let count = data_positions(v).len();
        for (row, ec) in ecs.iter().enumerate() {
            let idx = row * 40 + v - 1;
            let total = num_data_codewords(v, *ec)
                + ECC_PER_BLOCK[idx] as usize * NUM_BLOCKS[idx] as usize;
            assert_eq!(count, 8 * total + REMAINDER_BITS[v - 1] as usize);
        }
    }
}

#[test]
fn module_order_starts_bottom_right() {
    let mut order = ModuleOrder::new(1);
    assert_eq!(order.next(), Some((20, 20)));
    assert_eq!(order.next(), Some((20, 19)));
    assert_eq!(order.next(), Some((19, 20)));
    let positions = data_positions(1);
    assert_eq!(positions.len(), 208);
    assert_eq!(positions[0], (20, 20));
    assert_eq!(*positions.last().unwrap(), (12, 0));
    let mut rest = ModuleOrder::new(1);
    let mut n = 0;
    while rest.next().is_some() {
        n += 1;
    }
    assert_eq!(n, 208);
}

#[test]
fn masking_keeps_function_patterns() {
    let qr = Qr::make_qr("HELLO WORLD", Some(ECLevel::Quartile), Some(0), None).unwrap();
    let blank = Qr::make_blank(1, ECLevel::Quartile);
    for k in 0..8 {
        let m = apply_mask(&blank, k);
        for r in 0..21 {
            for c in 0..21 {
                let t = module_type(1, (r, c));
                if t != ModuleType::Data && t != ModuleType::Format {
                    assert_eq!(m.data[r][c], blank.data[r][c]);
                    assert_eq!(qr.data[r][c], blank.data[r][c]);
                }
            }
        }
    }
}

#[test]
fn score_is_a_function_of_the_modules() {
    let a = Qr::make_qr("HELLO WORLD", Some(ECLevel::Quartile), None, None).unwrap();
    let b = a.clone();
    assert_eq!(a.score(), b.score());
    assert_eq!(a.score(), score_matrix(&a.data));
}

#[test]
fn score_of_all_light_grid() {
    let g = vec![vec![false; 21]; 21];
    // runs: 42 lines of 21 -> 42 * 19; blocks: 400 * 3; proportion: 100
    assert_eq!(score_matrix(&g), 42 * 19 + 400 * 3 + 100);
}

#[test]
fn hello_world_quartile() {
    let qr = Qr::make_qr("HELLO WORLD", Some(ECLevel::Quartile), None, None).unwrap();
    assert_eq!(qr.version, 1);
    assert_eq!(qr.ec, ECLevel::Quartile);
    assert_eq!(qr.data.len(), 21);
    assert!(qr.data[0][0] && qr.data[0][20] && qr.data[20][0]);
    assert!(qr.data[6][6] && qr.data[0][14] && qr.data[14][0]);
    assert!(qr.data[13][8]);
    let best = qr.score();
    let mut scores = vec![];
    for k in 0..8 {
        let m = Qr::make_qr("HELLO WORLD", Some(ECLevel::Quartile), Some(k), None).unwrap();
        scores.push(m.score());
    }
    let min = *scores.iter().min().unwrap();
    assert_eq!(best, min);
    let first = scores.iter().position(|s| *s == min).unwrap();
    let chosen = Qr::make_qr("HELLO WORLD", Some(ECLevel::Quartile), Some(first), None).unwrap();
    assert_eq!(chosen.data, qr.data);
}

#[test]
fn make_qr_errors() {
    assert_eq!(Qr::make_qr("A", None, Some(8), None).unwrap_err(), QrError::InvalidMask);
    assert_eq!(Qr::make_qr("A", None, None, Some(0)).unwrap_err(), QrError::InvalidVersion);
    assert_eq!(Qr::make_qr("A", None, None, Some(41)).unwrap_err(), QrError::InvalidVersion);
    assert_eq!(Qr::make_qr("¥", None, None, None).unwrap_err(), QrError::UnsupportedInput);
    let long = "a".repeat(3000);
    assert_eq!(Qr::make_qr(&long, Some(ECLevel::Low), None, None).unwrap_err(), QrError::Capacity);
}

#[test]
fn make_qr_defaults_and_min_version() {
    let qr = Qr::make_qr("12345", None, None, Some(3)).unwrap();
    assert_eq!(qr.version, 3);
    assert_eq!(qr.ec, ECLevel::Medium);
    assert_eq!(qr.data.len(), 29);
    let big = Qr::make_qr(&"A".repeat(100), Some(ECLevel::High), Some(2), None).unwrap();
    assert_eq!(big.version, 8);
    assert!(big.data[big.data.len() - 8][8]);
}

#[test]
fn format_bits_of_hello_world_mask() {
    // level Q (0b11), mask 0: payload 0b11000, masked word 0b011010101011111
    let qr = Qr::make_qr("HELLO WORLD", Some(ECLevel::Quartile), Some(0), None).unwrap();
    let word: u32 = 0b011010101011111;
    let cells = [
        (8, 0), (8, 1), (8, 2), (8, 3), (8, 4), (8, 5), (8, 7), (8, 8), (7, 8), (5, 8), (4, 8),
        (3, 8), (2, 8), (1, 8), (0, 8),
    ];
    for (i, (r, c)) in cells.iter().enumerate() {
        assert_eq!(qr.data[*r][*c], (word >> (14 - i)) & 1 == 1);
    }
    for i in 0..7 {
        assert_eq!(qr.data[20 - i][8], (word >> (14 - i)) & 1 == 1);
    }
    for i in 0..8 {
        assert_eq!(qr.data[8][13 + i], (word >> (7 - i)) & 1 == 1);
    }
}
