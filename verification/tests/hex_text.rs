use protocol_viewer::hex::{hex_no_sep, hex_spaced};
use protocol_viewer::hex_input::{parse_hex_bytes, HexInputError};
use protocol_viewer::text_ranges::{hex_byte_ranges, selection_range};

const DEFAULT_FRAME: &str = "68 49 00 40 04 11 02 04 02 E8 0A 18 39 36 00 19 00 50 39 36 00 19 00 07 09 37 00 19 00 85 31 39 00 19 00 35 24 45 00 20 00 48 24 45 00 20 00 27 52 46 00 20 00 24 56 46 00 20 00 18 58 46 00 20 00 26 77 46 00 20 00 56 16";

#[test]
fn parses_default_frame() {
    let bytes = parse_hex_bytes(DEFAULT_FRAME).unwrap();
    assert_eq!(bytes.len(), 73);
    assert_eq!(&bytes[..4], &[0x68, 0x49, 0x00, 0x40]);
    assert_eq!(bytes[72], 0x16);
    assert_eq!(hex_spaced(&bytes), DEFAULT_FRAME);
}

#[test]
fn separators_are_dropped() {
    assert_eq!(parse_hex_bytes("ab:cd-EF").unwrap(), vec![0xAB, 0xCD, 0xEF]);
    assert_eq!(parse_hex_bytes(" 6\n8\t4 9\r").unwrap(), vec![0x68, 0x49]);
    assert_eq!(parse_hex_bytes("AB\u{3000}CD\u{a0}").unwrap(), vec![0xAB, 0xCD]);
}

#[test]
fn plus_sign_is_an_illegal_hex_character() {
    for (input, piece) in [("+A", "+A"), ("+5", "+5"), ("01+a", "+a")] {
        let e = parse_hex_bytes(input).unwrap_err();
        match &e {
            HexInputError::InvalidHex(t) => assert_eq!(t, piece),
            other => panic!("unexpected {:?}", other),
        }
        assert_eq!(e.message(), format!("非法十六进制: {}", piece));
    }
}

#[test]
fn empty_input_is_refused() {
    for input in ["", "   ", " \n\t- :"] {
        let e = parse_hex_bytes(input).unwrap_err();
        assert!(matches!(e, HexInputError::Empty));
        assert_eq!(e.message(), "数据内容不能为空");
    }
}

#[test]
fn odd_length_is_refused() {
    let e = parse_hex_bytes("123").unwrap_err();
    assert!(matches!(e, HexInputError::OddLength));
    assert_eq!(e.message(), "十六进制字符串长度必须是偶数");
    assert!(matches!(parse_hex_bytes("-A").unwrap_err(), HexInputError::OddLength));
    assert!(matches!(parse_hex_bytes("é1").unwrap_err(), HexInputError::OddLength));
}

#[test]
fn non_hex_piece_is_refused_with_the_piece() {
    let e = parse_hex_bytes("AAG1").unwrap_err();
    match &e {
        HexInputError::InvalidHex(t) => assert_eq!(t, "G1"),
        other => panic!("unexpected {:?}", other),
    }
    assert_eq!(e.message(), "非法十六进制: G1");
    match parse_hex_bytes("0x12").unwrap_err() {
        HexInputError::InvalidHex(t) => assert_eq!(t, "0x"),
        other => panic!("unexpected {:?}", other),
    }
    match parse_hex_bytes("éé").unwrap_err() {
        HexInputError::InvalidHex(t) => assert_eq!(t, "é"),
        other => panic!("unexpected {:?}", other),
    }
}

#[test]
fn piece_that_splits_a_character_is_refused() {
    let e = parse_hex_bytes("a中").unwrap_err();
    assert!(matches!(e, HexInputError::InvalidChar));
    assert_eq!(e.message(), "非法字符");
    assert!(matches!(parse_hex_bytes("中a").unwrap_err(), HexInputError::InvalidChar));
}

#[test]
fn hex_forms_read_back() {
    let bytes = vec![0x00, 0x22, 0xAB, 0xFF, 0x10];
    assert_eq!(parse_hex_bytes(&hex_spaced(&bytes)).unwrap(), bytes);
    assert_eq!(parse_hex_bytes(&hex_no_sep(&bytes)).unwrap(), bytes);
}

fn pairs(r: &[std::ops::Range<usize>]) -> Vec<(usize, usize)> {
    r.iter().map(|x| (x.start, x.end)).collect()
}

#[test]
fn byte_ranges_in_text() {
    assert_eq!(pairs(&hex_byte_ranges("68 49")), vec![(0, 2), (3, 5)]);
    assert_eq!(pairs(&hex_byte_ranges("6 8 4")), vec![(0, 3)]);
    assert_eq!(pairs(&hex_byte_ranges("中68 zz 4-9")), vec![(3, 5), (9, 12)]);
    assert!(hex_byte_ranges("").is_empty());
}

#[test]
fn selection_covers_the_bytes_of_a_field() {
    let ranges = hex_byte_ranges("68 49 00");
    assert_eq!(selection_range(&ranges, &(1..3)), 3..8);
    assert_eq!(selection_range(&ranges, &(0..1)), 0..2);
    assert_eq!(selection_range(&ranges, &(2..9)), 6..8);
    assert_eq!(selection_range(&ranges, &(5..9)), 3..3);
    assert_eq!(selection_range(&ranges, &(2..2)), 2..2);
}

#[test]
fn each_byte_span_reads_back_as_its_byte() {
    for text in ["68 49 00", "6 8-4:9\n0a", "AB cd\u{3000}EF", DEFAULT_FRAME] {
        let bytes = parse_hex_bytes(text).unwrap();
        let ranges = hex_byte_ranges(text);
        assert_eq!(ranges.len(), bytes.len());
        for (r, b) in ranges.iter().zip(bytes.iter()) {
            assert_eq!(parse_hex_bytes(&text[r.clone()]).unwrap(), vec![*b]);
        }
    }
}
