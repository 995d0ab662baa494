use protocol_viewer::hex::{hex_no_sep, hex_spaced};
use protocol_viewer::value::{describe_leaf, FieldValue};

#[test]
fn hex_no_sep_doc_example() {
    assert_eq!(hex_no_sep(&[0x00, 0x22]), "0022");
}

#[test]
fn hex_spaced_doc_example() {
    assert_eq!(hex_spaced(&[0x00, 0x22]), "00 22");
}

#[test]
fn hex_forms_of_no_bytes_are_empty() {
    assert_eq!(hex_no_sep(&[]), "");
    assert_eq!(hex_spaced(&[]), "");
}

#[test]
fn hex_forms_are_upper_case_two_digits() {
    assert_eq!(hex_no_sep(&[0x0a, 0xff, 0x7]), "0AFF07");
    assert_eq!(hex_spaced(&[0x0a, 0xff, 0x7]), "0A FF 07");
    assert_eq!(hex_spaced(&[0xE8]), "E8");
}

#[test]
fn describe_integers() {
    assert_eq!(describe_leaf(&FieldValue::Int(220)), "220");
    assert_eq!(describe_leaf(&FieldValue::Int(0)), "0");
    assert_eq!(describe_leaf(&FieldValue::Int(-45)), "-45");
    assert_eq!(describe_leaf(&FieldValue::Int(i64::MIN)), "-9223372036854775808");
    assert_eq!(describe_leaf(&FieldValue::Int(i64::MAX)), "9223372036854775807");
}

#[test]
fn describe_with_unit() {
    let v = FieldValue::WithUnit { value: Box::new(FieldValue::Float("220".to_string())), unit: "V".to_string() };
    assert_eq!(describe_leaf(&v), "220 V");
    let v = FieldValue::WithUnit { value: Box::new(FieldValue::Int(5)), unit: "kWh".to_string() };
    assert_eq!(describe_leaf(&v), "5 kWh");
}

#[test]
fn describe_text_bytes_and_points() {
    assert_eq!(describe_leaf(&FieldValue::Str("尖峰谷分时电价".to_string())), "尖峰谷分时电价");
    assert_eq!(describe_leaf(&FieldValue::Bytes(vec![0x00, 0x22])), "0022");
    assert_eq!(describe_leaf(&FieldValue::Pn(3)), "Pn3");
    assert_eq!(describe_leaf(&FieldValue::Skip), "");
    assert_eq!(describe_leaf(&FieldValue::Invalid { reason: "bad length".to_string() }), "bad length");
}

#[test]
fn describe_bits() {
    let raw = FieldValue::Bit { bit_value: 6, value: None };
    assert_eq!(describe_leaf(&raw), "6");
    let meant = FieldValue::Bit { bit_value: 1, value: Some(Box::new(FieldValue::Str("on".to_string()))) };
    assert_eq!(describe_leaf(&meant), "on");
}

#[test]
fn describe_containers_is_empty() {
    assert_eq!(describe_leaf(&FieldValue::List(vec![FieldValue::Int(1)])), "");
    assert_eq!(describe_leaf(&FieldValue::Entries(vec![("a".to_string(), FieldValue::Int(1))])), "");
    let node = FieldValue::Node { name: "n".to_string(), raw: vec![1], value: Box::new(FieldValue::Int(1)) };
    assert_eq!(describe_leaf(&node), "");
}
