use protocol_viewer::tree_lines::PrefixSlot;
use protocol_viewer::value::FieldValue;
use protocol_viewer::viewer::ViewerState;

fn s(t: &str) -> String {
    t.to_string()
}

fn node(name: &str, raw: Vec<u8>, value: FieldValue) -> FieldValue {
    FieldValue::Node { name: s(name), raw, value: Box::new(value) }
}

fn frame() -> FieldValue {
    node(
        "frame",
        vec![0x68, 0x16],
        FieldValue::Entries(vec![
            (s("start"), node("start", vec![0x68], FieldValue::Int(104))),
            (s("end"), node("end", vec![0x16], FieldValue::Int(22))),
        ]),
    )
}

#[test]
fn new_state_shows_nothing() {
    let st = ViewerState::new();
    assert!(st.rows.is_empty());
    assert!(st.tree_lines.is_empty());
    assert!(st.items.is_empty());
    assert!(st.error.is_none());
    assert_eq!(st.last_parsed_content, "");
}

#[test]
fn showing_a_value_fills_rows_lines_and_items() {
    let mut st = ViewerState::new();
    st.show_error("zz", s("boom"));
    st.show_value("68 16", &frame());
    assert_eq!(st.rows.len(), 3);
    assert_eq!(st.tree_lines.len(), 3);
    assert_eq!(st.items.len(), 1);
    assert_eq!(st.items[0].children.len(), 2);
    assert!(st.error.is_none());
    assert_eq!(st.last_parsed_content, "68 16");
}

#[test]
fn showing_an_error_empties_the_table() {
    let mut st = ViewerState::new();
    st.show_value("68 16", &frame());
    st.show_error("6", s("十六进制字符串长度必须是偶数"));
    assert!(st.rows.is_empty());
    assert!(st.tree_lines.is_empty());
    assert!(st.items.is_empty());
    assert_eq!(st.error.as_deref(), Some("十六进制字符串长度必须是偶数"));
    assert_eq!(st.last_parsed_content, "6");
}

#[test]
fn row_display_by_item_id() {
    let mut st = ViewerState::new();
    st.show_value("68 16", &frame());
    let d = st.row_display("row-1");
    assert_eq!(d.data, "68");
    assert_eq!(d.desc, "104");
    assert_eq!(d.prefix, vec![PrefixSlot::Blank, PrefixSlot::Tee]);
    assert!(!d.bold);
    let d = st.row_display("row-0");
    assert_eq!(d.data, "68 16");
    assert_eq!(d.desc, "");
    assert_eq!(d.prefix, vec![PrefixSlot::Corner]);
    assert!(d.bold);
    let d = st.row_display("row-2");
    assert_eq!(d.prefix, vec![PrefixSlot::Blank, PrefixSlot::Corner]);
    let d = st.row_display("row-9");
    assert_eq!(d.data, "");
    assert_eq!(d.desc, "");
    assert!(d.prefix.is_empty());
    assert!(!d.bold);
}
