use protocol_viewer::row::{build_rows, flatten, nesting_of, Row};
use protocol_viewer::value::FieldValue;

fn s(t: &str) -> String {
    t.to_string()
}

fn node(name: &str, raw: Vec<u8>, value: FieldValue) -> FieldValue {
    FieldValue::Node { name: s(name), raw, value: Box::new(value) }
}

pub fn sample_frame() -> FieldValue {
    node(
        "frame",
        vec![0x68, 0x49],
        FieldValue::Entries(vec![
            (s("start"), node("start", vec![0x68], FieldValue::Int(104))),
            (
                s("link"),
                node(
                    "link",
                    vec![0x40, 0x04],
                    FieldValue::List(vec![
                        node("ctrl", vec![0x40], FieldValue::WithUnit { value: Box::new(FieldValue::Int(64)), unit: s("x") }),
                        node("afn", vec![0x04], FieldValue::Str(s("forward"))),
                    ]),
                ),
            ),
            (s("end"), node("end", vec![0x16], FieldValue::Int(22))),
        ]),
    )
}

fn shape(rows: &[Row]) -> Vec<(usize, String, String, String)> {
    rows.iter().map(|r| (r.depth, r.field.clone(), r.data.clone(), r.desc.clone())).collect()
}

fn row(d: usize, f: &str, data: &str, desc: &str) -> (usize, String, String, String) {
    (d, s(f), s(data), s(desc))
}

#[test]
fn build_rows_of_sample_frame() {
    let rows = build_rows(&sample_frame());
    assert_eq!(
        shape(&rows),
        vec![
            row(0, "frame", "68 49", ""),
            row(1, "start", "68", "104"),
            row(1, "link", "40 04", ""),
            row(2, "ctrl", "40", "64 x"),
            row(2, "afn", "04", "forward"),
            row(1, "end", "16", "22"),
        ]
    );
}

#[test]
fn single_entry_map_is_a_transparent_wrapper() {
    let inner = node("only", vec![0x01], FieldValue::Int(1));
    let wrapped = FieldValue::Entries(vec![(s("k"), node("only", vec![0x01], FieldValue::Int(1)))]);
    assert_eq!(shape(&build_rows(&wrapped)), shape(&build_rows(&inner)));
    assert_eq!(shape(&build_rows(&inner)), vec![row(0, "only", "01", "1")]);
}

#[test]
fn multi_entry_map_and_list_keep_depth() {
    let v = FieldValue::Entries(vec![
        (s("a"), node("a", vec![], FieldValue::Int(1))),
        (s("b"), FieldValue::List(vec![node("c", vec![0xff], FieldValue::Skip), FieldValue::Pn(2)])),
    ]);
    assert_eq!(
        shape(&build_rows(&v)),
        vec![row(0, "a", "", "1"), row(0, "c", "FF", ""), row(0, "", "", "Pn2")]
    );
}

#[test]
fn bare_leaf_gives_description_only_row() {
    assert_eq!(shape(&build_rows(&FieldValue::Int(5))), vec![row(0, "", "", "5")]);
}

#[test]
fn empty_containers_give_no_rows() {
    assert!(build_rows(&FieldValue::List(vec![])).is_empty());
    assert!(build_rows(&FieldValue::Entries(vec![])).is_empty());
    let n = node("empty", vec![0x00], FieldValue::List(vec![]));
    assert_eq!(shape(&build_rows(&n)), vec![row(0, "empty", "00", "")]);
}

#[test]
fn node_of_node_opens_one_level_deeper() {
    let n = node("outer", vec![0x01], node("inner", vec![0x02], FieldValue::Int(2)));
    assert_eq!(shape(&build_rows(&n)), vec![row(0, "outer", "01", ""), row(1, "inner", "02", "2")]);
}

#[test]
fn flatten_appends_at_given_depth() {
    let mut out = vec![Row { depth: 9, field: s("x"), data: s(""), desc: s("") }];
    flatten(&node("n", vec![0xAB, 0xCD], FieldValue::Int(-3)), 4, &mut out);
    assert_eq!(shape(&out), vec![row(9, "x", "", ""), row(4, "n", "AB CD", "-3")]);
}

#[test]
fn starting_deeper_shifts_every_row() {
    let mut at_zero = Vec::new();
    flatten(&sample_frame(), 0, &mut at_zero);
    let mut at_three = Vec::new();
    flatten(&sample_frame(), 3, &mut at_three);
    let shifted: Vec<_> = shape(&at_zero).into_iter().map(|(d, f, x, y)| (d + 3, f, x, y)).collect();
    assert_eq!(shape(&at_three), shifted);
}

#[test]
fn rows_start_at_depth_zero() {
    assert_eq!(build_rows(&sample_frame())[0].depth, 0);
    assert_eq!(build_rows(&FieldValue::List(vec![FieldValue::Int(1)]))[0].depth, 0);
}

#[test]
fn nesting_counts_container_nodes() {
    assert_eq!(nesting_of(&sample_frame()), Some(2));
    assert_eq!(nesting_of(&FieldValue::Int(1)), Some(0));
    assert_eq!(nesting_of(&node("n", vec![], FieldValue::Int(1))), Some(0));
    assert_eq!(nesting_of(&FieldValue::List(vec![])), Some(0));
    let deep = node("a", vec![], node("b", vec![], node("c", vec![], FieldValue::Skip)));
    assert_eq!(nesting_of(&deep), Some(2));
}
