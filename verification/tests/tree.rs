use protocol_viewer::row::{build_rows, Row};
use protocol_viewer::tree_items::{build_tree_items, item_id, row_index_from_id, TreeItem};
use protocol_viewer::tree_lines::{compute_tree_lines, tree_prefix_slots, PrefixSlot, TreeLineInfo};
use protocol_viewer::value::FieldValue;

fn s(t: &str) -> String {
    t.to_string()
}

fn node(name: &str, raw: Vec<u8>, value: FieldValue) -> FieldValue {
    FieldValue::Node { name: s(name), raw, value: Box::new(value) }
}

fn sample_rows() -> Vec<Row> {
    build_rows(&node(
        "frame",
        vec![0x68, 0x49],
        FieldValue::Entries(vec![
            (s("start"), node("start", vec![0x68], FieldValue::Int(104))),
            (
                s("link"),
                node(
                    "link",
                    vec![0x40, 0x04],
                    FieldValue::List(vec![
                        node("ctrl", vec![0x40], FieldValue::Int(64)),
                        node("afn", vec![0x04], FieldValue::Str(s("forward"))),
                    ]),
                ),
            ),
            (s("end"), node("end", vec![0x16], FieldValue::Int(22))),
        ]),
    ))
}

fn rows_of_depths(ds: &[usize]) -> Vec<Row> {
    ds.iter().enumerate().map(|(i, d)| Row { depth: *d, field: format!("f{i}"), data: s(""), desc: s("") }).collect()
}

fn line(l: &TreeLineInfo) -> (usize, Vec<bool>, bool, bool) {
    (l.depth, l.ancestor_continues.clone(), l.is_last_child, l.has_children)
}

#[test]
fn tree_lines_of_sample_frame() {
    let lines = compute_tree_lines(&sample_rows());
    let got: Vec<_> = lines.iter().map(line).collect();
    assert_eq!(
        got,
        vec![
            (0, vec![], true, true),
            (1, vec![false], false, false),
            (1, vec![false], false, true),
            (2, vec![false, true], false, false),
            (2, vec![false, true], true, false),
            (1, vec![false], true, false),
        ]
    );
}

#[test]
fn tree_lines_of_no_rows() {
    assert!(compute_tree_lines(&[]).is_empty());
}

#[test]
fn level_stops_at_shallower_row() {
    // depths 0,1,0,1: the first child is last because a row of depth 0 comes before any other depth-1 row
    let lines = compute_tree_lines(&rows_of_depths(&[0, 1, 0, 1]));
    let got: Vec<_> = lines.iter().map(line).collect();
    assert_eq!(
        got,
        vec![
            (0, vec![], false, true),
            (1, vec![true], true, false),
            (0, vec![], true, true),
            (1, vec![false], true, false),
        ]
    );
}

#[test]
fn prefix_slots_follow_line_info() {
    let lines = compute_tree_lines(&sample_rows());
    assert_eq!(tree_prefix_slots(&lines[0]), vec![PrefixSlot::Corner]);
    assert_eq!(tree_prefix_slots(&lines[1]), vec![PrefixSlot::Blank, PrefixSlot::Tee]);
    assert_eq!(tree_prefix_slots(&lines[3]), vec![PrefixSlot::Blank, PrefixSlot::Through, PrefixSlot::Tee]);
    assert_eq!(tree_prefix_slots(&lines[4]), vec![PrefixSlot::Blank, PrefixSlot::Through, PrefixSlot::Corner]);
    assert_eq!(tree_prefix_slots(&lines[5]), vec![PrefixSlot::Blank, PrefixSlot::Corner]);
}

#[test]
fn prefix_slots_with_short_ancestor_list() {
    let tl = TreeLineInfo { depth: 3, ancestor_continues: vec![true], is_last_child: false, has_children: false };
    assert_eq!(
        tree_prefix_slots(&tl),
        vec![PrefixSlot::Through, PrefixSlot::Blank, PrefixSlot::Blank, PrefixSlot::Tee]
    );
}

fn outline(items: &[TreeItem]) -> String {
    let mut out = String::new();
    for it in items {
        out.push_str(&format!("{}:{}", it.row, it.label));
        if it.expanded {
            out.push('+');
        }
        if !it.children.is_empty() {
            out.push('(');
            out.push_str(&outline(&it.children));
            out.push(')');
        }
        out.push(' ');
    }
    out
}

#[test]
fn tree_items_of_sample_frame() {
    let rows = sample_rows();
    let (items, next) = build_tree_items(&rows, 0, 0);
    assert_eq!(next, 6);
    assert_eq!(items.len(), 1);
    assert_eq!(outline(&items), "0:frame+(1:start 2:link+(3:ctrl 4:afn ) 5:end ) ");
    assert_eq!(items[0].id(), "row-0");
    assert_eq!(items[0].children[1].children[1].id(), "row-4");
}

#[test]
fn tree_items_stop_at_a_jump_or_shallower_row() {
    let rows = rows_of_depths(&[0, 2, 0]);
    let (items, next) = build_tree_items(&rows, 0, 0);
    assert_eq!(next, 1);
    assert_eq!(outline(&items), "0:f0 ");
    let rows = rows_of_depths(&[1, 1, 2, 0, 1]);
    let (items, next) = build_tree_items(&rows, 0, 1);
    assert_eq!(next, 3);
    assert_eq!(outline(&items), "0:f0 1:f1+(2:f2 ) ");
}

#[test]
fn tree_items_from_wrong_start_are_empty() {
    let rows = rows_of_depths(&[0, 1]);
    let (items, next) = build_tree_items(&rows, 1, 0);
    assert!(items.is_empty());
    assert_eq!(next, 1);
    let (items, next) = build_tree_items(&rows, 5, 0);
    assert!(items.is_empty());
    assert_eq!(next, 5);
}

#[test]
fn item_ids_read_back() {
    assert_eq!(item_id(7), "row-7");
    assert_eq!(item_id(0), "row-0");
    assert_eq!(row_index_from_id("row-7"), 7);
    assert_eq!(row_index_from_id(&item_id(123456)), 123456);
    assert_eq!(row_index_from_id(&item_id(usize::MAX)), usize::MAX);
}

#[test]
fn item_ids_read_like_trim_and_parse() {
    assert_eq!(row_index_from_id("row-row-7"), 7);
    assert_eq!(row_index_from_id("7"), 7);
    assert_eq!(row_index_from_id("row-+7"), 7);
    assert_eq!(row_index_from_id("row-007"), 7);
    assert_eq!(row_index_from_id("row-"), usize::MAX);
    assert_eq!(row_index_from_id("row-+"), usize::MAX);
    assert_eq!(row_index_from_id("row--1"), usize::MAX);
    assert_eq!(row_index_from_id("row-abc"), usize::MAX);
    assert_eq!(row_index_from_id("row-1a"), usize::MAX);
    assert_eq!(row_index_from_id("row-99999999999999999999999"), usize::MAX);
    assert_eq!(row_index_from_id("ro-5"), usize::MAX);
}
