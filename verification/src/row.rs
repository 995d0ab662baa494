//! Flattening a decoded value tree into the ordered list of rows of a
//! three-column tree table: field name (indented by depth), raw data in
//! hexadecimal, and the readable description.

use vstd::prelude::*;
use crate::hex::{hex_joined, hex_spaced};
use crate::value::{FieldValue, describe, describe_leaf, is_container};

verus! {

/// One table row: the field name at its depth, the raw bytes in hexadecimal,
/// and the readable value.
#[derive(Clone, Debug)]
pub struct Row {
    /// Nesting depth, from 0.
    pub depth: usize,
    /// Field name.
    pub field: String,
    /// Raw bytes of the field as spaced hexadecimal.
    pub data: String,
    /// Readable description of the value.
    pub desc: String,
}

/// What a row shows, as plain values.
pub struct RowView {
    pub depth: nat,
    pub field: Seq<char>,
    pub data: Seq<char>,
    pub desc: Seq<char>,
}

impl View for Row {
    type V = RowView;

    open spec fn view(&self) -> RowView {
        RowView { depth: self.depth as nat, field: self.field@, data: self.data@, desc: self.desc@ }
    }
}

/// The views of a list of rows.
pub open spec fn rows_view(rows: Seq<Row>) -> Seq<RowView> {
    rows.map_values(|r: Row| r@)
}

/// The rows that a value produces at a given depth.
///
/// A `Node` gives its own row (name, spaced hexadecimal of its raw bytes, and
/// the description of its value unless that value is a container), then, for a
/// container value, the rows of that value one level deeper. `Entries` and
/// `List` give no row of their own: the rows of their members at the same
/// depth, in order. A bare leaf gives one row with only a description.
pub open spec fn flat_rows(v: FieldValue, depth: nat) -> Seq<RowView>
    decreases v, 0nat,
{
    match v {
        FieldValue::Node { name, raw, value } => {
            let head = RowView {
                depth,
                field: name@,
                data: hex_joined(raw@),
                desc: if is_container(*value) { Seq::empty() } else { describe(*value) },
            };
            if is_container(*value) {
                seq![head] + flat_rows(*value, depth + 1)
            } else {
                seq![head]
            }
        },
        FieldValue::Entries(entries) => flat_rows_entries(entries@, depth),
        FieldValue::List(items) => flat_rows_items(items@, depth),
        _ => seq![RowView { depth, field: Seq::empty(), data: Seq::empty(), desc: describe(v) }],
    }
}

/// The rows of the values of named entries, one after another.
pub open spec fn flat_rows_entries(s: Seq<(String, FieldValue)>, depth: nat) -> Seq<RowView>
    decreases s, 1nat,
{
    if s.len() == 0 {
        Seq::empty()
    } else {
        flat_rows_entries(s.drop_last(), depth) + flat_rows(s[s.len() - 1].1, depth)
    }
}

/// The rows of list items, one after another.
pub open spec fn flat_rows_items(s: Seq<FieldValue>, depth: nat) -> Seq<RowView>
    decreases s, 1nat,
{
    if s.len() == 0 {
        Seq::empty()
    } else {
        flat_rows_items(s.drop_last(), depth) + flat_rows(s[s.len() - 1], depth)
    }
}


/// How many levels deeper than its own depth the rows of a value can reach:
/// each `Node` whose value is a container opens one more level.
pub open spec fn nesting(v: FieldValue) -> nat
    decreases v, 0nat,
{
    match v {
        FieldValue::Node { value, .. } => if is_container(*value) { 1 + nesting(*value) } else { 0 },
        FieldValue::Entries(entries) => nesting_entries(entries@),
        FieldValue::List(items) => nesting_items(items@),
        _ => 0,
    }
}

/// The greatest nesting among the values of named entries.
pub open spec fn nesting_entries(s: Seq<(String, FieldValue)>) -> nat
    decreases s, 1nat,
{
    if s.len() == 0 {
        0
    } else {
        let a = nesting_entries(s.drop_last());
        let b = nesting(s[s.len() - 1].1);
        if a < b { b } else { a }
    }
}

/// The greatest nesting among list items.
pub open spec fn nesting_items(s: Seq<FieldValue>) -> nat
    decreases s, 1nat,
{
    if s.len() == 0 {
        0
    } else {
        let a = nesting_items(s.drop_last());
        let b = nesting(s[s.len() - 1]);
        if a < b { b } else { a }
    }
}

proof fn lemma_nesting_entries_bound(s: Seq<(String, FieldValue)>, i: int)
    requires
        0 <= i < s.len(),
    ensures
        nesting(s[i].1) <= nesting_entries(s),
    decreases s.len(),
{
    if i < s.len() - 1 {
        lemma_nesting_entries_bound(s.drop_last(), i);
    }
}

proof fn lemma_nesting_items_bound(s: Seq<FieldValue>, i: int)
    requires
        0 <= i < s.len(),
    ensures
        nesting(s[i]) <= nesting_items(s),
    decreases s.len(),
{
    if i < s.len() - 1 {
        lemma_nesting_items_bound(s.drop_last(), i);
    }
}

proof fn lemma_rows_view_push(rows: Seq<Row>, r: Row)
    ensures
        rows_view(rows.push(r)) == rows_view(rows).push(r@),
{
    assert(rows_view(rows.push(r)) =~= rows_view(rows).push(r@));
}

fn push_row(out: &mut Vec<Row>, row: Row)
    ensures
        rows_view(final(out)@) == rows_view(old(out)@) + seq![row@],
{
    proof { lemma_rows_view_push(out@, row); }
    out.push(row);
    assert(rows_view(out@) =~= rows_view(old(out)@) + seq![row@]);
}

fn is_container_value(v: &FieldValue) -> (b: bool)
    ensures
        b == is_container(*v),
{
    match v {
        FieldValue::Entries(_) | FieldValue::List(_) | FieldValue::Node { .. } => true,
        _ => false,
    }
}

fn flatten_entries(entries: &Vec<(String, FieldValue)>, depth: usize, out: &mut Vec<Row>)
    requires
        depth + nesting_entries(entries@) <= usize::MAX,
    ensures
        rows_view(final(out)@) == rows_view(old(out)@) + flat_rows_entries(entries@, depth as nat),
    decreases entries, 0nat,
{
    let ghost start = rows_view(out@);
    let mut i: usize = 0;
    while i < entries.len()
        invariant
            i <= entries.len(),
            depth + nesting_entries(entries@) <= usize::MAX,
            rows_view(out@) == start + flat_rows_entries(entries@.take(i as int), depth as nat),
        decreases entries.len() - i,
    {
        proof {
            lemma_nesting_entries_bound(entries@, i as int);
            assert(entries@.take(i as int + 1).drop_last() =~= entries@.take(i as int));
        }
        assert(decreases_to!(entries => entries@[i as int].1));
        flatten(&entries[i].1, depth, out);
        assert(start + flat_rows_entries(entries@.take(i as int), depth as nat)
            + flat_rows(entries@[i as int].1, depth as nat) =~= start
            + flat_rows_entries(entries@.take(i as int + 1), depth as nat));
        i = i + 1;
    }
    assert(entries@.take(entries.len() as int) =~= entries@);
}

fn flatten_items(items: &Vec<FieldValue>, depth: usize, out: &mut Vec<Row>)
    requires
        depth + nesting_items(items@) <= usize::MAX,
    ensures
        rows_view(final(out)@) == rows_view(old(out)@) + flat_rows_items(items@, depth as nat),
    decreases items, 0nat,
{
    let ghost start = rows_view(out@);
    let mut i: usize = 0;
    while i < items.len()
        invariant
            i <= items.len(),
            depth + nesting_items(items@) <= usize::MAX,
            rows_view(out@) == start + flat_rows_items(items@.take(i as int), depth as nat),
        decreases items.len() - i,
    {
        proof {
            lemma_nesting_items_bound(items@, i as int);
            assert(items@.take(i as int + 1).drop_last() =~= items@.take(i as int));
        }
        assert(decreases_to!(items => items@[i as int]));
        flatten(&items[i], depth, out);
        assert(start + flat_rows_items(items@.take(i as int), depth as nat)
            + flat_rows(items@[i as int], depth as nat) =~= start
            + flat_rows_items(items@.take(i as int + 1), depth as nat));
        i = i + 1;
    }
    assert(items@.take(items.len() as int) =~= items@);
}

fn flatten_node(name: &String, raw: &Vec<u8>, inner: &FieldValue, depth: usize, out: &mut Vec<Row>)
    requires
        depth + nesting(FieldValue::Node { name: *name, raw: *raw, value: Box::new(*inner) }) <= usize::MAX,
    ensures
        rows_view(final(out)@) == rows_view(old(out)@)
            + flat_rows(FieldValue::Node { name: *name, raw: *raw, value: Box::new(*inner) }, depth as nat),
    decreases inner, 2nat,
{
    let container = is_container_value(inner);
    let desc = if container { String::new() } else { describe_leaf(inner) };
    let row = Row { depth, field: name.clone(), data: hex_spaced(raw.as_slice()), desc };
    let ghost r = row@;
    let ghost before = rows_view(out@);
    push_row(out, row);
    if container {
        flatten(inner, depth + 1, out);
        assert(before + seq![r] + flat_rows(*inner, depth as nat + 1)
            =~= before + (seq![r] + flat_rows(*inner, depth as nat + 1)));
    }
}

/// Appends to `out` the rows of `value` at `depth` (see `flat_rows`):
/// a `Node` gives a row and, for a container value, the rows of that value
/// one level deeper; `Entries` and `List` open up their members at the same
/// depth; any other value gives a row with only its description.
pub fn flatten(value: &FieldValue, depth: usize, out: &mut Vec<Row>)
    requires
        depth + nesting(*value) <= usize::MAX,
    ensures
        rows_view(final(out)@) == rows_view(old(out)@) + flat_rows(*value, depth as nat),
    decreases value, 1nat,
{
    match value {
        FieldValue::Node { name, raw, value: inner } => {
            flatten_node(name, raw, inner, depth, out);
        },
        FieldValue::Entries(entries) => {
            if entries.len() == 1 {
                proof {
                    lemma_nesting_entries_bound(entries@, 0);
                    assert(entries@.drop_last() =~= Seq::<(String, FieldValue)>::empty());
                    assert(flat_rows_entries(entries@.drop_last(), depth as nat) == Seq::<RowView>::empty());
                }
                flatten(&entries[0].1, depth, out);
                assert(flat_rows_entries(entries@, depth as nat) =~= flat_rows(entries@[0].1, depth as nat));
            } else {
                flatten_entries(entries, depth, out);
            }
        },
        FieldValue::List(items) => {
            flatten_items(items, depth, out);
        },
        _ => {
            let row = Row { depth, field: String::new(), data: String::new(), desc: describe_leaf(value) };
            push_row(out, row);
        },
    }
}

/// A nesting count as a `usize`, or `None` when it does not fit.
pub open spec fn fitting(n: nat) -> Option<usize> {
    if n <= usize::MAX { Some(n as usize) } else { None }
}

fn nesting_of_entries(entries: &Vec<(String, FieldValue)>) -> (r: Option<usize>)
    ensures
        r == fitting(nesting_entries(entries@)),
    decreases entries, 0nat,
{
    let mut best: usize = 0;
    let mut i: usize = 0;
    assert(entries@.take(0) =~= Seq::<(String, FieldValue)>::empty());
    while i < entries.len()
        invariant
            i <= entries.len(),
            best == nesting_entries(entries@.take(i as int)),
        decreases entries.len() - i,
    {
        assert(entries@.take(i as int + 1).drop_last() =~= entries@.take(i as int));
        assert(decreases_to!(entries => entries@[i as int].1));
        match nesting_of(&entries[i].1) {
            None => {
                proof { lemma_nesting_entries_bound(entries@, i as int); }
                return None;
            },
            Some(n) => {
                if n > best {
                    best = n;
                }
            },
        }
        i = i + 1;
    }
    assert(entries@.take(entries.len() as int) =~= entries@);
    Some(best)
}

fn nesting_of_items(items: &Vec<FieldValue>) -> (r: Option<usize>)
    ensures
        r == fitting(nesting_items(items@)),
    decreases items, 0nat,
{
    let mut best: usize = 0;
    let mut i: usize = 0;
    assert(items@.take(0) =~= Seq::<FieldValue>::empty());
    while i < items.len()
        invariant
            i <= items.len(),
            best == nesting_items(items@.take(i as int)),
        decreases items.len() - i,
    {
        assert(items@.take(i as int + 1).drop_last() =~= items@.take(i as int));
        assert(decreases_to!(items => items@[i as int]));
        match nesting_of(&items[i]) {
            None => {
                proof { lemma_nesting_items_bound(items@, i as int); }
                return None;
            },
            Some(n) => {
                if n > best {
                    best = n;
                }
            },
        }
        i = i + 1;
    }
    assert(items@.take(items.len() as int) =~= items@);
    Some(best)
}

/// How many levels deeper than its own depth the rows of `value` reach
/// (`nesting`), or `None` when that count does not fit in `usize`; `flatten`
/// and `build_rows` need it to fit.
pub fn nesting_of(value: &FieldValue) -> (r: Option<usize>)
    ensures
        r == fitting(nesting(*value)),
    decreases value, 1nat,
{
    match value {
        FieldValue::Node { value: inner, .. } => {
            if is_container_value(inner) {
                match nesting_of(inner) {
                    Some(n) => if n < usize::MAX { Some(n + 1) } else { None },
                    None => None,
                }
            } else {
                Some(0)
            }
        },
        FieldValue::Entries(entries) => nesting_of_entries(entries),
        FieldValue::List(items) => nesting_of_items(items),
        _ => Some(0),
    }
}

/// Rows go down in steps: the first row has depth `d`, and every later row is
/// no shallower than `d` and at most one level deeper than the row before it.
pub open spec fn steps_from(rows: Seq<RowView>, d: nat) -> bool {
    &&& rows.len() > 0 ==> rows[0].depth == d
    &&& forall|k: int| 0 < k < rows.len() ==> d <= #[trigger] rows[k].depth <= rows[k - 1].depth + 1
}

proof fn lemma_steps_concat(a: Seq<RowView>, b: Seq<RowView>, d: nat)
    requires
        steps_from(a, d),
        steps_from(b, d),
    ensures
        steps_from(a + b, d),
{
    assert forall|k: int| 0 < k < (a + b).len() implies d <= #[trigger] (a + b)[k].depth <= (a + b)[k - 1].depth + 1 by {
        if k < a.len() {
        } else if k == a.len() {
            assert((a + b)[k] == b[0]);
        } else {
            assert((a + b)[k] == b[k - a.len()]);
            assert((a + b)[k - 1] == b[k - 1 - a.len()]);
        }
    }
}

/// The rows of any value at depth `d` go down in steps from `d`.
pub proof fn lemma_flat_rows_steps(v: FieldValue, d: nat)
    ensures
        steps_from(flat_rows(v, d), d),
    decreases v, 0nat,
{
    match v {
        FieldValue::Node { name, raw, value } => {
            if is_container(*value) {
                lemma_flat_rows_steps(*value, d + 1);
                let head = flat_rows(v, d)[0];
                let tail = flat_rows(*value, d + 1);
                assert forall|k: int| 0 < k < flat_rows(v, d).len() implies d <= #[trigger] flat_rows(v, d)[k].depth
                    <= flat_rows(v, d)[k - 1].depth + 1 by {
                    assert(flat_rows(v, d)[k] == tail[k - 1]);
                    if k > 1 {
                        assert(flat_rows(v, d)[k - 1] == tail[k - 2]);
                    }
                }
            }
        },
        FieldValue::Entries(entries) => {
            lemma_entries_steps(entries@, d);
        },
        FieldValue::List(items) => {
            lemma_items_steps(items@, d);
        },
        _ => {},
    }
}

proof fn lemma_entries_steps(s: Seq<(String, FieldValue)>, d: nat)
    ensures
        steps_from(flat_rows_entries(s, d), d),
    decreases s, 1nat,
{
    if s.len() > 0 {
        lemma_entries_steps(s.drop_last(), d);
        lemma_flat_rows_steps(s[s.len() - 1].1, d);
        lemma_steps_concat(flat_rows_entries(s.drop_last(), d), flat_rows(s[s.len() - 1].1, d), d);
    }
}

proof fn lemma_items_steps(s: Seq<FieldValue>, d: nat)
    ensures
        steps_from(flat_rows_items(s, d), d),
    decreases s, 1nat,
{
    if s.len() > 0 {
        lemma_items_steps(s.drop_last(), d);
        lemma_flat_rows_steps(s[s.len() - 1], d);
        lemma_steps_concat(flat_rows_items(s.drop_last(), d), flat_rows(s[s.len() - 1], d), d);
    }
}

/// The same rows, each `k` levels deeper.
pub open spec fn shifted(rows: Seq<RowView>, k: nat) -> Seq<RowView> {
    rows.map_values(|r: RowView| RowView { depth: r.depth + k, field: r.field, data: r.data, desc: r.desc })
}

proof fn lemma_shifted_concat(a: Seq<RowView>, b: Seq<RowView>, k: nat)
    ensures
        shifted(a + b, k) == shifted(a, k) + shifted(b, k),
{
    assert(shifted(a + b, k) =~= shifted(a, k) + shifted(b, k));
}

/// Starting a value's rows `k` levels deeper gives the same rows, each `k`
/// levels deeper: depth only shifts the whole table.
pub proof fn lemma_flat_rows_shift(v: FieldValue, d: nat, k: nat)
    ensures
        flat_rows(v, d + k) == shifted(flat_rows(v, d), k),
    decreases v, 0nat,
{
    match v {
        FieldValue::Node { name, raw, value } => {
            let head = flat_rows(v, d)[0];
            if is_container(*value) {
                lemma_flat_rows_shift(*value, d + 1, k);
                assert(d + k + 1 == d + 1 + k);
                lemma_shifted_concat(seq![head], flat_rows(*value, d + 1), k);
                assert(shifted(seq![head], k) =~= seq![flat_rows(v, d + k)[0]]);
                assert(flat_rows(v, d) == seq![head] + flat_rows(*value, d + 1));
                assert(flat_rows(v, d + k) =~= seq![flat_rows(v, d + k)[0]] + flat_rows(*value, d + k + 1));
            } else {
                assert(flat_rows(v, d + k) =~= shifted(flat_rows(v, d), k));
            }
        },
        FieldValue::Entries(entries) => {
            lemma_entries_shift(entries@, d, k);
        },
        FieldValue::List(items) => {
            lemma_items_shift(items@, d, k);
        },
        _ => {
            assert(flat_rows(v, d + k) =~= shifted(flat_rows(v, d), k));
        },
    }
}

proof fn lemma_entries_shift(s: Seq<(String, FieldValue)>, d: nat, k: nat)
    ensures
        flat_rows_entries(s, d + k) == shifted(flat_rows_entries(s, d), k),
    decreases s, 1nat,
{
    if s.len() == 0 {
        assert(shifted(Seq::<RowView>::empty(), k) =~= Seq::<RowView>::empty());
    } else {
        lemma_entries_shift(s.drop_last(), d, k);
        lemma_flat_rows_shift(s[s.len() - 1].1, d, k);
        lemma_shifted_concat(flat_rows_entries(s.drop_last(), d), flat_rows(s[s.len() - 1].1, d), k);
    }
}

proof fn lemma_items_shift(s: Seq<FieldValue>, d: nat, k: nat)
    ensures
        flat_rows_items(s, d + k) == shifted(flat_rows_items(s, d), k),
    decreases s, 1nat,
{
    if s.len() == 0 {
        assert(shifted(Seq::<RowView>::empty(), k) =~= Seq::<RowView>::empty());
    } else {
        lemma_items_shift(s.drop_last(), d, k);
        lemma_flat_rows_shift(s[s.len() - 1], d, k);
        lemma_shifted_concat(flat_rows_items(s.drop_last(), d), flat_rows(s[s.len() - 1], d), k);
    }
}

/// A node gives first its own row: its name at the given depth and its raw
/// bytes in spaced hexadecimal. When its value is not a container, that is its
/// only row, and its description is exactly the description of the value,
/// the same one the value's own row has when it stands bare. When its value
/// is a container, the description is empty and the value's rows follow one
/// level deeper.
pub proof fn lemma_node_rows(name: String, raw: Vec<u8>, value: Box<FieldValue>, d: nat)
    ensures
        ({
            let rows = flat_rows(FieldValue::Node { name, raw, value }, d);
            &&& rows.len() >= 1
            &&& rows[0].depth == d
            &&& rows[0].field == name@
            &&& rows[0].data == hex_joined(raw@)
            &&& !is_container(*value) ==> {
                &&& rows.len() == 1
                &&& rows[0].desc == describe(*value)
                &&& rows[0].desc == flat_rows(*value, d)[0].desc
            }
            &&& is_container(*value) ==> {
                &&& rows[0].desc == Seq::<char>::empty()
                &&& rows.drop_first() == flat_rows(*value, d + 1)
            }
        }),
{
    let rows = flat_rows(FieldValue::Node { name, raw, value }, d);
    if is_container(*value) {
        assert(rows.drop_first() =~= flat_rows(*value, d + 1));
    }
}

/// A named-entries value with a single entry is only a wrapper: it gives
/// exactly the rows of that entry's value, at the same depth.
pub proof fn lemma_single_entry_transparent(entries: Vec<(String, FieldValue)>, d: nat)
    requires
        entries@.len() == 1,
    ensures
        flat_rows(FieldValue::Entries(entries), d) == flat_rows(entries@[0].1, d),
{
    assert(entries@.drop_last() =~= Seq::<(String, FieldValue)>::empty());
    assert(flat_rows_entries(entries@.drop_last(), d) == Seq::<RowView>::empty());
    assert(flat_rows_entries(entries@, d) =~= flat_rows(entries@[0].1, d));
}

/// The rows of a whole value tree, starting at depth 0 (no extra root row).
pub fn build_rows(value: &FieldValue) -> (rows: Vec<Row>)
    requires
        nesting(*value) <= usize::MAX,
    ensures
        rows_view(rows@) == flat_rows(*value, 0),
        rows@.len() == 0 || rows@[0].depth == 0,
{
    proof { lemma_flat_rows_steps(*value, 0); }
    let mut rows: Vec<Row> = Vec::new();
    proof { assert(rows_view(rows@) =~= Seq::<RowView>::empty()); }
    flatten(value, 0, &mut rows);
    assert(rows@.len() > 0 ==> rows_view(rows@)[0] == rows@[0]@);
    rows
}

} // verus!
