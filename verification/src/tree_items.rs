//! Rebuilding the nesting of the flat row list as a tree of items for the
//! tree widget: every row becomes an item, and the rows right after it that
//! are one level deeper become its children.

use vstd::prelude::*;
use crate::row::{Row, rows_view, steps_from};
use crate::tree_lines::nests_below;
use crate::decimal::{dec, push_dec, is_dec_char, all_dec, digits_value, dec_char_value, lemma_dec_spelling};
use crate::text::{push_char, chars_of};

verus! {

/// One item of the tree widget: the row it shows, its label (the row's field
/// name), its child items, and whether it starts expanded.
#[derive(Debug)]
pub struct TreeItem {
    /// Index of the row this item shows.
    pub row: usize,
    /// The label shown: the row's field name.
    pub label: String,
    /// Child items, in order.
    pub children: Vec<TreeItem>,
    /// Items with children start expanded.
    pub expanded: bool,
}

/// The row indices of an item and everything under it, in display (pre-)order.
pub open spec fn item_rows(it: TreeItem) -> Seq<int>
    decreases it, 1nat,
{
    seq![it.row as int] + forest_rows(it.children@)
}

/// The row indices of a list of items and everything under them, in display order.
pub open spec fn forest_rows(items: Seq<TreeItem>) -> Seq<int>
    decreases items, 0nat,
{
    if items.len() == 0 {
        Seq::empty()
    } else {
        forest_rows(items.drop_last()) + item_rows(items[items.len() - 1])
    }
}

/// An item sits at nesting level `d` of the tree over `rows`: it shows a row
/// of depth `d` under that row's field name, is expanded exactly when it has
/// children, which is exactly when the next row is one level deeper (the rule
/// the tree lines use), and its children sit at level `d + 1`.
pub open spec fn item_fits(it: TreeItem, rows: Seq<Row>, d: int) -> bool
    decreases it, 1nat,
{
    &&& 0 <= it.row < rows.len()
    &&& rows[it.row as int].depth == d
    &&& it.label@ == rows[it.row as int].field@
    &&& it.expanded == (it.children@.len() > 0)
    &&& it.expanded == nests_below(rows, it.row as int)
    &&& forest_fits(it.children@, rows, d + 1)
}

/// Every item of the list sits at nesting level `d`.
pub open spec fn forest_fits(items: Seq<TreeItem>, rows: Seq<Row>, d: int) -> bool
    decreases items, 0nat,
{
    if items.len() == 0 {
        true
    } else {
        forest_fits(items.drop_last(), rows, d) && item_fits(items[items.len() - 1], rows, d)
    }
}

/// Row `k` belongs to the run of rows that starts at `start` at level `d`:
/// the first row has depth `d`; each later one is no shallower than `d` and at
/// most one level deeper than the row before it.
pub open spec fn joins(rows: Seq<Row>, start: int, d: int, k: int) -> bool {
    if k == start {
        rows[k].depth == d
    } else {
        d <= rows[k].depth <= rows[k - 1].depth + 1
    }
}

/// `next` ends the longest run of rows from `start` at level `d`.
pub open spec fn run_end(rows: Seq<Row>, start: int, d: int, next: int) -> bool {
    &&& start <= next
    &&& forall|k: int| start <= k < next ==> k < rows.len() && #[trigger] joins(rows, start, d, k)
    &&& next < rows.len() ==> !joins(rows, start, d, next)
}

/// The indices `start, start + 1, ..., end - 1`.
pub open spec fn index_range(start: int, end: int) -> Seq<int> {
    Seq::new((end - start) as nat, |k: int| start + k)
}

/// A run has exactly one end.
pub proof fn lemma_run_end_unique(rows: Seq<Row>, start: int, d: int, a: int, b: int)
    requires
        run_end(rows, start, d, a),
        run_end(rows, start, d, b),
    ensures
        a == b,
{
    if a < b {
        assert(joins(rows, start, d, a));
    } else if b < a {
        assert(joins(rows, start, d, b));
    }
}

/// When the rows go down in steps from depth 0 (as the rows of any value
/// tree do), the run from the first row at level 0 takes in every row.
pub proof fn lemma_stepped_rows_form_one_run(rows: Seq<Row>)
    requires
        steps_from(rows_view(rows), 0),
    ensures
        run_end(rows, 0, 0, rows.len() as int),
{
    assert forall|k: int| 0 <= k < rows.len() implies k < rows.len() && #[trigger] joins(rows, 0, 0, k) by {
        let v = rows_view(rows);
        assert(v.len() == rows.len());
        assert(v[k] == rows[k]@);
        if k > 0 {
            assert(v[k - 1] == rows[k - 1]@);
            assert(0 <= v[k].depth <= v[k - 1].depth + 1);
        } else {
            assert(v[0].depth == 0);
        }
    }
}

/// Every item of a list that sits at level `d` sits at level `d`.
pub proof fn lemma_forest_fits_each(items: Seq<TreeItem>, rows: Seq<Row>, d: int)
    requires
        forest_fits(items, rows, d),
    ensures
        forall|k: int| 0 <= k < items.len() ==> item_fits(#[trigger] items[k], rows, d),
    decreases items.len(),
{
    if items.len() > 0 {
        lemma_forest_fits_each(items.drop_last(), rows, d);
        assert forall|k: int| 0 <= k < items.len() implies item_fits(#[trigger] items[k], rows, d) by {
            if k < items.len() - 1 {
                assert(items[k] == items.drop_last()[k]);
            }
        }
    }
}

proof fn lemma_forest_rows_front(items: Seq<TreeItem>)
    requires
        items.len() > 0,
    ensures
        forest_rows(items) == item_rows(items[0]) + forest_rows(items.drop_first()),
    decreases items.len(),
{
    if items.len() == 1 {
        assert(items.drop_last() =~= Seq::<TreeItem>::empty());
        assert(items.drop_first() =~= Seq::<TreeItem>::empty());
        assert(forest_rows(items) =~= item_rows(items[0]) + forest_rows(items.drop_first()));
    } else {
        lemma_forest_rows_front(items.drop_last());
        assert(items.drop_last().drop_first() =~= items.drop_first().drop_last());
        assert(items.drop_first()[items.drop_first().len() - 1] == items[items.len() - 1]);
        assert(forest_rows(items) =~= item_rows(items[0]) + forest_rows(items.drop_first()));
    }
}

/// An item whose part of the tree shows the rows `a..b` shows row `a` itself;
/// its children show the rows `a + 1..b`, and its first child, when it has
/// one, shows row `a + 1`, one level deeper.
pub proof fn lemma_item_children_follow(it: TreeItem, rows: Seq<Row>, d: int, a: int, b: int)
    requires
        item_fits(it, rows, d),
        a <= b,
        item_rows(it) == index_range(a, b),
    ensures
        it.row == a,
        forest_rows(it.children@) == index_range(a + 1, b),
        it.children@.len() > 0 ==> it.children@[0].row == a + 1 && rows[a + 1].depth == d + 1,
{
    let whole = item_rows(it);
    assert(whole == seq![it.row as int] + forest_rows(it.children@));
    assert(whole[0] == it.row as int);
    assert(whole.len() >= 1);
    assert(index_range(a, b)[0] == a);
    assert(forest_rows(it.children@) =~= whole.drop_first());
    assert(index_range(a, b).drop_first() =~= index_range(a + 1, b));
    if it.children@.len() > 0 {
        lemma_forest_rows_front(it.children@);
        let c = it.children@[0];
        assert(forest_rows(it.children@)[0] == c.row);
        lemma_forest_fits_each(it.children@, rows, d + 1);
        assert(item_fits(c, rows, d + 1));
    }
}

proof fn lemma_forest_push(items: Seq<TreeItem>, it: TreeItem, rows: Seq<Row>, d: int)
    ensures
        forest_rows(items.push(it)) == forest_rows(items) + item_rows(it),
        forest_fits(items.push(it), rows, d) == (forest_fits(items, rows, d) && item_fits(it, rows, d)),
{
    assert(items.push(it).drop_last() =~= items);
}

/// Builds the items for the run of rows that starts at `start` at nesting
/// level `depth`, and returns them with the index just past that run.
///
/// Each row of depth `depth` becomes an item; the rows right after it that
/// are one level deeper become its children, built the same way. The run
/// stops at the end of the rows, at a row shallower than `depth`, or at a
/// row that is more than one level deeper than the row before it.
pub fn build_tree_items(rows: &[Row], start: usize, depth: usize) -> (res: (Vec<TreeItem>, usize))
    ensures
        run_end(rows@, start as int, depth as int, res.1 as int),
        forest_rows(res.0@) == index_range(start as int, res.1 as int),
        forest_fits(res.0@, rows@, depth as int),
    decreases rows.len() - start,
{
    let mut items: Vec<TreeItem> = Vec::new();
    let mut i: usize = start;
    if start >= rows.len() {
        assert(forest_rows(items@) =~= index_range(start as int, start as int));
        return (items, start);
    }
    while i < rows.len() && rows[i].depth == depth
        invariant
            start < rows.len(),
            start <= i <= rows.len(),
            forall|k: int| start <= k < i ==> k < rows@.len() && #[trigger] joins(rows@, start as int, depth as int, k),
            i > start && i < rows.len() ==> (rows@[i as int].depth <= depth
                || rows@[i as int].depth > rows@[i - 1].depth + 1),
            forest_rows(items@) == index_range(start as int, i as int),
            forest_fits(items@, rows@, depth as int),
        decreases rows.len() - i,
    {
        let row_idx = i;
        i = i + 1;
        assert(joins(rows@, start as int, depth as int, row_idx as int)) by {
            if row_idx > start {
                assert(joins(rows@, start as int, depth as int, row_idx - 1));
            }
        }
        let has_children = i < rows.len() && rows[i].depth > depth && rows[i].depth - depth == 1;
        let (children, next_i) = if has_children {
            build_tree_items(rows, i, depth + 1)
        } else {
            (Vec::new(), i)
        };
        proof {
            if has_children {
                assert(joins(rows@, i as int, depth + 1, i as int));
                assert forall|k: int| start <= k < next_i implies k < rows@.len() && #[trigger] joins(rows@, start as int, depth as int, k) by {
                    if k > row_idx {
                        assert(joins(rows@, i as int, depth + 1, k));
                    }
                }
                if next_i < rows.len() {
                    assert(!joins(rows@, i as int, depth + 1, next_i as int));
                }
                if next_i > i {
                    assert(joins(rows@, i as int, depth + 1, next_i - 1));
                }
                assert(next_i <= rows.len());
                assert(forest_rows(children@).len() > 0);
                if children@.len() == 0 {
                    assert(forest_rows(children@) == Seq::<int>::empty());
                }
            } else {
                assert(forest_rows(children@) =~= index_range(i as int, i as int));
            }
        }
        i = next_i;
        let label = rows[row_idx].field.clone();
        let expanded = children.len() > 0;
        let item = TreeItem { row: row_idx, label, children, expanded };
        proof {
            lemma_forest_push(items@, item, rows@, depth as int);
            assert(index_range(start as int, row_idx as int) + item_rows(item)
                =~= index_range(start as int, i as int));
        }
        items.push(item);
    }
    (items, i)
}


/// The text `row-` that starts every item id.
pub open spec fn id_prefix() -> Seq<char> {
    seq!['r', 'o', 'w', '-']
}

/// The id of the item that shows row `row`: `row-` followed by the index.
pub open spec fn item_id_text(row: nat) -> Seq<char> {
    id_prefix() + dec(row)
}

/// The text left after removing every leading `row-`.
pub open spec fn strip_id_prefixes(cs: Seq<char>) -> Seq<char>
    decreases cs.len(),
{
    if cs.len() >= 4 && cs.take(4) == id_prefix() {
        strip_id_prefixes(cs.skip(4))
    } else {
        cs
    }
}

/// The row index that an item id names, read back as the table does: every
/// leading `row-` is dropped, and the rest must be an unsigned decimal number
/// (an optional `+`, then at least one digit) that fits in `usize`; anything
/// else reads as `usize::MAX`, which names no row.
pub open spec fn row_index_of_id(id: Seq<char>) -> nat {
    let rest = strip_id_prefixes(id);
    let digits = if rest.len() > 0 && rest[0] == '+' { rest.skip(1) } else { rest };
    if digits.len() > 0 && all_dec(digits) && digits_value(digits) <= usize::MAX {
        digits_value(digits)
    } else {
        usize::MAX as nat
    }
}

/// The id of the item for row `row` (`"row-7"` for row 7).
pub fn item_id(row: usize) -> (id: String)
    ensures
        id@ == item_id_text(row as nat),
{
    let mut s = String::new();
    push_char(&mut s, 'r');
    push_char(&mut s, 'o');
    push_char(&mut s, 'w');
    push_char(&mut s, '-');
    push_dec(&mut s, row as u64);
    assert(s@ =~= item_id_text(row as nat));
    s
}

impl TreeItem {
    /// This item's id, `row-` followed by its row index.
    pub fn id(&self) -> (id: String)
        ensures
            id@ == item_id_text(self.row as nat),
    {
        item_id(self.row)
    }
}

/// The row index named by an item id (see `row_index_of_id`); an id that
/// names no row gives `usize::MAX`.
pub fn row_index_from_id(id: &str) -> (row: usize)
    ensures
        row as nat == row_index_of_id(id@),
{
    let cs = chars_of(id);
    let n = cs.len();
    let mut p: usize = 0;
    assert(cs@.skip(0) =~= cs@);
    while n - p >= 4 && cs[p] == 'r' && cs[p + 1] == 'o' && cs[p + 2] == 'w' && cs[p + 3] == '-'
        invariant
            n == cs@.len(),
            p <= n,
            strip_id_prefixes(cs@) == strip_id_prefixes(cs@.skip(p as int)),
        decreases n - p,
    {
        assert(cs@.skip(p as int).take(4) =~= id_prefix());
        assert(cs@.skip(p as int).skip(4) =~= cs@.skip(p + 4));
        p = p + 4;
    }
    let ghost rest = cs@.skip(p as int);
    proof {
        if rest.len() >= 4 && rest.take(4) == id_prefix() {
            assert(rest.take(4)[0] == cs@[p as int]);
            assert(rest.take(4)[1] == cs@[p + 1]);
            assert(rest.take(4)[2] == cs@[p + 2]);
            assert(rest.take(4)[3] == cs@[p + 3]);
        }
        assert(strip_id_prefixes(cs@) == rest);
    }
    if p < n && cs[p] == '+' {
        p = p + 1;
        assert(rest.skip(1) =~= cs@.skip(p as int));
    }
    let ghost digits = cs@.skip(p as int);
    assert(row_index_of_id(id@) == (if digits.len() > 0 && all_dec(digits) && digits_value(digits) <= usize::MAX {
        digits_value(digits)
    } else {
        usize::MAX as nat
    }));
    if p == n {
        return usize::MAX;
    }
    let mut acc: usize = 0;
    let mut over = false;
    let mut q: usize = p;
    while q < n
        invariant
            n == cs@.len(),
            p < n,
            p <= q <= n,
            digits == cs@.skip(p as int),
            row_index_of_id(id@) == (if digits.len() > 0 && all_dec(digits) && digits_value(digits) <= usize::MAX {
                digits_value(digits)
            } else {
                usize::MAX as nat
            }),
            all_dec(cs@.subrange(p as int, q as int)),
            !over ==> acc == digits_value(cs@.subrange(p as int, q as int)),
            over ==> digits_value(cs@.subrange(p as int, q as int)) > usize::MAX,
        decreases n - q,
    {
        let c = cs[q];
        if !('0' <= c && c <= '9') {
            assert(digits[q - p] == c);
            assert(!is_dec_char(digits[q - p]));
            return usize::MAX;
        }
        let d: usize = (c as u32 - '0' as u32) as usize;
        let ghost before = cs@.subrange(p as int, q as int);
        let ghost after = cs@.subrange(p as int, q + 1);
        assert(after.drop_last() =~= before);
        assert(after.last() == c);
        assert(digits_value(after) == 10 * digits_value(before) + d);
        if !over {
            if acc > (usize::MAX - d) / 10 {
                assert(10 * acc + d > usize::MAX) by (nonlinear_arith)
                    requires acc > (usize::MAX - d) / 10, d <= 9;
                over = true;
            } else {
                assert(10 * acc + d <= usize::MAX) by (nonlinear_arith)
                    requires acc <= (usize::MAX - d) / 10, d <= 9;
                acc = acc * 10 + d;
            }
        }
        assert(all_dec(after)) by {
            assert forall|k: int| 0 <= k < after.len() implies is_dec_char(#[trigger] after[k]) by {
                if k < before.len() {
                    assert(after[k] == before[k]);
                }
            }
        }
        q = q + 1;
    }
    assert(cs@.subrange(p as int, n as int) =~= digits);
    if over {
        usize::MAX
    } else {
        acc
    }
}

/// Reading back the id of the item for any row gives that row.
pub proof fn lemma_item_id_round_trip(row: usize)
    ensures
        row_index_of_id(item_id_text(row as nat)) == row as nat,
{
    let t = item_id_text(row as nat);
    lemma_dec_spelling(row as nat);
    assert(t.take(4) =~= id_prefix());
    assert(t.skip(4) =~= dec(row as nat));
    let d = dec(row as nat);
    assert(is_dec_char(d[0]));
    if d.len() >= 4 && d.take(4) == id_prefix() {
        assert(d.take(4)[0] == d[0]);
    }
    assert(strip_id_prefixes(d) == d);
    assert(strip_id_prefixes(t) == d);
}

} // verus!
