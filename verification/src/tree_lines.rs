//! Where the connecting lines of the tree view go: for every row, which of
//! its ancestors' levels still continue below it, whether it is the last
//! child of its parent, and whether rows nest under it.

use vstd::prelude::*;
use crate::row::Row;

verus! {

/// The line layout of one row.
#[derive(Clone, Debug)]
pub struct TreeLineInfo {
    /// The row's depth.
    pub depth: usize,
    /// For each ancestor level `0..depth`: whether that level has a later
    /// sibling further down, so that its vertical line continues past this row.
    pub ancestor_continues: Vec<bool>,
    /// Whether the row is the last child of its parent.
    pub is_last_child: bool,
    /// Whether rows nest under this row.
    pub has_children: bool,
}

/// The line layout of one row, as plain values.
pub struct TreeLineView {
    pub depth: nat,
    pub ancestor_continues: Seq<bool>,
    pub is_last_child: bool,
    pub has_children: bool,
}

impl View for TreeLineInfo {
    type V = TreeLineView;

    open spec fn view(&self) -> TreeLineView {
        TreeLineView {
            depth: self.depth as nat,
            ancestor_continues: self.ancestor_continues@,
            is_last_child: self.is_last_child,
            has_children: self.has_children,
        }
    }
}

/// Whether some row after row `i` has depth `d` before any row shallower
/// than `d` comes: the level `d` goes on below row `i`.
pub open spec fn level_continues(rows: Seq<Row>, i: int, d: int) -> bool {
    exists|j: int|
        #![trigger rows[j]]
        i < j < rows.len() && rows[j].depth == d && forall|k: int|
            #![trigger rows[k]]
            i < k < j ==> rows[k].depth > d
}

/// Whether the row right after row `i` is one level deeper.
pub open spec fn nests_below(rows: Seq<Row>, i: int) -> bool {
    i + 1 < rows.len() && rows[i + 1].depth == rows[i].depth + 1
}

/// The line layout of row `i` of `rows`.
pub open spec fn line_of(rows: Seq<Row>, i: int) -> TreeLineView {
    let depth = rows[i].depth;
    TreeLineView {
        depth: depth as nat,
        ancestor_continues: Seq::new(depth as nat, |d: int| level_continues(rows, i, d)),
        is_last_child: !level_continues(rows, i, depth as int),
        has_children: nests_below(rows, i),
    }
}

fn level_continues_exec(rows: &[Row], i: usize, d: usize) -> (b: bool)
    requires
        i < rows.len(),
    ensures
        b == level_continues(rows@, i as int, d as int),
{
    let mut j: usize = i + 1;
    while j < rows.len()
        invariant
            i < j <= rows.len(),
            forall|k: int| #![trigger rows@[k]] i < k < j ==> rows@[k].depth > d,
        decreases rows.len() - j,
    {
        if rows[j].depth < d {
            assert forall|w: int| #![trigger rows@[w]]
                i < w < rows.len() && rows@[w].depth == d implies !(forall|k: int|
                #![trigger rows@[k]]
                i < k < w ==> rows@[k].depth > d) by {
                assert(w > j);
                assert(rows@[j as int].depth < d);
            }
            return false;
        }
        if rows[j].depth == d {
            assert(rows@[j as int].depth == d);
            return true;
        }
        j = j + 1;
    }
    false
}

/// The line layout of every row, in order (one entry per row).
pub fn compute_tree_lines(rows: &[Row]) -> (out: Vec<TreeLineInfo>)
    ensures
        out@.len() == rows@.len(),
        forall|i: int| 0 <= i < rows@.len() ==> #[trigger] out@[i]@ == line_of(rows@, i),
{
    let n = rows.len();
    let mut out: Vec<TreeLineInfo> = Vec::new();
    let mut i: usize = 0;
    while i < n
        invariant
            n == rows@.len(),
            i <= n,
            out@.len() == i,
            forall|k: int| 0 <= k < i ==> #[trigger] out@[k]@ == line_of(rows@, k),
        decreases n - i,
    {
        let depth = rows[i].depth;
        let mut ancestor_continues: Vec<bool> = Vec::new();
        let mut d: usize = 0;
        while d < depth
            invariant
                n == rows@.len(),
                i < n,
                depth == rows@[i as int].depth,
                d <= depth,
                ancestor_continues@.len() == d,
                forall|e: int| 0 <= e < d ==> #[trigger] ancestor_continues@[e]
                    == level_continues(rows@, i as int, e),
            decreases depth - d,
        {
            let c = level_continues_exec(rows, i, d);
            ancestor_continues.push(c);
            d = d + 1;
        }
        let is_last_child = !level_continues_exec(rows, i, depth);
        let has_children = i + 1 < n && rows[i + 1].depth > depth && rows[i + 1].depth - depth == 1;
        let info = TreeLineInfo { depth, ancestor_continues, is_last_child, has_children };
        assert(info@.ancestor_continues =~= line_of(rows@, i as int).ancestor_continues);
        out.push(info);
        i = i + 1;
    }
    out
}

/// What one slot of the line prefix in front of a row's name shows.
#[derive(Clone, Copy, Debug, PartialEq, Eq, Structural)]
pub enum PrefixSlot {
    /// Nothing: that ancestor level has ended.
    Blank,
    /// A vertical line passing by: that ancestor level continues.
    Through,
    /// The connector of a row that has later siblings (`├──`).
    Tee,
    /// The connector of the last child (`└──`).
    Corner,
}

/// The slots of the line prefix of a row, left to right: one per ancestor
/// level (a line where that level continues, blank otherwise; a level with no
/// entry in `ancestor_continues` counts as ended), then the row's connector.
pub open spec fn prefix_of(tl: TreeLineView) -> Seq<PrefixSlot> {
    Seq::new(tl.depth, |k: int|
        if k < tl.ancestor_continues.len() && tl.ancestor_continues[k] {
            PrefixSlot::Through
        } else {
            PrefixSlot::Blank
        }).push(if tl.is_last_child { PrefixSlot::Corner } else { PrefixSlot::Tee })
}

/// The connector at the end of a row's prefix is `└──` exactly for the last
/// child of its parent and `├──` otherwise, whether or not the row has
/// children; one slot comes before it for each ancestor level, a line where
/// that level goes on and a blank where it has ended.
pub proof fn lemma_prefix_shape(tl: TreeLineView)
    ensures
        prefix_of(tl).len() == tl.depth + 1,
        tl.is_last_child ==> prefix_of(tl)[tl.depth as int] == PrefixSlot::Corner,
        !tl.is_last_child ==> prefix_of(tl)[tl.depth as int] == PrefixSlot::Tee,
        prefix_of(tl) == prefix_of(TreeLineView { has_children: !tl.has_children, ..tl }),
        forall|k: int| 0 <= k < tl.depth ==> {
            &&& (#[trigger] prefix_of(tl)[k] == PrefixSlot::Through)
                == (k < tl.ancestor_continues.len() && tl.ancestor_continues[k])
            &&& prefix_of(tl)[k] == PrefixSlot::Through || prefix_of(tl)[k] == PrefixSlot::Blank
        },
{
    let other = TreeLineView { has_children: !tl.has_children, ..tl };
    assert(prefix_of(tl) =~= prefix_of(other));
}

/// For every row of a table, its line says: ancestor level `d` goes on past
/// the row exactly when some later row has depth `d` and every row between
/// them is deeper than `d` (no shallower row ends that level first); the row
/// is its parent's last child exactly when no later row of its own depth
/// comes before a shallower one; and it has children exactly when the next
/// row is one level deeper.
pub proof fn lemma_line_meaning(rows: Seq<Row>, i: int)
    requires
        0 <= i < rows.len(),
    ensures
        line_of(rows, i).depth == rows[i].depth,
        line_of(rows, i).ancestor_continues.len() == rows[i].depth,
        forall|d: int| 0 <= d < rows[i].depth ==> (#[trigger] line_of(rows, i).ancestor_continues[d] <==> exists|j: int|
            i < j < rows.len() && rows[j].depth == d && forall|k: int| i < k < j ==> rows[k].depth > d),
        line_of(rows, i).is_last_child <==> !exists|j: int|
            i < j < rows.len() && rows[j].depth == rows[i].depth && forall|k: int| i < k < j ==> rows[k].depth > rows[i].depth,
        line_of(rows, i).has_children <==> (i + 1 < rows.len() && rows[i + 1].depth == rows[i].depth + 1),
{
    assert forall|d: int| 0 <= d < rows[i].depth implies (#[trigger] line_of(rows, i).ancestor_continues[d] <==> exists|j: int|
        i < j < rows.len() && rows[j].depth == d && forall|k: int| i < k < j ==> rows[k].depth > d) by {
        if line_of(rows, i).ancestor_continues[d] {
            assert(level_continues(rows, i, d));
            let j = choose|j: int| #![trigger rows[j]] i < j < rows.len() && rows[j].depth == d && forall|k: int|
                #![trigger rows[k]] i < k < j ==> rows[k].depth > d;
            assert(i < j < rows.len() && rows[j].depth == d && forall|k: int| i < k < j ==> rows[k].depth > d);
        }
        if exists|j: int| i < j < rows.len() && rows[j].depth == d && forall|k: int| i < k < j ==> rows[k].depth > d {
            let j = choose|j: int| i < j < rows.len() && rows[j].depth == d && forall|k: int| i < k < j ==> rows[k].depth > d;
            assert(rows[j].depth == d);
            assert(level_continues(rows, i, d));
        }
    }
    let dd = rows[i].depth as int;
    if exists|j: int| i < j < rows.len() && rows[j].depth == dd && forall|k: int| i < k < j ==> rows[k].depth > dd {
        let j = choose|j: int| i < j < rows.len() && rows[j].depth == dd && forall|k: int| i < k < j ==> rows[k].depth > dd;
        assert(rows[j].depth == dd);
        assert(level_continues(rows, i, dd));
    }
    if level_continues(rows, i, dd) {
        let j = choose|j: int| #![trigger rows[j]] i < j < rows.len() && rows[j].depth == dd && forall|k: int|
            #![trigger rows[k]] i < k < j ==> rows[k].depth > dd;
        assert(i < j < rows.len() && rows[j].depth == dd && forall|k: int| i < k < j ==> rows[k].depth > dd);
    }
}

/// The prefix slots drawn in front of a row's name (the same for rows with
/// and without children: the tree widget adds the expand icon itself).
pub fn tree_prefix_slots(tl: &TreeLineInfo) -> (slots: Vec<PrefixSlot>)
    ensures
        slots@ == prefix_of(tl@),
{
    let mut slots: Vec<PrefixSlot> = Vec::new();
    let mut k: usize = 0;
    while k < tl.depth
        invariant
            k <= tl.depth,
            slots@ == prefix_of(tl@).take(k as int),
        decreases tl.depth - k,
    {
        let through = k < tl.ancestor_continues.len() && tl.ancestor_continues[k];
        slots.push(if through { PrefixSlot::Through } else { PrefixSlot::Blank });
        assert(slots@ =~= prefix_of(tl@).take(k as int + 1));
        k = k + 1;
    }
    slots.push(if tl.is_last_child { PrefixSlot::Corner } else { PrefixSlot::Tee });
    assert(slots@ =~= prefix_of(tl@));
    slots
}

} // verus!
