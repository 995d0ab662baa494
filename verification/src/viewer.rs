//! What the viewer shows after each parse of the typed frame: the table rows,
//! their tree lines, the tree items, and the error message, if any; and what
//! each displayed tree entry shows.

use vstd::prelude::*;
use crate::row::{Row, build_rows, flat_rows, nesting, rows_view, lemma_flat_rows_steps};
use crate::tree_lines::{TreeLineInfo, PrefixSlot, compute_tree_lines, line_of, prefix_of, tree_prefix_slots};
use crate::tree_items::{TreeItem, build_tree_items, forest_fits, forest_rows, index_range, run_end,
    row_index_from_id, row_index_of_id, lemma_run_end_unique, lemma_stepped_rows_form_one_run,
    lemma_forest_fits_each};
use crate::value::FieldValue;

verus! {

/// The parsed state the viewer shows.
pub struct ViewerState {
    /// The table rows of the last frame that parsed.
    pub rows: Vec<Row>,
    /// The tree lines of those rows, one per row.
    pub tree_lines: Vec<TreeLineInfo>,
    /// The tree items over those rows.
    pub items: Vec<TreeItem>,
    /// The message of the last failed parse; `None` after a success.
    pub error: Option<String>,
    /// The text that was parsed last.
    pub last_parsed_content: String,
}

/// What one displayed tree entry shows besides its label.
#[derive(Clone, Debug)]
pub struct RowDisplay {
    /// The raw-data column.
    pub data: String,
    /// The description column.
    pub desc: String,
    /// The line prefix drawn before the label.
    pub prefix: Vec<PrefixSlot>,
    /// Whether the label is drawn bold (rows with children).
    pub bold: bool,
}

impl ViewerState {
    /// The tree lines and tree items agree with the rows, and a failed parse
    /// leaves nothing in the table.
    pub open spec fn wf(&self) -> bool {
        &&& self.error is Some ==> self.rows@.len() == 0 && self.tree_lines@.len() == 0
            && self.items@.len() == 0
        &&& self.tree_lines@.len() == self.rows@.len()
        &&& forall|i: int| 0 <= i < self.rows@.len() ==> #[trigger] self.tree_lines@[i]@ == line_of(self.rows@, i)
        &&& forest_fits(self.items@, self.rows@, 0)
        &&& exists|next: int| run_end(self.rows@, 0, 0, next) && forest_rows(self.items@) == index_range(0, next)
    }

    /// The state before anything was parsed: nothing shown, no error.
    pub fn new() -> (s: Self)
        ensures
            s.wf(),
            s.rows@.len() == 0,
            s.tree_lines@.len() == 0,
            s.items@.len() == 0,
            s.error is None,
            s.last_parsed_content@ == Seq::<char>::empty(),
    {
        let s = ViewerState {
            rows: Vec::new(),
            tree_lines: Vec::new(),
            items: Vec::new(),
            error: None,
            last_parsed_content: String::new(),
        };
        assert(run_end(s.rows@, 0, 0, 0));
        assert(forest_rows(s.items@) =~= index_range(0, 0));
        s
    }

    /// Shows the value tree decoded from `text`: its rows, their tree lines,
    /// and tree items that take in every row; the error is cleared.
    pub fn show_value(&mut self, text: &str, value: &FieldValue)
        requires
            nesting(*value) <= usize::MAX,
        ensures
            final(self).wf(),
            rows_view(final(self).rows@) == flat_rows(*value, 0),
            forest_rows(final(self).items@) == index_range(0, final(self).rows@.len() as int),
            final(self).error is None,
            final(self).last_parsed_content@ == text@,
    {
        let rows = build_rows(value);
        let tree_lines = compute_tree_lines(rows.as_slice());
        let (items, next) = build_tree_items(rows.as_slice(), 0, 0);
        proof {
            lemma_flat_rows_steps(*value, 0);
            lemma_stepped_rows_form_one_run(rows@);
            lemma_run_end_unique(rows@, 0, 0, next as int, rows@.len() as int);
        }
        self.rows = rows;
        self.tree_lines = tree_lines;
        self.items = items;
        self.error = None;
        self.last_parsed_content = String::from_str(text);
    }

    /// Shows that parsing `text` failed with `message`: the table and the tree
    /// are emptied.
    pub fn show_error(&mut self, text: &str, message: String)
        ensures
            final(self).wf(),
            final(self).rows@.len() == 0,
            final(self).tree_lines@.len() == 0,
            final(self).items@.len() == 0,
            final(self).error == Some(message),
            final(self).last_parsed_content@ == text@,
    {
        self.rows = Vec::new();
        self.tree_lines = Vec::new();
        self.items = Vec::new();
        self.error = Some(message);
        self.last_parsed_content = String::from_str(text);
        assert(run_end(self.rows@, 0, 0, 0));
        assert(forest_rows(self.items@) =~= index_range(0, 0));
    }

    /// What the tree entry with item id `id` shows: the data and description
    /// of the row the id names (empty when it names no row), the line prefix
    /// and bold label from that row's tree line (none when it has none).
    pub fn row_display(&self, id: &str) -> (d: RowDisplay)
        ensures
            ({
                let idx = row_index_of_id(id@);
                &&& idx < self.rows@.len() ==> d.data@ == self.rows@[idx as int].data@
                    && d.desc@ == self.rows@[idx as int].desc@
                &&& idx >= self.rows@.len() ==> d.data@ == Seq::<char>::empty()
                    && d.desc@ == Seq::<char>::empty()
                &&& idx < self.tree_lines@.len() ==> d.prefix@ == prefix_of(self.tree_lines@[idx as int]@)
                    && d.bold == self.tree_lines@[idx as int].has_children
                &&& idx >= self.tree_lines@.len() ==> d.prefix@.len() == 0 && !d.bold
            }),
    {
        let idx = row_index_from_id(id);
        let (data, desc) = if idx < self.rows.len() {
            (self.rows[idx].data.clone(), self.rows[idx].desc.clone())
        } else {
            (String::new(), String::new())
        };
        let (prefix, bold) = if idx < self.tree_lines.len() {
            (tree_prefix_slots(&self.tree_lines[idx]), self.tree_lines[idx].has_children)
        } else {
            (Vec::new(), false)
        };
        RowDisplay { data, desc, prefix, bold }
    }
}


/// In a consistent viewer state, every top-level tree item starts expanded
/// exactly when the tree line of its row marks the row as having children
/// (the entries drawn bold), and it shows a row of depth 0.
pub proof fn lemma_items_agree_with_lines(st: ViewerState)
    requires
        st.wf(),
    ensures
        forall|k: int| 0 <= k < st.items@.len() ==> {
            let r = (#[trigger] st.items@[k]).row as int;
            &&& 0 <= r < st.tree_lines@.len()
            &&& st.items@[k].expanded == st.tree_lines@[r].has_children
            &&& st.rows@[r].depth == 0
        },
{
    lemma_forest_fits_each(st.items@, st.rows@, 0);
    assert forall|k: int| 0 <= k < st.items@.len() implies {
        let r = (#[trigger] st.items@[k]).row as int;
        &&& 0 <= r < st.tree_lines@.len()
        &&& st.items@[k].expanded == st.tree_lines@[r].has_children
        &&& st.rows@[r].depth == 0
    } by {
        let r = st.items@[k].row as int;
        assert(st.tree_lines@[r]@ == line_of(st.rows@, r));
    }
}

} // verus!
