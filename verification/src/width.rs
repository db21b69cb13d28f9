//! Which row is the widest. The list sizes itself from one row, so it has to
//! be pointed at the longest, or the others would be cut off.

use crate::panel::CallHierarchyPanel;
use crate::rows::{rows_of, FlatEntry, Row};
use crate::tree::{forest, tree_at, Node, Tree};
use vstd::prelude::*;
use vstd::utf8::encode_utf8;

verus! {

/// How far each level is indented, in pixels.
pub const INDENT_STEP: usize = 20;

/// The bytes of text that the row of a tree shows.
pub open spec fn text_width(trees: Seq<Tree>, path: Seq<usize>) -> nat {
    match tree_at(trees, path) {
        Some(tree) => encode_utf8(tree.call.display.spec_text()).len(),
        None => 0,
    }
}

/// The width of a row: its indent, and one for each byte of its text.
pub open spec fn row_width(trees: Seq<Tree>, row: Row) -> nat {
    row.depth * INDENT_STEP as nat + text_width(trees, row.path)
}

/// No row is wider than row `i`, and none below it is as wide.
pub open spec fn is_widest(trees: Seq<Tree>, rows: Seq<Row>, i: int) -> bool {
    &&& 0 <= i < rows.len()
    &&& forall|j: int|
        0 <= j < rows.len() ==> row_width(trees, #[trigger] rows[j]) <= row_width(trees, rows[i])
    &&& forall|j: int|
        i < j < rows.len() ==> row_width(trees, #[trigger] rows[j]) < row_width(trees, rows[i])
}

/// The widest row, the lowest among equals.
pub open spec fn widest_row(trees: Seq<Tree>, rows: Seq<Row>) -> Option<int> {
    if rows.len() == 0 {
        None
    } else {
        Some(choose|i: int| is_widest(trees, rows, i))
    }
}

/// Only one row is the widest.
pub proof fn lemma_widest_is_unique(trees: Seq<Tree>, rows: Seq<Row>, i: int)
    requires
        is_widest(trees, rows, i),
    ensures
        widest_row(trees, rows) == Some(i),
{
    let j = choose|j: int| is_widest(trees, rows, j);
    assert(is_widest(trees, rows, j));
    if i < j {
        assert(row_width(trees, rows[j]) < row_width(trees, rows[i]));
        assert(row_width(trees, rows[i]) <= row_width(trees, rows[j]));
    } else if j < i {
        assert(row_width(trees, rows[i]) < row_width(trees, rows[j]));
        assert(row_width(trees, rows[j]) <= row_width(trees, rows[i]));
    }
}

/// Of some rows, one is the widest.
pub proof fn lemma_some_row_is_widest(trees: Seq<Tree>, rows: Seq<Row>)
    requires
        rows.len() > 0,
    ensures
        widest_row(trees, rows) is Some,
        is_widest(trees, rows, widest_row(trees, rows)->0),
    decreases rows.len(),
{
    let last = rows.len() - 1;
    let most = rows.drop_last();
    if most.len() > 0 {
        lemma_some_row_is_widest(trees, most);
        let i = widest_row(trees, most)->0;
        assert forall|j: int| 0 <= j < last implies #[trigger] rows[j] == most[j] by {}
        if row_width(trees, rows[last]) < row_width(trees, rows[i]) {
            assert forall|j: int| 0 <= j < rows.len() implies row_width(trees, #[trigger] rows[j])
                <= row_width(trees, rows[i]) by {
                if j < last {
                    assert(row_width(trees, most[j]) <= row_width(trees, most[i]));
                }
            }
            assert forall|j: int| i < j < rows.len() implies row_width(trees, #[trigger] rows[j])
                < row_width(trees, rows[i]) by {
                if j < last {
                    assert(row_width(trees, most[j]) < row_width(trees, most[i]));
                }
            }
            assert(is_widest(trees, rows, i));
        } else {
            assert forall|j: int| 0 <= j < rows.len() implies row_width(trees, #[trigger] rows[j])
                <= row_width(trees, rows[last]) by {
                if j < last {
                    assert(row_width(trees, most[j]) <= row_width(trees, most[i]));
                }
            }
            assert(is_widest(trees, rows, last));
        }
    } else {
        assert(is_widest(trees, rows, last));
    }
}

impl CallHierarchyPanel {
    /// The width of an entry's row.
    fn entry_width(nodes: &[Node], entry: &FlatEntry) -> (width: u128)
        ensures
            width == row_width(forest(nodes@), entry@),
    {
        let text: usize = match Self::node_at(nodes, entry.path.as_slice()) {
            Some(node) => node.call.display.text_len(),
            None => 0,
        };
        entry.depth as u128 * INDENT_STEP as u128 + text as u128
    }

    /// The index of the widest entry, the last among equals.
    pub(crate) fn widest_entry(nodes: &[Node], entries: &[FlatEntry]) -> (widest: Option<usize>)
        ensures
            match widest {
                Some(i) => widest_row(forest(nodes@), rows_of(entries@)) == Some(i as int)
                    && is_widest(forest(nodes@), rows_of(entries@), i as int),
                None => entries@.len() == 0,
            },
    {
        if entries.len() == 0 {
            return None;
        }
        let ghost trees = forest(nodes@);
        let ghost rows = rows_of(entries@);
        let mut best: usize = 0;
        let mut best_width: u128 = Self::entry_width(nodes, &entries[0]);
        let mut i: usize = 1;
        while i < entries.len()
            invariant
                trees == forest(nodes@),
                rows == rows_of(entries@),
                best < i <= entries@.len(),
                best_width == row_width(trees, rows[best as int]),
                forall|j: int| 0 <= j < i ==> row_width(trees, #[trigger] rows[j]) <= best_width,
                forall|j: int| best < j < i ==> row_width(trees, #[trigger] rows[j]) < best_width,
            decreases entries@.len() - i,
        {
            let width: u128 = Self::entry_width(nodes, &entries[i]);
            assert(width == row_width(trees, rows[i as int]));
            if width >= best_width {
                best = i;
                best_width = width;
            }
            i += 1;
        }
        proof {
            lemma_widest_is_unique(trees, rows, best as int);
        }
        Some(best)
    }
}

} // verus!
