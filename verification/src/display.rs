//! What the panel shows: its header, its body and its rows, as plain values
//! for the program around it to draw.

use crate::laws::law_every_row_has_its_symbol;
use crate::model::PanelState;
use crate::panel::{tree_of_row, CallHierarchyPanel};
use crate::rows::rows_of;
use crate::symbol::CallHierarchyMode;
use crate::tree::tree_at;
use core::ops::Range;
use vstd::prelude::*;

verus! {

/// The header: the panel's name, and a button that changes the direction.
#[derive(Debug)]
pub struct Header {
    pub title: &'static str,
    pub button: &'static str,
    /// The direction that a click on the button chooses.
    pub on_click: CallHierarchyMode,
}

/// What stands below the header.
#[derive(Debug)]
pub enum Body {
    Message(&'static str),
    Entries {
        count: usize,
        /// The entry from which the list takes its width.
        widest: Option<usize>,
    },
}

/// A mark behind a row's name.
#[derive(Debug, Clone, Copy, PartialEq, Eq, Structural)]
pub enum Badge {
    Recursive,
    Loading,
}

/// A row, as it is drawn.
#[derive(Debug)]
pub struct EntryView {
    pub name: String,
    /// The marks behind the name, from left to right.
    pub badges: Vec<Badge>,
    /// How many steps the row is indented.
    pub depth: usize,
    /// The disclosure, open or closed. Recursive rows have none.
    pub disclosure: Option<bool>,
    /// The file and line of the call.
    pub tooltip: Option<String>,
}

/// The marks of a row.
pub open spec fn badges_of(recursive: bool, loading: bool) -> Seq<Badge> {
    if recursive && loading {
        seq![Badge::Recursive, Badge::Loading]
    } else if recursive {
        seq![Badge::Recursive]
    } else if loading {
        seq![Badge::Loading]
    } else {
        Seq::empty()
    }
}

/// The marks of a row hold the one for recursion exactly if the row is
/// recursive, whether or not it is loading, and the one for loading exactly if it
/// is loading, each once and in this order.
pub proof fn law_marks_say_what_the_row_is(recursive: bool, loading: bool)
    ensures
        badges_of(recursive, loading).contains(Badge::Recursive) <==> recursive,
        badges_of(recursive, loading).contains(Badge::Loading) <==> loading,
        badges_of(recursive, loading).no_duplicates(),
        recursive ==> badges_of(recursive, loading)[0] == Badge::Recursive,
        recursive && loading ==> badges_of(recursive, loading)[1] == Badge::Loading,
{
    let badges = badges_of(recursive, loading);
    if recursive {
        assert(badges[0] == Badge::Recursive);
    }
    if loading {
        assert(badges[badges.len() - 1] == Badge::Loading);
    }
}

impl Badge {
    /// The text of the mark.
    pub fn text(self) -> (text: &'static str)
        ensures
            text@ == match self {
                Badge::Recursive => "recursive"@,
                Badge::Loading => "loading…"@,
            },
    {
        match self {
            Badge::Recursive => "recursive",
            Badge::Loading => "loading…",
        }
    }
}

impl CallHierarchyPanel {
    /// The row with number `index`.
    pub fn render_entry(&self, index: usize) -> (view: Option<EntryView>)
        ensures
            match view {
                Some(view) => {
                    let row = self@.entries[index as int];
                    &&& tree_of_row(self@, index as int) matches Some(tree) && {
                        &&& view.name == tree.call.display.name
                        &&& view.tooltip == tree.call.display.path
                    }
                    &&& index < self@.entries.len()
                    &&& tree_at(self@.nodes, row.path) matches Some(tree) && {
                        &&& view.name == tree.call.display.name
                        &&& view.tooltip == tree.call.display.path
                    }
                    &&& view.badges@ == badges_of(row.recursive, row.loading)
                    &&& view.badges@.contains(Badge::Recursive) <==> row.recursive
                    &&& view.badges@.contains(Badge::Loading) <==> row.loading
                    &&& view.badges@.no_duplicates()
                    &&& row.recursive ==> view.badges@[0] == Badge::Recursive
                    &&& view.depth == row.depth
                    &&& view.disclosure == if row.recursive {
                        None
                    } else {
                        Some(row.expanded)
                    }
                },
                None => tree_of_row(self@, index as int) is None,
            },
            self@.wf() && index < self@.entries.len() ==> view is Some,
            view is Some <==> index < self@.entries.len() && tree_at(
                self@.nodes,
                self@.entries[index as int].path,
            ) is Some,
    {
        proof {
            if self@.wf() && index < self@.entries.len() {
                law_every_row_has_its_symbol(self@, index as int);
            }
        }
        let entries = self.entries();
        if index >= entries.len() {
            return None;
        }
        let entry = &entries[index];
        assert(entry@ == self@.entries[index as int]);
        match Self::node_at(self.nodes(), entry.path.as_slice()) {
            Some(node) => {
                let mut badges: Vec<Badge> = Vec::new();
                if entry.recursive {
                    badges.push(Badge::Recursive);
                }
                if entry.loading {
                    badges.push(Badge::Loading);
                }
                assert(badges@ =~= badges_of(entry.recursive, entry.loading));
                proof {
                    law_marks_say_what_the_row_is(entry.recursive, entry.loading);
                }
                Some(
                    EntryView {
                        name: node.call.display.name.clone(),
                        badges,
                        depth: entry.depth,
                        disclosure: if entry.recursive {
                            None
                        } else {
                            Some(entry.expanded)
                        },
                        tooltip: node.call.display.path.clone(),
                    },
                )
            },
            None => None,
        }
    }

    /// The header. The inspected symbol is the tree's first row, so the header
    /// carries only the panel's name and the direction.
    pub fn render_header(&self) -> (header: Header)
        ensures
            header.title@ == "Call Hierarchy"@,
            header.button@ == match self@.mode {
                CallHierarchyMode::Incoming => "Incoming"@,
                CallHierarchyMode::Outgoing => "Outgoing"@,
            },
            header.on_click == self@.mode.opposite(),
            header.on_click != self@.mode,
    {
        let mode = self.mode();
        Header {
            title: "Call Hierarchy",
            button: match mode {
                CallHierarchyMode::Incoming => "Incoming",
                CallHierarchyMode::Outgoing => "Outgoing",
            },
            on_click: mode.opposite(),
        }
    }

    /// What stands below the header: a message, or, when the panel is ready,
    /// its rows.
    pub fn render(&self) -> (body: Body)
        ensures
            match body {
                Body::Message(text) => match self@.state {
                    PanelState::Empty => text@ == "No call hierarchy loaded."@,
                    PanelState::Loading => text@ == "Loading…"@,
                    PanelState::NoSymbol => text@ == "No symbol under the cursor."@,
                    PanelState::Ready => false,
                },
                Body::Entries { count, widest } => {
                    &&& self@.state is Ready
                    &&& count == self@.entries.len()
                    &&& match widest {
                        Some(index) => self@.widest_entry_index == Some(index as int),
                        None => self@.widest_entry_index is None,
                    }
                },
            },
    {
        match self.state() {
            PanelState::Empty => Body::Message("No call hierarchy loaded."),
            PanelState::Loading => Body::Message("Loading…"),
            PanelState::NoSymbol => Body::Message("No symbol under the cursor."),
            PanelState::Ready => Body::Entries {
                count: self.entries().len(),
                widest: self.widest_entry_index(),
            },
        }
    }

    /// The depths of the rows in `range`, for the guides beside them. A range
    /// that does not lie within the rows has none.
    pub fn entry_depths(&self, range: Range<usize>) -> (depths: Vec<usize>)
        ensures
            if range.start <= range.end <= self@.entries.len() {
                &&& depths@.len() == range.end - range.start
                &&& forall|i: int|
                    0 <= i < depths@.len() ==> #[trigger] depths@[i]
                        == self@.entries[range.start + i].depth
            } else {
                depths@.len() == 0
            },
    {
        let entries = self.entries();
        let mut depths: Vec<usize> = Vec::new();
        if range.start > range.end || range.end > entries.len() {
            return depths;
        }
        let mut i: usize = range.start;
        while i < range.end
            invariant
                range.start <= i <= range.end <= entries@.len(),
                rows_of(entries@) == self@.entries,
                depths@.len() == i - range.start,
                forall|j: int|
                    0 <= j < depths@.len() ==> #[trigger] depths@[j]
                        == self@.entries[range.start + j].depth,
            decreases range.end - i,
        {
            assert(entries@[i as int]@ == self@.entries[i as int]);
            depths.push(entries[i].depth);
            i += 1;
        }
        depths
    }
}

} // verus!
