//! What each step does to each part of the panel.

use crate::fetches::{
    first_level, law_first_level_is_opened_up_to_the_limit, lemma_opened_below_root,
};
use crate::laws::{
    law_every_event_keeps_the_panel_well_formed, law_ready_panel_has_rows,
    law_toggling_leaves_other_rows, lemma_new_children,
};
use crate::model::{with_children_at, Event, Panel};
use crate::panel::{loads_of, tree_of_row, LoadRequest};
use crate::rows::{rows_of, FlatEntry, Row};
use crate::symbol::{Anchor, Call, CallHierarchyItem, CallHierarchyMode};
use crate::tree::{fresh_trees, law_last_step_picks_a_child, tree_at, Branches};
use crate::visible::{
    is_open, is_shown, key_at, law_every_child_of_an_expanded_row_has_a_row, law_every_top_tree_has_a_row,
    law_nothing_below_a_closed_row, law_row_says_what_its_tree_says,
    law_rows_are_in_reading_order, law_rows_are_the_shown_places,
    law_rows_stand_below_expanded_rows, lemma_loaded_above, repeats_above, row_at,
};
use crate::width::row_width;
use vstd::prelude::*;
use vstd::utf8::encode_utf8;

verus! {

/// Without a symbol the panel has no root, no tree and no rows. The direction,
/// what was expanded and the fetches that run stay.
pub proof fn law_no_symbol_leaves_no_tree(panel: Panel)
    ensures
        panel.without_symbol().state is NoSymbol,
        panel.without_symbol().root is None,
        panel.without_symbol().nodes.len() == 0,
        panel.without_symbol().entries.len() == 0,
        panel.without_symbol().mode == panel.mode,
        panel.without_symbol().expanded == panel.expanded,
        panel.without_symbol().widest_entry_index == panel.widest_entry_index,
        panel.without_symbol().root_task == panel.root_task,
        panel.without_symbol().child_tasks == panel.child_tasks,
        panel.without_symbol().next_task == panel.next_task,
{
}

/// Asking for the symbol at a position, the panel says that it is loading, shows
/// and expands nothing, and waits for one fetch, with the next number. Without a
/// position it shows no symbol.
pub proof fn law_showing_waits_for_the_symbol(panel: Panel, position: Option<(u64, Anchor)>)
    ensures
        position is Some ==> {
            let after = panel.shown_for(position);
            &&& after.state is Loading
            &&& after.nodes.len() == 0
            &&& after.entries.len() == 0
            &&& after.root_task == Some(panel.next_task)
            &&& forall|path: Seq<usize>| !#[trigger] after.expanded.contains(path)
            &&& forall|path: Seq<usize>| !#[trigger] after.child_tasks.contains_key(path)
            &&& after.mode == panel.mode
            &&& after.root == panel.root
            &&& after.widest_entry_index == panel.widest_entry_index
            &&& panel.next_task < u64::MAX ==> after.next_task == panel.next_task + 1
            &&& panel.next_task == u64::MAX ==> after.next_task == u64::MAX
        },
        position is None ==> {
            let after = panel.shown_for(position);
            &&& after.state is NoSymbol
            &&& after.root is None
            &&& after.nodes.len() == 0
            &&& after.entries.len() == 0
            &&& after.mode == panel.mode
            &&& after.expanded == panel.expanded
            &&& after.widest_entry_index == panel.widest_entry_index
            &&& after.root_task == panel.root_task
            &&& after.child_tasks == panel.child_tasks
            &&& after.next_task == panel.next_task
        },
{
}

/// A new direction is followed from then on. Where there is a root, the old tree
/// is gone, the panel says that it is loading and waits for one fetch, with the
/// next number, in either direction. Where there is none, nothing else changes.
pub proof fn law_new_direction_waits_for_the_root(panel: Panel, mode: CallHierarchyMode)
    requires
        mode != panel.mode,
    ensures
        panel.in_mode(mode).mode == mode,
        panel.in_mode(mode).root == panel.root,
        panel.in_mode(mode).widest_entry_index == panel.widest_entry_index,
        panel.root is Some ==> {
            let after = panel.in_mode(mode);
            &&& after.state is Loading
            &&& after.nodes.len() == 0
            &&& after.entries.len() == 0
            &&& after.root_task == Some(panel.next_task)
            &&& forall|path: Seq<usize>| !#[trigger] after.expanded.contains(path)
            &&& forall|path: Seq<usize>| !#[trigger] after.child_tasks.contains_key(path)
            &&& panel.next_task < u64::MAX ==> after.next_task == panel.next_task + 1
            &&& panel.next_task == u64::MAX ==> after.next_task == u64::MAX
        },
        panel.root is None ==> {
            let after = panel.in_mode(mode);
            &&& after.state == panel.state
            &&& after.nodes == panel.nodes
            &&& after.entries == panel.entries
            &&& after.expanded == panel.expanded
            &&& after.root_task == panel.root_task
            &&& after.child_tasks == panel.child_tasks
            &&& after.next_task == panel.next_task
        },
{
}

/// When the awaited fetch finds no symbol, the panel shows none and waits for
/// that fetch no longer. When it finds one, or was not awaited, nothing changes.
pub proof fn law_symbol_found_or_not(panel: Panel, task: u64, found: Option<CallHierarchyItem>)
    ensures
        found is Some || panel.root_task != Some(task) ==> panel.prepared(task, found) == panel,
        found is None && panel.root_task == Some(task) ==> {
            let after = panel.prepared(task, found);
            &&& after.state is NoSymbol
            &&& after.root is None
            &&& after.nodes.len() == 0
            &&& after.entries.len() == 0
            &&& after.root_task is None
            &&& after.mode == panel.mode
            &&& after.expanded == panel.expanded
            &&& after.widest_entry_index == panel.widest_entry_index
            &&& after.child_tasks == panel.child_tasks
            &&& after.next_task == panel.next_task
        },
{
}

/// When the awaited root arrives, it is the panel's root from then on if it is a
/// new one, whatever root there was before. The panel is ready, follows calls in
/// the same direction and waits for no root. Its tree is the root with one child
/// per call, in order. Up to `limit` calls, each is expanded and waited for with a
/// fetch of its own, numbered in order; above it, none is.
pub proof fn law_root_arrives(
    panel: Panel,
    task: u64,
    root: Option<CallHierarchyItem>,
    root_call: Call,
    calls: Seq<Call>,
    limit: nat,
)
    requires
        panel.wf(),
        panel.root_task == Some(task),
        calls.len() <= usize::MAX,
    ensures
        ({
            let after = panel.root_arrived(task, root, root_call, calls, limit);
            let opened = calls.len() <= limit;
            &&& root is Some ==> after.root == root
            &&& root is None ==> after.root == panel.root
            &&& after.mode == panel.mode
            &&& after.state is Ready
            &&& after.root_task is None
            &&& after.nodes.len() == 1
            &&& after.nodes[0].call == root_call
            &&& after.nodes[0].key.buffer == root_call.item.buffer
            &&& after.nodes[0].key.start == root_call.item.range.start
            &&& after.nodes[0].key.end == root_call.item.range.end
            &&& after.nodes[0].children matches Branches::Loaded(children) && {
                &&& children.len() == calls.len()
                &&& forall|i: int|
                    0 <= i < calls.len() ==> {
                        &&& (#[trigger] children[i]).call == calls[i]
                        &&& children[i].key.buffer == calls[i].item.buffer
                        &&& children[i].key.start == calls[i].item.range.start
                        &&& children[i].key.end == calls[i].item.range.end
                        &&& children[i].children is Loading <==> opened
                        &&& children[i].children is NotLoaded <==> !opened
                    }
            }
            &&& forall|path: Seq<usize>| #[trigger]
                after.expanded.contains(path) <==> path == seq![0usize] || (opened && path.len()
                    == 2 && path[0] == 0 && path[1] < calls.len())
            &&& forall|path: Seq<usize>| #[trigger]
                after.child_tasks.contains_key(path) <==> opened && path.len() == 2 && path[0] == 0
                    && path[1] < calls.len()
            &&& panel.next_task + calls.len() <= u64::MAX ==> forall|path: Seq<usize>| #[trigger]
                after.child_tasks.contains_key(path) ==> after.child_tasks[path] == panel.next_task
                    + path[1]
            &&& panel.next_task + calls.len() <= u64::MAX && opened ==> after.next_task
                == panel.next_task + calls.len()
            &&& !opened ==> after.next_task == panel.next_task
        }),
{
    law_first_level_is_opened_up_to_the_limit(panel, task, root, root_call, calls, limit);
    let shown = panel.rooted(root).with_root(root_call, calls);
    let after = panel.root_arrived(task, root, root_call, calls, limit);
    let tree = shown.nodes[0];
    let count = if calls.len() <= limit {
        calls.len()
    } else {
        0
    };
    assert(shown.nodes =~= seq![tree]);
    lemma_opened_below_root(shown, tree, calls, count);
    assert(after == shown.opened_below_root(count));
}

/// The rows when the awaited root has arrived: the root, expanded, and below it
/// one row per call, in order. A call of the root itself is recursive. Up to
/// `limit` calls, each says that it is loading and is expanded unless it is
/// recursive; above it, none is.
pub proof fn law_rows_of_an_arrived_root(
    panel: Panel,
    task: u64,
    root: Option<CallHierarchyItem>,
    root_call: Call,
    calls: Seq<Call>,
    limit: nat,
)
    requires
        panel.wf(),
        panel.root_task == Some(task),
        calls.len() <= usize::MAX,
    ensures
        ({
            let rows = panel.root_arrived(task, root, root_call, calls, limit).entries;
            let opened = calls.len() <= limit;
            &&& rows.len() == calls.len() + 1
            &&& rows[0].path == seq![0usize]
            &&& rows[0].depth == 0
            &&& rows[0].expanded
            &&& !rows[0].recursive
            &&& !rows[0].loading
            &&& forall|i: int|
                0 <= i < calls.len() ==> {
                    let row = #[trigger] rows[i + 1];
                    &&& row.path == seq![0usize, i as usize]
                    &&& row.depth == 1
                    &&& row.recursive <==> calls[i].item.buffer == root_call.item.buffer
                        && calls[i].item.range.start == root_call.item.range.start
                        && calls[i].item.range.end == root_call.item.range.end
                    &&& row.expanded <==> opened && !row.recursive
                    &&& row.loading <==> opened
                }
        }),
{
    law_first_level_is_opened_up_to_the_limit(panel, task, root, root_call, calls, limit);
}

/// What a fetch brings that is not awaited changes nothing, however its number
/// came about.
pub proof fn law_unawaited_calls_change_nothing(
    panel: Panel,
    task: u64,
    path: Seq<usize>,
    root: Option<CallHierarchyItem>,
    root_call: Call,
    calls: Seq<Call>,
    limit: nat,
)
    ensures
        panel.root_task != Some(task) ==> panel.root_arrived(task, root, root_call, calls, limit)
            == panel,
        !panel.child_tasks.contains_key(path) || panel.child_tasks[path] != task
            ==> panel.children_arrived(path, task, calls) == panel,
{
}

/// When awaited calls arrive, the panel waits for them no longer. What is
/// expanded, the root, the direction, the state and all other fetches stay.
pub proof fn law_arriving_calls_only_change_the_tree(
    panel: Panel,
    path: Seq<usize>,
    task: u64,
    calls: Seq<Call>,
)
    requires
        panel.child_tasks.contains_key(path),
        panel.child_tasks[path] == task,
    ensures
        ({
            let after = panel.children_arrived(path, task, calls);
            &&& after.expanded == panel.expanded
            &&& after.root == panel.root
            &&& after.mode == panel.mode
            &&& after.state == panel.state
            &&& after.root_task == panel.root_task
            &&& after.next_task == panel.next_task
            &&& !after.child_tasks.contains_key(path)
            &&& forall|other: Seq<usize>|
                other != path ==> {
                    &&& #[trigger] after.child_tasks.contains_key(other)
                        == panel.child_tasks.contains_key(other)
                    &&& after.child_tasks.contains_key(other) ==> after.child_tasks[other]
                        == panel.child_tasks[other]
                }
        }),
{
}

/// When awaited calls arrive in a tree, the symbol that they were fetched for has
/// one child per call, in order, none of them asked for its own calls. Every
/// other place keeps its symbol, and has been asked or not as before.
pub proof fn law_arriving_calls_become_children(
    panel: Panel,
    path: Seq<usize>,
    task: u64,
    calls: Seq<Call>,
    other: Seq<usize>,
)
    requires
        panel.wf(),
        panel.state is Ready,
        panel.child_tasks.contains_key(path),
        panel.child_tasks[path] == task,
        calls.len() <= usize::MAX,
    ensures
        ({
            let after = panel.children_arrived(path, task, calls);
            &&& tree_at(panel.nodes, path) matches Some(before) && tree_at(
                after.nodes,
                path,
            ) matches Some(tree) && {
                &&& tree.call == before.call
                &&& tree.key == before.key
                &&& tree.children matches Branches::Loaded(children) && {
                    &&& children.len() == calls.len()
                    &&& forall|i: int|
                        0 <= i < calls.len() ==> {
                            &&& (#[trigger] children[i]).call == calls[i]
                            &&& children[i].key.buffer == calls[i].item.buffer
                            &&& children[i].key.start == calls[i].item.range.start
                            &&& children[i].key.end == calls[i].item.range.end
                            &&& children[i].children is NotLoaded
                        }
                }
            }
            &&& !path.is_prefix_of(other) ==> match tree_at(panel.nodes, other) {
                Some(before) => tree_at(after.nodes, other) matches Some(tree) && {
                    &&& tree.call == before.call
                    &&& tree.key == before.key
                    &&& tree.children is NotLoaded <==> before.children is NotLoaded
                    &&& tree.children is Loading <==> before.children is Loading
                    &&& tree.children is Loaded <==> before.children is Loaded
                },
                None => tree_at(after.nodes, other) is None,
            }
        }),
{
    let children = Branches::Loaded(fresh_trees(calls));
    assert(panel.is_loading(path));
    lemma_new_children(panel.nodes, path, children, path);
    lemma_new_children(panel.nodes, path, children, other);
    assert(path.is_prefix_of(path));
}

/// Rows after calls arrived at the place of row `i`: that row stands as before
/// but says no longer that it is loading. If it is expanded, each call has a row
/// one level deeper, collapsed and not loading; if it is not, none has.
pub proof fn law_arriving_calls_are_shown(
    panel: Panel,
    path: Seq<usize>,
    task: u64,
    calls: Seq<Call>,
    i: int,
    k: usize,
)
    requires
        panel.wf(),
        panel.child_tasks.contains_key(path),
        panel.child_tasks[path] == task,
        calls.len() <= usize::MAX,
        0 <= i < panel.entries.len(),
        panel.entries[i].path == path,
    ensures
        ({
            let row = panel.entries[i];
            let rows = panel.children_arrived(path, task, calls).entries;
            &&& rows.contains(
                Row {
                    path,
                    depth: row.depth,
                    expanded: row.expanded,
                    recursive: row.recursive,
                    loading: false,
                },
            )
            &&& row.expanded && k < calls.len() ==> exists|m: int|
                {
                    &&& 0 <= m < rows.len()
                    &&& (#[trigger] rows[m]).path == path.push(k)
                    &&& rows[m].depth == row.depth + 1
                    &&& !rows[m].expanded
                    &&& !rows[m].loading
                }
            &&& forall|m: int|
                0 <= m < rows.len() && path.is_prefix_of((#[trigger] rows[m]).path) ==> rows[m].path
                    == path || (row.expanded && rows[m].path.len() == path.len() + 1
                    && rows[m].path.last() < calls.len())
        }),
{
    let row = panel.entries[i];
    let after = panel.children_arrived(path, task, calls);
    let rows = after.entries;
    let children = Branches::Loaded(fresh_trees(calls));
    law_rows_are_the_shown_places(panel.nodes, panel.expanded);
    assert(is_shown(panel.nodes, panel.entries[i].path, panel.expanded));
    assert(row == row_at(panel.nodes, path, panel.expanded));
    assert(panel.state is Ready);
    assert(panel.is_loading(path));
    law_every_event_keeps_the_panel_well_formed(panel, Event::ChildrenLoaded { path, task, calls });
    law_rows_are_the_shown_places(after.nodes, after.expanded);
    lemma_places_above_keep_their_keys(panel, path, children);
    lemma_new_children(panel.nodes, path, children, path);
    assert(is_shown(after.nodes, path, after.expanded));
    assert(row_at(after.nodes, path, after.expanded) == (Row { loading: false, ..row }));
    if row.expanded && k < calls.len() {
        let longer = path.push(k);
        law_last_step_picks_a_child(after.nodes, path, k);
        law_last_step_picks_a_child(panel.nodes, path, k);
        assert(tree_at(panel.nodes, longer) is None);
        if panel.expanded.contains(longer) {
            assert(panel.is_asked(longer));
        }
        assert forall|j: int| 0 < j < longer.len() implies is_open(
            after.nodes,
            #[trigger] longer.take(j),
            after.expanded,
        ) by {
            if j < path.len() {
                assert(longer.take(j) =~= path.take(j));
                assert(is_open(after.nodes, path.take(j), after.expanded));
            } else {
                assert(longer.take(j) =~= path);
            }
        }
        assert(is_shown(after.nodes, longer, after.expanded));
        let child = row_at(after.nodes, longer, after.expanded);
        let m = choose|m: int| 0 <= m < rows.len() && rows[m] == child;
        assert(rows[m].path == longer);
    }
    assert forall|m: int| 0 <= m < rows.len() && path.is_prefix_of(
        (#[trigger] rows[m]).path,
    ) implies rows[m].path == path || (row.expanded && rows[m].path.len() == path.len() + 1
        && rows[m].path.last() < calls.len()) by {
        let deep = rows[m].path;
        assert(is_shown(after.nodes, rows[m].path, after.expanded));
        lemma_new_children(panel.nodes, path, children, deep);
        if deep != path {
            let rest = deep.skip(path.len() as int);
            assert(deep.len() > path.len()) by {
                if deep.len() == path.len() {
                    assert(deep =~= path);
                }
            }
            assert(deep.take(path.len() as int) =~= path);
            assert(is_open(after.nodes, deep.take(path.len() as int), after.expanded));
            assert(tree_at(fresh_trees(calls), rest) is Some);
            if rest.len() > 1 {
                assert(fresh_trees(calls)[rest[0] as int].children is NotLoaded);
            }
            assert(rest.len() == 1 && rest[0] < calls.len());
            assert(deep.last() == rest[0]);
        }
    }
}

/// The symbols above a place stay when the place is given children, and so does
/// what is open there.
proof fn lemma_places_above_keep_their_keys(panel: Panel, path: Seq<usize>, children: Branches)
    requires
        is_shown(panel.nodes, path, panel.expanded),
        !(tree_at(panel.nodes, path)->0.children is Loaded),
    ensures
        ({
            let after = with_children_at(panel.nodes, path, children);
            &&& is_shown(after, path, panel.expanded)
            &&& repeats_above(after, path) == repeats_above(panel.nodes, path)
        }),
{
    let after = with_children_at(panel.nodes, path, children);
    lemma_new_children(panel.nodes, path, children, path);
    assert(path.take(path.len() as int) =~= path);
    assert forall|j: int| 0 < j <= path.len() implies #[trigger] key_at(after, path.take(j))
        == key_at(panel.nodes, path.take(j)) by {
        if j < path.len() {
            lemma_new_children(panel.nodes, path, children, path.take(j));
            lemma_loaded_above(panel.nodes, path, j);
            assert(!path.is_prefix_of(path.take(j)));
        }
    }
    assert forall|j: int| 0 < j <= path.len() implies repeats_above(after, #[trigger] path.take(j))
        == repeats_above(panel.nodes, path.take(j)) by {
        let part = path.take(j);
        assert(key_at(after, part) == key_at(panel.nodes, part));
        assert forall|m: int| 0 < m < j implies #[trigger] key_at(after, part.take(m)) == key_at(
            panel.nodes,
            part.take(m),
        ) by {
            assert(part.take(m) =~= path.take(m));
            assert(key_at(after, path.take(m)) == key_at(panel.nodes, path.take(m)));
        }
        if repeats_above(after, part) {
            let m = choose|m: int|
                0 < m < part.len() && #[trigger] key_at(after, part.take(m)) == key_at(after, part);
            assert(key_at(panel.nodes, part.take(m)) == key_at(panel.nodes, part));
        }
        if repeats_above(panel.nodes, part) {
            let m = choose|m: int|
                0 < m < part.len() && #[trigger] key_at(panel.nodes, part.take(m)) == key_at(
                    panel.nodes,
                    part,
                );
            assert(key_at(after, part.take(m)) == key_at(after, part));
        }
    }
    assert forall|j: int| 0 < j < path.len() implies is_open(
        after,
        #[trigger] path.take(j),
        panel.expanded,
    ) by {
        assert(is_open(panel.nodes, path.take(j), panel.expanded));
    }
}

/// Toggling a row that is not recursive flips it, and leaves it where it is.
pub proof fn law_toggling_flips_the_row(panel: Panel, index: int)
    requires
        panel.wf(),
        0 <= index < panel.entries.len(),
        !panel.entries[index].recursive,
    ensures
        panel.toggled(index).entries.len() > index,
        panel.toggled(index).entries[index].path == panel.entries[index].path,
        panel.toggled(index).entries[index].depth == panel.entries[index].depth,
        !panel.toggled(index).entries[index].recursive,
        panel.toggled(index).entries[index].expanded == !panel.entries[index].expanded,
{
    let after = panel.toggled(index);
    let path = panel.entries[index].path;
    law_rows_are_the_shown_places(panel.nodes, panel.expanded);
    assert(is_shown(panel.nodes, panel.entries[index].path, panel.expanded));
    let elsewhere = Row {
        path: Seq::empty(),
        depth: 0,
        expanded: false,
        recursive: false,
        loading: false,
    };
    law_toggling_leaves_other_rows(panel, index, elsewhere);
    law_every_event_keeps_the_panel_well_formed(panel, Event::ToggleExpanded { index });
    law_rows_are_the_shown_places(after.nodes, after.expanded);
    assert(after.entries[index] == row_at(
        after.nodes,
        after.entries[index].path,
        after.expanded,
    ));
    assert(panel.entries[index] == row_at(panel.nodes, path, panel.expanded));
}

/// Toggling a row that is not recursive expands its place where it was not
/// expanded and the other way round, and no other place. Expanding a place that
/// has not been asked for its calls starts one fetch there, with the next number;
/// otherwise the tree and the fetches stay. Nothing else changes.
pub proof fn law_toggling_changes_one_place(panel: Panel, index: int)
    requires
        0 <= index < panel.entries.len(),
        !panel.entries[index].recursive,
    ensures
        ({
            let after = panel.toggled(index);
            let path = panel.entries[index].path;
            let unasked = tree_at(panel.nodes, path) matches Some(tree) && tree.children is NotLoaded;
            &&& after.expanded.contains(path) == !panel.expanded.contains(path)
            &&& forall|other: Seq<usize>|
                other != path ==> #[trigger] after.expanded.contains(other)
                    == panel.expanded.contains(other)
            &&& after.mode == panel.mode
            &&& after.root == panel.root
            &&& after.state == panel.state
            &&& after.root_task == panel.root_task
            &&& panel.expanded.contains(path) || !unasked ==> {
                &&& after.nodes == panel.nodes
                &&& after.child_tasks == panel.child_tasks
                &&& after.next_task == panel.next_task
            }
            &&& !panel.expanded.contains(path) && unasked ==> {
                &&& after.child_tasks.contains_key(path)
                &&& after.child_tasks[path] == panel.next_task
                &&& forall|other: Seq<usize>|
                    other != path ==> {
                        &&& #[trigger] after.child_tasks.contains_key(other)
                            == panel.child_tasks.contains_key(other)
                        &&& after.child_tasks.contains_key(other) ==> after.child_tasks[other]
                            == panel.child_tasks[other]
                    }
                &&& panel.next_task < u64::MAX ==> after.next_task == panel.next_task + 1
                &&& panel.next_task == u64::MAX ==> after.next_task == u64::MAX
            }
        }),
{
}

/// Toggling a recursive row, or one that is not there, changes nothing.
pub proof fn law_toggling_nothing(panel: Panel, index: int)
    requires
        index < 0 || index >= panel.entries.len() || panel.entries[index].recursive,
    ensures
        panel.toggled(index) == panel,
{
}

/// Where toggling starts a fetch, the symbol there says that it is loading, and
/// every other place keeps its symbol and has been asked or not as before.
pub proof fn law_toggling_marks_the_symbol(panel: Panel, index: int, other: Seq<usize>)
    requires
        0 <= index < panel.entries.len(),
        !panel.entries[index].recursive,
        !panel.expanded.contains(panel.entries[index].path),
        tree_at(panel.nodes, panel.entries[index].path) is Some,
        tree_at(panel.nodes, panel.entries[index].path)->0.children is NotLoaded,
    ensures
        ({
            let after = panel.toggled(index);
            let path = panel.entries[index].path;
            let before = tree_at(panel.nodes, path)->0;
            &&& tree_at(after.nodes, path) matches Some(tree) && {
                &&& tree.call == before.call
                &&& tree.key == before.key
                &&& tree.children is Loading
            }
            &&& other != path ==> match tree_at(panel.nodes, other) {
                Some(before) => tree_at(after.nodes, other) matches Some(tree) && {
                    &&& tree.call == before.call
                    &&& tree.key == before.key
                    &&& tree.children is NotLoaded <==> before.children is NotLoaded
                    &&& tree.children is Loading <==> before.children is Loading
                    &&& tree.children is Loaded <==> before.children is Loaded
                },
                None => tree_at(after.nodes, other) is None,
            }
        }),
{
    let path = panel.entries[index].path;
    lemma_new_children(panel.nodes, path, Branches::Loading, path);
    lemma_new_children(panel.nodes, path, Branches::Loading, other);
}

/// The rows below a toggled row: none when it has been collapsed, or when its
/// calls are not there; one for each of its calls when it has been expanded.
pub proof fn law_toggling_shows_or_hides_the_calls(panel: Panel, index: int, m: int, c: usize)
    requires
        panel.wf(),
        0 <= index < panel.entries.len(),
        !panel.entries[index].recursive,
    ensures
        ({
            let rows = panel.toggled(index).entries;
            let path = panel.entries[index].path;
            let tree = tree_at(panel.nodes, path)->0;
            &&& panel.entries[index].expanded || !(tree.children is Loaded) ==> 0 <= m < rows.len()
                && m != index ==> !path.is_prefix_of(rows[m].path)
            &&& !panel.entries[index].expanded && tree.children is Loaded && c
                < tree.children->Loaded_0.len() ==> exists|k: int|
                0 <= k < rows.len() && (#[trigger] rows[k]).path == path.push(c)
        }),
{
    let after = panel.toggled(index);
    let rows = after.entries;
    let path = panel.entries[index].path;
    let tree = tree_at(panel.nodes, path)->0;
    law_toggling_flips_the_row(panel, index);
    law_every_event_keeps_the_panel_well_formed(panel, Event::ToggleExpanded { index });
    law_rows_are_the_shown_places(panel.nodes, panel.expanded);
    assert(is_shown(panel.nodes, panel.entries[index].path, panel.expanded));
    assert(panel.entries[index] == row_at(panel.nodes, path, panel.expanded));
    lemma_new_children_if_unasked(panel, index);
    if panel.entries[index].expanded || !(tree.children is Loaded) {
        if 0 <= m < rows.len() {
            law_nothing_below_a_closed_row(after.nodes, after.expanded, index, m);
        }
    }
    if !panel.entries[index].expanded && tree.children is Loaded && c
        < tree.children->Loaded_0.len() {
        assert(rows[index].path.skip(0) =~= path);
        law_every_child_of_an_expanded_row_has_a_row(
            after.nodes,
            Seq::empty(),
            0,
            after.expanded,
            Set::empty(),
            index,
            c,
        );
    }
}

proof fn lemma_new_children_if_unasked(panel: Panel, index: int)
    requires
        0 <= index < panel.entries.len(),
        !panel.entries[index].recursive,
        tree_at(panel.nodes, panel.entries[index].path) is Some,
    ensures
        ({
            let path = panel.entries[index].path;
            let before = tree_at(panel.nodes, path)->0;
            let after = tree_at(panel.toggled(index).nodes, path);
            &&& after is Some
            &&& after->0.children is Loaded == before.children is Loaded
            &&& before.children is Loaded ==> after->0 == before
        }),
{
    let path = panel.entries[index].path;
    if !(tree_at(panel.nodes, path)->0.children is Loaded) {
        lemma_new_children(panel.nodes, path, Branches::Loading, path);
    }
}

/// Each row of a panel shows the tree at its path, stands as deep as the path is
/// long, says whether the calls of the symbol are being fetched and whether the
/// symbol stands above the row too, and is expanded exactly if its place is and
/// the row is not recursive.
pub proof fn law_row_of_a_panel(panel: Panel, i: int)
    requires
        panel.wf(),
        0 <= i < panel.entries.len(),
    ensures
        ({
            let row = panel.entries[i];
            &&& row.path.len() > 0
            &&& row.depth + 1 == row.path.len()
            &&& tree_at(panel.nodes, row.path) matches Some(tree) && {
                &&& row.loading <==> tree.children is Loading
                &&& row.recursive <==> exists|j: int|
                    0 < j < row.path.len() && tree_at(
                        panel.nodes,
                        #[trigger] row.path.take(j),
                    ).unwrap().key == tree.key
            }
            &&& row.expanded <==> panel.expanded.contains(row.path) && !row.recursive
        }),
{
    law_row_says_what_its_tree_says(
        panel.nodes,
        Seq::empty(),
        0,
        panel.expanded,
        Set::empty(),
        i,
    );
    assert(panel.entries[i].path.skip(0) =~= panel.entries[i].path);
}

/// Every place above a row has an expanded row.
pub proof fn law_rows_of_a_panel_stand_below_expanded_rows(panel: Panel, i: int, n: int)
    requires
        panel.wf(),
        0 <= i < panel.entries.len(),
        0 < n < panel.entries[i].path.len(),
    ensures
        exists|k: int|
            0 <= k < panel.entries.len() && (#[trigger] panel.entries[k]).expanded
                && panel.entries[k].path == panel.entries[i].path.take(n),
{
    law_rows_stand_below_expanded_rows(
        panel.nodes,
        Seq::empty(),
        0,
        panel.expanded,
        Set::empty(),
        i,
        n,
    );
}

/// Every child of an expanded row has a row, and so has every tree at the top.
pub proof fn law_calls_of_a_panel_are_shown(panel: Panel, i: int, c: usize)
    requires
        panel.wf(),
    ensures
        c < panel.nodes.len() ==> exists|k: int|
            0 <= k < panel.entries.len() && (#[trigger] panel.entries[k]).path == seq![c],
        0 <= i < panel.entries.len() && panel.entries[i].expanded && (tree_at(
            panel.nodes,
            panel.entries[i].path,
        )->0.children matches Branches::Loaded(children) && c < children.len()) ==> exists|k: int|
            0 <= k < panel.entries.len() && (#[trigger] panel.entries[k]).path
                == panel.entries[i].path.push(c),
{
    let top = Seq::<usize>::empty();
    if c < panel.nodes.len() {
        law_every_top_tree_has_a_row(panel.nodes, top, 0, panel.expanded, Set::empty(), c);
        assert(top.push(c) =~= seq![c]);
    }
    if 0 <= i < panel.entries.len() {
        assert(panel.entries[i].path.skip(0) =~= panel.entries[i].path);
        if panel.entries[i].expanded && (tree_at(
            panel.nodes,
            panel.entries[i].path,
        )->0.children matches Branches::Loaded(children) && c < children.len()) {
            law_every_child_of_an_expanded_row_has_a_row(
                panel.nodes,
                top,
                0,
                panel.expanded,
                Set::empty(),
                i,
                c,
            );
        }
    }
}

/// Of two rows of a panel the upper one stands above the lower one in the tree,
/// or at a smaller number where their paths part.
pub proof fn law_rows_of_a_panel_are_in_reading_order(panel: Panel, i: int, j: int)
    requires
        panel.wf(),
        0 <= i < j < panel.entries.len(),
    ensures
        exists|n: int|
            {
                &&& 0 <= n <= panel.entries[i].path.len()
                &&& n < panel.entries[j].path.len()
                &&& #[trigger] panel.entries[i].path.take(n) == panel.entries[j].path.take(n)
                &&& n == panel.entries[i].path.len() || panel.entries[i].path[n]
                    < panel.entries[j].path[n]
            },
{
    law_rows_are_in_reading_order(
        panel.nodes,
        Seq::empty(),
        0,
        panel.expanded,
        Set::empty(),
        i,
        j,
    );
}

/// The bytes of text that a row shows are those of the label of its symbol, or
/// of the name where there is no label. Each level of indent weighs as much as
/// twenty of them.
pub proof fn law_width_of_a_row(panel: Panel, row: Row)
    requires
        tree_at(panel.nodes, row.path) is Some,
    ensures
        ({
            let display = tree_at(panel.nodes, row.path)->0.call.display;
            &&& display.label_text matches Some(label) ==> row_width(panel.nodes, row) == 20
                * row.depth + encode_utf8(label@).len()
            &&& display.label_text is None ==> row_width(panel.nodes, row) == 20 * row.depth
                + encode_utf8(display.name@).len()
        }),
{
}

/// The row from which a ready panel takes its width: none is wider, and none
/// below it is as wide.
pub proof fn law_panel_knows_its_widest_row(panel: Panel, j: int)
    requires
        panel.wf(),
        panel.state is Ready,
        0 <= j < panel.entries.len(),
    ensures
        panel.widest_entry_index matches Some(w) && {
            &&& 0 <= w < panel.entries.len()
            &&& row_width(panel.nodes, panel.entries[j]) <= row_width(
                panel.nodes,
                panel.entries[w],
            )
            &&& j > w ==> row_width(panel.nodes, panel.entries[j]) < row_width(
                panel.nodes,
                panel.entries[w],
            )
        },
{
    law_ready_panel_has_rows(panel);
}

/// A fetch of the calls at a place names that place, its symbol and the panel's
/// direction, and has the next number.
pub proof fn law_fetch_says_what_it_is_for(panel: Panel, path: Seq<usize>)
    requires
        tree_at(panel.nodes, path) is Some,
    ensures
        panel.load_at(path).path == path,
        panel.load_at(path).item == tree_at(panel.nodes, path)->0.call.item,
        panel.load_at(path).mode == panel.mode,
        panel.load_at(path).task == panel.next_task,
{
}

/// Entries, requests and rows are taken one for one, with all their parts.
pub proof fn law_values_of_entries_and_requests(
    entries: Seq<FlatEntry>,
    requests: Seq<LoadRequest>,
    panel: Panel,
    i: int,
)
    ensures
        rows_of(entries).len() == entries.len(),
        0 <= i < entries.len() ==> {
            &&& rows_of(entries)[i].path == entries[i].path@
            &&& rows_of(entries)[i].depth == entries[i].depth
            &&& rows_of(entries)[i].expanded == entries[i].expanded
            &&& rows_of(entries)[i].recursive == entries[i].recursive
            &&& rows_of(entries)[i].loading == entries[i].loading
        },
        loads_of(requests).len() == requests.len(),
        0 <= i < requests.len() ==> {
            &&& loads_of(requests)[i].task == requests[i].task
            &&& loads_of(requests)[i].path == requests[i].path@
            &&& loads_of(requests)[i].item == requests[i].item
            &&& loads_of(requests)[i].mode == requests[i].mode
        },
        0 <= i < panel.entries.len() ==> tree_of_row(panel, i) == tree_at(
            panel.nodes,
            panel.entries[i].path,
        ),
        i < 0 || i >= panel.entries.len() ==> tree_of_row(panel, i) is None,
{
}

/// Opening the first level keeps the panel's root.
pub(crate) proof fn lemma_opening_keeps_the_root(panel: Panel, count: nat)
    ensures
        panel.opened_below_root(count).root == panel.root,
    decreases count,
{
    if count > 0 {
        lemma_opening_keeps_the_root(panel, (count - 1) as nat);
    }
}

/// The requests that follow from an arrived root: up to `limit` calls, one for
/// each call, in order, for its place and symbol and in the panel's direction, and
/// each is the fetch that the panel then waits for at that place; above it, none.
pub proof fn law_requests_for_the_first_level(
    panel: Panel,
    task: u64,
    root: Option<CallHierarchyItem>,
    root_call: Call,
    calls: Seq<Call>,
    limit: nat,
    requests: Seq<LoadRequest>,
)
    requires
        panel.wf(),
        panel.root_task == Some(task),
        calls.len() <= usize::MAX,
        ({
            let shown = panel.rooted(root).with_root(root_call, calls);
            loads_of(requests) == shown.loads_below_root(shown.auto_expand_count(limit))
        }),
    ensures
        ({
            let after = panel.root_arrived(task, root, root_call, calls, limit);
            &&& after.state is Ready
            &&& after.mode == panel.mode
            &&& after.entries.len() == calls.len() + 1
            &&& calls.len() > limit ==> requests.len() == 0
            &&& calls.len() <= limit ==> requests.len() == calls.len()
            &&& forall|i: int|
                0 <= i < requests.len() ==> {
                    let load = #[trigger] requests[i];
                    &&& load.path@ == seq![0usize, i as usize]
                    &&& load.item == calls[i].item
                    &&& load.mode == panel.mode
                    &&& after.child_tasks.contains_key(load.path@)
                    &&& after.child_tasks[load.path@] == load.task
                }
        }),
{
    law_first_level_is_opened_up_to_the_limit(panel, task, root, root_call, calls, limit);
    law_root_arrives(panel, task, root, root_call, calls, limit);
    let shown = panel.rooted(root).with_root(root_call, calls);
    let after = panel.root_arrived(task, root, root_call, calls, limit);
    let count = shown.auto_expand_count(limit);
    let tree = shown.nodes[0];
    assert(shown.nodes =~= seq![tree]);
    lemma_opened_below_root(shown, tree, calls, count);
    assert(after == shown.opened_below_root(count));
    assert(loads_of(requests).len() == requests.len());
    assert forall|i: int| 0 <= i < requests.len() implies {
        let load = #[trigger] requests[i];
        &&& load.path@ == seq![0usize, i as usize]
        &&& load.item == calls[i].item
        &&& load.mode == panel.mode
        &&& after.child_tasks.contains_key(load.path@)
        &&& after.child_tasks[load.path@] == load.task
    } by {
        assert(loads_of(requests)[i] == requests[i]@);
        assert(first_level(count).contains(seq![0usize, i as usize]));
    }
}

} // verus!
