//! What holds of the panel whatever happens to it.

use crate::model::{is_unloaded, with_children_at, Event, Panel};
use crate::rows::{panel_rows, Row};
use crate::symbol::{Call, CallHierarchyItem, CallHierarchyMode, NodeKey};
use crate::tree::{
    fresh_tree, fresh_trees, law_read_after_replacing, replaced_at, tree_at, Branches, Tree,
};
use crate::visible::{
    asked_row, is_countable, is_shown, law_asking_moves_no_row, law_expansion_is_by_position,
    law_rows_are_the_shown_places, law_toggling_moves_only_rows_below, lemma_loaded_above, precedes,
    repeats_above, row_at,
};
use crate::width::{is_widest, lemma_some_row_is_widest};
use vstd::prelude::*;

verus! {

/// The same kind of children.
pub(crate) open spec fn same_kind(a: Branches, b: Branches) -> bool {
    &&& a is NotLoaded == b is NotLoaded
    &&& a is Loading == b is Loading
    &&& a is Loaded == b is Loaded
}

/// A path that begins with one of the same length, or begins it, is that path.
proof fn lemma_prefix_of_same_length(a: Seq<usize>, b: Seq<usize>)
    ensures
        a.len() == b.len() && (a.is_prefix_of(b) || b.is_prefix_of(a)) ==> a == b,
{
    if a.len() == b.len() {
        assert(a.subrange(0, a.len() as int) =~= a);
        assert(b.subrange(0, b.len() as int) =~= b);
    }
}

/// What a path finds after a tree without loaded children has been given
/// others.
pub(crate) proof fn lemma_new_children(
    trees: Seq<Tree>,
    place: Seq<usize>,
    children: Branches,
    path: Seq<usize>,
)
    requires
        tree_at(trees, place) is Some,
        !(tree_at(trees, place)->0.children is Loaded),
    ensures
        ({
            let after = with_children_at(trees, place, children);
            let found = tree_at(after, path);
            if path == place {
                found == Some(Tree { children, ..tree_at(trees, place)->0 })
            } else if place.is_prefix_of(path) {
                &&& tree_at(trees, path) is None
                &&& found == match children {
                    Branches::Loaded(list) => tree_at(list, path.skip(place.len() as int)),
                    _ => None,
                }
            } else {
                match tree_at(trees, path) {
                    Some(tree) => found matches Some(other) && other.call == tree.call && other.key
                        == tree.key && same_kind(other.children, tree.children),
                    None => found is None,
                }
            }
        }),
        with_children_at(trees, place, children).len() == trees.len(),
{
    let tree = Tree { children, ..tree_at(trees, place)->0 };
    law_read_after_replacing(trees, place, tree, path);
    lemma_prefix_of_same_length(place, path);
    if path != place && place.is_prefix_of(path) {
        if tree_at(trees, path) is Some {
            lemma_loaded_above(trees, path, place.len() as int);
            assert(path.take(place.len() as int) =~= place);
        }
    }
}

/// A tree with countable children may take any place.
proof fn lemma_replacing_keeps_countable(trees: Seq<Tree>, place: Seq<usize>, tree: Tree)
    requires
        is_countable(trees),
        tree.children matches Branches::Loaded(children) ==> is_countable(children),
    ensures
        is_countable(replaced_at(trees, place, tree)),
    decreases place.len(),
{
    if place.len() > 1 && place[0] < trees.len() {
        if let Branches::Loaded(children) = trees[place[0] as int].children {
            lemma_replacing_keeps_countable(children, place.skip(1), tree);
        }
    }
    let after = replaced_at(trees, place, tree);
    assert forall|i: int| 0 <= i < after.len() implies match (#[trigger] after[i]).children {
        Branches::Loaded(children) => is_countable(children),
        _ => true,
    } by {
        if i != place[0] {
            assert(after[i] == trees[i]);
        }
    }
}

/// Giving the tree at a place other children leaves a root with loaded calls a
/// root with loaded calls, unless it is the root itself.
proof fn lemma_root_stays_loaded(trees: Seq<Tree>, place: Seq<usize>, children: Branches)
    requires
        trees.len() == 1,
        trees[0].children is Loaded,
        tree_at(trees, place) is Some,
        !(tree_at(trees, place)->0.children is Loaded),
    ensures
        with_children_at(trees, place, children).len() == 1,
        with_children_at(trees, place, children)[0].children is Loaded,
{
    let top = seq![0usize];
    lemma_new_children(trees, place, children, top);
    assert(tree_at(trees, top) == Some(trees[0]));
    assert(place.is_prefix_of(top) ==> place == top) by {
        lemma_prefix_of_same_length(place, top);
    }
}

/// A panel without a tree is well formed where its fetches are.
proof fn lemma_without_tree_is_well_formed(panel: Panel)
    requires
        panel.nodes.len() == 0,
        panel.entries.len() == 0,
        panel.state_wf(),
        panel.tasks_wf(),
    ensures
        panel.wf(),
{
    assert(panel.entries =~= panel_rows(panel.nodes, panel.expanded));
}

/// Asking for the calls at a place that has not been asked keeps a panel well
/// formed.
proof fn lemma_opening_keeps_wf(panel: Panel, path: Seq<usize>)
    requires
        panel.wf(),
        panel.state is Ready,
        is_unloaded(panel.nodes, path),
    ensures
        panel.opened_at(path).wf(),
        panel.opened_at(path).state is Ready,
{
    let after = panel.opened_at(path);
    let tree = Tree { children: Branches::Loading, ..tree_at(panel.nodes, path)->0 };
    lemma_replacing_keeps_countable(panel.nodes, path, tree);
    lemma_root_stays_loaded(panel.nodes, path, Branches::Loading);
    lemma_new_children(panel.nodes, path, Branches::Loading, path);
    assert forall|other: Seq<usize>|
        #![trigger tree_at(after.nodes, other)]
        tree_at(after.nodes, other) is Some implies {
        let found = tree_at(after.nodes, other)->0;
        &&& found.key == NodeKey::for_item(&found.call.item)
        &&& found.children is Loading ==> after.child_tasks.contains_key(other)
    } by {
        lemma_new_children(panel.nodes, path, Branches::Loading, other);
        assert(tree_at(panel.nodes, other) is Some);
    }
    assert forall|other: Seq<usize>| #[trigger] after.child_tasks.contains_key(
        other,
    ) implies after.is_loading(other) by {
        if other != path {
            assert(panel.child_tasks.contains_key(other));
            assert(panel.is_loading(other));
            lemma_new_children(panel.nodes, path, Branches::Loading, other);
        }
    }
    assert forall|other: Seq<usize>| #[trigger] after.expanded.contains(
        other,
    ) implies after.is_asked(other) by {
        if other != path {
            assert(panel.expanded.contains(other));
            assert(panel.is_asked(other));
            lemma_new_children(panel.nodes, path, Branches::Loading, other);
        }
    }
}

proof fn lemma_opening_below_root_keeps_wf(panel: Panel, count: nat)
    requires
        panel.wf(),
        panel.state is Ready,
    ensures
        panel.opened_below_root(count).wf(),
        panel.opened_below_root(count).state is Ready,
    decreases count,
{
    if count > 0 {
        lemma_opening_below_root_keeps_wf(panel, (count - 1) as nat);
        let earlier = panel.opened_below_root((count - 1) as nat);
        let path = seq![0usize, (count - 1) as usize];
        if is_unloaded(earlier.nodes, path) {
            lemma_opening_keeps_wf(earlier, path);
        }
    }
}

/// The paths of a root with fresh calls below it lead to the root and to those
/// calls, and nowhere else.
proof fn lemma_paths_of_root(root: Tree, calls: Seq<Call>, path: Seq<usize>)
    requires
        root.children == Branches::Loaded(fresh_trees(calls)),
        tree_at(seq![root], path) is Some,
    ensures
        path == seq![0usize] || (path.len() == 2 && path[0] == 0 && path[1] < calls.len()),
        path.len() == 1 ==> tree_at(seq![root], path) == Some(root),
        path.len() == 2 ==> tree_at(seq![root], path) == Some(fresh_tree(calls[path[1] as int])),
{
    if path.len() == 1 {
        assert(path =~= seq![0usize]);
    } else {
        let rest = path.skip(1);
        assert(tree_at(fresh_trees(calls), rest) is Some);
        if rest.len() > 1 {
            assert(fresh_trees(calls)[rest[0] as int].children is NotLoaded);
        }
    }
}

/// A tree put where none was expanded or awaited makes a well-formed panel.
proof fn lemma_root_is_well_formed(panel: Panel, root_call: Call, calls: Seq<Call>)
    requires
        panel.root_task is None,
        panel.child_tasks == Map::<Seq<usize>, u64>::empty(),
        panel.expanded == Set::<Seq<usize>>::empty(),
        calls.len() <= usize::MAX,
    ensures
        panel.with_root(root_call, calls).wf(),
        panel.with_root(root_call, calls).state is Ready,
{
    let after = panel.with_root(root_call, calls);
    let root = after.nodes[0];
    assert(after.nodes == seq![root]);
    assert(is_countable(fresh_trees(calls)));
    assert(is_countable(after.nodes));
    assert forall|path: Seq<usize>|
        #![trigger tree_at(after.nodes, path)]
        tree_at(after.nodes, path) is Some implies {
        let found = tree_at(after.nodes, path)->0;
        &&& found.key == NodeKey::for_item(&found.call.item)
        &&& found.children is Loading ==> after.child_tasks.contains_key(path)
    } by {
        lemma_paths_of_root(root, calls, path);
    }
    assert forall|path: Seq<usize>| #[trigger] after.expanded.contains(
        path,
    ) implies after.is_asked(path) by {
        assert(path == seq![0usize]);
        assert(tree_at(after.nodes, path) == Some(root));
    }
}

proof fn lemma_root_arrival_keeps_wf(
    panel: Panel,
    task: u64,
    root: Option<CallHierarchyItem>,
    root_call: Call,
    calls: Seq<Call>,
    limit: nat,
)
    requires
        panel.wf(),
        calls.len() <= usize::MAX,
    ensures
        panel.root_arrived(task, root, root_call, calls, limit).wf(),
        panel.awaits_root(task) ==> panel.root_arrived(
            task,
            root,
            root_call,
            calls,
            limit,
        ).state is Ready,
{
    if panel.awaits_root(task) {
        let rooted = panel.rooted(root);
        lemma_root_is_well_formed(rooted, root_call, calls);
        let shown = rooted.with_root(root_call, calls);
        lemma_opening_below_root_keeps_wf(shown, shown.auto_expand_count(limit));
    }
}

proof fn lemma_arrival_keeps_wf(panel: Panel, path: Seq<usize>, task: u64, calls: Seq<Call>)
    requires
        panel.wf(),
        calls.len() <= usize::MAX,
    ensures
        panel.children_arrived(path, task, calls).wf(),
{
    let after = panel.children_arrived(path, task, calls);
    if panel.awaits_children(path, task) {
        if panel.state is Ready {
            let list = fresh_trees(calls);
            let children = Branches::Loaded(list);
            assert(panel.is_loading(path));
            let tree = Tree { children, ..tree_at(panel.nodes, path)->0 };
            assert(is_countable(list));
            lemma_replacing_keeps_countable(panel.nodes, path, tree);
            lemma_root_stays_loaded(panel.nodes, path, children);
            lemma_new_children(panel.nodes, path, children, path);
            assert forall|other: Seq<usize>|
                #![trigger tree_at(after.nodes, other)]
                tree_at(after.nodes, other) is Some implies {
                let found = tree_at(after.nodes, other)->0;
                &&& found.key == NodeKey::for_item(&found.call.item)
                &&& found.children is Loading ==> after.child_tasks.contains_key(other)
            } by {
                lemma_new_children(panel.nodes, path, children, other);
                if other != path && path.is_prefix_of(other) {
                    let rest = other.skip(path.len() as int);
                    assert(tree_at(list, rest) is Some);
                    assert(list[rest[0] as int] == fresh_tree(calls[rest[0] as int]));
                } else {
                    assert(tree_at(panel.nodes, other) is Some);
                }
            }
            assert forall|other: Seq<usize>| #[trigger] after.child_tasks.contains_key(
                other,
            ) implies after.is_loading(other) by {
                assert(panel.child_tasks.contains_key(other));
                assert(panel.is_loading(other));
                lemma_new_children(panel.nodes, path, children, other);
            }
            assert forall|other: Seq<usize>| #[trigger] after.expanded.contains(
                other,
            ) implies after.is_asked(other) by {
                assert(panel.expanded.contains(other));
                assert(panel.is_asked(other));
                lemma_new_children(panel.nodes, path, children, other);
            }
        } else {
            assert(after.entries =~= Seq::empty());
            lemma_without_tree_is_well_formed(after);
        }
    }
}

pub(crate) proof fn lemma_toggling_keeps_wf(panel: Panel, index: int)
    requires
        panel.wf(),
    ensures
        panel.toggled(index).wf(),
{
    if 0 <= index < panel.entries.len() && !panel.entries[index].recursive {
        let path = panel.entries[index].path;
        law_rows_are_the_shown_places(panel.nodes, panel.expanded);
        assert(is_shown(panel.nodes, panel.entries[index].path, panel.expanded));
        assert(panel.state is Ready);
        let after = panel.toggled(index);
        if !panel.expanded.contains(path) && is_unloaded(panel.nodes, path) {
            lemma_opening_keeps_wf(panel, path);
        } else {
            assert forall|other: Seq<usize>| #[trigger] after.expanded.contains(
                other,
            ) implies after.is_asked(other) by {
                if other != path {
                    assert(panel.is_asked(other));
                }
            }
            assert forall|other: Seq<usize>| #[trigger] after.child_tasks.contains_key(
                other,
            ) implies after.is_loading(other) by {
                assert(panel.is_loading(other));
            }
        }
    }
}

/// Whatever happens to a well-formed panel, it stays well formed.
pub proof fn law_every_event_keeps_the_panel_well_formed(panel: Panel, event: Event)
    requires
        panel.wf(),
        event.is_countable(),
    ensures
        panel.after(event).wf(),
{
    match event {
        Event::ShowForEditor { position } => {
            lemma_without_tree_is_well_formed(panel.shown_for(position));
        },
        Event::SetNoSymbol => {
            lemma_without_tree_is_well_formed(panel.without_symbol());
        },
        Event::SetMode { mode } => {
            if panel.mode != mode && panel.root is Some {
                lemma_without_tree_is_well_formed(panel.in_mode(mode));
            } else if panel.mode != mode {
                let after = panel.in_mode(mode);
                assert forall|path: Seq<usize>| #[trigger] after.child_tasks.contains_key(
                    path,
                ) && panel.state is Ready implies after.is_loading(path) by {
                    assert(panel.is_loading(path));
                }
                assert forall|path: Seq<usize>| #[trigger] after.expanded.contains(path)
                    && panel.state is Ready implies after.is_asked(path) by {
                    assert(panel.is_asked(path));
                }
            }
        },
        Event::RootPrepared { task, found } => {
            if panel.awaits_root(task) && found is None {
                lemma_without_tree_is_well_formed(panel.prepared(task, found));
            }
        },
        Event::RootLoaded { task, root, root_call, calls, limit } => {
            lemma_root_arrival_keeps_wf(panel, task, root, root_call, calls, limit);
        },
        Event::ChildrenLoaded { path, task, calls } => {
            lemma_arrival_keeps_wf(panel, path, task, calls);
        },
        Event::ToggleExpanded { index } => {
            lemma_toggling_keeps_wf(panel, index);
        },
    }
}

/// A panel is well formed from the start, and stays so through any events.
pub proof fn law_every_panel_is_well_formed(events: Seq<Event>)
    requires
        forall|i: int| 0 <= i < events.len() ==> (#[trigger] events[i]).is_countable(),
    ensures
        Panel::initial().wf(),
        Panel::initial().after_all(events).wf(),
    decreases events.len(),
{
    lemma_without_tree_is_well_formed(Panel::initial());
    if events.len() > 0 {
        law_every_panel_is_well_formed(events.drop_last());
        law_every_event_keeps_the_panel_well_formed(
            Panel::initial().after_all(events.drop_last()),
            events.last(),
        );
    }
}

/// Toggling a row twice brings the panel back to what it was, unless the first
/// time asks for calls.
pub proof fn law_toggling_twice_changes_nothing(panel: Panel, index: int)
    requires
        panel.wf(),
        0 <= index < panel.entries.len() ==> !is_unloaded(panel.nodes, panel.entries[index].path),
    ensures
        panel.toggled(index).toggled(index) == panel,
{
    if 0 <= index < panel.entries.len() && !panel.entries[index].recursive {
        let path = panel.entries[index].path;
        law_rows_are_the_shown_places(panel.nodes, panel.expanded);
        assert(is_shown(panel.nodes, panel.entries[index].path, panel.expanded));
        assert(panel.state is Ready);
        let once = panel.toggled(index);
        law_toggling_moves_only_rows_below(panel.nodes, panel.expanded, once.expanded, index);
        assert(once.entries[index].path == path);
        let twice = once.toggled(index);
        assert(twice.expanded =~= panel.expanded);
    }
}

/// Toggling a row asks for calls, collapses it or expands it. It leaves the row
/// and those above it where they are, and every row but its own and those below
/// it as it was.
pub proof fn law_toggling_leaves_other_rows(panel: Panel, index: int, row: Row)
    requires
        panel.wf(),
        0 <= index < panel.entries.len(),
        !panel.entries[index].path.is_prefix_of(row.path),
    ensures
        panel.toggled(index).entries.len() > index,
        forall|i: int|
            0 <= i < index ==> #[trigger] panel.toggled(index).entries[i] == panel.entries[i],
        panel.toggled(index).entries[index].path == panel.entries[index].path,
        panel.toggled(index).entries[index].recursive == panel.entries[index].recursive,
        panel.toggled(index).entries.contains(row) == panel.entries.contains(row),
{
    let path = panel.entries[index].path;
    let after = panel.toggled(index);
    law_rows_are_the_shown_places(panel.nodes, panel.expanded);
    if panel.entries[index].recursive {
    } else if !panel.expanded.contains(path) && is_unloaded(panel.nodes, path) {
        law_asking_moves_no_row(panel.nodes, panel.expanded, path);
        assert(after.entries[index] == asked_row(panel.entries[index], path));
        assert forall|i: int| 0 <= i < index implies #[trigger] after.entries[i]
            == panel.entries[i] by {
            assert(after.entries[i] == asked_row(panel.entries[i], path));
            assert(precedes(panel.entries[i].path, panel.entries[index].path));
        }
        assert(path != row.path) by {
            assert(path.is_prefix_of(path));
        }
        if panel.entries.contains(row) {
            let k = choose|k: int| 0 <= k < panel.entries.len() && panel.entries[k] == row;
            assert(after.entries[k] == asked_row(panel.entries[k], path));
        }
        if after.entries.contains(row) {
            let k = choose|k: int| 0 <= k < after.entries.len() && after.entries[k] == row;
            assert(after.entries[k] == asked_row(panel.entries[k], path));
        }
    } else {
        law_toggling_moves_only_rows_below(panel.nodes, panel.expanded, after.expanded, index);
        assert forall|i: int| 0 <= i < index implies #[trigger] after.entries[i]
            == panel.entries[i] by {
            assert(panel_rows(panel.nodes, after.expanded)[i] == panel.entries[i]);
        }
        law_expansion_is_by_position(panel.nodes, panel.expanded, after.expanded, path, row);
    }
}

/// A recursive row cannot be expanded.
pub proof fn law_recursive_rows_stay_closed(panel: Panel, index: int)
    requires
        panel.wf(),
        0 <= index < panel.entries.len(),
        panel.entries[index].recursive,
    ensures
        !panel.entries[index].expanded,
        panel.toggled(index) == panel,
{
    law_rows_are_the_shown_places(panel.nodes, panel.expanded);
    let row = panel.entries[index];
    assert(row == row_at(panel.nodes, row.path, panel.expanded));
}

/// Every row shows a symbol, says whether the panel waits for the symbol's
/// calls, and stands as deep as its path is long.
pub proof fn law_every_row_has_its_symbol(panel: Panel, index: int)
    requires
        panel.wf(),
        0 <= index < panel.entries.len(),
    ensures
        tree_at(panel.nodes, panel.entries[index].path) is Some,
        panel.entries[index].loading == panel.child_tasks.contains_key(panel.entries[index].path),
        panel.entries[index].depth + 1 == panel.entries[index].path.len(),
{
    law_rows_are_the_shown_places(panel.nodes, panel.expanded);
    let row = panel.entries[index];
    assert(is_shown(panel.nodes, row.path, panel.expanded));
    assert(row == row_at(panel.nodes, row.path, panel.expanded));
    if panel.child_tasks.contains_key(row.path) {
        assert(panel.is_loading(row.path));
    }
}

/// A panel that is ready shows its root in the first row, and knows its widest
/// row.
pub proof fn law_ready_panel_has_rows(panel: Panel)
    requires
        panel.wf(),
        panel.state is Ready,
    ensures
        panel.entries.len() > 0,
        panel.entries[0].path == seq![0usize],
        panel.entries[0].depth == 0,
        !panel.entries[0].recursive,
        panel.widest_entry_index is Some,
        is_widest(panel.nodes, panel.entries, panel.widest_entry_index->0),
{
    let top = seq![0usize];
    law_rows_are_the_shown_places(panel.nodes, panel.expanded);
    assert(tree_at(panel.nodes, top) is Some);
    assert(is_shown(panel.nodes, top, panel.expanded));
    let row = row_at(panel.nodes, top, panel.expanded);
    let k = choose|k: int| 0 <= k < panel.entries.len() && panel.entries[k] == row;
    let first = panel.entries[0];
    assert(is_shown(panel.nodes, first.path, panel.expanded));
    assert(first == row_at(panel.nodes, first.path, panel.expanded));
    assert(first.path.len() > 0 && first.path[0] == 0);
    if k > 0 {
        assert(precedes(panel.entries[0].path, panel.entries[k].path));
    }
    assert(first.path == top);
    assert(!repeats_above(panel.nodes, top));
    lemma_some_row_is_widest(panel.nodes, panel.entries);
}

/// A panel that is not ready has no rows.
pub proof fn law_only_a_ready_panel_has_rows(panel: Panel)
    requires
        panel.wf(),
        !(panel.state is Ready),
    ensures
        panel.entries.len() == 0,
        panel.nodes.len() == 0,
{
}

/// Changing the direction keeps the root, and the direction chosen last counts.
/// Choosing the direction that is followed changes nothing.
pub proof fn law_direction_keeps_the_root(
    panel: Panel,
    mode: CallHierarchyMode,
    later: CallHierarchyMode,
)
    ensures
        panel.in_mode(mode).root == panel.root,
        panel.in_mode(mode).mode == mode,
        panel.in_mode(mode).in_mode(later).mode == later,
        panel.in_mode(panel.mode) == panel,
        mode.opposite() != mode,
        mode.opposite().opposite() == mode,
{
}

/// Reports of the same range of the same buffer are of the same symbol,
/// whichever server they come from and whatever else they say.
pub proof fn law_symbol_is_its_place(a: CallHierarchyItem, b: CallHierarchyItem)
    ensures
        NodeKey::for_item(&a) == NodeKey::for_item(&b) <==> a.buffer == b.buffer && a.range.start
            == b.range.start && a.range.end == b.range.end,
{
}

} // verus!
