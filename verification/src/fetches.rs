//! What becomes of the fetches that the panel starts.

use crate::laws::{law_every_event_keeps_the_panel_well_formed, lemma_new_children};
use crate::model::{is_unloaded, with_children_at, Event, Load, Panel};
use crate::rows::{forest_rows, panel_rows, row_of, tree_rows, Row};
use crate::symbol::{Call, CallHierarchyItem, NodeKey};
use crate::tree::{fresh_tree, fresh_trees, replaced_at, tree_at, Branches, Tree};
use crate::visible::{
    is_open, is_shown, key_at, law_rows_are_the_shown_places, lemma_loaded_above, repeats_above,
    row_at,
};
use vstd::prelude::*;

verus! {

/// What a fetch brings that the panel does not wait for changes nothing.
pub proof fn law_dropped_fetch_changes_nothing(
    panel: Panel,
    task: u64,
    path: Seq<usize>,
    found: Option<CallHierarchyItem>,
    root_call: Call,
    calls: Seq<Call>,
    limit: nat,
)
    requires
        !panel.awaits(task),
    ensures
        panel.after(Event::RootPrepared { task, found }) == panel,
        panel.after(Event::RootLoaded { task, root: found, root_call, calls, limit }) == panel,
        panel.after(Event::ChildrenLoaded { path, task, calls }) == panel,
{
    assert(!panel.awaits_children(path, task));
}

proof fn lemma_loading_awaits_nothing_earlier(panel: Panel, path: Seq<usize>, task: u64)
    requires
        task < panel.next_task,
        !panel.awaits(task),
    ensures
        !panel.opened_at(path).awaits(task),
        panel.next_task <= panel.opened_at(path).next_task,
{
    let after = panel.opened_at(path);
    assert forall|other: Seq<usize>| !#[trigger] after.awaits_children(other, task) by {
        assert(!panel.awaits_children(other, task));
    }
}

proof fn lemma_opening_awaits_nothing_earlier(panel: Panel, count: nat, task: u64)
    requires
        task < panel.next_task,
        !panel.awaits(task),
    ensures
        !panel.opened_below_root(count).awaits(task),
        panel.next_task <= panel.opened_below_root(count).next_task,
    decreases count,
{
    if count > 0 {
        lemma_opening_awaits_nothing_earlier(panel, (count - 1) as nat, task);
        let earlier = panel.opened_below_root((count - 1) as nat);
        let path = seq![0usize, (count - 1) as usize];
        if is_unloaded(earlier.nodes, path) {
            lemma_loading_awaits_nothing_earlier(earlier, path, task);
        }
    }
}

/// A fetch that the panel no longer waits for is never waited for again.
pub proof fn law_dropped_fetch_stays_dropped(panel: Panel, event: Event, task: u64)
    requires
        task < panel.next_task,
        !panel.awaits(task),
    ensures
        !panel.after(event).awaits(task),
        task < panel.after(event).next_task,
{
    let after = panel.after(event);
    assert forall|path: Seq<usize>| !#[trigger] panel.awaits_children(path, task) by {}
    match event {
        Event::RootLoaded { task: arrived, root, root_call, calls, limit } => {
            if panel.awaits_root(arrived) {
                let shown = panel.rooted(root).with_root(root_call, calls);
                assert forall|path: Seq<usize>| !#[trigger] shown.awaits_children(path, task) by {
                    assert(!panel.awaits_children(path, task));
                }
                lemma_opening_awaits_nothing_earlier(shown, shown.auto_expand_count(limit), task);
            }
        },
        Event::ToggleExpanded { index } => {
            if 0 <= index < panel.entries.len() && !panel.entries[index].recursive {
                let path = panel.entries[index].path;
                if !panel.expanded.contains(path) && is_unloaded(panel.nodes, path) {
                    lemma_loading_awaits_nothing_earlier(panel, path, task);
                } else {
                    assert forall|other: Seq<usize>| !#[trigger] after.awaits_children(
                        other,
                        task,
                    ) by {
                        assert(!panel.awaits_children(other, task));
                    }
                }
            }
        },
        _ => {
            assert forall|path: Seq<usize>| !#[trigger] after.awaits_children(path, task) by {
                assert(!panel.awaits_children(path, task));
            }
        },
    }
}

/// Starting on a new root drops every fetch before it.
pub proof fn law_new_root_drops_every_earlier_fetch(panel: Panel, task: u64)
    requires
        task < panel.next_task,
    ensures
        !panel.awaiting_root().awaits(task),
        panel.awaiting_root().awaits_root(panel.next_task),
{
    let after = panel.awaiting_root();
    assert forall|path: Seq<usize>| !#[trigger] after.awaits_children(path, task) by {}
}

/// Each fetch is answered once: when its calls are in, the panel no longer
/// waits for it.
pub proof fn law_answered_fetch_is_done(
    panel: Panel,
    path: Seq<usize>,
    task: u64,
    root: Option<CallHierarchyItem>,
    root_call: Call,
    calls: Seq<Call>,
    limit: nat,
)
    requires
        panel.wf(),
        calls.len() <= usize::MAX,
    ensures
        !panel.children_arrived(path, task, calls).awaits_children(path, task),
        panel.awaits_root(task) && task < panel.next_task ==> !panel.root_arrived(
            task,
            root,
            root_call,
            calls,
            limit,
        ).awaits(task),
{
    if panel.awaits_root(task) && task < panel.next_task {
        let shown = panel.rooted(root).with_root(root_call, calls);
        assert forall|other: Seq<usize>| !#[trigger] shown.awaits_children(other, task) by {}
        lemma_opening_awaits_nothing_earlier(shown, shown.auto_expand_count(limit), task);
    }
}

/// As long as the panel waits for the calls of a symbol, that symbol stays
/// where it is.
pub proof fn law_awaited_symbol_stays_in_place(
    panel: Panel,
    event: Event,
    path: Seq<usize>,
    task: u64,
)
    requires
        panel.wf(),
        event.is_countable(),
        panel.awaits_children(path, task),
        panel.after(event).awaits_children(path, task),
    ensures
        tree_at(panel.after(event).nodes, path) matches Some(tree) ==> {
            &&& tree_at(panel.nodes, path) is Some
            &&& tree.call == tree_at(panel.nodes, path)->0.call
            &&& tree.children is Loading
        },
{
    law_every_event_keeps_the_panel_well_formed(panel, event);
    let after = panel.after(event);
    if panel.state is Ready {
        assert(panel.is_loading(path));
    }
    if after.state is Ready {
        assert(after.is_loading(path));
    }
    match event {
        Event::ChildrenLoaded { path: place, task: arrived, calls } => {
            if panel.awaits_children(place, arrived) && panel.state is Ready {
                assert(panel.is_loading(place));
                lemma_new_children(
                    panel.nodes,
                    place,
                    Branches::Loaded(fresh_trees(calls)),
                    path,
                );
            }
        },
        Event::ToggleExpanded { index } => {
            if 0 <= index < panel.entries.len() && !panel.entries[index].recursive {
                let place = panel.entries[index].path;
                if is_unloaded(panel.nodes, place) {
                    lemma_new_children(panel.nodes, place, Branches::Loading, path);
                }
            }
        },
        _ => {},
    }
}

/// A fetch asks for the calls of the symbol at its place, and that symbol then
/// says that it is loading.
pub proof fn law_fetch_is_for_the_symbol_at_its_place(panel: Panel, path: Seq<usize>)
    requires
        panel.wf(),
        is_unloaded(panel.nodes, path),
    ensures
        ({
            let after = panel.opened_at(path);
            let load = panel.load_at(path);
            &&& after.awaits_children(path, load.task)
            &&& tree_at(after.nodes, path) matches Some(tree) && {
                &&& tree.call == tree_at(panel.nodes, path)->0.call
                &&& tree.call.item == load.item
                &&& tree.children is Loading
            }
            &&& load.path == path
            &&& load.mode == panel.mode
        }),
{
    lemma_new_children(panel.nodes, path, Branches::Loading, path);
}

/// The calls that a fetch brings become the children of the symbol at its
/// place, each not yet asked for its own, and no row changes but that of the
/// symbol and those below it.
pub proof fn law_calls_arrive_below_their_symbol(
    panel: Panel,
    path: Seq<usize>,
    task: u64,
    calls: Seq<Call>,
    row: Row,
)
    requires
        panel.wf(),
        panel.state is Ready,
        panel.awaits_children(path, task),
        calls.len() <= usize::MAX,
    ensures
        ({
            let after = panel.children_arrived(path, task, calls);
            &&& tree_at(panel.nodes, path) is Some
            &&& tree_at(after.nodes, path) == Some(
                Tree {
                    children: Branches::Loaded(fresh_trees(calls)),
                    ..tree_at(panel.nodes, path)->0
                },
            )
            &&& !path.is_prefix_of(row.path) ==> panel.entries.contains(row)
                == after.entries.contains(row)
        }),
{
    let after = panel.children_arrived(path, task, calls);
    let children = Branches::Loaded(fresh_trees(calls));
    assert(panel.is_loading(path));
    lemma_new_children(panel.nodes, path, children, path);
    law_every_event_keeps_the_panel_well_formed(panel, Event::ChildrenLoaded { path, task, calls });
    if !path.is_prefix_of(row.path) {
        lemma_place_keeps_its_row(panel, path, children, row.path);
        law_rows_are_the_shown_places(panel.nodes, panel.expanded);
        law_rows_are_the_shown_places(after.nodes, after.expanded);
        if panel.entries.contains(row) {
            let i = choose|i: int| 0 <= i < panel.entries.len() && panel.entries[i] == row;
            assert(is_shown(panel.nodes, panel.entries[i].path, panel.expanded));
            assert(is_shown(after.nodes, row.path, after.expanded));
        }
        if after.entries.contains(row) {
            let i = choose|i: int| 0 <= i < after.entries.len() && after.entries[i] == row;
            assert(is_shown(after.nodes, after.entries[i].path, after.expanded));
            assert(is_shown(panel.nodes, row.path, panel.expanded));
        }
    }
}

/// A place that does not lie below another keeps its row when the other is
/// given children.
proof fn lemma_place_keeps_its_row(
    panel: Panel,
    place: Seq<usize>,
    children: Branches,
    path: Seq<usize>,
)
    requires
        tree_at(panel.nodes, place) is Some,
        !(tree_at(panel.nodes, place)->0.children is Loaded),
        !place.is_prefix_of(path),
    ensures
        ({
            let after = with_children_at(panel.nodes, place, children);
            &&& is_shown(panel.nodes, path, panel.expanded) == is_shown(
                after,
                path,
                panel.expanded,
            )
            &&& is_shown(panel.nodes, path, panel.expanded) ==> row_at(
                panel.nodes,
                path,
                panel.expanded,
            ) == row_at(after, path, panel.expanded)
        }),
{
    let after = with_children_at(panel.nodes, place, children);
    lemma_new_children(panel.nodes, place, children, path);
    assert forall|j: int| 0 < j <= path.len() implies !place.is_prefix_of(
        #[trigger] path.take(j),
    ) by {
        let part = path.take(j);
        if place.is_prefix_of(part) {
            assert(place =~= path.subrange(0, place.len() as int));
        }
    }
    if tree_at(panel.nodes, path) is Some {
        assert(path.take(path.len() as int) =~= path);
        assert forall|j: int| 0 < j <= path.len() implies #[trigger] key_at(
            panel.nodes,
            path.take(j),
        ) == key_at(after, path.take(j)) by {
            lemma_new_children(panel.nodes, place, children, path.take(j));
            if j < path.len() {
                lemma_loaded_above(panel.nodes, path, j);
            }
        }
        assert forall|j: int| 0 < j <= path.len() implies repeats_above(
            panel.nodes,
            #[trigger] path.take(j),
        ) == repeats_above(after, path.take(j)) by {
            let part = path.take(j);
            assert forall|m: int| 0 < m < j implies #[trigger] part.take(m) == path.take(m) by {
                assert(part.take(m) =~= path.take(m));
            }
            assert(key_at(panel.nodes, part) == key_at(after, part));
            assert forall|m: int| 0 < m < j implies #[trigger] key_at(panel.nodes, part.take(m))
                == key_at(after, part.take(m)) by {
                assert(key_at(panel.nodes, path.take(m)) == key_at(after, path.take(m)));
            }
            if repeats_above(panel.nodes, part) {
                let m = choose|m: int|
                    0 < m < part.len() && #[trigger] key_at(panel.nodes, part.take(m)) == key_at(
                        panel.nodes,
                        part,
                    );
                assert(key_at(after, part.take(m)) == key_at(after, part));
            }
            if repeats_above(after, part) {
                let m = choose|m: int|
                    0 < m < part.len() && #[trigger] key_at(after, part.take(m)) == key_at(
                        after,
                        part,
                    );
                assert(key_at(panel.nodes, part.take(m)) == key_at(panel.nodes, part));
            }
        }
        assert forall|j: int| 0 < j < path.len() implies is_open(
            panel.nodes,
            #[trigger] path.take(j),
            panel.expanded,
        ) == is_open(after, path.take(j), panel.expanded) by {}
        assert(repeats_above(panel.nodes, path) == repeats_above(after, path));
    }
}

/// The number of a fetch that is started after `i` others.
pub open spec fn numbered(first: u64, i: int) -> u64 {
    if first + i < u64::MAX {
        (first + i) as u64
    } else {
        u64::MAX
    }
}

/// The children of a root when the first `count` of its calls have been asked
/// for.
pub open spec fn opened_trees(calls: Seq<Call>, count: nat) -> Seq<Tree> {
    Seq::new(
        calls.len(),
        |i: int|
            if i < count {
                Tree { children: Branches::Loading, ..fresh_tree(calls[i]) }
            } else {
                fresh_tree(calls[i])
            },
    )
}

/// The places of the first `count` calls of a root.
pub open spec fn first_level(count: nat) -> Set<Seq<usize>> {
    Set::new(|path: Seq<usize>| path.len() == 2 && path[0] == 0 && path[1] < count)
}

pub(crate) proof fn lemma_opened_below_root(panel: Panel, root: Tree, calls: Seq<Call>, count: nat)
    requires
        panel.nodes == seq![root],
        root.children == Branches::Loaded(fresh_trees(calls)),
        panel.refreshed() == panel,
        count <= calls.len() <= usize::MAX,
    ensures
        ({
            let after = panel.opened_below_root(count);
            &&& after.nodes == seq![
                Tree { children: Branches::Loaded(opened_trees(calls, count)), ..root },
            ]
            &&& after.expanded == panel.expanded + first_level(count)
            &&& after.refreshed() == after
            &&& after.state == panel.state
            &&& after.mode == panel.mode
            &&& after.root == panel.root
            &&& after.root_task == panel.root_task
            &&& after.next_task == numbered(panel.next_task, count as int)
            &&& forall|path: Seq<usize>| #[trigger]
                after.child_tasks.contains_key(path) <==> panel.child_tasks.contains_key(path)
                    || first_level(count).contains(path)
            &&& forall|path: Seq<usize>| #[trigger]
                first_level(count).contains(path) ==> after.child_tasks[path] == numbered(
                    panel.next_task,
                    path[1] as int,
                )
            &&& panel.loads_below_root(count) == Seq::new(
                count,
                |i: int|
                    Load {
                        task: numbered(panel.next_task, i),
                        path: seq![0usize, i as usize],
                        item: calls[i].item,
                        mode: panel.mode,
                    },
            )
        }),
    decreases count,
{
    if count == 0 {
        assert(opened_trees(calls, 0) =~= fresh_trees(calls));
        assert(panel.expanded + first_level(0) =~= panel.expanded);
        assert(panel.loads_below_root(0) =~= Seq::empty());
    } else {
        let k = (count - 1) as nat;
        lemma_opened_below_root(panel, root, calls, k);
        let earlier = panel.opened_below_root(k);
        let path = seq![0usize, k as usize];
        let list = opened_trees(calls, k);
        let rest = path.skip(1);
        assert(rest =~= seq![k as usize]);
        assert(tree_at(list, rest) == Some(fresh_tree(calls[k as int])));
        assert(tree_at(earlier.nodes, path) == tree_at(list, rest));
        assert(is_unloaded(earlier.nodes, path));
        let after = panel.opened_below_root(count);
        assert(after == earlier.opened_at(path));
        let tree = Tree { children: Branches::Loading, ..fresh_tree(calls[k as int]) };
        assert(replaced_at(list, rest, tree) == list.update(k as int, tree));
        assert(list.update(k as int, tree) =~= opened_trees(calls, count));
        assert(after.nodes =~= seq![
            Tree { children: Branches::Loaded(opened_trees(calls, count)), ..root },
        ]);
        assert forall|other: Seq<usize>| #[trigger] first_level(count).contains(other) == (
        first_level(k).contains(other) || other == path) by {
            if first_level(count).contains(other) && other[1] == k {
                assert(other =~= path);
            }
        }
        assert(after.expanded =~= panel.expanded + first_level(count));
        let loads = Seq::new(
            count,
            |i: int|
                Load {
                    task: numbered(panel.next_task, i),
                    path: seq![0usize, i as usize],
                    item: calls[i].item,
                    mode: panel.mode,
                },
        );
        assert(panel.loads_below_root(count) =~= loads);
    }
}

/// The rows of trees that have no loaded children: one each.
proof fn lemma_rows_of_leaves(
    trees: Seq<Tree>,
    prefix: Seq<usize>,
    depth: nat,
    expanded: Set<Seq<usize>>,
    ancestors: Set<NodeKey>,
)
    requires
        forall|i: int| 0 <= i < trees.len() ==> !((#[trigger] trees[i]).children is Loaded),
    ensures
        forest_rows(trees, prefix, depth, expanded, ancestors) == Seq::new(
            trees.len(),
            |i: int| row_of(trees[i], prefix.push(i as usize), depth, expanded, ancestors),
        ),
    decreases trees.len(),
{
    if trees.len() > 0 {
        let last = trees.len() - 1;
        lemma_rows_of_leaves(trees.drop_last(), prefix, depth, expanded, ancestors);
        assert(!(trees[last].children is Loaded));
        assert(tree_rows(trees[last], prefix.push(last as usize), depth, expanded, ancestors)
            =~= seq![row_of(trees[last], prefix.push(last as usize), depth, expanded, ancestors)]);
    }
    assert(forest_rows(trees, prefix, depth, expanded, ancestors) =~= Seq::new(
        trees.len(),
        |i: int| row_of(trees[i], prefix.push(i as usize), depth, expanded, ancestors),
    ));
}

/// What a panel shows when its root has arrived: the root, and below it one row
/// per call. Where the calls are no more than `limit`, each of them is expanded
/// and its calls are asked for, in order, with one fetch each. Where they are
/// more, none is.
pub proof fn law_first_level_is_opened_up_to_the_limit(
    panel: Panel,
    task: u64,
    root: Option<CallHierarchyItem>,
    root_call: Call,
    calls: Seq<Call>,
    limit: nat,
)
    requires
        panel.wf(),
        panel.awaits_root(task),
        calls.len() <= usize::MAX,
    ensures
        ({
            let after = panel.root_arrived(task, root, root_call, calls, limit);
            let shown = panel.rooted(root).with_root(root_call, calls);
            let count = if calls.len() <= limit {
                calls.len()
            } else {
                0
            };
            let key = NodeKey::for_item(&root_call.item);
            &&& shown.auto_expand_count(limit) == count
            &&& after.nodes == seq![
                Tree {
                    call: root_call,
                    key,
                    children: Branches::Loaded(opened_trees(calls, count)),
                },
            ]
            &&& after.expanded == set![seq![0usize]] + first_level(count)
            &&& shown.loads_below_root(count) == Seq::new(
                count,
                |i: int|
                    Load {
                        task: numbered(panel.next_task, i),
                        path: seq![0usize, i as usize],
                        item: calls[i].item,
                        mode: panel.mode,
                    },
            )
            &&& after.entries == seq![
                Row {
                    path: seq![0usize],
                    depth: 0,
                    expanded: true,
                    recursive: false,
                    loading: false,
                },
            ] + Seq::new(
                calls.len(),
                |i: int|
                    Row {
                        path: seq![0usize, i as usize],
                        depth: 1,
                        expanded: NodeKey::for_item(&calls[i].item) != key && i < count,
                        recursive: NodeKey::for_item(&calls[i].item) == key,
                        loading: i < count,
                    },
            )
        }),
{
    let rooted = panel.rooted(root);
    let shown = rooted.with_root(root_call, calls);
    let tree = shown.nodes[0];
    let count = if calls.len() <= limit {
        calls.len()
    } else {
        0
    };
    let key = NodeKey::for_item(&root_call.item);
    assert(shown.nodes =~= seq![tree]);
    assert(shown.expanded =~= set![seq![0usize]]);
    lemma_opened_below_root(shown, tree, calls, count);
    let after = panel.root_arrived(task, root, root_call, calls, limit);
    assert(after == shown.opened_below_root(count));
    let list = opened_trees(calls, count);
    let top = after.nodes[0];
    let prefix = Seq::<usize>::empty().push(0usize);
    assert(prefix =~= seq![0usize]);
    assert forall|i: int| 0 <= i < list.len() implies !((#[trigger] list[i]).children is Loaded) by {}
    let ancestors = Set::<NodeKey>::empty().insert(key);
    lemma_rows_of_leaves(list, prefix, 1, after.expanded, ancestors);
    assert(after.nodes.drop_last() =~= Seq::empty());
    assert(after.expanded.contains(prefix));
    assert(tree_rows(top, prefix, 0, after.expanded, Set::empty()) == seq![
        row_of(top, prefix, 0, after.expanded, Set::empty()),
    ] + forest_rows(list, prefix, 1, after.expanded, ancestors));
    assert(after.nodes.last() == top);
    assert(forest_rows(
        after.nodes.drop_last(),
        Seq::empty(),
        0,
        after.expanded,
        Set::empty(),
    ) =~= Seq::empty());
    assert(panel_rows(after.nodes, after.expanded) =~= seq![
        row_of(top, prefix, 0, after.expanded, Set::empty()),
    ] + forest_rows(list, prefix, 1, after.expanded, ancestors));
    assert forall|i: int| 0 <= i < calls.len() implies #[trigger] row_of(
        list[i],
        prefix.push(i as usize),
        1,
        after.expanded,
        ancestors,
    ) == (Row {
        path: seq![0usize, i as usize],
        depth: 1,
        expanded: NodeKey::for_item(&calls[i].item) != key && i < count,
        recursive: NodeKey::for_item(&calls[i].item) == key,
        loading: i < count,
    }) by {
        let path = prefix.push(i as usize);
        assert(path =~= seq![0usize, i as usize]);
        assert(after.expanded.contains(path) == (i < count));
    }
    let rows = seq![
        Row { path: seq![0usize], depth: 0, expanded: true, recursive: false, loading: false },
    ] + Seq::new(
        calls.len(),
        |i: int|
            Row {
                path: seq![0usize, i as usize],
                depth: 1,
                expanded: NodeKey::for_item(&calls[i].item) != key && i < count,
                recursive: NodeKey::for_item(&calls[i].item) == key,
                loading: i < count,
            },
    );
    assert(after.entries =~= rows);
}

} // verus!
