use call_hierarchy::{
    Anchor, Call, CallDisplay, CallHierarchyItem, CallHierarchyPanel, ChildState, FlatEntry,
    KeySet, Location, Node, PathSet,
};

/// The file of the tests is forty lines of `fn main() {}`.
const LINE_LEN: u64 = 13;

fn anchor_before(line: u64, column: u64) -> Anchor {
    Anchor { id: 2 * (line * LINE_LEN + column) }
}

fn anchor_after(line: u64, column: u64) -> Anchor {
    Anchor { id: 2 * (line * LINE_LEN + column) + 1 }
}

fn make_call(name: &str, line: u64) -> Call {
    let range = anchor_after(line, 0)..anchor_before(line, 10);
    let selection_range = anchor_after(line, 3)..anchor_before(line, 3 + name.len() as u64);
    Call {
        item: CallHierarchyItem {
            buffer: 1,
            server_id: 0,
            name: name.to_string(),
            kind: 12,
            detail: None,
            range,
            selection_range: selection_range.clone(),
            data: None,
        },
        target: Location { buffer: 1, range: selection_range },
        site_count: 1,
        display: CallDisplay::default(),
    }
}

fn node(call: Call) -> Node {
    Node::new(call)
}

fn paths(list: &[&[usize]]) -> PathSet {
    let mut set = PathSet::new();
    for path in list {
        set.insert(path.to_vec());
    }
    set
}

fn flatten_for_test(nodes: &[Node], expanded: &PathSet) -> Vec<FlatEntry> {
    let mut entries = Vec::new();
    CallHierarchyPanel::flatten(
        nodes,
        &mut Vec::new(),
        0,
        expanded,
        &mut KeySet::new(),
        &mut entries,
    );
    entries
}

#[test]
fn test_flatten_only_descends_into_expanded_nodes() {
    let child = node(make_call("child", 5));
    let mut parent = node(make_call("parent", 1));
    let sibling = node(make_call("sibling", 9));
    parent.children = ChildState::Loaded(vec![child]);
    let nodes = vec![parent, sibling];

    let collapsed = flatten_for_test(&nodes, &PathSet::new());
    assert_eq!(collapsed.len(), 2);
    assert_eq!(collapsed[0].depth, 0);
    assert_eq!(collapsed[1].depth, 0);

    let expanded = paths(&[&[0]]);
    let expanded = flatten_for_test(&nodes, &expanded);
    assert_eq!(expanded.len(), 3);
    assert_eq!(expanded[0].depth, 0);
    assert_eq!(expanded[1].depth, 1, "child sits under its parent");
    assert_eq!(expanded[2].depth, 0, "sibling returns to the root level");
}

#[test]
fn test_flatten_marks_self_recursive_nodes() {
    // Same name and line, so both nodes share a `NodeKey` the way a language
    // server reports a directly recursive function as its own caller.
    let inner = node(make_call("recurse", 20));
    let mut outer = node(make_call("recurse", 20));
    assert_eq!(inner.key, outer.key, "both nodes describe the same symbol");
    outer.children = ChildState::Loaded(vec![inner]);
    let nodes = vec![outer];

    let entries = flatten_for_test(&nodes, &paths(&[&[0]]));
    assert_eq!(entries.len(), 2);
    assert!(!entries[0].recursive, "the outer node is not yet recursive");
    assert!(
        entries[1].recursive,
        "a node repeating in its own ancestry is marked recursive"
    );
    assert!(
        !entries[1].expanded,
        "a recursive node stays collapsed so flattening terminates"
    );
}

#[test]
fn test_expansion_is_tracked_per_position_not_per_symbol() {
    // One function commonly appears at several places in a call tree - here the
    // same `beta` calls two different functions. Expanding one occurrence must
    // leave the other alone.
    let mut first = node(make_call("beta", 5));
    let mut second = node(make_call("beta", 5));
    assert_eq!(first.key, second.key, "both rows are the same symbol");
    first.children = ChildState::Loaded(vec![node(make_call("main", 1))]);
    second.children = ChildState::Loaded(vec![node(make_call("main", 1))]);
    let nodes = vec![first, second];

    let entries = flatten_for_test(&nodes, &paths(&[&[0]]));
    assert_eq!(entries.len(), 3, "only the first occurrence expands");
    assert!(entries[0].expanded);
    assert_eq!(entries[1].depth, 1, "its child is shown");
    assert!(
        !entries[2].expanded,
        "the other occurrence of the same symbol stays collapsed"
    );
}

#[test]
fn test_flatten_marks_fetching_nodes_without_adding_a_row() {
    let mut fetching = node(make_call("beta", 5));
    fetching.children = ChildState::Loading;
    let nodes = vec![fetching];

    let entries = flatten_for_test(&nodes, &paths(&[&[0]]));
    assert_eq!(
        entries.len(),
        1,
        "loading is shown on the row itself, so nothing is inserted below it"
    );
    assert!(entries[0].loading);
}

#[test]
fn flatten_appends_and_leaves_path_and_ancestors() {
    let mut top = node(make_call("top", 2));
    top.children = ChildState::Loaded(vec![node(make_call("low", 3))]);
    let nodes = vec![top];
    let mut path = vec![4];
    let mut ancestors = KeySet::new();
    ancestors.insert(node(make_call("low", 3)).key);
    let mut entries = flatten_for_test(&nodes, &PathSet::new());
    CallHierarchyPanel::flatten(
        &nodes,
        &mut path,
        1,
        &paths(&[&[4, 0]]),
        &mut ancestors,
        &mut entries,
    );
    let found: Vec<(Vec<usize>, usize, bool, bool)> = entries
        .iter()
        .map(|entry| (entry.path.clone(), entry.depth, entry.expanded, entry.recursive))
        .collect();
    assert_eq!(
        found,
        vec![
            (vec![0], 0, false, false),
            (vec![4, 0], 1, true, false),
            (vec![4, 0, 0], 2, false, true),
        ]
    );
    assert_eq!(path, vec![4]);
    assert!(ancestors.contains(&node(make_call("low", 3)).key));
    assert!(!ancestors.contains(&node(make_call("top", 2)).key));
}

#[test]
fn flatten_keeps_an_ancestor_that_was_there_before() {
    // A symbol in `ancestors` is recursive, so its children stay hidden and it
    // is still an ancestor afterwards.
    let mut top = node(make_call("top", 2));
    top.children = ChildState::Loaded(vec![node(make_call("low", 3))]);
    let key = top.key;
    let nodes = vec![top];
    let mut ancestors = KeySet::new();
    ancestors.insert(key);
    let mut entries = Vec::new();
    CallHierarchyPanel::flatten(
        &nodes,
        &mut Vec::new(),
        0,
        &paths(&[&[0]]),
        &mut ancestors,
        &mut entries,
    );
    assert_eq!(entries.len(), 1);
    assert!(entries[0].recursive);
    assert!(!entries[0].expanded);
    assert!(ancestors.contains(&key));
}

#[test]
fn mutual_recursion_is_marked_where_it_closes() {
    let again = node(make_call("ping", 1));
    let mut pong = node(make_call("pong", 2));
    pong.children = ChildState::Loaded(vec![again]);
    let mut ping = node(make_call("ping", 1));
    ping.children = ChildState::Loaded(vec![pong, node(make_call("main", 7))]);
    let nodes = vec![ping];

    let entries = flatten_for_test(&nodes, &paths(&[&[0], &[0, 0], &[0, 0, 0]]));
    let found: Vec<(Vec<usize>, bool)> =
        entries.iter().map(|entry| (entry.path.clone(), entry.recursive)).collect();
    assert_eq!(
        found,
        vec![
            (vec![0], false),
            (vec![0, 0], false),
            (vec![0, 0, 0], true),
            (vec![0, 1], false),
        ]
    );
}

#[test]
fn hidden_parents_hide_expanded_children() {
    let mut inner = node(make_call("inner", 2));
    inner.children = ChildState::Loaded(vec![node(make_call("leaf", 3))]);
    let mut outer = node(make_call("outer", 1));
    outer.children = ChildState::Loaded(vec![inner]);
    let nodes = vec![outer];

    assert_eq!(flatten_for_test(&nodes, &paths(&[&[0, 0]])).len(), 1);
    assert_eq!(flatten_for_test(&nodes, &paths(&[&[0], &[0, 0]])).len(), 3);
}

#[test]
fn node_at_follows_loaded_children() {
    let mut parent = node(make_call("parent", 1));
    parent.children = ChildState::Loaded(vec![
        node(make_call("first", 2)),
        node(make_call("second", 3)),
    ]);
    let nodes = vec![node(make_call("other", 9)), parent];

    let found = CallHierarchyPanel::node_at(&nodes, &[1, 1]).unwrap();
    assert_eq!(found.call.item.name, "second");
    let found = CallHierarchyPanel::node_at(&nodes, &[1]).unwrap();
    assert_eq!(found.call.item.name, "parent");
    assert!(CallHierarchyPanel::node_at(&nodes, &[]).is_none());
    assert!(CallHierarchyPanel::node_at(&nodes, &[2]).is_none());
    assert!(CallHierarchyPanel::node_at(&nodes, &[1, 2]).is_none());
    assert!(CallHierarchyPanel::node_at(&nodes, &[0, 0]).is_none());
}

#[test]
fn node_at_mut_changes_one_node() {
    let mut parent = node(make_call("parent", 1));
    parent.children = ChildState::Loaded(vec![
        node(make_call("first", 2)),
        node(make_call("second", 3)),
    ]);
    let mut nodes = vec![parent];

    CallHierarchyPanel::node_at_mut(&mut nodes, &[0, 1]).unwrap().children = ChildState::Loading;
    let second = CallHierarchyPanel::node_at(&nodes, &[0, 1]).unwrap();
    assert!(matches!(second.children, ChildState::Loading));
    assert_eq!(second.call.item.name, "second");
    let first = CallHierarchyPanel::node_at(&nodes, &[0, 0]).unwrap();
    assert!(matches!(first.children, ChildState::NotLoaded));
    assert!(CallHierarchyPanel::node_at_mut(&mut nodes, &[0, 2]).is_none());
    assert!(CallHierarchyPanel::node_at_mut(&mut nodes, &[]).is_none());
}

#[test]
fn key_leaves_the_server_out() {
    let one = make_call("same", 4);
    let mut other = make_call("another name", 4);
    other.item.server_id = 9;
    assert_eq!(node(one).key, node(other).key);
    let mut moved = make_call("same", 4);
    moved.item.buffer = 2;
    assert_ne!(node(make_call("same", 4)).key, node(moved).key);
    assert_ne!(node(make_call("same", 4)).key, node(make_call("same", 5)).key);
}

#[test]
fn flatten_takes_any_depth_that_has_nothing_below() {
    let mut fetching = node(make_call("beta", 5));
    fetching.children = ChildState::Loading;
    let nodes = vec![fetching];
    let mut entries = Vec::new();
    CallHierarchyPanel::flatten(
        &nodes,
        &mut Vec::new(),
        usize::MAX,
        &paths(&[&[0]]),
        &mut KeySet::new(),
        &mut entries,
    );
    assert_eq!(entries[0].depth, usize::MAX);
    assert!(entries[0].expanded);
}
