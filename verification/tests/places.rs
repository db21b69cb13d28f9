use call_hierarchy::{
    Anchor, CallHierarchyPanel, DockPosition, DockSide, KeySet, NodeKey, PathSet, TaskMap,
};

fn key(id: u64) -> NodeKey {
    NodeKey { buffer: 1, start: Anchor { id }, end: Anchor { id: id + 1 } }
}

#[test]
fn path_set_holds_each_path_once() {
    let mut set = PathSet::new();
    assert!(set.insert(vec![0, 1]));
    assert!(!set.insert(vec![0, 1]));
    assert!(set.insert(vec![0]));
    assert!(set.contains(&[0, 1]));
    assert!(!set.contains(&[1, 0]));
    assert!(!set.contains(&[]));
    assert!(set.remove(&[0, 1]));
    assert!(!set.remove(&[0, 1]));
    assert!(!set.contains(&[0, 1]));
    assert!(set.contains(&[0]));
    set.clear();
    assert!(!set.contains(&[0]));
}

#[test]
fn key_set_holds_each_key_once() {
    let mut set = KeySet::new();
    assert!(set.insert(key(1)));
    assert!(!set.insert(key(1)));
    assert!(set.insert(key(2)));
    assert!(set.remove(&key(1)));
    assert!(!set.remove(&key(1)));
    assert!(!set.contains(&key(1)));
    assert!(set.contains(&key(2)));
}

#[test]
fn task_map_keeps_the_last_fetch_of_a_path() {
    let mut map = TaskMap::new();
    map.insert(vec![0], 1);
    map.insert(vec![0, 0], 2);
    map.insert(vec![0], 3);
    assert_eq!(map.get(&[0]), Some(3));
    assert_eq!(map.get(&[0, 0]), Some(2));
    assert_eq!(map.get(&[1]), None);
    map.remove(&[0]);
    map.remove(&[1]);
    assert_eq!(map.get(&[0]), None);
    assert_eq!(map.get(&[0, 0]), Some(2));
    map.clear();
    assert_eq!(map.get(&[0, 0]), None);
}

#[test]
fn the_panel_docks_at_a_side() {
    assert_eq!(CallHierarchyPanel::position(DockSide::Left), DockPosition::Left);
    assert_eq!(CallHierarchyPanel::position(DockSide::Right), DockPosition::Right);
    assert!(CallHierarchyPanel::position_is_valid(DockPosition::Left));
    assert!(CallHierarchyPanel::position_is_valid(DockPosition::Right));
    assert!(!CallHierarchyPanel::position_is_valid(DockPosition::Bottom));
    assert_eq!(CallHierarchyPanel::set_position(DockPosition::Left), DockSide::Left);
    assert_eq!(CallHierarchyPanel::set_position(DockPosition::Bottom), DockSide::Left);
    assert_eq!(CallHierarchyPanel::set_position(DockPosition::Right), DockSide::Right);
}

#[test]
fn the_window_knows_the_panel_by_its_names() {
    assert_eq!(CallHierarchyPanel::persistent_name(), "Call Hierarchy Panel");
    assert_eq!(CallHierarchyPanel::panel_key(), "CallHierarchyPanel");
    assert_eq!(CallHierarchyPanel::icon_tooltip(), Some("Call Hierarchy Panel"));
    assert_eq!(CallHierarchyPanel::activation_priority(), 7);
}
