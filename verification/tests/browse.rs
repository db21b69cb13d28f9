use call_hierarchy::{
    Anchor, Badge, Body, Call, CallDisplay, CallHierarchyItem, CallHierarchyMode,
    CallHierarchyPanel, LoadRequest, Location, ModeChange, PanelState, PrepareRequest, Prepared,
    RootRequest, Toggled,
};

fn item(name: &str, line: u64) -> CallHierarchyItem {
    CallHierarchyItem {
        buffer: 1,
        server_id: 0,
        name: name.to_string(),
        kind: 12,
        detail: None,
        range: Anchor { id: 10 * line }..Anchor { id: 10 * line + 9 },
        selection_range: Anchor { id: 10 * line + 3 }..Anchor { id: 10 * line + 5 },
        data: None,
    }
}

fn call(name: &str, line: u64) -> Call {
    Call {
        item: item(name, line),
        target: Location {
            buffer: 7,
            range: Anchor { id: 10 * line + 3 }..Anchor { id: 10 * line + 5 },
        },
        site_count: 1,
        display: CallDisplay {
            name: name.to_string(),
            label_text: None,
            path: Some(format!("main.rs:{}", line)),
        },
    }
}

fn calls(list: &[(&str, u64)]) -> Vec<Call> {
    list.iter().map(|(name, line)| call(name, *line)).collect()
}

fn show(panel: &mut CallHierarchyPanel) -> PrepareRequest {
    panel.show_for_editor(Some((1, Anchor { id: 42 }))).unwrap()
}

fn prepare(panel: &mut CallHierarchyPanel, request: PrepareRequest) -> RootRequest {
    match panel.root_prepared(request, Ok(Some(vec![item("root", 1), item("unused", 99)]))) {
        Prepared::Fetch(root) => root,
        other => panic!("no fetch: {:?}", other),
    }
}

/// A panel with the root `root` and the calls `a` and `b` below it.
fn loaded(limit: usize) -> (CallHierarchyPanel, Vec<LoadRequest>) {
    let mut panel = CallHierarchyPanel::new();
    let request = show(&mut panel);
    let root = prepare(&mut panel, request);
    let loads = panel
        .root_loaded(root, call("root", 1), calls(&[("a", 2), ("b", 3)]), limit)
        .unwrap();
    (panel, loads)
}

fn rows(panel: &CallHierarchyPanel) -> Vec<(Vec<usize>, bool, bool)> {
    panel
        .entries()
        .iter()
        .map(|entry| (entry.path.clone(), entry.expanded, entry.loading))
        .collect()
}

fn widest(panel: &CallHierarchyPanel) -> Option<usize> {
    match panel.render() {
        Body::Entries { widest, .. } => widest,
        Body::Message(text) => panic!("not ready: {}", text),
    }
}

#[test]
fn a_new_panel_is_empty() {
    let panel = CallHierarchyPanel::new();
    assert_eq!(panel.state(), PanelState::Empty);
    assert_eq!(panel.state(), PanelState::default());
    assert_eq!(panel.mode(), CallHierarchyMode::Incoming);
    assert!(panel.root().is_none());
    assert!(panel.entries().is_empty());
}

#[test]
fn an_editor_without_a_symbol_shows_none() {
    let (mut panel, _) = loaded(20);
    assert!(panel.show_for_editor(None).is_none());
    assert_eq!(panel.state(), PanelState::NoSymbol);
    assert!(panel.root().is_none());
    assert!(panel.entries().is_empty());
}

#[test]
fn showing_asks_for_the_symbol_at_the_cursor() {
    let mut panel = CallHierarchyPanel::new();
    let request = show(&mut panel);
    assert_eq!(request.buffer, 1);
    assert_eq!(request.position, Anchor { id: 42 });
    assert_eq!(request.mode, CallHierarchyMode::Incoming);
    assert_eq!(panel.state(), PanelState::Loading);
    let root = prepare(&mut panel, request);
    assert_eq!(root.item.name, "root", "the first symbol counts");
    assert_eq!(root.mode, CallHierarchyMode::Incoming);
    assert!(root.becomes_root);
    assert_eq!(panel.state(), PanelState::Loading);
    assert!(panel.root().is_none(), "the root is set when its calls arrive");
}

#[test]
fn no_symbol_is_shown_where_none_is_found() {
    for items in [Err(()), Ok(None), Ok(Some(Vec::new()))] {
        let mut panel = CallHierarchyPanel::new();
        let request = show(&mut panel);
        assert!(matches!(panel.root_prepared(request, items), Prepared::NoSymbol));
        assert_eq!(panel.state(), PanelState::NoSymbol);
    }
}

#[test]
fn the_first_level_is_opened() {
    let (panel, loads) = loaded(2);
    assert_eq!(panel.state(), PanelState::Ready);
    assert_eq!(panel.root().unwrap().name, "root");
    assert_eq!(
        rows(&panel),
        vec![(vec![0], true, false), (vec![0, 0], true, true), (vec![0, 1], true, true)]
    );
    let asked: Vec<(Vec<usize>, String)> =
        loads.iter().map(|load| (load.path.clone(), load.item.name.clone())).collect();
    assert_eq!(
        asked,
        vec![(vec![0, 0], "a".to_string()), (vec![0, 1], "b".to_string())]
    );
    assert_ne!(loads[0].task, loads[1].task);
}

#[test]
fn the_first_level_stays_closed_over_the_limit() {
    for limit in [0, 1] {
        let (panel, loads) = loaded(limit);
        assert!(loads.is_empty());
        assert_eq!(
            rows(&panel),
            vec![(vec![0], true, false), (vec![0, 0], false, false), (vec![0, 1], false, false)]
        );
    }
}

#[test]
fn a_root_without_calls_is_one_row() {
    let mut panel = CallHierarchyPanel::new();
    let request = show(&mut panel);
    let root = prepare(&mut panel, request);
    let loads = panel.root_loaded(root, call("root", 1), Vec::new(), 20).unwrap();
    assert!(loads.is_empty());
    assert_eq!(rows(&panel), vec![(vec![0], true, false)]);
}

#[test]
fn calls_arrive_below_their_symbol() {
    let (mut panel, mut loads) = loaded(20);
    let second = loads.pop().unwrap();
    let first = loads.pop().unwrap();
    assert!(panel.children_loaded(second, calls(&[("c", 4)])));
    assert_eq!(
        rows(&panel),
        vec![
            (vec![0], true, false),
            (vec![0, 0], true, true),
            (vec![0, 1], true, false),
            (vec![0, 1, 0], false, false),
        ]
    );
    assert!(panel.children_loaded(first, Vec::new()));
    assert_eq!(
        rows(&panel),
        vec![
            (vec![0], true, false),
            (vec![0, 0], true, false),
            (vec![0, 1], true, false),
            (vec![0, 1, 0], false, false),
        ]
    );
}

#[test]
fn a_first_level_call_of_the_root_itself_is_recursive() {
    let mut panel = CallHierarchyPanel::new();
    let request = show(&mut panel);
    let root = prepare(&mut panel, request);
    let loads = panel
        .root_loaded(root, call("root", 1), calls(&[("root", 1)]), 20)
        .unwrap();
    assert_eq!(loads.len(), 1);
    let entry = &panel.entries()[1];
    assert!(entry.recursive);
    assert!(!entry.expanded);
    assert!(entry.loading);
    assert!(matches!(panel.toggle_expanded(1), Toggled::Ignored));
}

#[test]
fn toggling_twice_changes_nothing() {
    let (mut panel, mut loads) = loaded(20);
    let second = loads.pop().unwrap();
    panel.children_loaded(second, calls(&[("c", 4)]));
    let before = rows(&panel);
    assert!(matches!(panel.toggle_expanded(2), Toggled::Redraw));
    assert_eq!(
        rows(&panel),
        vec![(vec![0], true, false), (vec![0, 0], true, true), (vec![0, 1], false, false)]
    );
    assert!(matches!(panel.toggle_expanded(2), Toggled::Redraw));
    assert_eq!(rows(&panel), before);
}

#[test]
fn toggling_a_row_for_the_first_time_asks_for_its_calls() {
    let (mut panel, _) = loaded(0);
    let request = match panel.toggle_expanded(2) {
        Toggled::Load(request) => request,
        other => panic!("no fetch: {:?}", other),
    };
    assert_eq!(request.path, vec![0, 1]);
    assert_eq!(request.item.name, "b");
    assert_eq!(request.mode, CallHierarchyMode::Incoming);
    assert_eq!(
        rows(&panel),
        vec![(vec![0], true, false), (vec![0, 0], false, false), (vec![0, 1], true, true)]
    );
    // Collapsing keeps the fetch, and expanding again starts no other.
    assert!(matches!(panel.toggle_expanded(2), Toggled::Redraw));
    assert!(matches!(panel.toggle_expanded(2), Toggled::Redraw));
    assert!(panel.children_loaded(request, calls(&[("c", 4)])));
    assert_eq!(panel.entries().len(), 4);
}

#[test]
fn toggling_ignores_rows_that_are_not_there() {
    let (mut panel, _) = loaded(0);
    assert!(matches!(panel.toggle_expanded(3), Toggled::Ignored));
    assert!(matches!(CallHierarchyPanel::new().toggle_expanded(0), Toggled::Ignored));
}

#[test]
fn a_collapsed_root_keeps_what_is_expanded_below_it() {
    let (mut panel, mut loads) = loaded(20);
    let second = loads.pop().unwrap();
    panel.children_loaded(second, calls(&[("c", 4)]));
    let before = rows(&panel);
    panel.toggle_expanded(0);
    assert_eq!(rows(&panel), vec![(vec![0], false, false)]);
    panel.toggle_expanded(0);
    assert_eq!(rows(&panel), before);
}

#[test]
fn showing_again_drops_what_was_fetched_before() {
    let (mut panel, mut loads) = loaded(20);
    let request = show(&mut panel);
    assert_eq!(panel.state(), PanelState::Loading);
    assert!(panel.entries().is_empty());
    assert!(!panel.children_loaded(loads.pop().unwrap(), calls(&[("late", 9)])));
    assert!(panel.entries().is_empty());
    let root = prepare(&mut panel, request);
    panel.root_loaded(root, call("root", 1), calls(&[("d", 5)]), 0).unwrap();
    assert!(!panel.children_loaded(loads.pop().unwrap(), calls(&[("late", 9)])));
    assert_eq!(
        rows(&panel),
        vec![(vec![0], true, false), (vec![0, 0], false, false)]
    );
}

#[test]
fn a_later_request_drops_an_earlier_one() {
    let mut panel = CallHierarchyPanel::new();
    let early = show(&mut panel);
    let late = show(&mut panel);
    assert_ne!(early.task, late.task);
    assert!(matches!(panel.root_prepared(early, Err(())), Prepared::Dropped));
    assert_eq!(panel.state(), PanelState::Loading);
    let root = prepare(&mut panel, late);
    let _ = show(&mut panel);
    assert!(panel.root_loaded(root, call("root", 1), Vec::new(), 20).is_none());
    assert_eq!(panel.state(), PanelState::Loading);
}

#[test]
fn each_fetch_is_answered_once() {
    let (mut panel, mut loads) = loaded(20);
    let load = loads.pop().unwrap();
    let again = LoadRequest {
        task: load.task,
        path: load.path.clone(),
        item: load.item.clone(),
        mode: load.mode,
    };
    assert!(panel.children_loaded(load, calls(&[("c", 4)])));
    assert!(!panel.children_loaded(again, Vec::new()));
    assert_eq!(panel.entries().len(), 4);
}

#[test]
fn a_root_that_was_asked_for_arrives_after_no_symbol() {
    let mut panel = CallHierarchyPanel::new();
    let request = show(&mut panel);
    let root = prepare(&mut panel, request);
    panel.set_no_symbol();
    assert_eq!(panel.state(), PanelState::NoSymbol);
    assert!(panel.root_loaded(root, call("root", 1), Vec::new(), 20).is_some());
    assert_eq!(panel.state(), PanelState::Ready);
}

#[test]
fn calls_that_arrive_without_a_tree_show_nothing() {
    let (mut panel, mut loads) = loaded(20);
    panel.set_no_symbol();
    assert!(panel.children_loaded(loads.pop().unwrap(), calls(&[("c", 4)])));
    assert_eq!(panel.state(), PanelState::NoSymbol);
    assert!(panel.entries().is_empty());
}

#[test]
fn changing_the_direction_fetches_the_root_again() {
    let (mut panel, _) = loaded(20);
    assert!(matches!(panel.set_mode(CallHierarchyMode::Incoming), ModeChange::Unchanged));
    assert_eq!(panel.state(), PanelState::Ready);
    let request = match panel.set_mode(CallHierarchyMode::Outgoing) {
        ModeChange::Reload(request) => request,
        other => panic!("no fetch: {:?}", other),
    };
    assert_eq!(request.item.name, "root");
    assert_eq!(request.mode, CallHierarchyMode::Outgoing);
    assert!(!request.becomes_root);
    assert_eq!(panel.state(), PanelState::Loading);
    let loads = panel.root_loaded(request, call("root", 1), calls(&[("x", 8)]), 20).unwrap();
    assert_eq!(loads[0].mode, CallHierarchyMode::Outgoing);
    assert_eq!(panel.root().unwrap().name, "root");
}

#[test]
fn changing_the_direction_without_a_root_only_switches() {
    let mut panel = CallHierarchyPanel::new();
    assert!(matches!(panel.toggle_direction(), ModeChange::Switched));
    assert_eq!(panel.mode(), CallHierarchyMode::Outgoing);
    assert_eq!(panel.state(), PanelState::Empty);
    assert!(matches!(panel.toggle_direction(), ModeChange::Switched));
    assert_eq!(panel.mode(), CallHierarchyMode::Incoming);
    assert_eq!(CallHierarchyMode::Incoming.opposite().opposite(), CallHierarchyMode::Incoming);
}

#[test]
fn a_click_opens_the_target() {
    let (panel, _) = loaded(20);
    assert_eq!(panel.open_entry(2), Some((7, Anchor { id: 33 })));
    assert_eq!(panel.open_entry(3), None);
}

#[test]
fn the_widest_row_counts_indent_and_text() {
    // Twenty for each level and one for each byte.
    let mut panel = CallHierarchyPanel::new();
    let request = show(&mut panel);
    let root = prepare(&mut panel, request);
    let mut top = call("root", 1);
    top.display.label_text = Some("x".repeat(22));
    panel.root_loaded(root, top, calls(&[("a", 2), ("b", 3)]), 0);
    assert_eq!(widest(&panel), Some(0), "22 over 20 + 1");

    let mut panel = CallHierarchyPanel::new();
    let request = show(&mut panel);
    let root = prepare(&mut panel, request);
    let mut top = call("root", 1);
    top.display.label_text = Some("x".repeat(21));
    panel.root_loaded(root, top, calls(&[("a", 2), ("b", 3)]), 0);
    assert_eq!(widest(&panel), Some(2), "the last of equals");
}

#[test]
fn the_widest_row_goes_by_the_label_and_by_bytes() {
    let mut panel = CallHierarchyPanel::new();
    let request = show(&mut panel);
    let root = prepare(&mut panel, request);
    let mut labelled = call("a long name without use", 2);
    labelled.display.label_text = Some("é".to_string());
    panel.root_loaded(root, call("root", 1), vec![labelled, call("b", 3)], 0);
    assert_eq!(widest(&panel), Some(1), "two bytes over one");
}

#[test]
fn rows_are_drawn_from_their_symbols() {
    let (panel, _) = loaded(20);
    let view = panel.render_entry(2).unwrap();
    assert_eq!(view.name, "b");
    assert_eq!(view.badges, vec![Badge::Loading]);
    assert_eq!(view.depth, 1);
    assert_eq!(view.disclosure, Some(true));
    assert_eq!(view.tooltip, Some("main.rs:3".to_string()));
    let view = panel.render_entry(0).unwrap();
    assert!(view.badges.is_empty());
    assert!(panel.render_entry(3).is_none());
}

#[test]
fn recursive_rows_have_no_disclosure() {
    let mut panel = CallHierarchyPanel::new();
    let request = show(&mut panel);
    let root = prepare(&mut panel, request);
    panel.root_loaded(root, call("root", 1), calls(&[("root", 1)]), 20);
    let view = panel.render_entry(1).unwrap();
    assert_eq!(view.badges, vec![Badge::Recursive, Badge::Loading]);
    assert_eq!(view.disclosure, None);
    assert_eq!(Badge::Recursive.text(), "recursive");
    assert_eq!(Badge::Loading.text(), "loading…");
}

#[test]
fn the_body_says_what_there_is() {
    fn message(panel: &CallHierarchyPanel) -> &'static str {
        match panel.render() {
            Body::Message(text) => text,
            other => panic!("no message: {:?}", other),
        }
    }
    let mut panel = CallHierarchyPanel::new();
    assert_eq!(message(&panel), "No call hierarchy loaded.");
    show(&mut panel);
    assert_eq!(message(&panel), "Loading…");
    panel.set_no_symbol();
    assert_eq!(message(&panel), "No symbol under the cursor.");
    let (panel, _) = loaded(20);
    assert!(matches!(panel.render(), Body::Entries { count: 3, widest: Some(2) }));
}

#[test]
fn the_header_names_the_direction() {
    let mut panel = CallHierarchyPanel::new();
    let header = panel.render_header();
    assert_eq!(header.title, "Call Hierarchy");
    assert_eq!(header.button, "Incoming");
    assert_eq!(header.on_click, CallHierarchyMode::Outgoing);
    panel.toggle_direction();
    let header = panel.render_header();
    assert_eq!(header.button, "Outgoing");
    assert_eq!(header.on_click, CallHierarchyMode::Incoming);
}

#[test]
fn guides_follow_the_depths() {
    let (panel, _) = loaded(20);
    assert_eq!(panel.entry_depths(0..3), vec![0, 1, 1]);
    assert_eq!(panel.entry_depths(1..2), vec![1]);
    assert!(panel.entry_depths(1..4).is_empty());
    assert!(panel.entry_depths(3..3).is_empty());
    assert!(panel.entry_depths(2..1).is_empty());
}
