//! The panel as a value, and what each event makes of it.

use crate::rows::{panel_rows, Row};
use crate::symbol::{Anchor, Call, CallHierarchyItem, CallHierarchyMode, NodeKey};
use crate::tree::{fresh_trees, replaced_at, tree_at, Branches, Tree};
use crate::visible::is_countable;
use crate::width::widest_row;
use vstd::prelude::*;

verus! {

/// What the panel has to show.
#[derive(Debug, Clone, Copy, PartialEq, Eq, Structural)]
pub enum PanelState {
    /// Nothing has been asked for yet.
    Empty,
    /// The root symbol and its calls are being fetched.
    Loading,
    /// There is no symbol to show.
    NoSymbol,
    /// The tree is shown.
    Ready,
}

impl Default for PanelState {
    fn default() -> (state: Self)
        ensures
            state is Empty,
    {
        PanelState::Empty
    }
}

/// The panel, as a value.
pub struct Panel {
    pub mode: CallHierarchyMode,
    pub root: Option<CallHierarchyItem>,
    pub nodes: Seq<Tree>,
    pub entries: Seq<Row>,
    /// The places that are expanded, by path and not by symbol: one symbol may
    /// stand in several places, and each is expanded by itself.
    pub expanded: Set<Seq<usize>>,
    pub state: PanelState,
    pub widest_entry_index: Option<int>,
    /// The fetch of the root that the panel waits for.
    pub root_task: Option<u64>,
    /// The fetches of children that the panel waits for, by the place that each
    /// is to fill.
    pub child_tasks: Map<Seq<usize>, u64>,
    /// The number of the next fetch.
    pub next_task: u64,
}

/// A fetch of the children at a place in the tree, as a value.
pub struct Load {
    pub task: u64,
    pub path: Seq<usize>,
    pub item: CallHierarchyItem,
    pub mode: CallHierarchyMode,
}

/// The number after `task`. The last number there is stays.
pub open spec fn following(task: u64) -> u64 {
    if task < u64::MAX {
        (task + 1) as u64
    } else {
        task
    }
}

/// The children of the tree at `path` have not been asked for.
pub open spec fn is_unloaded(trees: Seq<Tree>, path: Seq<usize>) -> bool {
    tree_at(trees, path) matches Some(tree) && tree.children is NotLoaded
}

/// The trees, with other children at `path`.
pub open spec fn with_children_at(
    trees: Seq<Tree>,
    path: Seq<usize>,
    children: Branches,
) -> Seq<Tree> {
    match tree_at(trees, path) {
        Some(tree) => replaced_at(trees, path, Tree { children, ..tree }),
        None => trees,
    }
}

impl Panel {
    /// A panel that has not been asked for anything.
    pub open spec fn initial() -> Panel {
        Panel {
            mode: CallHierarchyMode::Incoming,
            root: None,
            nodes: Seq::empty(),
            entries: Seq::empty(),
            expanded: Set::empty(),
            state: PanelState::Empty,
            widest_entry_index: None,
            root_task: None,
            child_tasks: Map::empty(),
            next_task: 0,
        }
    }

    /// With its rows made from its tree again.
    pub open spec fn refreshed(self) -> Panel {
        let entries = panel_rows(self.nodes, self.expanded);
        Panel { entries, widest_entry_index: widest_row(self.nodes, entries), ..self }
    }

    /// Without a symbol. What was expanded, and the fetches that run, stay.
    pub open spec fn without_symbol(self) -> Panel {
        Panel {
            state: PanelState::NoSymbol,
            root: None,
            nodes: Seq::empty(),
            entries: Seq::empty(),
            ..self
        }
    }

    /// Waiting for a new root: the tree, what was expanded and the fetches of
    /// children are dropped, and a new fetch of the root takes the place of an
    /// earlier one.
    pub open spec fn awaiting_root(self) -> Panel {
        Panel {
            state: PanelState::Loading,
            nodes: Seq::empty(),
            entries: Seq::empty(),
            expanded: Set::empty(),
            child_tasks: Map::empty(),
            root_task: Some(self.next_task),
            next_task: following(self.next_task),
            ..self
        }
    }

    /// Asked for the symbol at `position`, where the editor has one.
    pub open spec fn shown_for(self, position: Option<(u64, Anchor)>) -> Panel {
        if position is Some {
            self.awaiting_root()
        } else {
            self.without_symbol()
        }
    }

    /// Following calls in the direction `mode`: the root is fetched again where
    /// there is one and the direction is new.
    pub open spec fn in_mode(self, mode: CallHierarchyMode) -> Panel {
        if self.mode == mode {
            self
        } else if self.root is None {
            Panel { mode, ..self }
        } else {
            Panel { mode, ..self }.awaiting_root()
        }
    }

    /// The panel waits for the fetch of the root with number `task`: it has
    /// neither ended nor been dropped.
    pub open spec fn awaits_root(self, task: u64) -> bool {
        self.root_task == Some(task)
    }

    /// The panel waits for the fetch with number `task` of the children at
    /// `path`.
    pub open spec fn awaits_children(self, path: Seq<usize>, task: u64) -> bool {
        self.child_tasks.contains_key(path) && self.child_tasks[path] == task
    }

    /// Fetching the children at `path`, where there is a tree.
    pub open spec fn loading_at(self, path: Seq<usize>) -> Panel {
        if tree_at(self.nodes, path) is None {
            self
        } else {
            Panel {
                nodes: with_children_at(self.nodes, path, Branches::Loading),
                child_tasks: self.child_tasks.insert(path, self.next_task),
                next_task: following(self.next_task),
                ..self
            }.refreshed()
        }
    }

    /// Expanded at `path`, and fetching the children there.
    pub open spec fn opened_at(self, path: Seq<usize>) -> Panel {
        Panel { expanded: self.expanded.insert(path), ..self }.loading_at(path)
    }

    /// With the first `count` children of the root opened that have not been
    /// asked for.
    pub open spec fn opened_below_root(self, count: nat) -> Panel
        decreases count,
    {
        if count == 0 {
            self
        } else {
            let earlier = self.opened_below_root((count - 1) as nat);
            let path = seq![0usize, (count - 1) as usize];
            if is_unloaded(earlier.nodes, path) {
                earlier.opened_at(path)
            } else {
                earlier
            }
        }
    }

    /// The fetches that opening those children starts, in order.
    pub open spec fn loads_below_root(self, count: nat) -> Seq<Load>
        decreases count,
    {
        if count == 0 {
            Seq::empty()
        } else {
            let earlier = self.opened_below_root((count - 1) as nat);
            let path = seq![0usize, (count - 1) as usize];
            let loads = self.loads_below_root((count - 1) as nat);
            if is_unloaded(earlier.nodes, path) {
                loads.push(earlier.load_at(path))
            } else {
                loads
            }
        }
    }

    /// The fetch of the children at `path`.
    pub open spec fn load_at(self, path: Seq<usize>) -> Load {
        Load {
            task: self.next_task,
            path,
            item: tree_at(self.nodes, path).unwrap().call.item,
            mode: self.mode,
        }
    }

    /// How many children of the root are opened: all, unless they are more
    /// than `limit` or have not been fetched.
    pub open spec fn auto_expand_count(self, limit: nat) -> nat {
        if self.nodes.len() == 0 {
            0
        } else {
            match self.nodes[0].children {
                Branches::Loaded(children) => if children.len() <= limit {
                    children.len()
                } else {
                    0
                },
                _ => 0,
            }
        }
    }

    /// With the root's children opened, unless they are more than `limit`.
    pub open spec fn auto_expanded(self, limit: nat) -> Panel {
        self.opened_below_root(self.auto_expand_count(limit))
    }

    /// Showing `root_call` with `calls` below it, none of them opened.
    pub open spec fn with_root(self, root_call: Call, calls: Seq<Call>) -> Panel {
        let root = Tree {
            call: root_call,
            key: NodeKey::for_item(&root_call.item),
            children: Branches::Loaded(fresh_trees(calls)),
        };
        Panel {
            nodes: seq![root],
            expanded: self.expanded.insert(seq![0usize]),
            state: PanelState::Ready,
            ..self
        }.refreshed()
    }

    /// Showing `root_call` with `calls` below it, opened unless they are more
    /// than `limit`.
    pub open spec fn with_root_calls(self, root_call: Call, calls: Seq<Call>, limit: nat) -> Panel {
        self.with_root(root_call, calls).auto_expanded(limit)
    }

    /// Told which symbol the fetch `task` found. Without one the fetch ends.
    pub open spec fn prepared(self, task: u64, found: Option<CallHierarchyItem>) -> Panel {
        if self.awaits_root(task) && found is None {
            Panel { root_task: None, ..self.without_symbol() }
        } else {
            self
        }
    }

    /// No longer waiting for its root, which is `root` where that is given.
    pub open spec fn rooted(self, root: Option<CallHierarchyItem>) -> Panel {
        Panel {
            root: if root is Some {
                root
            } else {
                self.root
            },
            root_task: None,
            ..self
        }
    }

    /// Given what the fetch `task` of the root brought. `root` is the symbol,
    /// where it is a new one.
    pub open spec fn root_arrived(
        self,
        task: u64,
        root: Option<CallHierarchyItem>,
        root_call: Call,
        calls: Seq<Call>,
        limit: nat,
    ) -> Panel {
        if self.awaits_root(task) {
            self.rooted(root).with_root_calls(root_call, calls, limit)
        } else {
            self
        }
    }

    /// Given what the fetch `task` of the children at `path` brought.
    pub open spec fn children_arrived(
        self,
        path: Seq<usize>,
        task: u64,
        calls: Seq<Call>,
    ) -> Panel {
        if self.awaits_children(path, task) {
            Panel {
                nodes: with_children_at(self.nodes, path, Branches::Loaded(fresh_trees(calls))),
                child_tasks: self.child_tasks.remove(path),
                ..self
            }.refreshed()
        } else {
            self
        }
    }

    /// Collapsed at row `index` where it was expanded, and expanded where it
    /// was not. Recursive rows stay as they are.
    pub open spec fn toggled(self, index: int) -> Panel {
        if !(0 <= index < self.entries.len()) || self.entries[index].recursive {
            self
        } else {
            let path = self.entries[index].path;
            if self.expanded.contains(path) {
                Panel { expanded: self.expanded.remove(path), ..self }.refreshed()
            } else if is_unloaded(self.nodes, path) {
                self.opened_at(path)
            } else {
                Panel { expanded: self.expanded.insert(path), ..self }.refreshed()
            }
        }
    }
}

/// Something that happens to the panel.
pub enum Event {
    ShowForEditor { position: Option<(u64, Anchor)> },
    SetNoSymbol,
    SetMode { mode: CallHierarchyMode },
    RootPrepared { task: u64, found: Option<CallHierarchyItem> },
    RootLoaded {
        task: u64,
        root: Option<CallHierarchyItem>,
        root_call: Call,
        calls: Seq<Call>,
        limit: nat,
    },
    ChildrenLoaded { path: Seq<usize>, task: u64, calls: Seq<Call> },
    ToggleExpanded { index: int },
}

impl Event {
    /// The calls that come with the event can be counted in `usize`, as those
    /// of a `Vec` can.
    pub open spec fn is_countable(self) -> bool {
        match self {
            Event::RootLoaded { calls, .. } => calls.len() <= usize::MAX,
            Event::ChildrenLoaded { calls, .. } => calls.len() <= usize::MAX,
            _ => true,
        }
    }
}

impl Panel {
    /// The panel after an event.
    pub open spec fn after(self, event: Event) -> Panel {
        match event {
            Event::ShowForEditor { position } => self.shown_for(position),
            Event::SetNoSymbol => self.without_symbol(),
            Event::SetMode { mode } => self.in_mode(mode),
            Event::RootPrepared { task, found } => self.prepared(task, found),
            Event::RootLoaded { task, root, root_call, calls, limit } => self.root_arrived(
                task,
                root,
                root_call,
                calls,
                limit,
            ),
            Event::ChildrenLoaded { path, task, calls } => self.children_arrived(
                path,
                task,
                calls,
            ),
            Event::ToggleExpanded { index } => self.toggled(index),
        }
    }

    /// The panel after events, one after another.
    pub open spec fn after_all(self, events: Seq<Event>) -> Panel
        decreases events.len(),
    {
        if events.len() == 0 {
            self
        } else {
            self.after_all(events.drop_last()).after(events.last())
        }
    }

    /// What holds of every panel.
    pub open spec fn wf(self) -> bool {
        &&& self.entries == panel_rows(self.nodes, self.expanded)
        &&& self.state_wf()
        &&& self.tree_wf()
        &&& self.tasks_wf()
    }

    /// There is a tree, of one root whose calls have arrived, exactly when the
    /// panel is ready. Then the widest row is known, and no root is awaited. A
    /// panel that says that it is loading waits for its root.
    pub open spec fn state_wf(self) -> bool {
        &&& match self.state {
            PanelState::Empty => self.nodes.len() == 0 && self.root_task is None,
            PanelState::Loading => self.nodes.len() == 0 && self.root_task is Some,
            PanelState::NoSymbol => self.nodes.len() == 0,
            PanelState::Ready => {
                &&& self.nodes.len() == 1
                &&& self.nodes[0].children is Loaded
                &&& self.root_task is None
                &&& self.widest_entry_index == widest_row(self.nodes, self.entries)
            },
        }
        &&& self.root_task is Some ==> self.child_tasks == Map::<Seq<usize>, u64>::empty()
            && self.expanded == Set::<Seq<usize>>::empty()
    }

    /// Every node carries the key of its symbol, and says that it is loading
    /// exactly if the panel waits for its calls. In a tree that is shown, what
    /// is expanded has been asked for its calls.
    pub open spec fn tree_wf(self) -> bool {
        &&& is_countable(self.nodes)
        &&& forall|path: Seq<usize>|
            #![trigger tree_at(self.nodes, path)]
            tree_at(self.nodes, path) matches Some(tree) ==> {
                &&& tree.key == NodeKey::for_item(&tree.call.item)
                &&& tree.children is Loading ==> self.child_tasks.contains_key(path)
            }
        &&& self.state is Ready ==> forall|path: Seq<usize>| #[trigger]
            self.child_tasks.contains_key(path) ==> self.is_loading(path)
        &&& self.state is Ready ==> forall|path: Seq<usize>| #[trigger]
            self.expanded.contains(path) ==> self.is_asked(path)
    }

    /// There is a tree at `path` whose calls are being fetched.
    pub open spec fn is_loading(self, path: Seq<usize>) -> bool {
        tree_at(self.nodes, path) matches Some(tree) && tree.children is Loading
    }

    /// There is a tree at `path` whose calls have been asked for.
    pub open spec fn is_asked(self, path: Seq<usize>) -> bool {
        tree_at(self.nodes, path) matches Some(tree) && !(tree.children is NotLoaded)
    }

    /// No fetch has a number that is yet to be given.
    pub open spec fn tasks_wf(self) -> bool {
        &&& self.root_task matches Some(task) ==> self.is_given(task)
        &&& forall|path: Seq<usize>| #[trigger]
            self.child_tasks.contains_key(path) ==> self.is_given(self.child_tasks[path])
    }

    /// The number has been given to a fetch. The last number there is may be
    /// given again.
    pub open spec fn is_given(self, task: u64) -> bool {
        task < self.next_task || self.next_task == u64::MAX
    }

    /// The panel waits for the fetch `task`.
    pub open spec fn awaits(self, task: u64) -> bool {
        self.awaits_root(task) || exists|path: Seq<usize>| #[trigger]
            self.awaits_children(path, task)
    }
}

} // verus!
