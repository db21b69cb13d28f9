//! The panel: its state, and what each event asks of the program around it.
//!
//! A fetch is started by a request that a method returns. What the fetch
//! brings comes back together with the request. The panel keeps the numbers of
//! the fetches that it waits for; one whose number it no longer keeps has been
//! dropped, and what it brings changes nothing.

use crate::laws::{law_every_event_keeps_the_panel_well_formed, law_every_panel_is_well_formed};
use crate::model::{following, is_unloaded, Event, Load, Panel, PanelState};
use crate::paths::{copy_path, KeySet, PathSet, TaskMap};
use crate::rows::{rows_of, FlatEntry};
use crate::steps::{
    law_arriving_calls_become_children, law_requests_for_the_first_level,
    law_toggling_changes_one_place, law_toggling_flips_the_row, lemma_opening_keeps_the_root,
};
use crate::symbol::{Anchor, Call, CallHierarchyItem, CallHierarchyMode};
use crate::tree::{
    forest, lemma_forest, new_nodes, tree_at, Branches, ChildState, Node, Tree,
};
use vstd::prelude::*;

verus! {

/// The call hierarchy panel.
#[derive(Debug)]
pub struct CallHierarchyPanel {
    mode: CallHierarchyMode,
    root: Option<CallHierarchyItem>,
    nodes: Vec<Node>,
    entries: Vec<FlatEntry>,
    /// Keyed by position in the tree, not by symbol: one function can appear at
    /// several places in the hierarchy, and expanding one occurrence must not
    /// expand or collapse the others.
    expanded: PathSet,
    state: PanelState,
    widest_entry_index: Option<usize>,
    root_task: Option<u64>,
    child_tasks: TaskMap,
    next_task: u64,
}

/// Asks for the symbols at a place in a buffer.
#[derive(Debug)]
pub struct PrepareRequest {
    pub task: u64,
    pub buffer: u64,
    pub position: Anchor,
    /// The direction in which calls are to be fetched for the symbol found.
    pub mode: CallHierarchyMode,
}

/// Asks for the calls of a root symbol, and for the symbol as a call.
#[derive(Debug)]
pub struct RootRequest {
    pub task: u64,
    pub item: CallHierarchyItem,
    pub mode: CallHierarchyMode,
    /// Whether the symbol becomes the panel's root when the calls arrive.
    pub becomes_root: bool,
}

/// Asks for the calls of the symbol at a place in the tree.
#[derive(Debug)]
pub struct LoadRequest {
    pub task: u64,
    pub path: Vec<usize>,
    pub item: CallHierarchyItem,
    pub mode: CallHierarchyMode,
}

/// What follows from the symbols found at a place.
#[derive(Debug)]
pub enum Prepared {
    /// The fetch had been dropped.
    Dropped,
    /// No symbol was found, and the panel says so.
    NoSymbol,
    /// The calls of the first symbol are to be fetched.
    Fetch(RootRequest),
}

/// What follows from a choice of direction.
#[derive(Debug)]
pub enum ModeChange {
    /// It is the direction already followed.
    Unchanged,
    /// There is no root to fetch calls for. The panel is to be drawn again.
    Switched,
    /// The calls of the root are to be fetched, and the panel drawn again.
    Reload(RootRequest),
}

/// What follows from a click on a row's disclosure.
#[derive(Debug)]
pub enum Toggled {
    /// There is no such row, or it is recursive.
    Ignored,
    /// The panel is to be drawn again.
    Redraw,
    /// Calls are to be fetched, and the panel drawn again.
    Load(LoadRequest),
}

impl View for LoadRequest {
    type V = Load;

    open spec fn view(&self) -> Load {
        Load { task: self.task, path: self.path@, item: self.item, mode: self.mode }
    }
}

impl RootRequest {
    /// The symbol that becomes the panel's root.
    pub open spec fn new_root(&self) -> Option<CallHierarchyItem> {
        if self.becomes_root {
            Some(self.item)
        } else {
            None
        }
    }
}

/// The fetches that a list of requests asks for.
pub open spec fn loads_of(requests: Seq<LoadRequest>) -> Seq<Load> {
    requests.map_values(|request: LoadRequest| request@)
}

impl View for CallHierarchyPanel {
    type V = Panel;

    closed spec fn view(&self) -> Panel {
        Panel {
            mode: self.mode,
            root: self.root,
            nodes: forest(self.nodes@),
            entries: rows_of(self.entries@),
            expanded: self.expanded@,
            state: self.state,
            widest_entry_index: match self.widest_entry_index {
                Some(index) => Some(index as int),
                None => None,
            },
            root_task: self.root_task,
            child_tasks: self.child_tasks@,
            next_task: self.next_task,
        }
    }
}

impl CallHierarchyPanel {
    /// A panel that has not been asked for anything.
    pub fn new() -> (panel: Self)
        ensures
            panel@ == Panel::initial(),
            panel@.wf(),
            panel@.state is Empty,
            panel@.mode is Incoming,
            panel@.root is None,
            panel@.entries.len() == 0,
            panel@.nodes.len() == 0,
    {
        broadcast use lemma_forest;

        let panel = CallHierarchyPanel {
            mode: CallHierarchyMode::Incoming,
            root: None,
            nodes: Vec::new(),
            entries: Vec::new(),
            expanded: PathSet::new(),
            state: PanelState::Empty,
            widest_entry_index: None,
            root_task: None,
            child_tasks: TaskMap::new(),
            next_task: 0,
        };
        assert(panel@.entries =~= Seq::empty());
        proof {
            law_every_panel_is_well_formed(Seq::empty());
        }
        panel
    }

    /// The direction in which calls are followed.
    pub fn mode(&self) -> (mode: CallHierarchyMode)
        ensures
            mode == self@.mode,
    {
        self.mode
    }

    /// What the panel has to show.
    pub fn state(&self) -> (state: PanelState)
        ensures
            state == self@.state,
    {
        self.state
    }

    /// The symbol whose calls are shown.
    pub fn root(&self) -> (root: Option<&CallHierarchyItem>)
        ensures
            match root {
                Some(item) => self@.root == Some(*item),
                None => self@.root is None,
            },
    {
        self.root.as_ref()
    }

    /// The rows, from top to bottom.
    pub fn entries(&self) -> (entries: &[FlatEntry])
        ensures
            rows_of(entries@) == self@.entries,
            entries@.len() == self@.entries.len(),
            forall|i: int|
                0 <= i < entries@.len() ==> {
                    &&& (#[trigger] entries@[i]).path@ == self@.entries[i].path
                    &&& entries@[i].depth == self@.entries[i].depth
                    &&& entries@[i].expanded == self@.entries[i].expanded
                    &&& entries@[i].recursive == self@.entries[i].recursive
                    &&& entries@[i].loading == self@.entries[i].loading
                },
    {
        self.entries.as_slice()
    }

    /// The nodes at the top of the tree.
    pub(crate) fn nodes(&self) -> (nodes: &[Node])
        ensures
            forest(nodes@) == self@.nodes,
    {
        self.nodes.as_slice()
    }

    /// The widest row.
    pub(crate) fn widest_entry_index(&self) -> (index: Option<usize>)
        ensures
            match index {
                Some(index) => self@.widest_entry_index == Some(index as int),
                None => self@.widest_entry_index is None,
            },
    {
        self.widest_entry_index
    }

    /// Takes the number of the next fetch.
    fn start_task(&mut self) -> (task: u64)
        ensures
            task == old(self)@.next_task,
            final(self)@ == (Panel { next_task: following(task), ..old(self)@ }),
    {
        let task: u64 = self.next_task;
        if task < u64::MAX {
            self.next_task = task + 1;
        }
        task
    }

    /// Makes the rows from the tree again, and finds the widest.
    pub(crate) fn rebuild_entries(&mut self)
        ensures
            final(self)@ == old(self)@.refreshed(),
    {
        let mut entries: Vec<FlatEntry> = Vec::new();
        let mut path: Vec<usize> = Vec::new();
        let mut ancestors = KeySet::new();
        Self::flatten(
            self.nodes.as_slice(),
            &mut path,
            0,
            &self.expanded,
            &mut ancestors,
            &mut entries,
        );
        self.entries = entries;
        assert(rows_of(self.entries@) =~= old(self)@.refreshed().entries);
        self.widest_entry_index = Self::widest_entry(
            self.nodes.as_slice(),
            self.entries.as_slice(),
        );
    }

    /// Shows that there is no symbol. What was expanded, and the fetches that
    /// run, stay as they are.
    pub fn set_no_symbol(&mut self)
        ensures
            old(self)@.wf() ==> final(self)@.wf(),
            final(self)@ == old(self)@.without_symbol(),
            final(self)@.state is NoSymbol,
            final(self)@.root is None,
            final(self)@.nodes.len() == 0,
            final(self)@.entries.len() == 0,
            final(self)@.mode == old(self)@.mode,
            final(self)@.root_task == old(self)@.root_task,
            final(self)@.child_tasks == old(self)@.child_tasks,
    {
        proof {
            if self@.wf() {
                law_every_event_keeps_the_panel_well_formed(self@, Event::SetNoSymbol);
            }
        }
        broadcast use lemma_forest;

        self.state = PanelState::NoSymbol;
        self.root = None;
        self.nodes.clear();
        self.entries.clear();
        assert(self@.entries =~= Seq::empty());
    }

    /// Drops the tree and starts a new fetch of the root.
    fn await_root(&mut self) -> (task: u64)
        ensures
            task == old(self)@.next_task,
            final(self)@ == old(self)@.awaiting_root(),
    {
        broadcast use lemma_forest;

        self.state = PanelState::Loading;
        self.nodes.clear();
        self.entries.clear();
        self.expanded.clear();
        self.child_tasks.clear();
        let task: u64 = self.start_task();
        self.root_task = Some(task);
        assert(self@.entries =~= Seq::empty());
        task
    }

    /// Starts the tree of the symbol at `position`, a buffer and a place in it,
    /// or shows that there is none. The panel is to be drawn again.
    pub fn show_for_editor(&mut self, position: Option<(u64, Anchor)>) -> (request: Option<
        PrepareRequest,
    >)
        ensures
            old(self)@.wf() ==> final(self)@.wf(),
            final(self)@ == old(self)@.shown_for(position),
            match position {
                Some((buffer, anchor)) => request == Some(
                    PrepareRequest {
                        task: old(self)@.next_task,
                        buffer,
                        position: anchor,
                        mode: old(self)@.mode,
                    },
                ),
                None => request is None,
            },
            final(self)@.mode == old(self)@.mode,
            final(self)@.nodes.len() == 0,
            final(self)@.entries.len() == 0,
            position is None ==> final(self)@.state is NoSymbol && final(self)@.root is None,
            request matches Some(prepare) ==> {
                &&& final(self)@.state is Loading
                &&& final(self)@.root == old(self)@.root
                &&& final(self)@.root_task == Some(prepare.task)
            },
    {
        proof {
            if self@.wf() {
                law_every_event_keeps_the_panel_well_formed(
                    self@,
                    Event::ShowForEditor { position },
                );
            }
        }
        match position {
            None => {
                self.set_no_symbol();
                None
            },
            Some((buffer, anchor)) => {
                let task: u64 = self.await_root();
                Some(PrepareRequest { task, buffer, position: anchor, mode: self.mode })
            },
        }
    }

    /// Chooses the direction in which calls are followed.
    pub fn set_mode(&mut self, mode: CallHierarchyMode) -> (change: ModeChange)
        ensures
            old(self)@.wf() ==> final(self)@.wf(),
            final(self)@ == old(self)@.in_mode(mode),
            match change {
                ModeChange::Unchanged => mode == old(self)@.mode,
                ModeChange::Switched => mode != old(self)@.mode && old(self)@.root is None,
                ModeChange::Reload(request) => {
                    &&& mode != old(self)@.mode
                    &&& old(self)@.root == Some(request.item)
                    &&& request.task == old(self)@.next_task
                    &&& request.mode == mode
                    &&& !request.becomes_root
                },
            },
            final(self)@.mode == mode,
            final(self)@.root == old(self)@.root,
            mode != old(self)@.mode && old(self)@.root is Some ==> {
                &&& change matches ModeChange::Reload(request) && final(self)@.root_task == Some(
                    request.task,
                )
                &&& final(self)@.state is Loading
                &&& final(self)@.nodes.len() == 0
                &&& final(self)@.entries.len() == 0
            },
            mode == old(self)@.mode ==> final(self)@ == old(self)@,
    {
        proof {
            if self@.wf() {
                law_every_event_keeps_the_panel_well_formed(self@, Event::SetMode { mode });
            }
        }
        if self.mode == mode {
            return ModeChange::Unchanged;
        }
        self.mode = mode;
        let item = match &self.root {
            Some(root) => root.clone(),
            None => {
                return ModeChange::Switched;
            },
        };
        let task: u64 = self.await_root();
        ModeChange::Reload(RootRequest { task, item, mode, becomes_root: false })
    }

    /// Follows calls in the other direction.
    pub fn toggle_direction(&mut self) -> (change: ModeChange)
        ensures
            old(self)@.wf() ==> final(self)@.wf(),
            final(self)@ == old(self)@.in_mode(old(self)@.mode.opposite()),
            match change {
                ModeChange::Unchanged => false,
                ModeChange::Switched => old(self)@.root is None,
                ModeChange::Reload(request) => {
                    &&& old(self)@.root == Some(request.item)
                    &&& request.task == old(self)@.next_task
                    &&& request.mode == old(self)@.mode.opposite()
                    &&& !request.becomes_root
                },
            },
            final(self)@.mode != old(self)@.mode,
            old(self)@.root is Some ==> {
                &&& change matches ModeChange::Reload(request) && final(self)@.root_task == Some(
                    request.task,
                )
                &&& final(self)@.state is Loading
                &&& final(self)@.nodes.len() == 0
                &&& final(self)@.entries.len() == 0
            },
    {
        let mode = self.mode.opposite();
        self.set_mode(mode)
    }

    /// Starts to fetch the calls at `path`. Where there is a node, it is marked,
    /// and the panel is to be drawn again.
    pub(crate) fn load_children(&mut self, path: Vec<usize>) -> (request: Option<LoadRequest>)
        ensures
            final(self)@ == old(self)@.loading_at(path@),
            match request {
                Some(load) => tree_at(old(self)@.nodes, path@) is Some && load@ == old(
                    self,
                )@.load_at(path@),
                None => tree_at(old(self)@.nodes, path@) is None,
            },
    {
        broadcast use lemma_forest;

        let mut found: Option<CallHierarchyItem> = None;
        if let Some(node) = Self::node_at_mut(self.nodes.as_mut_slice(), path.as_slice()) {
            node.children = ChildState::Loading;
            found = Some(node.call.item.clone());
        }
        match found {
            None => None,
            Some(item) => {
                let mode = self.mode;
                let task: u64 = self.start_task();
                self.child_tasks.insert(copy_path(&path), task);
                self.rebuild_entries();
                Some(LoadRequest { task, path, item, mode })
            },
        }
    }

    /// Whether the children of the node at `path` have not been asked for.
    fn needs_load(&self, path: &[usize]) -> (unloaded: bool)
        ensures
            unloaded == is_unloaded(self@.nodes, path@),
    {
        match Self::node_at(self.nodes.as_slice(), path) {
            Some(node) => match node.children {
                ChildState::NotLoaded => true,
                _ => false,
            },
            None => false,
        }
    }

    /// Collapses row `index` where it is expanded, and expands it where it is
    /// not, fetching its calls the first time.
    pub fn toggle_expanded(&mut self, index: usize) -> (toggled: Toggled)
        ensures
            old(self)@.wf() ==> final(self)@.wf(),
            final(self)@ == old(self)@.toggled(index as int),
            match toggled {
                Toggled::Ignored => index >= old(self)@.entries.len() || old(
                    self,
                )@.entries[index as int].recursive,
                Toggled::Redraw => {
                    &&& index < old(self)@.entries.len()
                    &&& !old(self)@.entries[index as int].recursive
                    &&& old(self)@.expanded.contains(old(self)@.entries[index as int].path)
                        || !is_unloaded(old(self)@.nodes, old(self)@.entries[index as int].path)
                },
                Toggled::Load(request) => {
                    &&& index < old(self)@.entries.len()
                    &&& !old(self)@.entries[index as int].recursive
                    &&& !old(self)@.expanded.contains(old(self)@.entries[index as int].path)
                    &&& is_unloaded(old(self)@.nodes, old(self)@.entries[index as int].path)
                    &&& request@ == old(self)@.load_at(old(self)@.entries[index as int].path)
                },
            },
            !(toggled is Ignored) ==> {
                let path = old(self)@.entries[index as int].path;
                &&& final(self)@.expanded.contains(path) == !old(self)@.expanded.contains(path)
                &&& forall|other: Seq<usize>|
                    other != path ==> #[trigger] final(self)@.expanded.contains(other) == old(
                        self,
                    )@.expanded.contains(other)
            },
            toggled is Ignored ==> final(self)@ == old(self)@,
            old(self)@.wf() && !(toggled is Ignored) ==> {
                &&& index < final(self)@.entries.len()
                &&& final(self)@.entries[index as int].path == old(
                    self,
                )@.entries[index as int].path
                &&& final(self)@.entries[index as int].expanded == !old(
                    self,
                )@.entries[index as int].expanded
            },
            toggled matches Toggled::Load(request) ==> {
                &&& request.path@ == old(self)@.entries[index as int].path
                &&& tree_at(old(self)@.nodes, request.path@) matches Some(tree) && request.item
                    == tree.call.item
                &&& request.mode == old(self)@.mode
                &&& final(self)@.child_tasks.contains_key(request.path@)
                &&& final(self)@.child_tasks[request.path@] == request.task
            },
    {
        proof {
            if index < self@.entries.len() && !self@.entries[index as int].recursive {
                law_toggling_changes_one_place(self@, index as int);
                if self@.wf() {
                    law_toggling_flips_the_row(self@, index as int);
                }
            }
        }
        proof {
            if self@.wf() {
                law_every_event_keeps_the_panel_well_formed(
                    self@,
                    Event::ToggleExpanded { index: index as int },
                );
            }
        }
        if index >= self.entries.len() {
            return Toggled::Ignored;
        }
        let entry = &self.entries[index];
        assert(entry@ == self@.entries[index as int]);
        if entry.recursive {
            return Toggled::Ignored;
        }
        let path = copy_path(&entry.path);
        if self.expanded.remove(path.as_slice()) {
            self.rebuild_entries();
            return Toggled::Redraw;
        }
        assert(old(self)@.expanded.remove(path@) =~= old(self)@.expanded);
        self.expanded.insert(copy_path(&path));
        if self.needs_load(path.as_slice()) {
            match self.load_children(path) {
                Some(request) => Toggled::Load(request),
                None => Toggled::Redraw,
            }
        } else {
            self.rebuild_entries();
            Toggled::Redraw
        }
    }

    /// Expands the first level up front, so that empty branches show without a
    /// click on each row: only asking tells whether a symbol has calls. At most
    /// `limit` are asked for, as each costs a request.
    pub(crate) fn auto_expand_first_level(&mut self, limit: usize) -> (requests: Vec<LoadRequest>)
        ensures
            final(self)@ == old(self)@.auto_expanded(limit as nat),
            loads_of(requests@) == old(self)@.loads_below_root(
                old(self)@.auto_expand_count(limit as nat),
            ),
    {
        broadcast use lemma_forest;

        let mut requests: Vec<LoadRequest> = Vec::new();
        assert(loads_of(requests@) =~= Seq::empty());
        if self.nodes.len() == 0 {
            return requests;
        }
        assert(self@.nodes[0] == self.nodes@[0]@);
        assert(self@.nodes[0].children == self.nodes@[0].children@);
        let child_count: usize = match &self.nodes[0].children {
            ChildState::Loaded(children) => {
                assert(self@.nodes[0].children == Branches::Loaded(forest(children@)));
                children.len()
            },
            _ => {
                return requests;
            },
        };
        assert(self@.nodes[0].children->Loaded_0.len() == child_count);
        if limit == 0 || child_count > limit {
            return requests;
        }
        let mut index: usize = 0;
        while index < child_count
            invariant
                index <= child_count,
                self@ == old(self)@.opened_below_root(index as nat),
                loads_of(requests@) == old(self)@.loads_below_root(index as nat),
            decreases child_count - index,
        {
            let path: Vec<usize> = vec![0, index];
            assert(path@ =~= seq![0usize, index]);
            if self.needs_load(path.as_slice()) {
                self.expanded.insert(copy_path(&path));
                if let Some(request) = self.load_children(path) {
                    let ghost earlier = requests@;
                    requests.push(request);
                    assert(loads_of(requests@) =~= loads_of(earlier).push(request@));
                }
            }
            index += 1;
        }
        requests
    }

    /// Shows `root_call` with `calls` below it. The root is an ordinary node at
    /// the top of the tree, so that its row is like every other. The panel is to
    /// be drawn again.
    pub(crate) fn set_root_calls(&mut self, root_call: Call, calls: Vec<Call>, limit: usize) -> (requests:
        Vec<LoadRequest>)
        ensures
            final(self)@ == old(self)@.with_root_calls(root_call, calls@, limit as nat),
            loads_of(requests@) == old(self)@.with_root(root_call, calls@).loads_below_root(
                old(self)@.with_root(root_call, calls@).auto_expand_count(limit as nat),
            ),
    {
        broadcast use lemma_forest;

        let mut root_node = Node::new(root_call);
        root_node.children = ChildState::Loaded(new_nodes(calls));
        let ghost tree = root_node@;
        self.nodes = vec![root_node];
        assert(forest(self.nodes@) =~= seq![tree]);
        let top: Vec<usize> = vec![0];
        assert(top@ =~= seq![0usize]);
        self.expanded.insert(top);
        self.state = PanelState::Ready;
        self.rebuild_entries();
        self.auto_expand_first_level(limit)
    }

    /// Takes the symbols that were found for `request`, or that none could be
    /// asked for. Only the first one found counts.
    pub fn root_prepared(
        &mut self,
        request: PrepareRequest,
        items: Result<Option<Vec<CallHierarchyItem>>, ()>,
    ) -> (prepared: Prepared)
        ensures
            old(self)@.wf() ==> final(self)@.wf(),
            final(self)@ == old(self)@.prepared(request.task, first_item(items)),
            match prepared {
                Prepared::Dropped => !old(self)@.awaits_root(request.task),
                Prepared::NoSymbol => old(self)@.awaits_root(request.task) && first_item(
                    items,
                ) is None,
                Prepared::Fetch(root) => {
                    &&& old(self)@.awaits_root(request.task)
                    &&& first_item(items) == Some(root.item)
                    &&& root.task == request.task
                    &&& root.mode == request.mode
                    &&& root.becomes_root
                },
            },
            old(self)@.root_task == Some(request.task) ==> match items {
                Ok(Some(found)) => found@.len() > 0 ==> (prepared matches Prepared::Fetch(root)
                    && root.item == found@[0]),
                _ => prepared is NoSymbol,
            },
            (items matches Ok(Some(found)) && found@.len() == 0) ==> !(prepared is Fetch),
            !(prepared is NoSymbol) ==> final(self)@ == old(self)@,
            prepared is NoSymbol ==> {
                &&& final(self)@.state is NoSymbol
                &&& final(self)@.root is None
                &&& final(self)@.root_task is None
                &&& final(self)@.nodes.len() == 0
                &&& final(self)@.entries.len() == 0
            },
    {
        proof {
            if self@.wf() {
                law_every_event_keeps_the_panel_well_formed(
                    self@,
                    Event::RootPrepared { task: request.task, found: first_item(items) },
                );
            }
        }
        let awaited = match self.root_task {
            Some(task) => task == request.task,
            None => false,
        };
        if !awaited {
            return Prepared::Dropped;
        }
        if let Ok(Some(found)) = items {
            if found.len() > 0 {
                let mut found = found;
                let item = found.remove(0);
                return Prepared::Fetch(
                    RootRequest {
                        task: request.task,
                        item,
                        mode: request.mode,
                        becomes_root: true,
                    },
                );
            }
        }
        self.set_no_symbol();
        self.root_task = None;
        Prepared::NoSymbol
    }

    /// Takes the calls that were fetched for `request`, and the root as a call.
    /// Returns the fetches that follow, or nothing where the fetch had been
    /// dropped. Otherwise the panel is to be drawn again.
    pub fn root_loaded(
        &mut self,
        request: RootRequest,
        root_call: Call,
        calls: Vec<Call>,
        limit: usize,
    ) -> (requests: Option<Vec<LoadRequest>>)
        ensures
            old(self)@.wf() ==> final(self)@.wf(),
            final(self)@ == old(self)@.root_arrived(
                request.task,
                request.new_root(),
                root_call,
                calls@,
                limit as nat,
            ),
            match requests {
                Some(list) => {
                    let shown = old(self)@.rooted(request.new_root()).with_root(
                        root_call,
                        calls@,
                    );
                    &&& old(self)@.awaits_root(request.task)
                    &&& loads_of(list@) == shown.loads_below_root(
                        shown.auto_expand_count(limit as nat),
                    )
                },
                None => !old(self)@.awaits_root(request.task),
            },
            requests is Some <==> old(self)@.root_task == Some(request.task),
            requests is None ==> final(self)@ == old(self)@,
            requests is Some && request.becomes_root ==> final(self)@.root == Some(request.item),
            requests is Some && !request.becomes_root ==> final(self)@.root == old(self)@.root,
            old(self)@.wf() && requests is Some ==> {
                &&& final(self)@.state is Ready
                &&& final(self)@.mode == old(self)@.mode
                &&& final(self)@.entries.len() == calls@.len() + 1
                &&& calls@.len() > limit ==> requests->0@.len() == 0
                &&& calls@.len() <= limit ==> requests->0@.len() == calls@.len()
                &&& forall|i: int|
                    0 <= i < requests->0@.len() ==> {
                        let load = #[trigger] requests->0@[i];
                        &&& load.path@ == seq![0usize, i as usize]
                        &&& load.item == calls@[i].item
                        &&& load.mode == old(self)@.mode
                        &&& final(self)@.child_tasks.contains_key(load.path@)
                        &&& final(self)@.child_tasks[load.path@] == load.task
                    }
            },
    {
        proof {
            if self@.wf() {
                assert(calls.len() <= usize::MAX);
                law_every_event_keeps_the_panel_well_formed(
                    self@,
                    Event::RootLoaded {
                        task: request.task,
                        root: request.new_root(),
                        root_call,
                        calls: calls@,
                        limit: limit as nat,
                    },
                );
            }
        }
        let awaited = match self.root_task {
            Some(task) => task == request.task,
            None => false,
        };
        if !awaited {
            return None;
        }
        self.root_task = None;
        if request.becomes_root {
            self.root = Some(request.item);
        }
        let ghost given = calls@;
        let requests = self.set_root_calls(root_call, calls, limit);
        proof {
            lemma_opening_keeps_the_root(
                old(self)@.rooted(request.new_root()).with_root(root_call, given),
                old(self)@.rooted(request.new_root()).with_root(
                    root_call,
                    given,
                ).auto_expand_count(limit as nat),
            );
            if old(self)@.wf() {
                assert(given.len() <= usize::MAX);
                law_requests_for_the_first_level(
                    old(self)@,
                    request.task,
                    request.new_root(),
                    root_call,
                    given,
                    limit as nat,
                    requests@,
                );
            }
        }
        Some(requests)
    }

    /// Takes the calls that were fetched for `request`. Says whether the panel
    /// is to be drawn again: it is unless the fetch had been dropped.
    pub fn children_loaded(&mut self, request: LoadRequest, calls: Vec<Call>) -> (redraw: bool)
        ensures
            old(self)@.wf() ==> final(self)@.wf(),
            final(self)@ == old(self)@.children_arrived(request.path@, request.task, calls@),
            redraw == old(self)@.awaits_children(request.path@, request.task),
            !redraw ==> final(self)@ == old(self)@,
            redraw <==> old(self)@.child_tasks.contains_key(request.path@) && old(
                self,
            )@.child_tasks[request.path@] == request.task,
            final(self)@.expanded == old(self)@.expanded,
            final(self)@.root == old(self)@.root,
            final(self)@.mode == old(self)@.mode,
            final(self)@.state == old(self)@.state,
            old(self)@.wf() && redraw && old(self)@.state is Ready ==> {
                &&& tree_at(old(self)@.nodes, request.path@) matches Some(before) && tree_at(
                    final(self)@.nodes,
                    request.path@,
                ) matches Some(tree) && tree.call == before.call && (tree.children matches Branches::Loaded(
                    children,
                ) && children.len() == calls@.len() && forall|i: int|
                    0 <= i < calls@.len() ==> (#[trigger] children[i]).call == calls@[i]
                        && children[i].children is NotLoaded)
            },
    {
        proof {
            if self@.wf() && self@.awaits_children(request.path@, request.task)
                && self@.state is Ready {
                assert(calls.len() <= usize::MAX);
                law_arriving_calls_become_children(
                    self@,
                    request.path@,
                    request.task,
                    calls@,
                    request.path@,
                );
            }
        }
        proof {
            if self@.wf() {
                assert(calls.len() <= usize::MAX);
                law_every_event_keeps_the_panel_well_formed(
                    self@,
                    Event::ChildrenLoaded {
                        path: request.path@,
                        task: request.task,
                        calls: calls@,
                    },
                );
            }
        }
        let awaited = match self.child_tasks.get(request.path.as_slice()) {
            Some(task) => task == request.task,
            None => false,
        };
        if !awaited {
            return false;
        }
        if let Some(node) = Self::node_at_mut(
            self.nodes.as_mut_slice(),
            request.path.as_slice(),
        ) {
            node.children = ChildState::Loaded(new_nodes(calls));
        }
        self.child_tasks.remove(request.path.as_slice());
        self.rebuild_entries();
        true
    }

    /// The place that a click on row `index` opens: a buffer and a position in
    /// it.
    pub fn open_entry(&self, index: usize) -> (target: Option<(u64, Anchor)>)
        ensures
            target == match tree_of_row(self@, index as int) {
                Some(tree) => Some((tree.call.target.buffer, tree.call.target.range.start)),
                None => None,
            },
            index >= self@.entries.len() ==> target is None,
            index < self@.entries.len() ==> match tree_at(
                self@.nodes,
                self@.entries[index as int].path,
            ) {
                Some(tree) => target == Some(
                    (tree.call.target.buffer, tree.call.target.range.start),
                ),
                None => target is None,
            },
    {
        if index >= self.entries.len() {
            return None;
        }
        let entry = &self.entries[index];
        assert(entry@ == self@.entries[index as int]);
        match Self::node_at(self.nodes.as_slice(), entry.path.as_slice()) {
            Some(node) => Some((node.call.target.buffer, node.call.target.range.start)),
            None => None,
        }
    }
}

/// The first of the symbols that were found.
pub open spec fn first_item(
    items: Result<Option<Vec<CallHierarchyItem>>, ()>,
) -> Option<CallHierarchyItem> {
    match items {
        Ok(Some(found)) => if found@.len() > 0 {
            Some(found@[0])
        } else {
            None
        },
        _ => None,
    }
}

/// The tree that row `index` shows.
pub open spec fn tree_of_row(panel: Panel, index: int) -> Option<Tree> {
    if 0 <= index < panel.entries.len() {
        tree_at(panel.nodes, panel.entries[index].path)
    } else {
        None
    }
}

} // verus!
