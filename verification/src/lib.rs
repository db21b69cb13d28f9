//! A call hierarchy panel: the tree of callers or callees of one symbol, the
//! rows that tree shows, and the steps by which it is loaded and browsed.

pub mod display;
pub mod dock;
pub mod fetches;
pub mod laws;
pub mod model;
pub mod panel;
pub mod paths;
pub mod rows;
pub mod steps;
pub mod symbol;
pub mod tree;
pub mod visible;
pub mod width;

pub use display::{Badge, Body, EntryView, Header};
pub use dock::{DockPosition, DockSide};
pub use model::PanelState;
pub use panel::{
    CallHierarchyPanel, LoadRequest, ModeChange, PrepareRequest, Prepared, RootRequest, Toggled,
};
pub use paths::{KeySet, PathSet, TaskMap};
pub use rows::FlatEntry;
pub use symbol::{
    Anchor, Call, CallDisplay, CallHierarchyItem, CallHierarchyMode, Location, NodeKey,
};
pub use tree::{ChildState, Node};
