//! Symbols of a call hierarchy and the calls between them.

use core::ops::Range;
use vstd::prelude::*;
use vstd::utf8::encode_utf8;

verus! {

/// A position that stays with its text while the buffer is edited. Equal
/// positions have equal numbers, and different ones different numbers.
#[derive(Debug, Clone, Copy, PartialEq, Eq, Hash, Structural)]
pub struct Anchor {
    pub id: u64,
}

/// The direction in which calls are followed.
#[derive(Debug, Clone, Copy, PartialEq, Eq, Hash, Structural)]
pub enum CallHierarchyMode {
    /// Callers of the root symbol.
    Incoming,
    /// Callees of the root symbol.
    Outgoing,
}

impl CallHierarchyMode {
    pub open spec fn spec_opposite(self) -> Self {
        match self {
            CallHierarchyMode::Incoming => CallHierarchyMode::Outgoing,
            CallHierarchyMode::Outgoing => CallHierarchyMode::Incoming,
        }
    }

    /// The other direction.
    #[verifier::when_used_as_spec(spec_opposite)]
    pub fn opposite(self) -> (mode: Self)
        ensures
            mode == self.opposite(),
            mode != self,
            mode is Incoming <==> self is Outgoing,
    {
        match self {
            CallHierarchyMode::Incoming => CallHierarchyMode::Outgoing,
            CallHierarchyMode::Outgoing => CallHierarchyMode::Incoming,
        }
    }
}

/// A symbol as a language server reports it.
#[derive(Debug)]
pub struct CallHierarchyItem {
    /// The buffer that holds the symbol.
    pub buffer: u64,
    pub server_id: usize,
    pub name: String,
    /// The number that the language server protocol gives the symbol's kind.
    pub kind: i32,
    pub detail: Option<String>,
    /// The symbol with its body.
    pub range: Range<Anchor>,
    /// The symbol's name.
    pub selection_range: Range<Anchor>,
    /// The server's own data on the symbol, as JSON text.
    pub data: Option<String>,
}

impl Clone for CallHierarchyItem {
    fn clone(&self) -> (item: Self)
        ensures
            item == *self,
    {
        CallHierarchyItem {
            buffer: self.buffer,
            server_id: self.server_id,
            name: self.name.clone(),
            kind: self.kind,
            detail: self.detail.clone(),
            range: Range { start: self.range.start, end: self.range.end },
            selection_range: Range {
                start: self.selection_range.start,
                end: self.selection_range.end,
            },
            data: self.data.clone(),
        }
    }
}

/// Identifies a symbol across fetches, so that recursion is noticed however
/// often a subtree is loaded. Two servers that report the same range of the
/// same buffer report the same symbol, so the server is left out.
#[derive(Debug, Clone, Copy, PartialEq, Eq, Hash, Structural)]
pub struct NodeKey {
    pub buffer: u64,
    pub start: Anchor,
    pub end: Anchor,
}

impl NodeKey {
    pub open spec fn spec_for_item(item: &CallHierarchyItem) -> Self {
        NodeKey { buffer: item.buffer, start: item.range.start, end: item.range.end }
    }

    /// The key of the symbol that `item` describes.
    #[verifier::when_used_as_spec(spec_for_item)]
    pub fn for_item(item: &CallHierarchyItem) -> (key: Self)
        ensures
            key == NodeKey::for_item(item),
            key.buffer == item.buffer,
            key.start == item.range.start,
            key.end == item.range.end,
    {
        NodeKey { buffer: item.buffer, start: item.range.start, end: item.range.end }
    }
}

/// A range of a buffer.
#[derive(Debug)]
pub struct Location {
    pub buffer: u64,
    pub range: Range<Anchor>,
}

/// What a row shows of a call.
#[derive(Debug)]
pub struct CallDisplay {
    pub name: String,
    /// The symbol's full label, where the language gives one.
    pub label_text: Option<String>,
    /// The file and line of the call.
    pub path: Option<String>,
}

impl Default for CallDisplay {
    fn default() -> (display: Self)
        ensures
            display.name@ == Seq::<char>::empty(),
            display.label_text is None,
            display.path is None,
    {
        CallDisplay { name: String::new(), label_text: None, path: None }
    }
}

impl CallDisplay {
    /// The text whose length stands for the row's width: the label, or the
    /// name where there is none.
    pub open spec fn spec_text(&self) -> Seq<char> {
        match self.label_text {
            Some(label) => label@,
            None => self.name@,
        }
    }

    /// The length in bytes of the label, or of the name where there is none.
    pub fn text_len(&self) -> (len: usize)
        ensures
            len == encode_utf8(self.spec_text()).len(),
            self.label_text matches Some(label) ==> len == encode_utf8(label@).len(),
            self.label_text is None ==> len == encode_utf8(self.name@).len(),
    {
        match &self.label_text {
            Some(label) => label.as_str().as_bytes().len(),
            None => self.name.as_str().as_bytes().len(),
        }
    }
}

/// One caller or callee of a symbol.
#[derive(Debug)]
pub struct Call {
    /// The symbol that calls or is called.
    pub item: CallHierarchyItem,
    /// The place that opens when the row is clicked.
    pub target: Location,
    /// How many places make this call.
    pub site_count: usize,
    pub display: CallDisplay,
}

} // verus!
