//! The call tree: symbols, each with the calls below it as far as they have
//! been fetched, and the paths that lead to them.

use crate::panel::CallHierarchyPanel;
use crate::symbol::{Call, NodeKey};
use vstd::prelude::*;

verus! {

/// What is known of the calls below a node.
#[derive(Debug)]
pub enum ChildState {
    NotLoaded,
    Loading,
    Loaded(Vec<Node>),
}

/// A symbol in the call tree.
#[derive(Debug)]
pub struct Node {
    pub call: Call,
    pub key: NodeKey,
    pub children: ChildState,
}

/// A node's children, as a value.
pub enum Branches {
    NotLoaded,
    Loading,
    Loaded(Seq<Tree>),
}

/// A node with all that hangs below it, as a value.
pub struct Tree {
    pub call: Call,
    pub key: NodeKey,
    pub children: Branches,
}

impl ChildState {
    pub open spec fn view(&self) -> Branches
        decreases self,
    {
        match self {
            ChildState::NotLoaded => Branches::NotLoaded,
            ChildState::Loading => Branches::Loading,
            ChildState::Loaded(nodes) => Branches::Loaded(forest(nodes@)),
        }
    }
}

impl Node {
    pub open spec fn view(&self) -> Tree
        decreases self,
    {
        Tree { call: self.call, key: self.key, children: self.children@ }
    }
}

/// The trees that a list of nodes stands for.
pub open spec fn forest(nodes: Seq<Node>) -> Seq<Tree>
    decreases nodes,
{
    if nodes.len() == 0 {
        Seq::empty()
    } else {
        forest(nodes.drop_last()).push(nodes.last()@)
    }
}

/// A list of nodes stands for one tree per node, in order.
pub broadcast proof fn lemma_forest(nodes: Seq<Node>)
    ensures
        #[trigger] forest(nodes).len() == nodes.len(),
        forall|i: int| 0 <= i < nodes.len() ==> #[trigger] forest(nodes)[i] == nodes[i]@,
    decreases nodes.len(),
{
    if nodes.len() > 0 {
        lemma_forest(nodes.drop_last());
        assert forall|i: int| 0 <= i < nodes.len() implies #[trigger] forest(nodes)[i]
            == nodes[i]@ by {
            if i < nodes.len() - 1 {
                assert(forest(nodes.drop_last())[i] == nodes.drop_last()[i]@);
            }
        }
    }
}

/// The tree that `path` leads to: the first index counts among `trees`, each
/// further one among the loaded children of the tree before it.
pub open spec fn tree_at(trees: Seq<Tree>, path: Seq<usize>) -> Option<Tree>
    decreases path.len(),
{
    if path.len() == 0 || path[0] >= trees.len() {
        None
    } else {
        let tree = trees[path[0] as int];
        if path.len() == 1 {
            Some(tree)
        } else {
            match tree.children {
                Branches::Loaded(children) => tree_at(children, path.skip(1)),
                _ => None,
            }
        }
    }
}

/// The trees in which `tree` has taken the place that `path` leads to.
pub open spec fn replaced_at(trees: Seq<Tree>, path: Seq<usize>, tree: Tree) -> Seq<Tree>
    decreases path.len(),
{
    if path.len() == 0 || path[0] >= trees.len() {
        trees
    } else if path.len() == 1 {
        trees.update(path[0] as int, tree)
    } else {
        let parent = trees[path[0] as int];
        match parent.children {
            Branches::Loaded(children) => trees.update(
                path[0] as int,
                Tree {
                    children: Branches::Loaded(replaced_at(children, path.skip(1), tree)),
                    ..parent
                },
            ),
            _ => trees,
        }
    }
}

/// A path of one index leads to the tree with that number, and the empty path
/// leads nowhere.
pub proof fn law_first_step_picks_a_tree(trees: Seq<Tree>, k: usize)
    ensures
        tree_at(trees, Seq::empty()) is None,
        k < trees.len() ==> tree_at(trees, seq![k]) == Some(trees[k as int]),
        k >= trees.len() ==> tree_at(trees, seq![k]) is None,
{
}

/// One step further, a path leads to the child with that number, where there is
/// a tree whose children have been fetched and are that many, and else nowhere.
pub proof fn law_last_step_picks_a_child(trees: Seq<Tree>, path: Seq<usize>, k: usize)
    requires
        path.len() > 0,
    ensures
        tree_at(trees, path) matches Some(tree) ==> match tree.children {
            Branches::Loaded(children) => {
                &&& k < children.len() ==> tree_at(trees, path.push(k)) == Some(
                    children[k as int],
                )
                &&& k >= children.len() ==> tree_at(trees, path.push(k)) is None
            },
            _ => tree_at(trees, path.push(k)) is None,
        },
        tree_at(trees, path) is None ==> tree_at(trees, path.push(k)) is None,
    decreases path.len(),
{
    if path[0] < trees.len() {
        if let Branches::Loaded(children) = trees[path[0] as int].children {
            law_first_step_picks_a_tree(children, k);
            if path.len() == 1 {
                assert(path.push(k).skip(1) =~= seq![k]);
            } else {
                law_last_step_picks_a_child(children, path.skip(1), k);
                assert(path.push(k).skip(1) =~= path.skip(1).push(k));
            }
        }
    }
}

/// A node as a value has the node's call and key, and one tree per child once
/// its children have been fetched.
pub proof fn law_node_as_a_value(node: Node)
    ensures
        node@.call == node.call,
        node@.key == node.key,
        node@.children is NotLoaded <==> node.children is NotLoaded,
        node@.children is Loading <==> node.children is Loading,
        node.children matches ChildState::Loaded(nodes) ==> {
            &&& node@.children is Loaded
            &&& node@.children->Loaded_0.len() == nodes@.len()
            &&& forall|i: int|
                0 <= i < nodes@.len() ==> node@.children->Loaded_0[i] == (#[trigger] nodes@[i])@
        },
{
    if let ChildState::Loaded(nodes) = node.children {
        lemma_forest(nodes@);
        assert(node.children@ == Branches::Loaded(forest(nodes@)));
        assert forall|i: int| 0 <= i < nodes@.len() implies node@.children->Loaded_0[i] == (
        #[trigger] nodes@[i])@ by {
            assert(forest(nodes@)[i] == nodes@[i]@);
        }
    }
}

/// A fresh tree has the call's symbol as its key, and has not been asked for its
/// own calls.
pub proof fn law_fresh_trees(calls: Seq<Call>, i: int)
    requires
        0 <= i < calls.len(),
    ensures
        fresh_trees(calls).len() == calls.len(),
        fresh_trees(calls)[i].call == calls[i],
        fresh_trees(calls)[i].key == (NodeKey {
            buffer: calls[i].item.buffer,
            start: calls[i].item.range.start,
            end: calls[i].item.range.end,
        }),
        fresh_trees(calls)[i].children is NotLoaded,
{
}

/// What a path finds after the tree at another path has been replaced:
/// the new tree at the place itself, its parts below the place, the same
/// symbols with as many children above it, and the same trees elsewhere.
pub proof fn law_read_after_replacing(
    trees: Seq<Tree>,
    place: Seq<usize>,
    tree: Tree,
    path: Seq<usize>,
)
    requires
        tree_at(trees, place) is Some,
    ensures
        path == place ==> tree_at(replaced_at(trees, place, tree), path) == Some(tree),
        place.is_prefix_of(path) && place.len() < path.len() ==> tree_at(
            replaced_at(trees, place, tree),
            path,
        ) == match tree.children {
            Branches::Loaded(children) => tree_at(children, path.skip(place.len() as int)),
            _ => None,
        },
        path.is_prefix_of(place) && path.len() < place.len() && path.len() > 0 ==> {
            let before = tree_at(trees, path);
            let after = tree_at(replaced_at(trees, place, tree), path);
            &&& before is Some && after is Some
            &&& after->0.call == before->0.call
            &&& after->0.key == before->0.key
            &&& before->0.children is Loaded && after->0.children is Loaded
            &&& after->0.children->Loaded_0.len() == before->0.children->Loaded_0.len()
        },
        !place.is_prefix_of(path) && !path.is_prefix_of(place) ==> tree_at(
            replaced_at(trees, place, tree),
            path,
        ) == tree_at(trees, path),
        replaced_at(trees, place, tree).len() == trees.len(),
    decreases place.len(),
{
    if path.len() > 0 && path[0] < trees.len() && path[0] == place[0] && place.len() > 1 {
        let children = trees[place[0] as int].children->Loaded_0;
        if path.len() > 1 {
            law_read_after_replacing(children, place.skip(1), tree, path.skip(1));
            if place.len() <= path.len() {
                assert(path.skip(1).skip(place.skip(1).len() as int) =~= path.skip(
                    place.len() as int,
                ));
            }
            if path.skip(1) == place.skip(1) {
                assert(path =~= seq![path[0]] + path.skip(1));
                assert(place =~= seq![place[0]] + place.skip(1));
            }
            assert(place.skip(1).is_prefix_of(path.skip(1)) == place.is_prefix_of(path)) by {
                lemma_prefix_of_tails(place, path);
            }
            assert(path.skip(1).is_prefix_of(place.skip(1)) == path.is_prefix_of(place)) by {
                lemma_prefix_of_tails(path, place);
            }
        } else {
            law_read_after_replacing(children, place.skip(1), tree, place.skip(1));
        }
    } else if path.len() > 0 && path[0] != place[0] {
        assert(!place.is_prefix_of(path));
        assert(!path.is_prefix_of(place));
    } else if path.len() > 0 {
        if path.len() == 1 && place.len() == 1 {
            assert(path =~= place);
        }
    }
}

/// Of two paths with the same first index, one begins with the other exactly
/// if the same holds of the rest.
proof fn lemma_prefix_of_tails(a: Seq<usize>, b: Seq<usize>)
    requires
        a.len() > 0,
        b.len() > 0,
        a[0] == b[0],
    ensures
        a.skip(1).is_prefix_of(b.skip(1)) == a.is_prefix_of(b),
{
    if a.is_prefix_of(b) {
        assert(a.skip(1) =~= b.skip(1).subrange(0, a.len() - 1));
    }
    if a.skip(1).is_prefix_of(b.skip(1)) {
        assert forall|i: int| 0 <= i < a.len() implies a[i] == b[i] by {
            if i > 0 {
                assert(a.skip(1)[i - 1] == b.skip(1).subrange(0, a.len() - 1)[i - 1]);
            }
        }
        assert(a =~= b.subrange(0, a.len() as int));
    }
}

impl Node {
    /// A node whose calls have not been fetched.
    pub fn new(call: Call) -> (node: Self)
        ensures
            node@ == fresh_tree(call),
            node.call == call,
            node.key.buffer == call.item.buffer,
            node.key.start == call.item.range.start,
            node.key.end == call.item.range.end,
            node.children is NotLoaded,
    {
        let key = NodeKey::for_item(&call.item);
        Node { call, key, children: ChildState::NotLoaded }
    }
}

/// The tree of a call whose own calls have not been fetched.
pub open spec fn fresh_tree(call: Call) -> Tree {
    Tree { call, key: NodeKey::for_item(&call.item), children: Branches::NotLoaded }
}

/// One fresh tree per call, in order.
pub open spec fn fresh_trees(calls: Seq<Call>) -> Seq<Tree> {
    calls.map_values(|call: Call| fresh_tree(call))
}

/// One node per call, in order.
pub fn new_nodes(calls: Vec<Call>) -> (nodes: Vec<Node>)
    ensures
        forest(nodes@) == fresh_trees(calls@),
        nodes@.len() == calls@.len(),
        forall|i: int|
            0 <= i < calls@.len() ==> (#[trigger] nodes@[i]).call == calls@[i] && nodes@[i].key
                == NodeKey::for_item(&calls@[i].item) && nodes@[i].children is NotLoaded,
{
    broadcast use lemma_forest;

    let mut nodes: Vec<Node> = Vec::new();
    for call in iter: calls
        invariant
            nodes.len() == iter.index(),
            iter.seq() == calls@,
            forall|i: int| 0 <= i < nodes.len() ==> #[trigger] nodes@[i]@ == fresh_tree(calls@[i]),
            forall|i: int|
                0 <= i < nodes.len() ==> (#[trigger] nodes@[i]).call == calls@[i] && nodes@[i].key
                    == NodeKey::for_item(&calls@[i].item) && nodes@[i].children is NotLoaded,
    {
        nodes.push(Node::new(call));
    }
    nodes
}

impl CallHierarchyPanel {
    /// The node that `path` leads to.
    pub fn node_at<'a>(nodes: &'a [Node], path: &[usize]) -> (node: Option<&'a Node>)
        ensures
            node matches Some(found) ==> tree_at(forest(nodes@), path@) == Some(found@),
            node is None ==> tree_at(forest(nodes@), path@) is None,
            path@.len() == 0 ==> node is None,
            path@.len() == 1 && path@[0] < nodes@.len() ==> node == Some(&nodes@[path@[0] as int]),
            path@.len() > 0 && path@[0] >= nodes@.len() ==> node is None,
        decreases path@.len(),
    {
        broadcast use lemma_forest;

        if path.len() == 0 {
            return None;
        }
        let first: usize = path[0];
        if first >= nodes.len() {
            return None;
        }
        let node = &nodes[first];
        if path.len() == 1 {
            return Some(node);
        }
        match &node.children {
            ChildState::Loaded(children) => {
                let rest = path.split_at(1).1;
                Self::node_at(children.as_slice(), rest)
            },
            _ => None,
        }
    }

    /// The node that `path` leads to, to be changed in place. What the caller
    /// leaves behind the reference takes the node's place in the tree, and
    /// nothing else changes.
    pub fn node_at_mut<'a>(nodes: &'a mut [Node], path: &[usize]) -> (node: Option<&'a mut Node>)
        ensures
            node matches Some(found) ==> {
                &&& tree_at(forest(old(nodes)@), path@) == Some(found@)
                &&& forest(final(nodes)@) == replaced_at(
                    forest(old(nodes)@),
                    path@,
                    (*final(found))@,
                )
            },
            node is None ==> {
                &&& tree_at(forest(old(nodes)@), path@) is None
                &&& forest(final(nodes)@) == forest(old(nodes)@)
            },
        decreases path@.len(),
    {
        broadcast use lemma_forest;

        if path.len() == 0 {
            return None;
        }
        let first: usize = path[0];
        if first >= nodes.len() {
            return None;
        }
        let node = &mut nodes[first];
        if path.len() == 1 {
            return Some(node);
        }
        match &mut node.children {
            ChildState::Loaded(children) => {
                let rest = path.split_at(1).1;
                Self::node_at_mut(children.as_mut_slice(), rest)
            },
            _ => None,
        }
    }
}

} // verus!
