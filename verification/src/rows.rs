//! The rows of the panel: the part of the tree that is expanded, flattened in
//! the order in which it is read.

use crate::panel::CallHierarchyPanel;
use crate::paths::{copy_path, KeySet, PathSet};
use crate::symbol::NodeKey;
use crate::tree::{forest, lemma_forest, Branches, ChildState, Node, Tree};
use vstd::prelude::*;

verus! {

/// A visible row, produced by flattening the expanded parts of the tree.
#[derive(Debug, Clone)]
pub struct FlatEntry {
    pub path: Vec<usize>,
    pub depth: usize,
    pub expanded: bool,
    /// Set when this node already appears in its own ancestor chain. Expanding
    /// it would recurse forever, so it is shown as a leaf with a marker.
    pub recursive: bool,
    /// Waiting on the language server. Shown on the row itself rather than as a
    /// placeholder below it, which would move everything further down twice.
    pub loading: bool,
}

/// A row, as a value.
pub struct Row {
    pub path: Seq<usize>,
    pub depth: nat,
    pub expanded: bool,
    pub recursive: bool,
    pub loading: bool,
}

impl View for FlatEntry {
    type V = Row;

    open spec fn view(&self) -> Row {
        Row {
            path: self.path@,
            depth: self.depth as nat,
            expanded: self.expanded,
            recursive: self.recursive,
            loading: self.loading,
        }
    }
}

/// The rows that a list of entries stands for.
pub open spec fn rows_of(entries: Seq<FlatEntry>) -> Seq<Row> {
    entries.map_values(|entry: FlatEntry| entry@)
}

/// The row of the tree at `path`, below symbols with the keys `ancestors`.
pub open spec fn row_of(
    tree: Tree,
    path: Seq<usize>,
    depth: nat,
    expanded: Set<Seq<usize>>,
    ancestors: Set<NodeKey>,
) -> Row {
    let recursive = ancestors.contains(tree.key);
    Row {
        path,
        depth,
        expanded: !recursive && expanded.contains(path),
        recursive,
        loading: tree.children is Loading,
    }
}

/// The row of the tree at `path`, then, where that row is expanded, the rows
/// of its children.
pub open spec fn tree_rows(
    tree: Tree,
    path: Seq<usize>,
    depth: nat,
    expanded: Set<Seq<usize>>,
    ancestors: Set<NodeKey>,
) -> Seq<Row>
    decreases tree,
{
    let row = row_of(tree, path, depth, expanded, ancestors);
    match tree.children {
        Branches::Loaded(children) => if row.expanded {
            seq![row] + forest_rows(
                children,
                path,
                depth + 1,
                expanded,
                ancestors.insert(tree.key),
            )
        } else {
            seq![row]
        },
        _ => seq![row],
    }
}

/// The rows of the trees whose common parent is at `prefix`, one tree after
/// another.
pub open spec fn forest_rows(
    trees: Seq<Tree>,
    prefix: Seq<usize>,
    depth: nat,
    expanded: Set<Seq<usize>>,
    ancestors: Set<NodeKey>,
) -> Seq<Row>
    decreases trees,
{
    if trees.len() == 0 {
        Seq::empty()
    } else {
        let last = (trees.len() - 1) as usize;
        forest_rows(trees.drop_last(), prefix, depth, expanded, ancestors) + tree_rows(
            trees.last(),
            prefix.push(last),
            depth,
            expanded,
            ancestors,
        )
    }
}

/// The rows of the whole panel.
pub open spec fn panel_rows(trees: Seq<Tree>, expanded: Set<Seq<usize>>) -> Seq<Row> {
    forest_rows(trees, Seq::empty(), 0, expanded, Set::empty())
}

/// Every level of rows that is walked has a depth that `usize` holds.
pub open spec fn depths_fit(
    trees: Seq<Tree>,
    prefix: Seq<usize>,
    depth: nat,
    expanded: Set<Seq<usize>>,
    ancestors: Set<NodeKey>,
) -> bool
    decreases trees,
{
    &&& depth <= usize::MAX
    &&& forall|i: int|
        0 <= i < trees.len() ==> match (#[trigger] trees[i]).children {
            Branches::Loaded(children) => {
                let path = prefix.push(i as usize);
                row_of(trees[i], path, depth, expanded, ancestors).expanded ==> depths_fit(
                    children,
                    path,
                    depth + 1,
                    expanded,
                    ancestors.insert(trees[i].key),
                )
            },
            _ => true,
        }
}

/// The rows of one tree stand in a row among those of its forest, behind the
/// rows of the trees before it.
pub proof fn lemma_rows_of_one_tree(
    trees: Seq<Tree>,
    i: int,
    prefix: Seq<usize>,
    depth: nat,
    expanded: Set<Seq<usize>>,
    ancestors: Set<NodeKey>,
)
    requires
        0 <= i < trees.len(),
    ensures
        ({
            let all = forest_rows(trees, prefix, depth, expanded, ancestors);
            let before = forest_rows(trees.take(i), prefix, depth, expanded, ancestors);
            let upto = forest_rows(trees.take(i + 1), prefix, depth, expanded, ancestors);
            let own = tree_rows(trees[i], prefix.push(i as usize), depth, expanded, ancestors);
            &&& upto == before + own
            &&& upto.len() <= all.len()
            &&& upto == all.take(upto.len() as int)
        }),
    decreases trees.len(),
{
    let upto = forest_rows(trees.take(i + 1), prefix, depth, expanded, ancestors);
    assert(trees.take(i + 1).drop_last() =~= trees.take(i));
    if i == trees.len() - 1 {
        assert(trees.take(i + 1) =~= trees);
        assert(upto =~= upto.take(upto.len() as int));
    } else {
        lemma_rows_of_one_tree(trees.drop_last(), i, prefix, depth, expanded, ancestors);
        assert(trees.drop_last().take(i) =~= trees.take(i));
        assert(trees.drop_last().take(i + 1) =~= trees.take(i + 1));
        let all = forest_rows(trees, prefix, depth, expanded, ancestors);
        let most = forest_rows(trees.drop_last(), prefix, depth, expanded, ancestors);
        assert(all.take(upto.len() as int) =~= most.take(upto.len() as int));
    }
}

impl CallHierarchyPanel {
    /// Appends to `out` the rows of `nodes`, whose common parent is at `path`.
    /// `depth` is the depth of their rows, and `ancestors` holds the symbols
    /// above them. `path` and `ancestors` are left as they were.
    ///
    /// Depths are counted in `usize`: a depth that starts no larger than the
    /// length of `path` never leaves it, and any other start is fine as long as
    /// no row at the largest depth has calls to show.
    pub fn flatten(
        nodes: &[Node],
        path: &mut Vec<usize>,
        depth: usize,
        expanded: &PathSet,
        ancestors: &mut KeySet,
        out: &mut Vec<FlatEntry>,
    )
        requires
            depth <= old(path)@.len() || depths_fit(
                forest(nodes@),
                old(path)@,
                depth as nat,
                expanded@,
                old(ancestors)@,
            ),
        ensures
            rows_of(final(out)@) == rows_of(old(out)@) + forest_rows(
                forest(nodes@),
                old(path)@,
                depth as nat,
                expanded@,
                old(ancestors)@,
            ),
            final(out)@.len() >= old(out)@.len(),
            final(out)@.take(old(out)@.len() as int) == old(out)@,
            final(path)@ == old(path)@,
            final(ancestors)@ == old(ancestors)@,
        decreases nodes@,
    {
        broadcast use lemma_forest;

        let ghost trees = forest(nodes@);
        let ghost prefix = path@;
        let ghost above = ancestors@;
        let mut index: usize = 0;
        while index < nodes.len()
            invariant
                index <= nodes@.len(),
                trees == forest(nodes@),
                trees.len() == nodes@.len(),
                path@ == prefix,
                ancestors@ == above,
                depth <= prefix.len() || depths_fit(
                    trees,
                    prefix,
                    depth as nat,
                    expanded@,
                    above,
                ),
                rows_of(out@) == rows_of(old(out)@) + forest_rows(
                    trees.take(index as int),
                    prefix,
                    depth as nat,
                    expanded@,
                    above,
                ),
                out@.len() >= old(out)@.len(),
                out@.take(old(out)@.len() as int) == old(out)@,
            decreases nodes@.len() - index,
        {
            let node = &nodes[index];
            proof {
                lemma_forest(nodes@);
                lemma_rows_of_one_tree(
                    trees,
                    index as int,
                    prefix,
                    depth as nat,
                    expanded@,
                    above,
                );
            }
            let ghost tree = trees[index as int];
            assert(tree == node@);
            let ghost own = tree_rows(
                tree,
                prefix.push(index),
                depth as nat,
                expanded@,
                above,
            );
            path.push(index);
            let recursive = ancestors.contains(&node.key);
            let is_expanded = !recursive && expanded.contains(path.as_slice());
            let loading = match &node.children {
                ChildState::Loading => true,
                _ => false,
            };
            let ghost earlier = out@;
            out.push(
                FlatEntry {
                    path: copy_path(path),
                    depth,
                    expanded: is_expanded,
                    recursive,
                    loading,
                },
            );
            assert(out@.last()@ == row_of(tree, path@, depth as nat, expanded@, above));
            assert(rows_of(out@) =~= rows_of(earlier) + seq![own[0]]);
            assert(out@.take(old(out)@.len() as int) =~= old(out)@);
            if is_expanded {
                if let ChildState::Loaded(children) = &node.children {
                    let newly_inserted = ancestors.insert(node.key);
                    let ghost below = own.skip(1);
                    assert(below =~= forest_rows(
                        forest(children@),
                        path@,
                        (depth + 1) as nat,
                        expanded@,
                        ancestors@,
                    ));
                    assert(depth <= prefix.len() || depths_fit(
                        forest(children@),
                        path@,
                        (depth + 1) as nat,
                        expanded@,
                        ancestors@,
                    )) by {
                        assert(trees[index as int].children == Branches::Loaded(
                            forest(children@),
                        ));
                    }
                    assert(path@.len() == path.len());
                    let ghost middle = out@;
                    Self::flatten(
                        children.as_slice(),
                        path,
                        depth + 1,
                        expanded,
                        ancestors,
                        out,
                    );
                    assert(rows_of(out@) =~= rows_of(earlier) + own);
                    assert(out@.take(old(out)@.len() as int) =~= middle.take(
                        old(out)@.len() as int,
                    ));
                    if newly_inserted {
                        ancestors.remove(&node.key);
                    }
                    assert(ancestors@ =~= above);
                }
            }
            let _ = path.pop();
            assert(path@ =~= prefix);
            assert(rows_of(out@) =~= rows_of(earlier) + own);
            index += 1;
        }
        assert(trees.take(nodes@.len() as int) =~= trees);
    }
}

} // verus!
