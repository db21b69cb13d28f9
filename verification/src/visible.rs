//! Which places of the tree the rows show, and in what order.
//!
//! The rows are made by walking the tree. Here they are described without the
//! walk: a place has a row exactly if every place above it is open, the row
//! says of its place what the tree says of it, and the rows stand in the order
//! of their paths.

use crate::rows::{
    forest_rows, lemma_rows_of_one_tree, panel_rows, row_of, tree_rows, Row,
};
use crate::symbol::NodeKey;
use crate::tree::{forest, lemma_forest, replaced_at, tree_at, Branches, ChildState, Node, Tree};
use vstd::prelude::*;

verus! {

/// Every list of children can be counted in `usize`, as that of a `Vec` can.
pub open spec fn is_countable(trees: Seq<Tree>) -> bool
    decreases trees,
{
    &&& trees.len() <= usize::MAX
    &&& forall|i: int|
        0 <= i < trees.len() ==> match (#[trigger] trees[i]).children {
            Branches::Loaded(children) => is_countable(children),
            _ => true,
        }
}

/// The nodes of a `Vec` are countable at every level.
pub proof fn lemma_nodes_are_countable(nodes: Seq<Node>)
    requires
        nodes.len() <= usize::MAX,
    ensures
        is_countable(forest(nodes)),
    decreases nodes,
{
    lemma_forest(nodes);
    let trees = forest(nodes);
    assert forall|i: int| 0 <= i < trees.len() implies match (#[trigger] trees[i]).children {
        Branches::Loaded(children) => is_countable(children),
        _ => true,
    } by {
        assert(trees[i] == nodes[i]@);
        if let ChildState::Loaded(children) = nodes[i].children {
            assert(children.len() <= usize::MAX);
            lemma_nodes_are_countable(children@);
            assert(nodes[i].children@ == Branches::Loaded(forest(children@)));
        }
    }
}

/// The symbol at `path`.
pub open spec fn key_at(trees: Seq<Tree>, path: Seq<usize>) -> NodeKey {
    tree_at(trees, path).unwrap().key
}

/// The symbol at `path` stands at a place above `path` too.
pub open spec fn repeats_above(trees: Seq<Tree>, path: Seq<usize>) -> bool {
    exists|j: int|
        0 < j < path.len() && #[trigger] key_at(trees, path.take(j)) == key_at(trees, path)
}

/// The place is expanded, and may be.
pub open spec fn is_open(
    trees: Seq<Tree>,
    path: Seq<usize>,
    expanded: Set<Seq<usize>>,
) -> bool {
    expanded.contains(path) && !repeats_above(trees, path)
}

/// There is a tree at `path`, and every place above it is open.
pub open spec fn is_shown(
    trees: Seq<Tree>,
    path: Seq<usize>,
    expanded: Set<Seq<usize>>,
) -> bool {
    &&& tree_at(trees, path) is Some
    &&& forall|j: int| 0 < j < path.len() ==> is_open(trees, #[trigger] path.take(j), expanded)
}

/// The row of the place `path`.
pub open spec fn row_at(trees: Seq<Tree>, path: Seq<usize>, expanded: Set<Seq<usize>>) -> Row {
    Row {
        path,
        depth: (path.len() - 1) as nat,
        expanded: is_open(trees, path, expanded),
        recursive: repeats_above(trees, path),
        loading: tree_at(trees, path).unwrap().children is Loading,
    }
}

/// Path `a` is read before path `b`: it leads to a place above that of `b`, or
/// leaves their common part at a smaller index.
pub open spec fn precedes(a: Seq<usize>, b: Seq<usize>) -> bool {
    exists|k: int|
        {
            &&& 0 <= k <= a.len()
            &&& k < b.len()
            &&& #[trigger] a.take(k) == b.take(k)
            &&& k == a.len() || a[k] < b[k]
        }
}

/// Where the walk stands: below the place `prefix`, whose children have rows
/// of depth `depth`, and below the symbols `ancestors`.
struct Spot {
    prefix: Seq<usize>,
    depth: nat,
    expanded: Set<Seq<usize>>,
    ancestors: Set<NodeKey>,
}

impl Spot {
    spec fn rows(self, trees: Seq<Tree>) -> Seq<Row> {
        forest_rows(trees, self.prefix, self.depth, self.expanded, self.ancestors)
    }

    spec fn rows_of_tree(self, trees: Seq<Tree>, k: int) -> Seq<Row> {
        tree_rows(
            trees[k],
            self.prefix.push(k as usize),
            self.depth,
            self.expanded,
            self.ancestors,
        )
    }

    spec fn own_row(self, trees: Seq<Tree>, k: int) -> Row {
        row_of(
            trees[k],
            self.prefix.push(k as usize),
            self.depth,
            self.expanded,
            self.ancestors,
        )
    }

    /// The spot below the tree `k`.
    spec fn below(self, trees: Seq<Tree>, k: int) -> Spot {
        Spot {
            prefix: self.prefix.push(k as usize),
            depth: self.depth + 1,
            expanded: self.expanded,
            ancestors: self.ancestors.insert(trees[k].key),
        }
    }

    spec fn repeats(self, trees: Seq<Tree>, rel: Seq<usize>) -> bool {
        self.ancestors.contains(key_at(trees, rel)) || repeats_above(trees, rel)
    }

    spec fn open(self, trees: Seq<Tree>, rel: Seq<usize>) -> bool {
        self.expanded.contains(self.prefix + rel) && !self.repeats(trees, rel)
    }

    spec fn shown(self, trees: Seq<Tree>, rel: Seq<usize>) -> bool {
        &&& tree_at(trees, rel) is Some
        &&& forall|j: int| 0 < j < rel.len() ==> self.open(trees, #[trigger] rel.take(j))
    }

    spec fn row(self, trees: Seq<Tree>, rel: Seq<usize>) -> Row {
        Row {
            path: self.prefix + rel,
            depth: (self.depth + rel.len() - 1) as nat,
            expanded: self.open(trees, rel),
            recursive: self.repeats(trees, rel),
            loading: tree_at(trees, rel).unwrap().children is Loading,
        }
    }

    /// What is said of a path among `trees` is said of the rest of it among the
    /// children of the tree that its first index picks.
    proof fn lemma_descend(self, trees: Seq<Tree>, rel: Seq<usize>, children: Seq<Tree>)
        requires
            rel.len() > 1,
            rel[0] < trees.len(),
            trees[rel[0] as int].children == Branches::Loaded(children),
        ensures
            tree_at(trees, rel) == tree_at(children, rel.skip(1)),
            self.repeats(trees, rel) == self.below(trees, rel[0] as int).repeats(
                children,
                rel.skip(1),
            ),
            self.open(trees, rel) == self.below(trees, rel[0] as int).open(children, rel.skip(1)),
            self.row(trees, rel) == self.below(trees, rel[0] as int).row(children, rel.skip(1)),
    {
        let k = rel[0] as int;
        let rest = rel.skip(1);
        let below = self.below(trees, k);
        assert(self.prefix + rel =~= below.prefix + rest);
        assert(key_at(trees, rel) == key_at(children, rest));
        assert(key_at(trees, rel.take(1)) == trees[k].key) by {
            assert(rel.take(1).len() == 1 && rel.take(1)[0] == rel[0]);
        }
        assert forall|j: int| 1 < j < rel.len() implies #[trigger] key_at(trees, rel.take(j))
            == key_at(children, rest.take(j - 1)) by {
            assert(rel.take(j).skip(1) =~= rest.take(j - 1));
            assert(rel.take(j)[0] == rel[0]);
        }
        if self.repeats(trees, rel) {
            if repeats_above(trees, rel) {
                let j = choose|j: int|
                    0 < j < rel.len() && #[trigger] key_at(trees, rel.take(j)) == key_at(
                        trees,
                        rel,
                    );
                if j > 1 {
                    assert(key_at(children, rest.take(j - 1)) == key_at(children, rest));
                }
            }
            assert(below.repeats(children, rest));
        }
        if below.repeats(children, rest) {
            if repeats_above(children, rest) {
                let j = choose|j: int|
                    0 < j < rest.len() && #[trigger] key_at(children, rest.take(j)) == key_at(
                        children,
                        rest,
                    );
                assert(key_at(trees, rel.take(j + 1)) == key_at(trees, rel));
            } else if !self.ancestors.contains(key_at(trees, rel)) {
                assert(key_at(trees, rel.take(1)) == key_at(trees, rel));
            }
            assert(self.repeats(trees, rel));
        }
    }

    /// A path of several steps is shown exactly if its first step is open and
    /// the rest is shown below it.
    proof fn lemma_shown_descends(self, trees: Seq<Tree>, rel: Seq<usize>, children: Seq<Tree>)
        requires
            rel.len() > 1,
            rel[0] < trees.len(),
            trees[rel[0] as int].children == Branches::Loaded(children),
        ensures
            self.shown(trees, rel) == (self.open(trees, seq![rel[0]]) && self.below(
                trees,
                rel[0] as int,
            ).shown(children, rel.skip(1))),
    {
        let rest = rel.skip(1);
        let below = self.below(trees, rel[0] as int);
        self.lemma_descend(trees, rel, children);
        assert(rel.take(1) =~= seq![rel[0]]);
        assert forall|j: int| 1 < j < rel.len() implies self.open(trees, #[trigger] rel.take(j))
            == below.open(children, rest.take(j - 1)) by {
            self.lemma_descend(trees, rel.take(j), children);
            assert(rel.take(j).skip(1) =~= rest.take(j - 1));
        }
        if self.shown(trees, rel) {
            assert(self.open(trees, rel.take(1)));
            assert forall|j: int| 0 < j < rest.len() implies below.open(
                children,
                #[trigger] rest.take(j),
            ) by {
                assert(self.open(trees, rel.take(j + 1)));
            }
        }
        if self.open(trees, seq![rel[0]]) && below.shown(children, rest) {
            assert forall|j: int| 0 < j < rel.len() implies self.open(
                trees,
                #[trigger] rel.take(j),
            ) by {
                if j > 1 {
                    assert(below.open(children, rest.take(j - 1)));
                }
            }
        }
    }

    /// The row of one tree, as its path tells it.
    proof fn lemma_own_row(self, trees: Seq<Tree>, k: int)
        requires
            0 <= k < trees.len(),
            trees.len() <= usize::MAX,
        ensures
            self.own_row(trees, k) == self.row(trees, seq![k as usize]),
            self.shown(trees, seq![k as usize]),
            self.rows_of_tree(trees, k).len() > 0,
            self.rows_of_tree(trees, k)[0] == self.own_row(trees, k),
    {
        let rel = seq![k as usize];
        assert(self.prefix + rel =~= self.prefix.push(k as usize));
        assert(tree_at(trees, rel) == Some(trees[k]));
        assert(!repeats_above(trees, rel));
    }

    /// The rows below the first row of a tree are those of its children.
    proof fn lemma_rows_below(self, trees: Seq<Tree>, k: int, children: Seq<Tree>)
        requires
            0 <= k < trees.len(),
            trees[k].children == Branches::Loaded(children),
            self.own_row(trees, k).expanded,
        ensures
            self.rows_of_tree(trees, k) == seq![self.own_row(trees, k)] + self.below(
                trees,
                k,
            ).rows(children),
    {
    }

    /// A row of one of the trees is a row of the forest.
    proof fn lemma_contains_rows_of_tree(self, trees: Seq<Tree>, k: int, i: int)
        requires
            0 <= k < trees.len(),
            0 <= i < self.rows_of_tree(trees, k).len(),
        ensures
            self.rows(trees).contains(self.rows_of_tree(trees, k)[i]),
    {
        lemma_rows_of_one_tree(
            trees,
            k,
            self.prefix,
            self.depth,
            self.expanded,
            self.ancestors,
        );
        let before = self.rows(trees.take(k));
        let own = self.rows_of_tree(trees, k);
        let upto = self.rows(trees.take(k + 1));
        assert(upto[before.len() + i] == own[i]);
        assert(self.rows(trees)[before.len() + i] == upto[before.len() + i]);
    }

    /// Every row of the forest is a row of one of the trees.
    proof fn lemma_find_tree(self, trees: Seq<Tree>, row: Row) -> (k: int)
        requires
            self.rows(trees).contains(row),
        ensures
            0 <= k < trees.len(),
            self.rows_of_tree(trees, k).contains(row),
        decreases trees.len(),
    {
        let rows = self.rows(trees);
        let i = choose|i: int| 0 <= i < rows.len() && rows[i] == row;
        assert(trees.len() > 0);
        let last = trees.len() - 1;
        let before = self.rows(trees.drop_last());
        let own = self.rows_of_tree(trees, last);
        assert(rows == before + own);
        if i < before.len() {
            assert(before[i] == row);
            let k = self.lemma_find_tree(trees.drop_last(), row);
            assert(self.rows_of_tree(trees.drop_last(), k) == self.rows_of_tree(trees, k));
            k
        } else {
            assert(own[i - before.len()] == row);
            last
        }
    }

    /// Every row belongs to a place that is shown, and says what the tree says
    /// of that place.
    proof fn lemma_sound(self, trees: Seq<Tree>, row: Row) -> (rel: Seq<usize>)
        requires
            is_countable(trees),
            self.rows(trees).contains(row),
        ensures
            rel.len() > 0,
            rel[0] < trees.len(),
            self.shown(trees, rel),
            row == self.row(trees, rel),
        decreases trees,
    {
        let k = self.lemma_find_tree(trees, row);
        self.lemma_own_row(trees, k);
        let rows = self.rows_of_tree(trees, k);
        let i = choose|i: int| 0 <= i < rows.len() && rows[i] == row;
        if i == 0 {
            seq![k as usize]
        } else {
            let children = trees[k].children->Loaded_0;
            self.lemma_rows_below(trees, k, children);
            let below = self.below(trees, k);
            assert(below.rows(children)[i - 1] == row);
            assert(is_countable(children));
            let rest = below.lemma_sound(children, row);
            let rel = seq![k as usize] + rest;
            assert(rel.skip(1) =~= rest);
            self.lemma_descend(trees, rel, children);
            self.lemma_shown_descends(trees, rel, children);
            assert(self.own_row(trees, k).expanded);
            rel
        }
    }

    /// Every place that is shown has its row.
    proof fn lemma_complete(self, trees: Seq<Tree>, rel: Seq<usize>)
        requires
            is_countable(trees),
            self.shown(trees, rel),
        ensures
            self.rows(trees).contains(self.row(trees, rel)),
        decreases rel.len(),
    {
        let k = rel[0] as int;
        self.lemma_own_row(trees, k);
        if rel.len() == 1 {
            assert(rel =~= seq![k as usize]);
            self.lemma_contains_rows_of_tree(trees, k, 0);
        } else {
            let children = trees[k].children->Loaded_0;
            self.lemma_descend(trees, rel, children);
            self.lemma_shown_descends(trees, rel, children);
            let below = self.below(trees, k);
            assert(is_countable(children));
            below.lemma_complete(children, rel.skip(1));
            self.lemma_rows_below(trees, k, children);
            let row = self.row(trees, rel);
            let i = choose|i: int|
                0 <= i < below.rows(children).len() && below.rows(children)[i] == row;
            assert(self.rows_of_tree(trees, k)[i + 1] == row);
            self.lemma_contains_rows_of_tree(trees, k, i + 1);
        }
    }

    /// The rows stand in the order of their paths.
    proof fn lemma_sorted(self, trees: Seq<Tree>)
        requires
            is_countable(trees),
        ensures
            forall|i: int, j: int|
                0 <= i < j < self.rows(trees).len() ==> precedes(
                    #[trigger] self.rows(trees)[i].path,
                    #[trigger] self.rows(trees)[j].path,
                ),
        decreases trees, 1int,
    {
        if trees.len() > 0 {
            let last = trees.len() - 1;
            let rows = self.rows(trees);
            let before = self.rows(trees.drop_last());
            let own = self.rows_of_tree(trees, last);
            assert(rows == before + own);
            assert(is_countable(trees.drop_last()));
            self.lemma_sorted(trees.drop_last());
            self.lemma_tree_sorted(trees, last);
            assert forall|i: int, j: int| 0 <= i < j < rows.len() implies precedes(
                #[trigger] rows[i].path,
                #[trigger] rows[j].path,
            ) by {
                if j < before.len() {
                    assert(rows[i] == before[i] && rows[j] == before[j]);
                } else if i >= before.len() {
                    assert(rows[i] == own[i - before.len()]);
                    assert(rows[j] == own[j - before.len()]);
                } else {
                    assert(before[i] == rows[i]);
                    let rel = self.lemma_sound(trees.drop_last(), rows[i]);
                    assert(own[j - before.len()] == rows[j]);
                    assert(self.prefix.push(last as usize).is_prefix_of(
                        own[j - before.len()].path,
                    ));
                    assert(self.prefix.push(last as usize)[self.prefix.len() as int]
                        == last as usize);
                    let n = self.prefix.len() as int;
                    let a = rows[i].path;
                    let b = rows[j].path;
                    assert(a.take(n) =~= self.prefix);
                    assert(b.take(n) =~= self.prefix);
                    assert(a[n] == rel[0]);
                    assert(b[n] == last as usize);
                    assert(a.take(n) == b.take(n));
                }
            }
        }
    }

    /// The rows of one tree stand in the order of their paths, and those paths
    /// all go through the tree's place.
    proof fn lemma_tree_sorted(self, trees: Seq<Tree>, k: int)
        requires
            is_countable(trees),
            0 <= k < trees.len(),
        ensures
            forall|i: int|
                0 <= i < self.rows_of_tree(trees, k).len() ==> self.prefix.push(
                    k as usize,
                ).is_prefix_of(#[trigger] self.rows_of_tree(trees, k)[i].path),
            forall|i: int, j: int|
                0 <= i < j < self.rows_of_tree(trees, k).len() ==> precedes(
                    #[trigger] self.rows_of_tree(trees, k)[i].path,
                    #[trigger] self.rows_of_tree(trees, k)[j].path,
                ),
        decreases trees, 0int,
    {
        let own = self.rows_of_tree(trees, k);
        let place = self.prefix.push(k as usize);
        self.lemma_own_row(trees, k);
        if own.len() > 1 {
            let children = trees[k].children->Loaded_0;
            self.lemma_rows_below(trees, k, children);
            let below = self.below(trees, k);
            assert(is_countable(children));
            below.lemma_sorted(children);
            assert forall|i: int| 0 < i < own.len() implies place.is_prefix_of(
                #[trigger] own[i].path,
            ) && place.len() < own[i].path.len() by {
                assert(below.rows(children)[i - 1] == own[i]);
                let rel = below.lemma_sound(children, own[i]);
                assert(own[i].path =~= place + rel);
            }
            assert forall|i: int, j: int| 0 <= i < j < own.len() implies precedes(
                #[trigger] own[i].path,
                #[trigger] own[j].path,
            ) by {
                if i == 0 {
                    assert(own[0].path == place);
                    assert(own[0].path.take(place.len() as int) =~= own[j].path.take(
                        place.len() as int,
                    ));
                } else {
                    assert(below.rows(children)[i - 1] == own[i]);
                    assert(below.rows(children)[j - 1] == own[j]);
                }
            }
        }
    }

    /// The same spot with other places expanded.
    spec fn with_expanded(self, expanded: Set<Seq<usize>>) -> Spot {
        Spot { expanded, ..self }
    }

    /// Trees that `place` does not go through have the same rows whether
    /// `place` is expanded or not.
    proof fn lemma_same_elsewhere(
        self,
        trees: Seq<Tree>,
        other: Set<Seq<usize>>,
        place: Seq<usize>,
    )
        requires
            differ_only_at(self.expanded, other, place),
            forall|k: int|
                0 <= k < trees.len() ==> !(#[trigger] self.prefix.push(
                    k as usize,
                )).is_prefix_of(place),
        ensures
            self.rows(trees) == self.with_expanded(other).rows(trees),
        decreases trees, 1int,
    {
        if trees.len() > 0 {
            let last = trees.len() - 1;
            self.lemma_same_elsewhere(trees.drop_last(), other, place);
            assert(!self.prefix.push(last as usize).is_prefix_of(place));
            self.lemma_tree_same_elsewhere(trees, other, place, last);
        }
    }

    /// A tree that `place` does not go through has the same rows whether
    /// `place` is expanded or not.
    proof fn lemma_tree_same_elsewhere(
        self,
        trees: Seq<Tree>,
        other: Set<Seq<usize>>,
        place: Seq<usize>,
        k: int,
    )
        requires
            differ_only_at(self.expanded, other, place),
            0 <= k < trees.len(),
            !self.prefix.push(k as usize).is_prefix_of(place),
        ensures
            self.rows_of_tree(trees, k) == self.with_expanded(other).rows_of_tree(trees, k),
        decreases trees, 0int,
    {
        let path = self.prefix.push(k as usize);
        assert(path != place) by {
            assert(place.is_prefix_of(place));
        }
        assert(self.expanded.contains(path) == other.contains(path));
        if let Branches::Loaded(children) = trees[k].children {
            let below = self.below(trees, k);
            assert forall|m: int| 0 <= m < children.len() implies !(#[trigger] below.prefix.push(
                m as usize,
            )).is_prefix_of(place) by {
                let longer = below.prefix.push(m as usize);
                if longer.is_prefix_of(place) {
                    assert(path =~= longer.subrange(0, path.len() as int));
                    assert(path =~= place.subrange(0, path.len() as int));
                }
            }
            below.lemma_same_elsewhere(children, other, place);
            assert(below.with_expanded(other) == self.with_expanded(other).below(trees, k));
        }
    }

    /// Asking for the calls of a tree changes its own row and no other.
    proof fn lemma_asking(
        self,
        trees: Seq<Tree>,
        other: Set<Seq<usize>>,
        rel: Seq<usize>,
    )
        requires
            is_countable(trees),
            differ_only_at(self.expanded, other, self.prefix + rel),
            other.contains(self.prefix + rel),
            tree_at(trees, rel) is Some,
            tree_at(trees, rel)->0.children is NotLoaded,
        ensures
            ({
                let tree = Tree { children: Branches::Loading, ..tree_at(trees, rel)->0 };
                let rows = self.rows(trees);
                let others = self.with_expanded(other).rows(replaced_at(trees, rel, tree));
                &&& others.len() == rows.len()
                &&& forall|i: int|
                    0 <= i < rows.len() ==> #[trigger] others[i] == asked_row(
                        rows[i],
                        self.prefix + rel,
                    )
            }),
        decreases trees,
    {
        let place = self.prefix + rel;
        let there = self.with_expanded(other);
        let tree = Tree { children: Branches::Loading, ..tree_at(trees, rel)->0 };
        let after = replaced_at(trees, rel, tree);
        let last = trees.len() - 1;
        let n = self.prefix.len() as int;
        let path = self.prefix.push(last as usize);
        let before = self.rows(trees.drop_last());
        let own = self.rows_of_tree(trees, last);
        let before_there = there.rows(after.drop_last());
        let own_there = there.rows_of_tree(after, last);
        assert(is_countable(trees.drop_last()));
        assert(self.rows(trees) == before + own);
        assert(after.len() == trees.len());
        assert(there.rows(after) == before_there + own_there);
        assert(place[n] == rel[0]);
        self.lemma_tree_sorted(trees, last);
        if rel[0] < last {
            let short = trees.drop_last();
            assert(tree_at(short, rel) == tree_at(trees, rel));
            assert(replaced_at(short, rel, tree) =~= after.drop_last());
            self.lemma_asking(short, other, rel);
            assert(!path.is_prefix_of(place)) by {
                if path.is_prefix_of(place) {
                    assert(path[n] == place.subrange(0, n + 1)[n]);
                }
            }
            self.lemma_tree_same_elsewhere(trees, other, place, last);
            assert(after[last] == trees[last]);
            assert forall|i: int| 0 <= i < own.len() implies #[trigger] own[i]
                == asked_row(own[i], place) by {
                assert(path.is_prefix_of(own[i].path));
            }
        } else {
            assert(after.drop_last() =~= trees.drop_last());
            assert forall|k: int| 0 <= k < trees.drop_last().len() implies !(
            #[trigger] self.prefix.push(k as usize)).is_prefix_of(place) by {
                let elsewhere = self.prefix.push(k as usize);
                if elsewhere.is_prefix_of(place) {
                    assert(elsewhere[n] == place.subrange(0, n + 1)[n]);
                }
            }
            self.lemma_same_elsewhere(trees.drop_last(), other, place);
            assert forall|i: int| 0 <= i < before.len() implies #[trigger] before[i]
                == asked_row(before[i], place) by {
                assert(self.rows(trees.drop_last()).contains(before[i]));
                let found = self.lemma_sound(trees.drop_last(), before[i]);
                assert(before[i].path[n] == found[0]);
            }
            if rel.len() == 1 {
                assert(place =~= path);
                assert(own.len() == 1);
                assert(own_there.len() == 1);
                assert(own_there[0] == asked_row(own[0], place));
            } else {
                let children = trees[last].children->Loaded_0;
                let rest = rel.skip(1);
                let below = self.below(trees, last);
                assert(path != place) by {
                    assert(path.len() < place.len());
                }
                assert(self.expanded.contains(path) == other.contains(path));
                assert(below.prefix + rest =~= place);
                assert(is_countable(children));
                below.lemma_asking(children, other, rest);
                let children_there = replaced_at(children, rest, tree);
                assert(after[last].children == Branches::Loaded(children_there));
                assert(after[last].key == trees[last].key);
                assert(below.with_expanded(other) == there.below(after, last));
                assert(self.own_row(trees, last) == there.own_row(after, last));
                assert(asked_row(self.own_row(trees, last), place) == self.own_row(trees, last));
                if self.own_row(trees, last).expanded {
                    self.lemma_rows_below(trees, last, children);
                    there.lemma_rows_below(after, last, children_there);
                    let deep = below.rows(children);
                    let deep_there = below.with_expanded(other).rows(children_there);
                    assert forall|i: int| 0 <= i < own.len() implies #[trigger] own_there[i]
                        == asked_row(own[i], place) by {
                        if i > 0 {
                            assert(own[i] == deep[i - 1]);
                            assert(own_there[i] == deep_there[i - 1]);
                        }
                    }
                }
            }
            assert forall|i: int| 0 <= i < own.len() implies #[trigger] own_there[i] == asked_row(
                own[i],
                place,
            ) by {}
        }
        let rows = self.rows(trees);
        let others = there.rows(after);
        assert forall|i: int| 0 <= i < rows.len() implies #[trigger] others[i] == asked_row(
            rows[i],
            place,
        ) by {
            if i < before.len() {
                assert(rows[i] == before[i] && others[i] == before_there[i]);
            } else {
                assert(rows[i] == own[i - before.len()]);
                assert(others[i] == own_there[i - before.len()]);
            }
        }
    }

    /// Expanding or collapsing a row leaves it and the rows above it where they
    /// are.
    proof fn lemma_row_stays(
        self,
        trees: Seq<Tree>,
        other: Set<Seq<usize>>,
        place: Seq<usize>,
        i: int,
    )
        requires
            is_countable(trees),
            differ_only_at(self.expanded, other, place),
            0 <= i < self.rows(trees).len(),
            self.rows(trees)[i].path == place,
        ensures
            ({
                let rows = self.rows(trees);
                let others = self.with_expanded(other).rows(trees);
                &&& i < others.len()
                &&& forall|j: int| 0 <= j < i ==> #[trigger] others[j] == rows[j]
                &&& others[i].path == place
                &&& others[i].recursive == rows[i].recursive
            }),
        decreases trees,
    {
        let last = trees.len() - 1;
        let there = self.with_expanded(other);
        let rows = self.rows(trees);
        let others = there.rows(trees);
        let before = self.rows(trees.drop_last());
        let own = self.rows_of_tree(trees, last);
        let own_there = there.rows_of_tree(trees, last);
        let before_there = there.rows(trees.drop_last());
        assert(rows == before + own);
        assert(others == before_there + own_there);
        assert(is_countable(trees.drop_last()));
        if i < before.len() {
            assert(before[i] == rows[i]);
            self.lemma_row_stays(trees.drop_last(), other, place, i);
            assert forall|j: int| 0 <= j < i implies #[trigger] others[j] == rows[j] by {
                assert(before_there[j] == before[j]);
            }
        } else {
            let path = self.prefix.push(last as usize);
            let at = i - before.len();
            assert(own[at] == rows[i]);
            self.lemma_tree_sorted(trees, last);
            assert(path.is_prefix_of(own[at].path));
            assert forall|k: int| 0 <= k < trees.drop_last().len() implies !(
            #[trigger] self.prefix.push(k as usize)).is_prefix_of(place) by {
                let elsewhere = self.prefix.push(k as usize);
                let n = self.prefix.len() as int;
                if elsewhere.is_prefix_of(place) {
                    assert(elsewhere[n] == place.subrange(0, n + 1)[n]);
                    assert(path[n] == place.subrange(0, n + 1)[n]);
                }
            }
            self.lemma_same_elsewhere(trees.drop_last(), other, place);
            self.lemma_own_row(trees, last);
            there.lemma_own_row(trees, last);
            if at > 0 {
                let children = trees[last].children->Loaded_0;
                self.lemma_rows_below(trees, last, children);
                let below = self.below(trees, last);
                assert(below.rows(children)[at - 1] == own[at]);
                assert(is_countable(children));
                let rel = below.lemma_sound(children, own[at]);
                assert(place == below.prefix + rel);
                assert(path.len() < place.len());
                assert(self.expanded.contains(path) == other.contains(path));
                below.lemma_row_stays(children, other, place, at - 1);
                assert(below.with_expanded(other) == there.below(trees, last));
                there.lemma_rows_below(trees, last, children);
                assert forall|j: int| 0 <= j < i implies #[trigger] others[j] == rows[j] by {
                    if j > before.len() {
                        let m = j - before.len() - 1;
                        assert(others[j] == below.with_expanded(other).rows(children)[m]);
                        assert(rows[j] == below.rows(children)[m]);
                    }
                }
                assert(others[i] == below.with_expanded(other).rows(children)[at - 1]);
            }
        }
    }
}

/// A row after the calls at `place` have been asked for: that of `place` says
/// that they are loading and is expanded unless it is recursive, and every other
/// is as it was.
pub open spec fn asked_row(row: Row, place: Seq<usize>) -> Row {
    if row.path == place {
        Row { expanded: !row.recursive, loading: true, ..row }
    } else {
        row
    }
}

/// Two sets of expanded places are the same but for one place.
pub open spec fn differ_only_at(
    a: Set<Seq<usize>>,
    b: Set<Seq<usize>>,
    place: Seq<usize>,
) -> bool {
    forall|path: Seq<usize>| path != place ==> #[trigger] a.contains(path) == b.contains(path)
}

/// The rows of the panel, without the walk that makes them: a place has a row
/// exactly if it is shown, each row says what the tree says of its place, and
/// the rows stand in the order of their paths.
pub proof fn law_rows_are_the_shown_places(trees: Seq<Tree>, expanded: Set<Seq<usize>>)
    requires
        is_countable(trees),
    ensures
        forall|path: Seq<usize>|
            #![trigger is_shown(trees, path, expanded)]
            is_shown(trees, path, expanded) <==> panel_rows(trees, expanded).contains(
                row_at(trees, path, expanded),
            ),
        forall|i: int|
            0 <= i < panel_rows(trees, expanded).len() ==> {
                let row = #[trigger] panel_rows(trees, expanded)[i];
                is_shown(trees, row.path, expanded) && row == row_at(trees, row.path, expanded)
            },
        forall|i: int, j: int|
            0 <= i < j < panel_rows(trees, expanded).len() ==> precedes(
                #[trigger] panel_rows(trees, expanded)[i].path,
                #[trigger] panel_rows(trees, expanded)[j].path,
            ),
{
    let top = Spot { prefix: Seq::empty(), depth: 0, expanded, ancestors: Set::empty() };
    let rows = panel_rows(trees, expanded);
    assert(rows == top.rows(trees));
    assert forall|path: Seq<usize>| #[trigger] top.prefix + path == path by {
        assert(top.prefix + path =~= path);
    }
    assert forall|path: Seq<usize>| #[trigger] top.open(trees, path) == is_open(
        trees,
        path,
        expanded,
    ) by {
        assert(top.prefix + path == path);
    }
    assert forall|path: Seq<usize>| #[trigger] top.shown(trees, path) == is_shown(
        trees,
        path,
        expanded,
    ) by {
        if top.shown(trees, path) {
            assert forall|j: int| 0 < j < path.len() implies is_open(
                trees,
                #[trigger] path.take(j),
                expanded,
            ) by {
                assert(top.open(trees, path.take(j)));
            }
        }
        if is_shown(trees, path, expanded) {
            assert forall|j: int| 0 < j < path.len() implies top.open(
                trees,
                #[trigger] path.take(j),
            ) by {
                assert(is_open(trees, path.take(j), expanded));
            }
        }
    }
    assert forall|path: Seq<usize>| #[trigger] top.row(trees, path) == row_at(
        trees,
        path,
        expanded,
    ) by {
        assert(top.prefix + path == path);
        assert(top.open(trees, path) == is_open(trees, path, expanded));
    }
    assert forall|i: int| 0 <= i < rows.len() implies {
        let row = #[trigger] rows[i];
        is_shown(trees, row.path, expanded) && row == row_at(trees, row.path, expanded)
    } by {
        let rel = top.lemma_sound(trees, rows[i]);
        assert(top.row(trees, rel) == row_at(trees, rel, expanded));
        assert(top.shown(trees, rel) == is_shown(trees, rel, expanded));
    }
    assert forall|path: Seq<usize>|
        #![trigger is_shown(trees, path, expanded)]
        is_shown(trees, path, expanded) <==> rows.contains(row_at(trees, path, expanded)) by {
        assert(top.shown(trees, path) == is_shown(trees, path, expanded));
        assert(top.row(trees, path) == row_at(trees, path, expanded));
        if is_shown(trees, path, expanded) {
            top.lemma_complete(trees, path);
        }
        if rows.contains(row_at(trees, path, expanded)) {
            let i = choose|i: int| 0 <= i < rows.len() && rows[i] == row_at(trees, path, expanded);
            assert(is_shown(trees, rows[i].path, expanded));
        }
    }
    top.lemma_sorted(trees);
}

/// Expansion is by position: whether one place is expanded changes no row but
/// that of the place itself and those below it. Other places of the same symbol
/// keep their rows.
pub proof fn law_expansion_is_by_position(
    trees: Seq<Tree>,
    expanded: Set<Seq<usize>>,
    other: Set<Seq<usize>>,
    place: Seq<usize>,
    row: Row,
)
    requires
        is_countable(trees),
        differ_only_at(expanded, other, place),
        !place.is_prefix_of(row.path),
    ensures
        panel_rows(trees, expanded).contains(row) == panel_rows(trees, other).contains(row),
{
    lemma_row_survives(trees, expanded, other, place, row);
    assert(differ_only_at(other, expanded, place));
    lemma_row_survives(trees, other, expanded, place, row);
}

proof fn lemma_row_survives(
    trees: Seq<Tree>,
    expanded: Set<Seq<usize>>,
    other: Set<Seq<usize>>,
    place: Seq<usize>,
    row: Row,
)
    requires
        is_countable(trees),
        differ_only_at(expanded, other, place),
        !place.is_prefix_of(row.path),
    ensures
        panel_rows(trees, expanded).contains(row) ==> panel_rows(trees, other).contains(row),
{
    let rows = panel_rows(trees, expanded);
    if rows.contains(row) {
        law_rows_are_the_shown_places(trees, expanded);
        law_rows_are_the_shown_places(trees, other);
        let i = choose|i: int| 0 <= i < rows.len() && rows[i] == row;
        let path = row.path;
        assert(is_shown(trees, rows[i].path, expanded));
        assert(path != place) by {
            assert(place.is_prefix_of(place));
        }
        assert forall|j: int| 0 < j < path.len() implies is_open(
            trees,
            #[trigger] path.take(j),
            other,
        ) by {
            assert(is_open(trees, path.take(j), expanded));
            assert(path.take(j) != place) by {
                assert(path.take(j).is_prefix_of(path));
            }
        }
        assert(is_shown(trees, path, other));
        assert(expanded.contains(path) == other.contains(path));
        assert(row_at(trees, path, other) == row);
    }
}

/// Expanding or collapsing a row leaves it and the rows above it where they
/// are.
pub proof fn law_toggling_moves_only_rows_below(
    trees: Seq<Tree>,
    expanded: Set<Seq<usize>>,
    other: Set<Seq<usize>>,
    i: int,
)
    requires
        is_countable(trees),
        0 <= i < panel_rows(trees, expanded).len(),
        differ_only_at(expanded, other, panel_rows(trees, expanded)[i].path),
    ensures
        i < panel_rows(trees, other).len(),
        forall|j: int|
            0 <= j < i ==> #[trigger] panel_rows(trees, other)[j] == panel_rows(
                trees,
                expanded,
            )[j],
        panel_rows(trees, other)[i].path == panel_rows(trees, expanded)[i].path,
        panel_rows(trees, other)[i].recursive == panel_rows(trees, expanded)[i].recursive,
{
    let top = Spot { prefix: Seq::empty(), depth: 0, expanded, ancestors: Set::empty() };
    top.lemma_row_stays(trees, other, panel_rows(trees, expanded)[i].path, i);
    assert(top.with_expanded(other).rows(trees) == panel_rows(trees, other));
}

/// No row stands below one that is collapsed or recursive, nor below one whose
/// calls are being fetched or have not been asked for.
pub proof fn law_nothing_below_a_closed_row(
    trees: Seq<Tree>,
    expanded: Set<Seq<usize>>,
    i: int,
    j: int,
)
    requires
        is_countable(trees),
        0 <= i < panel_rows(trees, expanded).len(),
        0 <= j < panel_rows(trees, expanded).len(),
        ({
            let row = panel_rows(trees, expanded)[i];
            !row.expanded || row.recursive || row.loading || !(tree_at(
                trees,
                row.path,
            )->0.children is Loaded)
        }),
    ensures
        i == j || !panel_rows(trees, expanded)[i].path.is_prefix_of(
            panel_rows(trees, expanded)[j].path,
        ),
{
    law_rows_are_the_shown_places(trees, expanded);
    let rows = panel_rows(trees, expanded);
    let above = rows[i].path;
    let path = rows[j].path;
    if i != j && above.is_prefix_of(path) {
        if above.len() == path.len() {
            assert(above =~= path);
            if i < j {
                lemma_precedes_is_strict(rows[i].path, rows[j].path);
            } else {
                lemma_precedes_is_strict(rows[j].path, rows[i].path);
            }
        } else {
            assert(path.take(above.len() as int) =~= above);
            assert(above.len() > 0);
            assert(is_open(trees, path.take(above.len() as int), expanded));
            lemma_loaded_above(trees, path, above.len() as int);
        }
    }
}

/// A path is not read before itself.
proof fn lemma_precedes_is_strict(a: Seq<usize>, b: Seq<usize>)
    requires
        precedes(a, b),
    ensures
        a != b,
{
}

/// Every place above a tree has a tree with loaded children.
pub(crate) proof fn lemma_loaded_above(trees: Seq<Tree>, path: Seq<usize>, j: int)
    requires
        tree_at(trees, path) is Some,
        0 < j < path.len(),
    ensures
        tree_at(trees, path.take(j)) is Some,
        tree_at(trees, path.take(j))->0.children is Loaded,
    decreases path.len(),
{
    let children = trees[path[0] as int].children->Loaded_0;
    if j == 1 {
        assert(path.take(1)[0] == path[0]);
    } else {
        lemma_loaded_above(children, path.skip(1), j - 1);
        assert(path.take(j).skip(1) =~= path.skip(1).take(j - 1));
        assert(path.take(j)[0] == path[0]);
    }
}

/// Each call below an expanded row has a row of its own, one level deeper.
pub proof fn law_calls_of_an_expanded_row_are_shown(
    trees: Seq<Tree>,
    expanded: Set<Seq<usize>>,
    i: int,
    k: usize,
)
    requires
        is_countable(trees),
        0 <= i < panel_rows(trees, expanded).len(),
        panel_rows(trees, expanded)[i].expanded,
        tree_at(trees, panel_rows(trees, expanded)[i].path)->0.children is Loaded,
        k < tree_at(trees, panel_rows(trees, expanded)[i].path)->0.children->Loaded_0.len(),
    ensures
        ({
            let row = panel_rows(trees, expanded)[i];
            let path = row.path.push(k);
            let child = row_at(trees, path, expanded);
            &&& panel_rows(trees, expanded).contains(child)
            &&& child.depth == row.depth + 1
            &&& tree_at(trees, path) == Some(
                tree_at(trees, row.path)->0.children->Loaded_0[k as int],
            )
        }),
{
    law_rows_are_the_shown_places(trees, expanded);
    let row = panel_rows(trees, expanded)[i];
    let path = row.path.push(k);
    assert(is_shown(trees, row.path, expanded));
    lemma_child_of(trees, row.path, k);
    assert forall|j: int| 0 < j < path.len() implies is_open(
        trees,
        #[trigger] path.take(j),
        expanded,
    ) by {
        if j < row.path.len() {
            assert(path.take(j) =~= row.path.take(j));
        } else {
            assert(path.take(j) =~= row.path);
        }
    }
    assert(is_shown(trees, path, expanded));
}

/// One step further, a path leads to a child.
proof fn lemma_child_of(trees: Seq<Tree>, path: Seq<usize>, k: usize)
    requires
        tree_at(trees, path) is Some,
        tree_at(trees, path)->0.children is Loaded,
    ensures
        tree_at(trees, path.push(k)) == (if k < tree_at(
            trees,
            path,
        )->0.children->Loaded_0.len() {
            Some(tree_at(trees, path)->0.children->Loaded_0[k as int])
        } else {
            None
        }),
    decreases path.len(),
{
    let children = trees[path[0] as int].children->Loaded_0;
    if path.len() == 1 {
        assert(path.push(k).skip(1) =~= seq![k]);
        assert(tree_at(children, seq![k]) == (if k < children.len() {
            Some(children[k as int])
        } else {
            None
        }));
    } else {
        lemma_child_of(children, path.skip(1), k);
        assert(path.push(k).skip(1) =~= path.skip(1).push(k));
    }
}

/// No symbol stands twice among the places above a row. So a symbol that calls
/// itself is unfolded once on each way down, however deep the tree is loaded.
pub proof fn law_symbols_above_a_row_are_distinct(
    trees: Seq<Tree>,
    expanded: Set<Seq<usize>>,
    i: int,
    a: int,
    b: int,
)
    requires
        is_countable(trees),
        0 <= i < panel_rows(trees, expanded).len(),
        0 < a < b < panel_rows(trees, expanded)[i].path.len(),
    ensures
        ({
            let path = panel_rows(trees, expanded)[i].path;
            key_at(trees, path.take(a)) != key_at(trees, path.take(b))
        }),
{
    law_rows_are_the_shown_places(trees, expanded);
    let path = panel_rows(trees, expanded)[i].path;
    assert(is_shown(trees, path, expanded));
    assert(is_open(trees, path.take(b), expanded));
    assert(path.take(b).take(a) =~= path.take(a));
}

/// Asking for the calls of a row moves no row: its own row says that they are
/// loading, and nothing is put below it.
pub proof fn law_asking_moves_no_row(
    trees: Seq<Tree>,
    expanded: Set<Seq<usize>>,
    path: Seq<usize>,
)
    requires
        is_countable(trees),
        tree_at(trees, path) is Some,
        tree_at(trees, path)->0.children is NotLoaded,
    ensures
        ({
            let tree = Tree { children: Branches::Loading, ..tree_at(trees, path)->0 };
            let rows = panel_rows(trees, expanded);
            let after = panel_rows(replaced_at(trees, path, tree), expanded.insert(path));
            &&& after.len() == rows.len()
            &&& forall|i: int|
                0 <= i < rows.len() ==> #[trigger] after[i] == asked_row(rows[i], path)
        }),
{
    let top = Spot { prefix: Seq::empty(), depth: 0, expanded, ancestors: Set::empty() };
    assert(top.prefix + path =~= path);
    top.lemma_asking(trees, expanded.insert(path), path);
}

/// Each row of a walk belongs to a tree below the place where the walk starts,
/// and says of it what is so: how deep it stands, whether its calls are being
/// fetched, whether its symbol stands above it too, and whether it is expanded.
pub proof fn law_row_says_what_its_tree_says(
    trees: Seq<Tree>,
    prefix: Seq<usize>,
    depth: nat,
    expanded: Set<Seq<usize>>,
    ancestors: Set<NodeKey>,
    i: int,
)
    requires
        is_countable(trees),
        0 <= i < forest_rows(trees, prefix, depth, expanded, ancestors).len(),
    ensures
        ({
            let row = forest_rows(trees, prefix, depth, expanded, ancestors)[i];
            let rel = row.path.skip(prefix.len() as int);
            &&& prefix.is_prefix_of(row.path)
            &&& rel.len() > 0
            &&& row.depth + 1 == depth + rel.len()
            &&& tree_at(trees, rel) matches Some(tree) && {
                &&& row.loading <==> tree.children is Loading
                &&& row.recursive <==> ancestors.contains(tree.key) || exists|j: int|
                    0 < j < rel.len() && tree_at(trees, #[trigger] rel.take(j)).unwrap().key
                        == tree.key
            }
            &&& row.expanded <==> expanded.contains(row.path) && !row.recursive
        }),
{
    let spot = Spot { prefix, depth, expanded, ancestors };
    let row = forest_rows(trees, prefix, depth, expanded, ancestors)[i];
    assert(spot.rows(trees)[i] == row);
    let rel = spot.lemma_sound(trees, row);
    assert(row.path.skip(prefix.len() as int) =~= rel);
    assert(prefix =~= row.path.subrange(0, prefix.len() as int));
    let tree = tree_at(trees, rel)->0;
    if repeats_above(trees, rel) {
        let j = choose|j: int|
            0 < j < rel.len() && #[trigger] key_at(trees, rel.take(j)) == key_at(trees, rel);
        assert(tree_at(trees, rel.take(j)).unwrap().key == tree.key);
    }
    if exists|j: int|
        0 < j < rel.len() && tree_at(trees, #[trigger] rel.take(j)).unwrap().key == tree.key {
        let j = choose|j: int|
            0 < j < rel.len() && tree_at(trees, #[trigger] rel.take(j)).unwrap().key == tree.key;
        assert(key_at(trees, rel.take(j)) == key_at(trees, rel));
    }
}

/// Every place between the start of a walk and one of its rows has a row, and
/// that row is expanded.
pub proof fn law_rows_stand_below_expanded_rows(
    trees: Seq<Tree>,
    prefix: Seq<usize>,
    depth: nat,
    expanded: Set<Seq<usize>>,
    ancestors: Set<NodeKey>,
    i: int,
    n: int,
)
    requires
        is_countable(trees),
        0 <= i < forest_rows(trees, prefix, depth, expanded, ancestors).len(),
        prefix.len() < n < forest_rows(trees, prefix, depth, expanded, ancestors)[i].path.len(),
    ensures
        ({
            let rows = forest_rows(trees, prefix, depth, expanded, ancestors);
            exists|k: int|
                0 <= k < rows.len() && (#[trigger] rows[k]).expanded && rows[k].path
                    == rows[i].path.take(n)
        }),
{
    let spot = Spot { prefix, depth, expanded, ancestors };
    let rows = forest_rows(trees, prefix, depth, expanded, ancestors);
    assert(spot.rows(trees)[i] == rows[i]);
    let rel = spot.lemma_sound(trees, rows[i]);
    let part = rel.take(n - prefix.len());
    lemma_loaded_above(trees, rel, n - prefix.len());
    assert(spot.open(trees, part));
    assert forall|j: int| 0 < j < part.len() implies spot.open(trees, #[trigger] part.take(j)) by {
        assert(part.take(j) =~= rel.take(j));
        assert(spot.open(trees, rel.take(j)));
    }
    spot.lemma_complete(trees, part);
    let row = spot.row(trees, part);
    let k = choose|k: int| 0 <= k < spot.rows(trees).len() && spot.rows(trees)[k] == row;
    assert(rows[k] == row);
    assert(prefix + part =~= rows[i].path.take(n));
}

/// Every tree at which a walk starts has a row.
pub proof fn law_every_top_tree_has_a_row(
    trees: Seq<Tree>,
    prefix: Seq<usize>,
    depth: nat,
    expanded: Set<Seq<usize>>,
    ancestors: Set<NodeKey>,
    t: usize,
)
    requires
        is_countable(trees),
        t < trees.len(),
    ensures
        ({
            let rows = forest_rows(trees, prefix, depth, expanded, ancestors);
            exists|k: int| 0 <= k < rows.len() && (#[trigger] rows[k]).path == prefix.push(t)
        }),
{
    let spot = Spot { prefix, depth, expanded, ancestors };
    let rows = forest_rows(trees, prefix, depth, expanded, ancestors);
    spot.lemma_own_row(trees, t as int);
    spot.lemma_contains_rows_of_tree(trees, t as int, 0);
    let row = spot.own_row(trees, t as int);
    let k = choose|k: int| 0 <= k < spot.rows(trees).len() && spot.rows(trees)[k] == row;
    assert(rows[k].path == prefix.push(t));
}

/// Every child of an expanded row has a row.
pub proof fn law_every_child_of_an_expanded_row_has_a_row(
    trees: Seq<Tree>,
    prefix: Seq<usize>,
    depth: nat,
    expanded: Set<Seq<usize>>,
    ancestors: Set<NodeKey>,
    i: int,
    c: usize,
)
    requires
        is_countable(trees),
        0 <= i < forest_rows(trees, prefix, depth, expanded, ancestors).len(),
        ({
            let row = forest_rows(trees, prefix, depth, expanded, ancestors)[i];
            let rel = row.path.skip(prefix.len() as int);
            &&& row.expanded
            &&& tree_at(trees, rel)->0.children matches Branches::Loaded(children) && c
                < children.len()
        }),
    ensures
        ({
            let rows = forest_rows(trees, prefix, depth, expanded, ancestors);
            exists|k: int| 0 <= k < rows.len() && (#[trigger] rows[k]).path == rows[i].path.push(c)
        }),
{
    let spot = Spot { prefix, depth, expanded, ancestors };
    let rows = forest_rows(trees, prefix, depth, expanded, ancestors);
    assert(spot.rows(trees)[i] == rows[i]);
    let rel = spot.lemma_sound(trees, rows[i]);
    assert(rows[i].path.skip(prefix.len() as int) =~= rel);
    let longer = rel.push(c);
    lemma_child_of(trees, rel, c);
    assert forall|j: int| 0 < j < longer.len() implies spot.open(
        trees,
        #[trigger] longer.take(j),
    ) by {
        if j < rel.len() {
            assert(longer.take(j) =~= rel.take(j));
            assert(spot.open(trees, rel.take(j)));
        } else {
            assert(longer.take(j) =~= rel);
        }
    }
    spot.lemma_complete(trees, longer);
    let row = spot.row(trees, longer);
    let k = choose|k: int| 0 <= k < spot.rows(trees).len() && spot.rows(trees)[k] == row;
    assert(rows[k] == row);
    assert(prefix + longer =~= rows[i].path.push(c));
}

/// Of two rows of a walk the upper one stands above the lower one in the tree,
/// or at a smaller number where their paths part.
pub proof fn law_rows_are_in_reading_order(
    trees: Seq<Tree>,
    prefix: Seq<usize>,
    depth: nat,
    expanded: Set<Seq<usize>>,
    ancestors: Set<NodeKey>,
    i: int,
    j: int,
)
    requires
        is_countable(trees),
        0 <= i < j < forest_rows(trees, prefix, depth, expanded, ancestors).len(),
    ensures
        ({
            let rows = forest_rows(trees, prefix, depth, expanded, ancestors);
            exists|n: int|
                {
                    &&& 0 <= n <= rows[i].path.len()
                    &&& n < rows[j].path.len()
                    &&& #[trigger] rows[i].path.take(n) == rows[j].path.take(n)
                    &&& n == rows[i].path.len() || rows[i].path[n] < rows[j].path[n]
                }
        }),
{
    let spot = Spot { prefix, depth, expanded, ancestors };
    let rows = forest_rows(trees, prefix, depth, expanded, ancestors);
    spot.lemma_sorted(trees);
    assert(spot.rows(trees) == rows);
    assert(precedes(rows[i].path, rows[j].path));
}

} // verus!
