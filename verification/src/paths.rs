//! Sets and maps keyed by a place in the tree or by a symbol.
//!
//! Each keeps its members in a list in which nothing occurs twice.

use crate::symbol::NodeKey;
use vstd::prelude::*;

verus! {

/// Whether two paths are the same.
fn same_path(a: &[usize], b: &[usize]) -> (same: bool)
    ensures
        same == (a@ == b@),
{
    if a.len() != b.len() {
        return false;
    }
    let mut i: usize = 0;
    while i < a.len()
        invariant
            i <= a@.len(),
            a@.len() == b@.len(),
            forall|j: int| 0 <= j < i ==> a@[j] == b@[j],
        decreases a@.len() - i,
    {
        if a[i] != b[i] {
            return false;
        }
        i += 1;
    }
    assert(a@ =~= b@);
    true
}

/// A copy of a path.
pub(crate) fn copy_path(path: &Vec<usize>) -> (copy: Vec<usize>)
    ensures
        copy@ == path@,
{
    let copy = path.clone();
    assert(copy@ =~= path@);
    copy
}

/// The first place at which `path` stands among `paths`.
fn position(paths: &Vec<Vec<usize>>, path: &[usize]) -> (found: Option<usize>)
    ensures
        found matches Some(i) ==> i < paths@.len() && paths@[i as int]@ == path@,
        found is None ==> forall|i: int| 0 <= i < paths@.len() ==> #[trigger] paths@[i]@ != path@,
{
    let mut i: usize = 0;
    while i < paths.len()
        invariant
            i <= paths@.len(),
            forall|j: int| 0 <= j < i ==> #[trigger] paths@[j]@ != path@,
        decreases paths@.len() - i,
    {
        if same_path(paths[i].as_slice(), path) {
            return Some(i);
        }
        i += 1;
    }
    None
}

/// No path stands twice among `paths`.
spec fn distinct(paths: Seq<Vec<usize>>) -> bool {
    forall|i: int, j: int|
        0 <= i < j < paths.len() ==> #[trigger] paths[i]@ != #[trigger] paths[j]@
}

/// A set of places in the tree.
#[derive(Debug)]
pub struct PathSet {
    paths: Vec<Vec<usize>>,
}

impl View for PathSet {
    type V = Set<Seq<usize>>;

    closed spec fn view(&self) -> Set<Seq<usize>> {
        Set::new(
            |path: Seq<usize>|
                exists|i: int| 0 <= i < self.paths@.len() && #[trigger] self.paths@[i]@ == path,
        )
    }
}

impl PathSet {
    #[verifier::type_invariant]
    spec fn inv(self) -> bool {
        distinct(self.paths@)
    }

    /// The empty set.
    pub fn new() -> (set: Self)
        ensures
            set@ == Set::<Seq<usize>>::empty(),
    {
        let set = PathSet { paths: Vec::new() };
        assert(set@ =~= Set::<Seq<usize>>::empty());
        set
    }

    /// Whether `path` is in the set.
    pub fn contains(&self, path: &[usize]) -> (found: bool)
        ensures
            found == self@.contains(path@),
    {
        position(&self.paths, path).is_some()
    }

    /// Adds `path`. Says whether it is new.
    pub fn insert(&mut self, path: Vec<usize>) -> (added: bool)
        ensures
            final(self)@ == old(self)@.insert(path@),
            added == !old(self)@.contains(path@),
    {
        proof {
            use_type_invariant(&*self);
        }
        let ghost before = self.paths@;
        if position(&self.paths, path.as_slice()).is_some() {
            assert(self@.insert(path@) =~= self@);
            return false;
        }
        let ghost added = path@;
        let mut paths: Vec<Vec<usize>> = Vec::new();
        core::mem::swap(&mut paths, &mut self.paths);
        paths.push(path);
        self.paths = paths;
        assert(self@ =~= old(self)@.insert(added)) by {
            assert(self.paths@[before.len() as int]@ == added);
            assert forall|i: int| 0 <= i < before.len() implies #[trigger] before[i]
                == self.paths@[i] by {}
        }
        true
    }

    /// Takes `path` out. Says whether it was there.
    pub fn remove(&mut self, path: &[usize]) -> (removed: bool)
        ensures
            final(self)@ == old(self)@.remove(path@),
            removed == old(self)@.contains(path@),
    {
        proof {
            use_type_invariant(&*self);
        }
        let ghost before = self.paths@;
        match position(&self.paths, path) {
            Some(i) => {
                let mut paths: Vec<Vec<usize>> = Vec::new();
                core::mem::swap(&mut paths, &mut self.paths);
                let _ = paths.remove(i);
                self.paths = paths;
                assert(self@ =~= old(self)@.remove(path@)) by {
                    assert forall|k: int| 0 <= k < before.len() && k != i implies #[trigger] before[k]
                        == self.paths@[if k < i { k } else { k - 1 }] by {}
                }
                true
            },
            None => {
                assert(self@.remove(path@) =~= self@);
                false
            },
        }
    }

    /// Takes every path out.
    pub fn clear(&mut self)
        ensures
            final(self)@ == Set::<Seq<usize>>::empty(),
    {
        self.paths = Vec::new();
        assert(self@ =~= Set::<Seq<usize>>::empty());
    }
}

/// A set of symbols.
#[derive(Debug)]
pub struct KeySet {
    keys: Vec<NodeKey>,
}

impl View for KeySet {
    type V = Set<NodeKey>;

    closed spec fn view(&self) -> Set<NodeKey> {
        self.keys@.to_set()
    }
}

impl KeySet {
    #[verifier::type_invariant]
    spec fn inv(self) -> bool {
        self.keys@.no_duplicates()
    }

    /// The empty set.
    pub fn new() -> (set: Self)
        ensures
            set@ == Set::<NodeKey>::empty(),
    {
        let set = KeySet { keys: Vec::new() };
        assert(set@ =~= Set::<NodeKey>::empty());
        set
    }

    /// The first place at which `key` stands.
    fn position(&self, key: &NodeKey) -> (found: Option<usize>)
        ensures
            found matches Some(i) ==> i < self.keys@.len() && self.keys@[i as int] == *key,
            found is None ==> !self.keys@.contains(*key),
    {
        let mut i: usize = 0;
        while i < self.keys.len()
            invariant
                i <= self.keys@.len(),
                forall|j: int| 0 <= j < i ==> self.keys@[j] != *key,
            decreases self.keys@.len() - i,
        {
            if self.keys[i] == *key {
                return Some(i);
            }
            i += 1;
        }
        None
    }

    /// Whether `key` is in the set.
    pub fn contains(&self, key: &NodeKey) -> (found: bool)
        ensures
            found == self@.contains(*key),
    {
        self.position(key).is_some()
    }

    /// Adds `key`. Says whether it is new.
    pub fn insert(&mut self, key: NodeKey) -> (added: bool)
        ensures
            final(self)@ == old(self)@.insert(key),
            added == !old(self)@.contains(key),
    {
        proof {
            use_type_invariant(&*self);
        }
        let ghost before = self.keys@;
        if self.contains(&key) {
            assert(self@.insert(key) =~= self@);
            return false;
        }
        let mut keys: Vec<NodeKey> = Vec::new();
        core::mem::swap(&mut keys, &mut self.keys);
        keys.push(key);
        self.keys = keys;
        assert(self@ =~= old(self)@.insert(key)) by {
            assert(self.keys@[before.len() as int] == key);
            assert forall|i: int| 0 <= i < before.len() implies #[trigger] before[i]
                == self.keys@[i] by {}
        }
        true
    }

    /// Takes `key` out. Says whether it was there.
    pub fn remove(&mut self, key: &NodeKey) -> (removed: bool)
        ensures
            final(self)@ == old(self)@.remove(*key),
            removed == old(self)@.contains(*key),
    {
        proof {
            use_type_invariant(&*self);
        }
        let ghost before = self.keys@;
        match self.position(key) {
            Some(i) => {
                let mut keys: Vec<NodeKey> = Vec::new();
                core::mem::swap(&mut keys, &mut self.keys);
                let _ = keys.remove(i);
                self.keys = keys;
                assert(self@ =~= old(self)@.remove(*key)) by {
                    assert forall|k: int| 0 <= k < before.len() && k != i implies #[trigger] before[k]
                        == self.keys@[if k < i { k } else { k - 1 }] by {}
                }
                true
            },
            None => {
                assert(self@.remove(*key) =~= self@);
                false
            },
        }
    }
}

/// The fetches that have been started, by the place in the tree that each is
/// to fill.
#[derive(Debug)]
pub struct TaskMap {
    paths: Vec<Vec<usize>>,
    tasks: Vec<u64>,
}

impl View for TaskMap {
    type V = Map<Seq<usize>, u64>;

    closed spec fn view(&self) -> Map<Seq<usize>, u64> {
        Map::new(
            |path: Seq<usize>|
                exists|i: int| 0 <= i < self.paths@.len() && #[trigger] self.paths@[i]@ == path,
            |path: Seq<usize>|
                {
                    let i = choose|i: int|
                        0 <= i < self.paths@.len() && #[trigger] self.paths@[i]@ == path;
                    self.tasks@[i]
                },
        )
    }
}

impl TaskMap {
    #[verifier::type_invariant]
    spec fn inv(self) -> bool {
        &&& distinct(self.paths@)
        &&& self.tasks@.len() == self.paths@.len()
    }

    /// Each path is mapped to the fetch that stands beside it.
    proof fn lemma_view_at(&self, i: int)
        requires
            self.inv(),
            0 <= i < self.paths@.len(),
        ensures
            self@.contains_key(self.paths@[i]@),
            self@[self.paths@[i]@] == self.tasks@[i],
    {
    }

    /// The map without fetches.
    pub fn new() -> (map: Self)
        ensures
            map@ == Map::<Seq<usize>, u64>::empty(),
    {
        let map = TaskMap { paths: Vec::new(), tasks: Vec::new() };
        assert(map@ =~= Map::<Seq<usize>, u64>::empty());
        map
    }

    /// The fetch for `path`.
    pub fn get(&self, path: &[usize]) -> (task: Option<u64>)
        ensures
            task == (if self@.contains_key(path@) {
                Some(self@[path@])
            } else {
                None
            }),
    {
        proof {
            use_type_invariant(self);
        }
        match position(&self.paths, path) {
            Some(i) => {
                assert(self.paths@[i as int]@ == path@);
                Some(self.tasks[i])
            },
            None => None,
        }
    }

    /// Makes `task` the fetch for `path`, in place of an earlier one.
    pub fn insert(&mut self, path: Vec<usize>, task: u64)
        ensures
            final(self)@ == old(self)@.insert(path@, task),
    {
        proof {
            use_type_invariant(&*self);
        }
        let ghost before = self.paths@;
        let ghost key = path@;
        let found = position(&self.paths, path.as_slice());
        let mut map = TaskMap::new();
        core::mem::swap(&mut map, self);
        let TaskMap { paths: mut paths, tasks: mut tasks } = map;
        match found {
            Some(i) => {
                tasks[i] = task;
            },
            None => {
                paths.push(path);
                tasks.push(task);
            },
        }
        *self = TaskMap { paths, tasks };
        proof {
            let place = if found is Some { found->0 as int } else { before.len() as int };
            assert(self.paths@[place]@ == key);
            assert forall|other: Seq<usize>| #[trigger] self@.contains_key(other) == old(
                self,
            )@.insert(key, task).contains_key(other) by {
                if old(self)@.contains_key(other) {
                    let i = choose|i: int| 0 <= i < before.len() && #[trigger] before[i]@ == other;
                    assert(self.paths@[i]@ == other);
                }
            }
            assert forall|other: Seq<usize>| #[trigger] self@.contains_key(other) implies self@[other]
                == old(self)@.insert(key, task)[other] by {
                let i = choose|i: int|
                    0 <= i < self.paths@.len() && #[trigger] self.paths@[i]@ == other;
                self.lemma_view_at(i);
                if other != key {
                    assert(before[i]@ == other);
                    old(self).lemma_view_at(i);
                }
            }
            assert(self@ =~= old(self)@.insert(key, task));
        }
    }

    /// Drops the fetch for `path`.
    pub fn remove(&mut self, path: &[usize])
        ensures
            final(self)@ == old(self)@.remove(path@),
    {
        proof {
            use_type_invariant(&*self);
        }
        let ghost before = self.paths@;
        let found = position(&self.paths, path);
        let mut map = TaskMap::new();
        core::mem::swap(&mut map, self);
        let TaskMap { paths: mut paths, tasks: mut tasks } = map;
        if let Some(i) = found {
            let _ = paths.remove(i);
            let _ = tasks.remove(i);
        }
        *self = TaskMap { paths, tasks };
        proof {
            let at = if found is Some { found->0 as int } else { before.len() as int };
            assert forall|k: int| 0 <= k < before.len() && k != at implies #[trigger] before[k]
                == self.paths@[if k < at { k } else { k - 1 }] by {}
            assert forall|other: Seq<usize>| #[trigger] self@.contains_key(other) == old(
                self,
            )@.remove(path@).contains_key(other) by {
                if old(self)@.contains_key(other) {
                    let k = choose|k: int| 0 <= k < before.len() && #[trigger] before[k]@ == other;
                    if k != at {
                        assert(self.paths@[if k < at { k } else { k - 1 }]@ == other);
                    }
                }
                if self@.contains_key(other) {
                    let m = choose|m: int|
                        0 <= m < self.paths@.len() && #[trigger] self.paths@[m]@ == other;
                    let k = if m < at { m } else { m + 1 };
                    assert(before[k]@ == other);
                }
            }
            assert forall|other: Seq<usize>| #[trigger] self@.contains_key(other) implies self@[other]
                == old(self)@.remove(path@)[other] by {
                let m = choose|m: int|
                    0 <= m < self.paths@.len() && #[trigger] self.paths@[m]@ == other;
                let k = if m < at { m } else { m + 1 };
                assert(before[k]@ == other);
                self.lemma_view_at(m);
                old(self).lemma_view_at(k);
            }
            assert(self@ =~= old(self)@.remove(path@));
        }
    }

    /// Drops every fetch.
    pub fn clear(&mut self)
        ensures
            final(self)@ == Map::<Seq<usize>, u64>::empty(),
    {
        *self = TaskMap::new();
    }
}

} // verus!
