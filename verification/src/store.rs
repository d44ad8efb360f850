//! The dependency store: each node with the set of nodes it was declared to depend on.
//!
//! The store numbers its nodes as they come in, from zero on. A traversal uses the number
//! of a node as its handle, so that it finds the handle of a dependency with one lookup.

use crate::cycles::lemma_stuck_means_cycle;
use crate::error::CycleError;
use crate::graph::{has_cycle, is_progress, is_topological_order};
use crate::entries::into_entries;
use crate::into_iter::IntoTopoSortIter;
use crate::iter::{TopoSortIter, TopoSortNodeIter};
use crate::laws::{lemma_progress_sorts, lemma_progress_start, lemma_progress_step};
use std::collections::{HashMap, HashSet};
use std::hash::Hash;
use vstd::prelude::*;
use vstd::std_specs::hash::obeys_key_model;

verus! {

/// The store that a map of hash sets stands for.
pub open spec fn declared<T>(nodes: Map<T, HashSet<T>>) -> Map<T, Set<T>> {
    nodes.map_values(|depends: HashSet<T>| depends@)
}

/// The store that a map of numbered hash sets stands for.
pub open spec fn store_of<T>(nodes: Map<T, (usize, HashSet<T>)>) -> Map<T, Set<T>> {
    nodes.map_values(|entry: (usize, HashSet<T>)| entry.1@)
}

/// Some node has the number `id`.
pub open spec fn is_taken<T>(nodes: Map<T, (usize, HashSet<T>)>, id: int) -> bool {
    exists|node: T| nodes.contains_key(node) && (#[trigger] nodes[node]).0 == id
}

/// The nodes are numbered from zero on: each has a number below the number of nodes, no
/// two have the same, and each number below the number of nodes is taken.
pub open spec fn is_numbered<T>(nodes: Map<T, (usize, HashSet<T>)>) -> bool {
    &&& nodes.dom().finite()
    &&& forall|node: T| nodes.contains_key(node) ==> (#[trigger] nodes[node]).0 < nodes.dom().len()
    &&& forall|node: T, other: T|
        nodes.contains_key(node) && nodes.contains_key(other) && (#[trigger] nodes[node]).0 == (
        #[trigger] nodes[other]).0 ==> node == other
    &&& forall|id: int| 0 <= id < nodes.dom().len() ==> #[trigger] is_taken(nodes, id)
}

/// `set` holds a clone of each of `items`, and nothing else.
pub open spec fn is_clone_set<T: Clone>(items: Seq<T>, set: Set<T>) -> bool {
    &&& forall|i: int|
        0 <= i < items.len() ==> exists|x: T| set.contains(x) && cloned(#[trigger] items[i], x)
    &&& forall|x: T| #[trigger]
        set.contains(x) ==> exists|i: int| 0 <= i < items.len() && cloned(#[trigger] items[i], x)
}

/// `clones` holds a clone of each of `items`, in the same order.
pub open spec fn is_clone_seq<T: Clone>(items: Seq<T>, clones: Seq<T>) -> bool {
    &&& items.len() == clones.len()
    &&& forall|i: int| 0 <= i < items.len() ==> cloned(#[trigger] items[i], clones[i])
}

/// A collection that maps nodes to their dependencies. Sorting is lazy: it happens while a
/// traversal started from the collection is stepped.
pub struct TopoSort<T> {
    // node -> (number, declared dependencies)
    node_depends: HashMap<T, (usize, HashSet<T>)>,
}

impl<T> TopoSort<T> {
    /// The invariant: the nodes are numbered from zero on.
    #[verifier::type_invariant]
    spec fn numbered(self) -> bool {
        is_numbered(self.node_depends@)
    }
}

impl<T> View for TopoSort<T> {
    type V = Map<T, Set<T>>;

    closed spec fn view(&self) -> Map<T, Set<T>> {
        store_of(self.node_depends@)
    }
}

impl<T: Eq + Hash> Default for TopoSort<T> {
    fn default() -> (s: Self)
        ensures
            s@ == Map::<T, Set<T>>::empty(),
    {
        TopoSort::new()
    }
}

impl<T: Clone> Clone for TopoSort<T> {
    fn clone(&self) -> (s: Self)
        ensures
            s@ == self@,
    {
        proof {
            use_type_invariant(self);
        }
        TopoSort { node_depends: self.node_depends.clone() }
    }
}

impl<T: Eq + Hash> TopoSort<T> {
    /// An empty store that allocates nothing until the first insertion.
    pub fn new() -> (s: Self)
        ensures
            s@ == Map::<T, Set<T>>::empty(),
    {
        let s = TopoSort { node_depends: HashMap::new() };
        assert(s@ =~= Map::<T, Set<T>>::empty());
        s
    }

    /// A store made of a map: each key is a node, its set the node's dependencies.
    pub fn from_map(nodes: HashMap<T, HashSet<T>>) -> (s: Self)
        requires
            obeys_key_model::<T>(),
        ensures
            s@ == declared(nodes@),
    {
        let entries = into_entries(nodes);
        let ghost listed = entries@;
        let len = entries.len();
        let mut numbered: HashMap<T, (usize, HashSet<T>)> = HashMap::with_capacity(len);
        let mut id: usize = 0;
        for entry in it: entries
            invariant
                obeys_key_model::<T>(),
                it.seq() == listed,
                listed.len() == len,
                id == it.index(),
                forall|i: int, j: int|
                    0 <= i < listed.len() && 0 <= j < listed.len() && i != j ==> (
                    #[trigger] listed[i]).0 != (#[trigger] listed[j]).0,
                numbered@.dom().finite(),
                numbered@.dom().len() == id,
                forall|node: T|
                    numbered@.contains_key(node) <==> exists|m: int|
                        0 <= m < id && (#[trigger] listed[m]).0 == node,
                forall|m: int|
                    0 <= m < id ==> numbered@[(#[trigger] listed[m]).0] == (m as usize, listed[m].1),
        {
            let ghost before = numbered@;
            proof {
                if before.contains_key(entry.0) {
                    let m = choose|m: int| 0 <= m < id && (#[trigger] listed[m]).0 == entry.0;
                    assert(listed[m].0 != listed[id as int].0);
                }
                assert(!before.contains_key(entry.0));
            }
            numbered.insert(entry.0, (id, entry.1));
            proof {
                assert(numbered@.dom() =~= before.dom().insert(entry.0));
                assert forall|node: T| numbered@.contains_key(node) implies exists|m: int|
                    0 <= m < id + 1 && (#[trigger] listed[m]).0 == node by {
                    if node == entry.0 {
                        assert(listed[id as int].0 == node);
                    } else {
                        let m = choose|m: int| 0 <= m < id && (#[trigger] listed[m]).0 == node;
                        assert(listed[m].0 == node);
                    }
                }
                assert forall|m: int| 0 <= m < id + 1 implies numbered@[(#[trigger] listed[m]).0] == (
                    m as usize,
                    listed[m].1,
                ) by {
                    if m < id {
                        assert(listed[m].0 != listed[id as int].0);
                    }
                }
            }
            id = id + 1;
        }
        proof {
            assert forall|node: T| numbered@.contains_key(node) implies (
            #[trigger] numbered@[node]).0 < numbered@.dom().len() by {
                let m = choose|m: int| 0 <= m < id && (#[trigger] listed[m]).0 == node;
                assert(numbered@[listed[m].0].0 == m);
            }
            assert forall|node: T, other: T|
                numbered@.contains_key(node) && numbered@.contains_key(other) && (
                #[trigger] numbered@[node]).0 == (#[trigger] numbered@[other]).0 implies node
                == other by {
                let m = choose|m: int| 0 <= m < id && (#[trigger] listed[m]).0 == node;
                let n = choose|n: int| 0 <= n < id && (#[trigger] listed[n]).0 == other;
                assert(numbered@[listed[m].0].0 == m);
                assert(numbered@[listed[n].0].0 == n);
            }
            assert forall|i: int| 0 <= i < numbered@.dom().len() implies #[trigger] is_taken(
                numbered@,
                i,
            ) by {
                assert(numbered@.contains_key(listed[i].0) && numbered@[listed[i].0].0 == i);
            }
            assert forall|node: T| numbered@.contains_key(node) implies nodes@.contains_key(node)
                && store_of(numbered@)[node] == declared(nodes@)[node] by {
                let m = choose|m: int| 0 <= m < id && (#[trigger] listed[m]).0 == node;
                assert(numbered@[listed[m].0].1 == listed[m].1);
            }
            assert forall|node: T| nodes@.contains_key(node) implies numbered@.contains_key(
                node,
            ) by {
                let m = choose|m: int| 0 <= m < listed.len() && (#[trigger] listed[m]).0 == node;
                assert(listed[m].0 == node);
            }
            assert(store_of(numbered@) =~= declared(nodes@));
        }
        TopoSort { node_depends: numbered }
    }

    /// An empty store with room for `capacity` nodes.
    pub fn with_capacity(capacity: usize) -> (s: Self)
        ensures
            s@ == Map::<T, Set<T>>::empty(),
    {
        let s = TopoSort { node_depends: HashMap::with_capacity(capacity) };
        assert(s@ =~= Map::<T, Set<T>>::empty());
        s
    }

    /// Sets the dependencies of `node` to clones of the items of `slice`, in place of any
    /// that it had.
    pub fn insert_from_slice(&mut self, node: T, slice: &[T]) where T: Clone
        requires
            obeys_key_model::<T>(),
        ensures
            final(self)@ == old(self)@.insert(node, final(self)@[node]),
            is_clone_set(slice@, final(self)@[node]),
    {
        let mut depends: HashSet<T> = HashSet::new();
        let mut i: usize = 0;
        while i < slice.len()
            invariant
                0 <= i <= slice@.len(),
                obeys_key_model::<T>(),
                is_clone_set(slice@.take(i as int), depends@),
            decreases slice@.len() - i,
        {
            let ghost before = depends@;
            let item = slice[i].clone();
            depends.insert(item);
            proof {
                let taken = slice@.take(i as int);
                let grown = slice@.take(i as int + 1);
                assert(cloned(slice@[i as int], item));
                assert forall|k: int| 0 <= k < grown.len() implies exists|x: T|
                    depends@.contains(x) && cloned(#[trigger] grown[k], x) by {
                    if k < i {
                        assert(taken[k] == grown[k]);
                        let x = choose|x: T| before.contains(x) && cloned(taken[k], x);
                        assert(depends@.contains(x));
                    } else {
                        assert(depends@.contains(item));
                    }
                }
                assert forall|x: T| #[trigger] depends@.contains(x) implies exists|k: int|
                    0 <= k < grown.len() && cloned(#[trigger] grown[k], x) by {
                    if before.contains(x) {
                        let k = choose|k: int| 0 <= k < taken.len() && cloned(#[trigger] taken[k], x);
                        assert(grown[k] == taken[k]);
                    } else {
                        assert(grown[i as int] == slice@[i as int]);
                    }
                }
            }
            i = i + 1;
        }
        proof {
            assert(slice@.take(i as int) =~= slice@);
        }
        self.insert_from_set(node, depends);
        proof {
            assert(self@[node] == depends@);
        }
    }

    /// Sets the dependencies of `node` to `depends`, in place of any that it had.
    pub fn insert_from_set(&mut self, node: T, depends: HashSet<T>)
        requires
            obeys_key_model::<T>(),
        ensures
            final(self)@ == old(self)@.insert(node, depends@),
    {
        proof {
            use_type_invariant(&*self);
        }
        let mut nodes = HashMap::new();
        std::mem::swap(&mut nodes, &mut self.node_depends);
        let ghost before = nodes@;
        // a node that is replaced keeps its number, a new one gets the next
        let id = match nodes.get(&node) {
            Some(entry) => entry.0,
            None => nodes.len(),
        };
        nodes.insert(node, (id, depends));
        proof {
            if before.contains_key(node) {
                assert(nodes@.dom() =~= before.dom());
            } else {
                assert(nodes@.dom() =~= before.dom().insert(node));
            }
            assert forall|i: int| 0 <= i < nodes@.dom().len() implies #[trigger] is_taken(
                nodes@,
                i,
            ) by {
                if i == id {
                    assert(nodes@.contains_key(node) && nodes@[node].0 == i);
                } else {
                    assert(is_taken(before, i));
                    let k = choose|k: T| before.contains_key(k) && (#[trigger] before[k]).0 == i;
                    assert(nodes@.contains_key(k) && nodes@[k].0 == i);
                }
            }
        }
        self.node_depends = nodes;
        assert(self@ =~= old(self)@.insert(node, depends@));
    }

    /// Sets the dependencies of `node` to the items of `depends`, in place of any that it
    /// had. An item that occurs more than once counts once.
    pub fn insert(&mut self, node: T, depends: Vec<T>)
        requires
            obeys_key_model::<T>(),
        ensures
            final(self)@ == old(self)@.insert(node, depends@.to_set()),
    {
        let ghost items = depends@;
        let mut set: HashSet<T> = HashSet::with_capacity(depends.len());
        for item in it: depends
            invariant
                obeys_key_model::<T>(),
                it.seq() == items,
                set@ == items.take(it.index()).to_set(),
        {
            let ghost taken = items.take(it.index());
            set.insert(item);
            proof {
                let grown = items.take(it.index() + 1);
                assert(grown =~= taken.push(item));
                assert forall|x: T| grown.to_set().contains(x) implies taken.to_set().insert(
                    item,
                ).contains(x) by {
                    let k = choose|k: int| 0 <= k < grown.len() && grown[k] == x;
                    if k < taken.len() {
                        assert(taken[k] == x);
                    }
                }
                assert forall|x: T| taken.to_set().insert(item).contains(x) implies grown.to_set().contains(
                    x,
                ) by {
                    if x == item {
                        assert(grown[taken.len() as int] == x);
                    } else {
                        let k = choose|k: int| 0 <= k < taken.len() && taken[k] == x;
                        assert(grown[k] == x);
                    }
                }
                assert(set@ =~= grown.to_set());
            }
        }
        proof {
            assert(items.take(items.len() as int) =~= items);
        }
        self.insert_from_set(node, set);
    }

    /// Starts the sort and returns a traversal that yields the nodes.
    pub fn nodes(&self) -> (r: TopoSortNodeIter<'_, T>)
        requires
            obeys_key_model::<T>(),
        ensures
            r.store() == self@,
            r.remaining() == self@.dom(),
            r.remaining().finite(),
    {
        proof {
            use_type_invariant(self);
        }
        TopoSortNodeIter::new(&self.node_depends)
    }

    /// Starts the sort and returns a traversal that yields each node with the set of its
    /// declared dependencies.
    pub fn iter(&self) -> (r: TopoSortIter<'_, T>)
        requires
            obeys_key_model::<T>(),
        ensures
            r.store() == self@,
            r.remaining() == self@.dom(),
            r.remaining().finite(),
    {
        proof {
            use_type_invariant(self);
        }
        TopoSortIter::new(&self.node_depends)
    }

    /// Gives the store away to a traversal that hands out each node with the set of its
    /// declared dependencies.
    pub fn into_iter(self) -> (r: IntoTopoSortIter<T>)
        requires
            obeys_key_model::<T>(),
        ensures
            r.store() == self@,
            r.remaining() == self@.dom(),
            r.remaining().finite(),
            r.held() == self@,
    {
        proof {
            use_type_invariant(&self);
        }
        IntoTopoSortIter::new(self.node_depends)
    }

    /// Sorts, and returns the nodes, borrowed, each after the nodes it depends on. If the
    /// store has a cycle, the error is returned instead and nothing else.
    pub fn try_vec(&self) -> (r: Result<Vec<&T>, CycleError>)
        requires
            obeys_key_model::<T>(),
        ensures
            r is Err <==> has_cycle(self@),
            r matches Ok(order) ==> is_topological_order(self@, order@.unref()),
    {
        let mut it = self.nodes();
        let mut order: Vec<&T> = Vec::new();
        proof {
            lemma_progress_start(self@, self@.dom());
            assert(order@.unref() =~= Seq::<T>::empty());
        }
        loop
            invariant
                it.store() == self@,
                it.remaining().finite(),
                is_progress(self@, self@.dom(), order@.unref(), it.remaining()),
            decreases it.remaining().len(),
        {
            let ghost waiting = it.remaining();
            let ghost earlier = order@.unref();
            match it.next() {
                Some(Ok(node)) => {
                    order.push(node);
                    proof {
                        lemma_progress_step(self@, self@.dom(), earlier, waiting, *node);
                        assert(order@.unref() =~= earlier.push(*node));
                    }
                },
                Some(Err(e)) => {
                    proof {
                        lemma_stuck_means_cycle(self@, waiting);
                    }
                    return Err(e);
                },
                None => {
                    proof {
                        lemma_progress_sorts(self@, earlier);
                    }
                    return Ok(order);
                },
            }
        }
    }

    /// Sorts, and returns clones of the nodes, each after the nodes it depends on. If the
    /// store has a cycle, the error is returned instead and nothing else.
    pub fn try_owned_vec(&self) -> (r: Result<Vec<T>, CycleError>) where T: Clone
        requires
            obeys_key_model::<T>(),
        ensures
            r is Err <==> has_cycle(self@),
            r matches Ok(clones) ==> exists|order: Seq<T>|
                is_topological_order(self@, order) && is_clone_seq(order, clones@),
    {
        let mut it = self.nodes();
        let mut clones: Vec<T> = Vec::new();
        let ghost mut order: Seq<T> = Seq::empty();
        proof {
            lemma_progress_start(self@, self@.dom());
        }
        loop
            invariant
                it.store() == self@,
                it.remaining().finite(),
                is_progress(self@, self@.dom(), order, it.remaining()),
                is_clone_seq(order, clones@),
            decreases it.remaining().len(),
        {
            let ghost waiting = it.remaining();
            match it.next() {
                Some(Ok(node)) => {
                    clones.push(node.clone());
                    proof {
                        lemma_progress_step(self@, self@.dom(), order, waiting, *node);
                        order = order.push(*node);
                    }
                },
                Some(Err(e)) => {
                    proof {
                        lemma_stuck_means_cycle(self@, waiting);
                    }
                    return Err(e);
                },
                None => {
                    proof {
                        lemma_progress_sorts(self@, order);
                    }
                    return Ok(clones);
                },
            }
        }
    }

    /// Whether no node has been added.
    pub fn is_empty(&self) -> (r: bool)
        ensures
            r == self@.dom().is_empty(),
    {
        assert(self@.dom() =~= self.node_depends@.dom());
        self.node_depends.is_empty()
    }

    /// The number of nodes added.
    pub fn len(&self) -> (r: usize)
        requires
            obeys_key_model::<T>(),
        ensures
            r == self@.dom().len(),
    {
        assert(self@.dom() =~= self.node_depends@.dom());
        self.node_depends.len()
    }

    /// The dependencies of `node` as they were inserted, if `node` has been added.
    pub fn get(&self, node: &T) -> (r: Option<&HashSet<T>>)
        requires
            obeys_key_model::<T>(),
        ensures
            match r {
                Some(depends) => self@.contains_key(*node) && depends@ == self@[*node],
                None => !self@.contains_key(*node),
            },
    {
        match self.node_depends.get(node) {
            Some(entry) => Some(&entry.1),
            None => None,
        }
    }

    /// The dependencies of a node that has been added, as they were inserted.
    pub fn index(&self, index: &T) -> (r: &HashSet<T>)
        requires
            obeys_key_model::<T>(),
            self@.contains_key(*index),
        ensures
            r@ == self@[*index],
    {
        let found = self.node_depends.get(index);
        &found.unwrap().1
    }
}

} // verus!
