//! The traversals over a borrowed store: node with dependencies, and node alone.

use crate::engine::{needs_of, set_views, InnerIter};
use crate::error::CycleError;
use crate::graph::{is_progress, is_ready, is_stuck, is_traversal};
use crate::laws::{lemma_progress_end, lemma_progress_start, lemma_progress_step};
use crate::handles::{
    enumerates, lemma_named_all, lemma_named_len, lemma_named_none, lemma_named_remove, lemma_ready,
    lemma_stuck, named,
};
use crate::entries::by_number;
use crate::store::{is_numbered, store_of};
use std::collections::{HashMap, HashSet};
use std::hash::Hash;
use vstd::prelude::*;
use vstd::std_specs::hash::obeys_key_model;

verus! {

/// The number of results before the report of a cycle, if the results end on one.
pub open spec fn yielded_count<R>(results: Seq<Result<R, CycleError>>) -> nat {
    if results.len() > 0 && results.last() is Err {
        (results.len() - 1) as nat
    } else {
        results.len()
    }
}

/// The nodes of the results before the report of a cycle, if the results end on one.
pub open spec fn yielded_nodes<T>(results: Seq<Result<&T, CycleError>>) -> Seq<T> {
    Seq::new(yielded_count(results), |i: int| *results[i]->Ok_0)
}

/// The nodes of the results before the report of a cycle, if the results end on one.
pub open spec fn yielded_pairs<T>(results: Seq<Result<(&T, &HashSet<T>), CycleError>>) -> Seq<T> {
    Seq::new(yielded_count(results), |i: int| *(results[i]->Ok_0).0)
}

/// A traversal that yields each node, with the set of its declared dependencies, after
/// the nodes it depends on.
#[verifier::reject_recursive_types(T)]
pub struct TopoSortIter<'d, T> {
    inner: InnerIter,
    keys: Vec<&'d T>,
    depends: Vec<&'d HashSet<T>>,
    store: Ghost<Map<T, Set<T>>>,
}

impl<'d, T> TopoSortIter<'d, T> {
    /// The invariant: the engine runs on the graph of the store's keys, laid out by
    /// number.
    #[verifier::type_invariant]
    pub(crate) closed spec fn valid(self) -> bool {
        &&& self.inner.wf()
        &&& enumerates(self.store@, self.keys@.unref(), set_views(self.depends@))
        &&& self.inner.needs() == needs_of(self.keys@.unref(), set_views(self.depends@))
    }
}

impl<'d, T: Eq + Hash> TopoSortIter<'d, T> {
    /// The store that is traversed.
    pub closed spec fn store(&self) -> Map<T, Set<T>> {
        self.store@
    }

    /// The nodes that have been neither yielded nor given up.
    pub closed spec fn remaining(&self) -> Set<T> {
        named(self.keys@.unref(), self.inner.live())
    }

    /// Finitely many nodes remain.
    pub(crate) proof fn lemma_valid(&self)
        requires
            self.valid(),
        ensures
            self.remaining().finite(),
    {
        self.inner.lemma_wf();
        lemma_named_len(
            self.store@,
            self.keys@.unref(),
            set_views(self.depends@),
            self.inner.live(),
        );
    }

    /// A traversal of no store, to stand in for one that is being stepped.
    fn finished() -> (r: Self)
        ensures
            r.store() == Map::<T, Set<T>>::empty(),
    {
        let inner = InnerIter::done();
        let keys: Vec<&'d T> = Vec::new();
        let depends: Vec<&'d HashSet<T>> = Vec::new();
        proof {
            assert(needs_of(keys@.unref(), set_views(depends@)) =~= Seq::<Set<int>>::empty());
        }
        TopoSortIter { inner, keys, depends, store: Ghost(Map::empty()) }
    }

    /// Starts a traversal of the store that `node_depends` stands for.
    pub(crate) fn new(node_depends: &'d HashMap<T, (usize, HashSet<T>)>) -> (r: Self)
        requires
            obeys_key_model::<T>(),
            is_numbered(node_depends@),
        ensures
            r.store() == store_of(node_depends@),
            r.remaining() == r.store().dom(),
            r.remaining().finite(),
    {
        let entries = by_number(node_depends);
        let keys = entries.0;
        let depends = entries.1;
        let inner = InnerIter::new(node_depends, &keys, &depends);
        proof {
            lemma_named_all(store_of(node_depends@), keys@.unref(), set_views(depends@));
            assert(store_of(node_depends@).dom() =~= node_depends@.dom());
        }
        TopoSortIter { inner, keys, depends, store: Ghost(store_of(node_depends@)) }
    }

    /// Yields a remaining node that depends on no remaining node, with its declared
    /// dependencies, if there is one. If there is none and nodes remain, they are all
    /// given up and the cycle is reported, once. With no node remaining the traversal is
    /// over.
    pub fn next(&mut self) -> (r: Option<Result<(&'d T, &'d HashSet<T>), CycleError>>)
        ensures
            final(self).store() == old(self).store(),
            match r {
                Some(Ok((node, depends))) => {
                    &&& is_ready(old(self).store(), old(self).remaining(), *node)
                    &&& depends@ == old(self).store()[*node]
                    &&& final(self).remaining() == old(self).remaining().remove(*node)
                },
                Some(Err(_)) => {
                    &&& is_stuck(old(self).store(), old(self).remaining())
                    &&& final(self).remaining() == Set::<T>::empty()
                },
                None => {
                    &&& old(self).remaining() == Set::<T>::empty()
                    &&& final(self).remaining() == Set::<T>::empty()
                },
            },
    {
        let ghost key_seq = self.keys@.unref();
        let ghost set_seq = set_views(self.depends@);
        let ghost before = self.inner.live();
        proof {
            use_type_invariant(&*self);
            self.inner.lemma_wf();
        }
        // the traversal is taken apart for the step, and put together again after it
        let mut this = Self::finished();
        std::mem::swap(&mut this, self);
        let TopoSortIter { mut inner, keys, depends, store } = this;
        let step = inner.next();
        *self = TopoSortIter { inner, keys, depends, store };
        match step {
            Some(Ok(node)) => {
                proof {
                    lemma_ready(self.store@, key_seq, set_seq, before, node as int);
                    lemma_named_remove(key_seq, before, node as int);
                }
                Some(Ok((self.keys[node], self.depends[node])))
            },
            Some(Err(e)) => {
                proof {
                    lemma_stuck(self.store@, key_seq, set_seq, before);
                    lemma_named_none(key_seq, self.inner.live());
                }
                Some(Err(e))
            },
            None => {
                proof {
                    lemma_named_none(key_seq, before);
                    lemma_named_none(key_seq, self.inner.live());
                }
                None
            },
        }
    }

    /// The number of nodes that remain, as the lower and the upper bound of what is left
    /// of the traversal.
    pub fn size_hint(&self) -> (r: (usize, Option<usize>))
        ensures
            r.0 == self.remaining().len(),
            r.1 == Some(r.0),
    {
        proof {
            use_type_invariant(self);
            self.inner.lemma_wf();
            lemma_named_len(
                self.store@,
                self.keys@.unref(),
                set_views(self.depends@),
                self.inner.live(),
            );
        }
        self.inner.size_hint()
    }

    /// Steps the traversal to its end and returns all that it yields: the nodes with
    /// their declared dependencies, in the order in which they come, and after them the
    /// report of a cycle if there is one.
    pub fn collect(self) -> (results: Vec<Result<(&'d T, &'d HashSet<T>), CycleError>>)
        ensures
            forall|i: int|
                0 <= i < yielded_count(results@) ==> {
                    &&& (#[trigger] results@[i]) is Ok
                    &&& (results@[i]->Ok_0).1@ == self.store()[*(results@[i]->Ok_0).0]
                },
            is_traversal(
                self.store(),
                self.remaining(),
                yielded_pairs(results@),
                yielded_count(results@) < results@.len(),
            ),
    {
        let mut it = self;
        let mut results: Vec<Result<(&'d T, &'d HashSet<T>), CycleError>> = Vec::new();
        let ghost store = self.store();
        let ghost start = self.remaining();
        let ghost mut order: Seq<T> = Seq::empty();
        proof {
            use_type_invariant(&it);
            it.lemma_valid();
            lemma_progress_start(store, start);
        }
        loop
            invariant_except_break
                it.store() == store,
                it.remaining().finite(),
                results@.len() == order.len(),
                forall|i: int|
                    0 <= i < results@.len() ==> {
                        &&& (#[trigger] results@[i]) is Ok
                        &&& (results@[i]->Ok_0).1@ == store[*(results@[i]->Ok_0).0]
                    },
                forall|i: int|
                    0 <= i < results@.len() ==> *(results@[i]->Ok_0).0 == #[trigger] order[i],
                is_progress(store, start, order, it.remaining()),
            ensures
                forall|i: int|
                    0 <= i < yielded_count(results@) ==> {
                        &&& (#[trigger] results@[i]) is Ok
                        &&& (results@[i]->Ok_0).1@ == store[*(results@[i]->Ok_0).0]
                    },
                is_traversal(
                    store,
                    start,
                    yielded_pairs(results@),
                    yielded_count(results@) < results@.len(),
                ),
            decreases it.remaining().len(),
        {
            let ghost waiting = it.remaining();
            match it.next() {
                Some(Ok(entry)) => {
                    results.push(Ok(entry));
                    proof {
                        lemma_progress_step(store, start, order, waiting, *entry.0);
                        order = order.push(*entry.0);
                    }
                },
                Some(Err(e)) => {
                    results.push(Err(e));
                    proof {
                        assert(yielded_pairs(results@) =~= order);
                        lemma_progress_end(store, start, order, waiting, true);
                    }
                    break ;
                },
                None => {
                    proof {
                        if results@.len() > 0 {
                            assert(results@.last() is Ok);
                        }
                        assert(yielded_pairs(results@) =~= order);
                        lemma_progress_end(store, start, order, waiting, false);
                    }
                    break ;
                },
            }
        }
        results
    }
}

/// A traversal that yields each node after the nodes it depends on.
#[verifier::reject_recursive_types(T)]
pub struct TopoSortNodeIter<'d, T>(TopoSortIter<'d, T>);

impl<'d, T: Eq + Hash> TopoSortNodeIter<'d, T> {
    /// The store that is traversed.
    pub closed spec fn store(&self) -> Map<T, Set<T>> {
        self.0.store()
    }

    /// The nodes that have been neither yielded nor given up.
    pub closed spec fn remaining(&self) -> Set<T> {
        self.0.remaining()
    }

    /// Starts a traversal of the store that `node_depends` stands for.
    pub(crate) fn new(node_depends: &'d HashMap<T, (usize, HashSet<T>)>) -> (r: Self)
        requires
            obeys_key_model::<T>(),
            is_numbered(node_depends@),
        ensures
            r.store() == store_of(node_depends@),
            r.remaining() == r.store().dom(),
            r.remaining().finite(),
    {
        TopoSortNodeIter(TopoSortIter::new(node_depends))
    }

    /// Yields a remaining node that depends on no remaining node, if there is one. If
    /// there is none and nodes remain, they are all given up and the cycle is reported,
    /// once. With no node remaining the traversal is over.
    pub fn next(&mut self) -> (r: Option<Result<&'d T, CycleError>>)
        ensures
            final(self).store() == old(self).store(),
            match r {
                Some(Ok(node)) => {
                    &&& is_ready(old(self).store(), old(self).remaining(), *node)
                    &&& final(self).remaining() == old(self).remaining().remove(*node)
                },
                Some(Err(_)) => {
                    &&& is_stuck(old(self).store(), old(self).remaining())
                    &&& final(self).remaining() == Set::<T>::empty()
                },
                None => {
                    &&& old(self).remaining() == Set::<T>::empty()
                    &&& final(self).remaining() == Set::<T>::empty()
                },
            },
    {
        match self.0.next() {
            Some(Ok(entry)) => Some(Ok(entry.0)),
            Some(Err(e)) => Some(Err(e)),
            None => None,
        }
    }

    /// The number of nodes that remain, as the lower and the upper bound of what is left
    /// of the traversal.
    pub fn size_hint(&self) -> (r: (usize, Option<usize>))
        ensures
            r.0 == self.remaining().len(),
            r.1 == Some(r.0),
    {
        self.0.size_hint()
    }

    /// Steps the traversal to its end and returns all that it yields: the nodes in the
    /// order in which they come, and after them the report of a cycle if there is one.
    pub fn collect(self) -> (results: Vec<Result<&'d T, CycleError>>)
        ensures
            forall|i: int|
                0 <= i < yielded_count(results@) ==> (#[trigger] results@[i]) is Ok,
            is_traversal(
                self.store(),
                self.remaining(),
                yielded_nodes(results@),
                yielded_count(results@) < results@.len(),
            ),
    {
        let mut it = self;
        let mut results: Vec<Result<&'d T, CycleError>> = Vec::new();
        let ghost store = self.store();
        let ghost start = self.remaining();
        let ghost mut order: Seq<T> = Seq::empty();
        proof {
            use_type_invariant(&it.0);
            it.0.lemma_valid();
            lemma_progress_start(store, start);
        }
        loop
            invariant_except_break
                it.store() == store,
                it.remaining().finite(),
                results@.len() == order.len(),
                forall|i: int| 0 <= i < results@.len() ==> (#[trigger] results@[i]) is Ok,
                forall|i: int| 0 <= i < results@.len() ==> *results@[i]->Ok_0 == #[trigger] order[i],
                is_progress(store, start, order, it.remaining()),
            ensures
                forall|i: int|
                    0 <= i < yielded_count(results@) ==> (#[trigger] results@[i]) is Ok,
                is_traversal(
                    store,
                    start,
                    yielded_nodes(results@),
                    yielded_count(results@) < results@.len(),
                ),
            decreases it.remaining().len(),
        {
            let ghost waiting = it.remaining();
            match it.next() {
                Some(Ok(node)) => {
                    results.push(Ok(node));
                    proof {
                        lemma_progress_step(store, start, order, waiting, *node);
                        order = order.push(*node);
                    }
                },
                Some(Err(e)) => {
                    results.push(Err(e));
                    proof {
                        assert(yielded_nodes(results@) =~= order);
                        lemma_progress_end(store, start, order, waiting, true);
                    }
                    break ;
                },
                None => {
                    proof {
                        if results@.len() > 0 {
                            assert(results@.last() is Ok);
                        }
                        assert(yielded_nodes(results@) =~= order);
                        lemma_progress_end(store, start, order, waiting, false);
                    }
                    break ;
                },
            }
        }
        results
    }
}

} // verus!
