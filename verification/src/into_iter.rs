//! The traversal that owns the store and hands its entries out.

use crate::cycles::lemma_stuck_means_cycle;
use crate::engine::{is_index_of, needs_of, set_views, InnerIter};
use crate::entries::{by_number, into_entries, is_listing};
use crate::error::CycleError;
use crate::graph::{has_cycle, is_progress, is_ready, is_stuck, is_traversal};
use crate::handles::{
    enumerates, lemma_named_all, lemma_named_len, lemma_named_none, lemma_named_remove, lemma_ready,
    lemma_stuck, named,
};
use crate::iter::yielded_count;
use crate::laws::{lemma_progress_end, lemma_progress_start, lemma_progress_step};
use crate::store::{is_numbered, store_of};
use std::collections::{HashMap, HashSet};
use std::hash::Hash;
use vstd::prelude::*;
use vstd::set_lib::set_int_range;
use vstd::std_specs::hash::obeys_key_model;

verus! {

/// The nodes of the results before the report of a cycle, if the results end on one.
pub open spec fn yielded_owned<T>(results: Seq<Result<(T, HashSet<T>), CycleError>>) -> Seq<T> {
    Seq::new(yielded_count(results), |i: int| (results[i]->Ok_0).0)
}

/// A traversal that owns the store, and hands out each node with the set of its declared
/// dependencies after the nodes it depends on.
#[verifier::reject_recursive_types(T)]
pub struct IntoTopoSortIter<T> {
    inner: InnerIter,
    // the entries of the store by handle; `None` once handed out
    node_depends: Vec<Option<(T, HashSet<T>)>>,
    keys: Ghost<Seq<T>>,
    depends: Ghost<Seq<Set<T>>>,
    store: Ghost<Map<T, Set<T>>>,
}

/// The handles of the entries that have not been handed out.
spec fn held_handles<T>(slots: Seq<Option<(T, HashSet<T>)>>) -> Set<int> {
    Set::new(|i: int| 0 <= i < slots.len() && slots[i] is Some)
}

impl<T> IntoTopoSortIter<T> {
    /// The invariant: the engine runs on the graph of the store's keys, laid out by
    /// number; each entry lies at its number; the entries of the nodes that remain are
    /// held, and no others unless the traversal has ended on a cycle.
    #[verifier::type_invariant]
    pub(crate) closed spec fn valid(self) -> bool {
        &&& self.inner.wf()
        &&& enumerates(self.store@, self.keys@, self.depends@)
        &&& self.inner.needs() == needs_of(self.keys@, self.depends@)
        &&& self.node_depends@.len() == self.keys@.len()
        &&& forall|i: int|
            0 <= i < self.node_depends@.len() && (#[trigger] self.node_depends@[i]) is Some ==> {
                &&& (self.node_depends@[i]->Some_0).0 == self.keys@[i]
                &&& (self.node_depends@[i]->Some_0).1@ == self.depends@[i]
            }
        &&& self.inner.live().subset_of(held_handles(self.node_depends@))
        &&& held_handles(self.node_depends@) == self.inner.live() || (self.inner.live().is_empty()
            && has_cycle(self.store@))
    }
}

impl<T: Eq + Hash> IntoTopoSortIter<T> {
    /// The store as it was when the traversal took it over.
    pub closed spec fn store(&self) -> Map<T, Set<T>> {
        self.store@
    }

    /// The nodes that have been neither yielded nor given up.
    pub closed spec fn remaining(&self) -> Set<T> {
        named(self.keys@, self.inner.live())
    }

    /// What is left of the store: the entries that have not been handed out.
    pub closed spec fn held(&self) -> Map<T, Set<T>> {
        self.store@.restrict(named(self.keys@, held_handles(self.node_depends@)))
    }

    /// Finitely many nodes remain, and what is left of the store holds no others unless the
    /// store has a cycle.
    pub(crate) proof fn lemma_valid(&self)
        requires
            self.valid(),
        ensures
            self.remaining().finite(),
            !has_cycle(self.store()) ==> self.held().dom() == self.remaining(),
    {
        self.inner.lemma_wf();
        lemma_named_len(self.store@, self.keys@, self.depends@, self.inner.live());
        if !has_cycle(self.store()) {
            assert(self.held().dom() =~= self.remaining());
        }
    }

    /// A traversal of no store, to stand in for one that is being stepped.
    fn finished() -> (r: Self)
        ensures
            r.store() == Map::<T, Set<T>>::empty(),
    {
        let inner = InnerIter::done();
        let slots: Vec<Option<(T, HashSet<T>)>> = Vec::new();
        proof {
            assert(needs_of(Seq::<T>::empty(), Seq::<Set<T>>::empty()) =~= Seq::<Set<int>>::empty());
            assert(held_handles(slots@) =~= Set::<int>::empty());
        }
        IntoTopoSortIter {
            inner,
            node_depends: slots,
            keys: Ghost(Seq::empty()),
            depends: Ghost(Seq::empty()),
            store: Ghost(Map::empty()),
        }
    }

    /// Takes the store over and starts a traversal of it.
    pub(crate) fn new(node_depends: HashMap<T, (usize, HashSet<T>)>) -> (r: Self)
        requires
            obeys_key_model::<T>(),
            is_numbered(node_depends@),
        ensures
            r.store() == store_of(node_depends@),
            r.remaining() == r.store().dom(),
            r.remaining().finite(),
            r.held() == r.store(),
    {
        let ghost nodes = node_depends@;
        let ghost store = store_of(nodes);
        let borrowed = by_number(&node_depends);
        let ghost key_seq = borrowed.0@.unref();
        let ghost set_seq = set_views(borrowed.1@);
        let inner = InnerIter::new(&node_depends, &borrowed.0, &borrowed.1);
        let len = borrowed.0.len();
        let mut slots: Vec<Option<(T, HashSet<T>)>> = Vec::with_capacity(len);
        let mut fill: usize = 0;
        while fill < len
            invariant
                0 <= fill <= len,
                slots@.len() == fill,
            decreases len - fill,
        {
            slots.push(None);
            fill = fill + 1;
        }
        let entries = into_entries(node_depends);
        let ghost listed = entries@;
        for entry in it: entries
            invariant
                it.seq() == listed,
                is_listing(nodes, listed),
                is_index_of(nodes, key_seq),
                len == key_seq.len(),
                slots@.len() == len,
                forall|m: int|
                    0 <= m < it.index() ==> slots@[(#[trigger] listed[m]).1.0 as int] == Some(
                        (listed[m].0, listed[m].1.1),
                    ),
        {
            let ghost at = it.index();
            let ghost before = slots@;
            let id = (entry.1).0;
            proof {
                assert(nodes.contains_key(listed[at].0));
            }
            slots[id] = Some((entry.0, (entry.1).1));
            proof {
                assert forall|m: int| 0 <= m < at + 1 implies slots@[(#[trigger] listed[m]).1.0 as int]
                    == Some((listed[m].0, listed[m].1.1)) by {
                    if m < at {
                        assert(nodes.contains_key(listed[m].0));
                        assert(key_seq[nodes[listed[m].0].0 as int] == listed[m].0);
                        assert(key_seq[nodes[listed[at].0].0 as int] == listed[at].0);
                        assert(slots@[listed[m].1.0 as int] == before[listed[m].1.0 as int]);
                    }
                }
            }
        }
        proof {
            assert forall|i: int| 0 <= i < len implies (#[trigger] slots@[i]) is Some && (
            slots@[i]->Some_0).0 == key_seq[i] && (slots@[i]->Some_0).1@ == set_seq[i] by {
                assert(nodes.contains_key(key_seq[i]));
                let m = choose|m: int| 0 <= m < listed.len() && (#[trigger] listed[m]).0 == key_seq[i];
                assert(slots@[listed[m].1.0 as int] == Some((listed[m].0, listed[m].1.1)));
                assert(nodes[key_seq[i]].0 == i);
            }
            lemma_named_all(store, key_seq, set_seq);
            assert(held_handles(slots@) =~= set_int_range(0, len as int));
            assert(store.dom() =~= nodes.dom());
        }
        let r = IntoTopoSortIter {
            inner,
            node_depends: slots,
            keys: Ghost(key_seq),
            depends: Ghost(set_seq),
            store: Ghost(store),
        };
        proof {
            assert(r.held() =~= store);
        }
        r
    }

    /// Hands out a remaining node that depends on no remaining node, with its declared
    /// dependencies, if there is one: the entry leaves the store. If there is none and
    /// nodes remain, they are all given up and the cycle is reported, once; their entries
    /// stay behind. With no node remaining the traversal is over, and the store is empty
    /// unless it has a cycle.
    pub fn next(&mut self) -> (r: Option<Result<(T, HashSet<T>), CycleError>>)
        ensures
            final(self).store() == old(self).store(),
            match r {
                Some(Ok((node, depends))) => {
                    &&& is_ready(old(self).store(), old(self).remaining(), node)
                    &&& depends@ == old(self).store()[node]
                    &&& final(self).remaining() == old(self).remaining().remove(node)
                    &&& old(self).held().contains_key(node)
                    &&& final(self).held() == old(self).held().remove(node)
                },
                Some(Err(_)) => {
                    &&& is_stuck(old(self).store(), old(self).remaining())
                    &&& final(self).remaining() == Set::<T>::empty()
                    &&& final(self).held() == old(self).held()
                },
                None => {
                    &&& old(self).remaining() == Set::<T>::empty()
                    &&& final(self).remaining() == Set::<T>::empty()
                    &&& final(self).held() == old(self).held()
                    &&& !has_cycle(old(self).store()) ==> final(self).held() == Map::<
                        T,
                        Set<T>,
                    >::empty()
                },
            },
    {
        let ghost before = self.inner.live();
        let ghost held_before = held_handles(self.node_depends@);
        let ghost key_seq = self.keys@;
        let ghost set_seq = self.depends@;
        proof {
            use_type_invariant(&*self);
            self.inner.lemma_wf();
            self.lemma_valid();
        }
        // the traversal is taken apart for the step, and put together again after it
        let mut this = Self::finished();
        std::mem::swap(&mut this, self);
        let IntoTopoSortIter { mut inner, mut node_depends, keys, depends, store } = this;
        let step = inner.next();
        let taken = match step {
            Some(Ok(node)) => node_depends[node].take(),
            _ => None,
        };
        proof {
            match step {
                Some(Ok(node)) => {
                    assert(held_handles(node_depends@) =~= held_before.remove(node as int));
                },
                Some(Err(_)) => {
                    lemma_stuck(store@, key_seq, set_seq, before);
                    lemma_stuck_means_cycle(store@, named(key_seq, before));
                },
                None => {},
            }
        }
        *self = IntoTopoSortIter { inner, node_depends, keys, depends, store };
        match step {
            Some(Ok(node)) => {
                proof {
                    lemma_ready(self.store@, key_seq, set_seq, before, node as int);
                    lemma_named_remove(key_seq, before, node as int);
                    lemma_named_remove(key_seq, held_before, node as int);
                    assert(self.held() =~= old(self).held().remove(key_seq[node as int]));
                }
                Some(Ok(taken.unwrap()))
            },
            Some(Err(e)) => {
                proof {
                    lemma_named_none(key_seq, self.inner.live());
                }
                Some(Err(e))
            },
            None => {
                proof {
                    lemma_named_none(key_seq, before);
                    lemma_named_none(key_seq, self.inner.live());
                    if !has_cycle(self.store@) {
                        assert(self.held() =~= Map::<T, Set<T>>::empty());
                    }
                }
                None
            },
        }
    }

    /// The number of nodes that remain, as the lower and the upper bound of what is left
    /// of the traversal.
    pub fn size_hint(&self) -> (r: (usize, Option<usize>))
        ensures
            r.0 == self.remaining().len(),
            r.1 == Some(r.0),
    {
        proof {
            use_type_invariant(self);
            self.inner.lemma_wf();
            lemma_named_len(self.store@, self.keys@, self.depends@, self.inner.live());
        }
        self.inner.size_hint()
    }

    /// Steps the traversal to its end and returns all that it hands out: the entries in
    /// the order in which they come, and after them the report of a cycle if there is one.
    pub fn collect(self) -> (results: Vec<Result<(T, HashSet<T>), CycleError>>)
        ensures
            forall|i: int|
                0 <= i < yielded_count(results@) ==> {
                    &&& (#[trigger] results@[i]) is Ok
                    &&& (results@[i]->Ok_0).1@ == self.store()[(results@[i]->Ok_0).0]
                },
            is_traversal(
                self.store(),
                self.remaining(),
                yielded_owned(results@),
                yielded_count(results@) < results@.len(),
            ),
    {
        let mut it = self;
        let mut results: Vec<Result<(T, HashSet<T>), CycleError>> = Vec::new();
        let ghost store = self.store();
        let ghost start = self.remaining();
        let ghost mut order: Seq<T> = Seq::empty();
        proof {
            use_type_invariant(&it);
            it.lemma_valid();
            lemma_progress_start(store, start);
        }
        loop
            invariant_except_break
                it.store() == store,
                it.remaining().finite(),
                results@.len() == order.len(),
                forall|i: int|
                    0 <= i < results@.len() ==> {
                        &&& (#[trigger] results@[i]) is Ok
                        &&& (results@[i]->Ok_0).1@ == store[(results@[i]->Ok_0).0]
                    },
                forall|i: int|
                    0 <= i < results@.len() ==> (results@[i]->Ok_0).0 == #[trigger] order[i],
                is_progress(store, start, order, it.remaining()),
            ensures
                forall|i: int|
                    0 <= i < yielded_count(results@) ==> {
                        &&& (#[trigger] results@[i]) is Ok
                        &&& (results@[i]->Ok_0).1@ == store[(results@[i]->Ok_0).0]
                    },
                is_traversal(
                    store,
                    start,
                    yielded_owned(results@),
                    yielded_count(results@) < results@.len(),
                ),
            decreases it.remaining().len(),
        {
            let ghost waiting = it.remaining();
            match it.next() {
                Some(Ok(entry)) => {
                    proof {
                        lemma_progress_step(store, start, order, waiting, entry.0);
                        order = order.push(entry.0);
                    }
                    results.push(Ok(entry));
                },
                Some(Err(e)) => {
                    results.push(Err(e));
                    proof {
                        assert(yielded_owned(results@) =~= order);
                        lemma_progress_end(store, start, order, waiting, true);
                    }
                    break ;
                },
                None => {
                    proof {
                        if results@.len() > 0 {
                            assert(results@.last() is Ok);
                        }
                        assert(yielded_owned(results@) =~= order);
                        lemma_progress_end(store, start, order, waiting, false);
                    }
                    break ;
                },
            }
        }
        results
    }
}

} // verus!
