//! The traversal engine: Kahn's algorithm over integer handles.
//!
//! A handle is the number that the store gave a node, which is the node's position in the
//! list of keys. Once built, the engine knows nothing of the nodes themselves: it keeps,
//! for each handle, the handles that wait for it and the number of handles it still waits
//! for.

use crate::error::CycleError;
use std::collections::{HashMap, HashSet};
use std::hash::Hash;
use vstd::prelude::*;
use vstd::set_lib::{lemma_int_range, lemma_len_subset, set_int_range};
use vstd::std_specs::hash::obeys_key_model;
use vstd::std_specs::iter::IteratorSpec;

verus! {

/// `row[m] == i` for some position `m` from `from` on.
pub open spec fn occurs_from(row: Seq<usize>, from: int, i: int) -> bool {
    exists|m: int| from <= m < row.len() && #[trigger] row[m] == i
}

/// Each handle waits for finitely many handles, all of them in range, never for itself.
pub open spec fn needs_in_range(needs: Seq<Set<int>>) -> bool {
    forall|i: int|
        0 <= i < needs.len() ==> {
            &&& (#[trigger] needs[i]).finite()
            &&& !needs[i].contains(i)
            &&& forall|j: int| needs[i].contains(j) ==> 0 <= j < needs.len()
        }
}

/// `dependents` is `needs` turned round: `i` stands in the row of `j`, once, exactly when
/// `i` waits for `j`.
pub open spec fn is_transposed(needs: Seq<Set<int>>, dependents: Seq<Vec<usize>>) -> bool {
    &&& dependents.len() == needs.len()
    &&& forall|j: int| 0 <= j < dependents.len() ==> (#[trigger] dependents[j])@.no_duplicates()
    &&& forall|j: int, m: int|
        0 <= j < dependents.len() && 0 <= m < dependents[j]@.len() ==> {
            &&& 0 <= (#[trigger] dependents[j]@[m]) < needs.len()
            &&& needs[dependents[j]@[m] as int].contains(j)
        }
    &&& forall|i: int, j: int|
        0 <= i < needs.len() && #[trigger] needs[i].contains(j) ==> occurs_from(
            dependents[j]@,
            0,
            i,
        )
}

/// The sets that a list of borrowed hash sets stands for.
pub open spec fn set_views<T>(depends: Seq<&HashSet<T>>) -> Seq<Set<T>> {
    Seq::new(depends.len(), |i: int| depends[i]@)
}

/// For each handle, the handles it waits for: those of the other keys that are declared
/// as its dependencies.
pub open spec fn needs_of<T>(keys: Seq<T>, depends: Seq<Set<T>>) -> Seq<Set<int>> {
    Seq::new(
        keys.len(),
        |i: int| Set::new(|j: int| 0 <= j < keys.len() && j != i && depends[i].contains(keys[j])),
    )
}

/// The handles of `row` stand in rising order.
pub open spec fn is_ascending(row: Seq<usize>) -> bool {
    forall|a: int, b: int| 0 <= a < b < row.len() ==> row[a] < row[b]
}

/// `keys` lists the nodes by their numbers: the node at position `i` has the number `i`.
pub open spec fn is_index_of<T>(nodes: Map<T, (usize, HashSet<T>)>, keys: Seq<T>) -> bool {
    &&& forall|i: int|
        0 <= i < keys.len() ==> nodes.contains_key(#[trigger] keys[i]) && nodes[keys[i]].0 == i
    &&& forall|node: T|
        nodes.contains_key(node) ==> (#[trigger] nodes[node]).0 < keys.len() && keys[nodes[node].0 as int]
            == node
}

/// The handles, other than `i`, of the keys among the first `upto` of `declared`.
pub open spec fn met<T>(keys: Seq<T>, i: int, declared: Seq<&T>, upto: int) -> Set<int> {
    Set::new(
        |j: int|
            0 <= j < keys.len() && j != i && exists|m: int|
                0 <= m < upto && *(#[trigger] declared[m]) == keys[j],
    )
}

/// Handles built from keys and their declared dependencies wait for handles in range only.
pub proof fn lemma_needs_of_in_range<T>(keys: Seq<T>, depends: Seq<Set<T>>)
    ensures
        needs_in_range(needs_of(keys, depends)),
{
    let needs = needs_of(keys, depends);
    assert forall|i: int| 0 <= i < needs.len() implies (#[trigger] needs[i]).finite() by {
        lemma_int_range(0, keys.len() as int);
        lemma_len_subset(needs[i], set_int_range(0, keys.len() as int));
    }
}

/// The handles met are handles in range, so there are at most as many as keys.
pub proof fn lemma_met_bounded<T>(keys: Seq<T>, i: int, declared: Seq<&T>, upto: int)
    ensures
        met(keys, i, declared, upto).finite(),
        met(keys, i, declared, upto).len() <= keys.len(),
{
    lemma_int_range(0, keys.len() as int);
    lemma_len_subset(met(keys, i, declared, upto), set_int_range(0, keys.len() as int));
}

/// Removing `node` from the waiting handles lowers the count of waiting handles that a
/// handle waits for by one if it waits for `node`, and leaves it unchanged otherwise.
pub proof fn lemma_count_after_removal(wanted: Set<int>, live: Set<int>, node: int)
    requires
        wanted.finite(),
        live.finite(),
        live.contains(node),
    ensures
        wanted.intersect(live.remove(node)).len() + (if wanted.contains(node) {
            1int
        } else {
            0int
        }) == wanted.intersect(live).len(),
{
    assert(wanted.intersect(live.remove(node)) =~= wanted.intersect(live).remove(node));
}

/// The state of one traversal.
pub struct InnerIter {
    /// For each handle, the handles that wait for it.
    dependents: Vec<Vec<usize>>,
    /// For each handle still waiting, the number of waiting handles it waits for.
    degree: Vec<usize>,
    /// The waiting handles that wait for nothing.
    no_edges: Vec<usize>,
    /// The number of waiting handles.
    remaining: usize,
    needs: Ghost<Seq<Set<int>>>,
    live: Ghost<Set<int>>,
}

impl InnerIter {
    /// For each handle, the handles it was built to wait for.
    pub closed spec fn needs(&self) -> Seq<Set<int>> {
        self.needs@
    }

    /// The handles that have been neither emitted nor discarded.
    pub closed spec fn live(&self) -> Set<int> {
        self.live@
    }

    /// The invariant of the engine.
    pub closed spec fn wf(&self) -> bool {
        &&& self.degree@.len() == self.needs@.len()
        &&& needs_in_range(self.needs@)
        &&& is_transposed(self.needs@, self.dependents@)
        &&& self.live@.finite()
        &&& self.remaining == self.live@.len()
        &&& forall|i: int| self.live@.contains(i) ==> 0 <= i < self.needs@.len()
        &&& forall|i: int|
            self.live@.contains(i) ==> #[trigger] self.degree@[i] == self.needs@[i].intersect(
                self.live@,
            ).len()
        &&& self.no_edges@.no_duplicates()
        &&& forall|m: int|
            0 <= m < self.no_edges@.len() ==> {
                &&& self.live@.contains(#[trigger] self.no_edges@[m] as int)
                &&& self.degree@[self.no_edges@[m] as int] == 0
            }
        &&& forall|i: int|
            self.live@.contains(i) && #[trigger] self.degree@[i] == 0 ==> occurs_from(
                self.no_edges@,
                0,
                i,
            )
        &&& forall|i: int, j: int|
            0 <= i < self.needs@.len() && !self.live@.contains(i) && #[trigger] self.needs@[i].contains(
                j,
            ) ==> !self.live@.contains(j)
    }

    /// What the invariant says of the handles that wait.
    pub proof fn lemma_wf(&self)
        requires
            self.wf(),
        ensures
            needs_in_range(self.needs()),
            self.live().finite(),
            forall|i: int| self.live().contains(i) ==> 0 <= i < self.needs().len(),
    {
    }

    /// An engine with no handles: a traversal that is over.
    pub fn done() -> (r: Self)
        ensures
            r.wf(),
            r.needs() == Seq::<Set<int>>::empty(),
            r.live() == Set::<int>::empty(),
    {
        InnerIter {
            dependents: Vec::new(),
            degree: Vec::new(),
            no_edges: Vec::new(),
            remaining: 0,
            needs: Ghost(Seq::empty()),
            live: Ghost(Set::empty()),
        }
    }

    /// Builds the engine for the keys and declared dependencies given, with every handle
    /// waiting.
    pub fn new<T: Eq + Hash>(
        node_depends: &HashMap<T, (usize, HashSet<T>)>,
        keys: &Vec<&T>,
        depends: &Vec<&HashSet<T>>,
    ) -> (r: Self)
        requires
            obeys_key_model::<T>(),
            keys.len() == depends.len(),
            is_index_of(node_depends@, keys@.unref()),
        ensures
            r.wf(),
            r.needs() == needs_of(keys@.unref(), set_views(depends@)),
            r.live() == set_int_range(0, keys.len() as int),
    {
        let nodes = Self::make_nodes(node_depends, keys, depends);
        let no_edges = Self::make_no_edges(&nodes.1);
        let ghost needs = needs_of(keys@.unref(), set_views(depends@));
        let ghost live = set_int_range(0, keys.len() as int);
        proof {
            lemma_needs_of_in_range(keys@.unref(), set_views(depends@));
            lemma_int_range(0, keys.len() as int);
            assert forall|i: int| live.contains(i) implies #[trigger] nodes.1@[i]
                == needs[i].intersect(live).len() by {
                assert(needs[i].intersect(live) =~= needs[i]);
            }
            assert forall|i: int| live.contains(i) && #[trigger] nodes.1@[i] == 0 implies occurs_from(
                no_edges@,
                0,
                i,
            ) by {
                let m = choose|m: int| 0 <= m < no_edges@.len() && no_edges@[m] == i;
                assert(no_edges@[m] == i);
            }
        }
        InnerIter {
            dependents: nodes.0,
            degree: nodes.1,
            no_edges,
            remaining: keys.len(),
            needs: Ghost(needs),
            live: Ghost(live),
        }
    }

    /// Builds the graph: for each handle the handles that wait for it, and the number of
    /// handles it waits for. A declared dependency counts when it is the key of another
    /// handle; which handle, the numbers in `node_depends` say.
    pub fn make_nodes<T: Eq + Hash>(
        node_depends: &HashMap<T, (usize, HashSet<T>)>,
        keys: &Vec<&T>,
        depends: &Vec<&HashSet<T>>,
    ) -> (r: (Vec<Vec<usize>>, Vec<usize>))
        requires
            obeys_key_model::<T>(),
            keys.len() == depends.len(),
            is_index_of(node_depends@, keys@.unref()),
        ensures
            is_transposed(needs_of(keys@.unref(), set_views(depends@)), r.0@),
            forall|j: int| 0 <= j < r.0@.len() ==> is_ascending((#[trigger] r.0@[j])@),
            r.1@.len() == keys.len(),
            forall|i: int|
                0 <= i < keys.len() ==> #[trigger] r.1@[i] == needs_of(
                    keys@.unref(),
                    set_views(depends@),
                )[i].len(),
    {
        let len = keys.len();
        let ghost key_seq = keys@.unref();
        let ghost needs = needs_of(key_seq, set_views(depends@));
        let mut dependents: Vec<Vec<usize>> = Vec::with_capacity(len);
        let mut degree: Vec<usize> = Vec::with_capacity(len);
        let mut fill: usize = 0;
        while fill < len
            invariant
                0 <= fill <= len,
                dependents@.len() == fill,
                degree@.len() == fill,
                forall|j: int| 0 <= j < fill ==> (#[trigger] dependents@[j])@.len() == 0,
                forall|i: int| 0 <= i < fill ==> #[trigger] degree@[i] == 0,
            decreases len - fill,
        {
            dependents.push(Vec::new());
            degree.push(0);
            fill = fill + 1;
        }
        proof {
            lemma_needs_of_in_range(key_seq, set_views(depends@));
        }
        let mut i: usize = 0;
        while i < len
            invariant
                0 <= i <= len,
                len == keys.len(),
                len == depends.len(),
                obeys_key_model::<T>(),
                key_seq == keys@.unref(),
                is_index_of(node_depends@, key_seq),
                needs == needs_of(key_seq, set_views(depends@)),
                needs_in_range(needs),
                needs.len() == len,
                dependents@.len() == len,
                degree@.len() == len,
                forall|j: int| 0 <= j < len ==> (#[trigger] dependents@[j])@.no_duplicates(),
                forall|j: int| 0 <= j < len ==> is_ascending((#[trigger] dependents@[j])@),
                forall|j: int, m: int|
                    0 <= j < len && 0 <= m < dependents@[j]@.len() ==> {
                        &&& 0 <= (#[trigger] dependents@[j]@[m]) < i
                        &&& needs[dependents@[j]@[m] as int].contains(j)
                    },
                forall|a: int, j: int|
                    0 <= a < i && #[trigger] needs[a].contains(j) ==> occurs_from(
                        dependents@[j]@,
                        0,
                        a,
                    ),
                forall|a: int| 0 <= a < i ==> #[trigger] degree@[a] == needs[a].len(),
                forall|a: int| i <= a < len ==> #[trigger] degree@[a] == 0,
            decreases len - i,
        {
            let dependencies = depends[i];
            let ghost declared = dependencies.iter().remaining();
            proof {
                assert(set_views(depends@)[i as int] == dependencies@);
                assert(met(key_seq, i as int, declared, 0) =~= Set::<int>::empty());
            }
            for dependency in it: dependencies.iter()
                invariant
                    it.seq() == declared,
                    declared.no_duplicates(),
                    declared.unref().to_set() == dependencies@,
                    set_views(depends@)[i as int] == dependencies@,
                    0 <= i < len,
                    len == keys.len(),
                    len == depends.len(),
                    obeys_key_model::<T>(),
                    key_seq == keys@.unref(),
                    is_index_of(node_depends@, key_seq),
                    needs == needs_of(key_seq, set_views(depends@)),
                    needs_in_range(needs),
                    needs.len() == len,
                    dependents@.len() == len,
                    degree@.len() == len,
                    forall|b: int| 0 <= b < len ==> (#[trigger] dependents@[b])@.no_duplicates(),
                    forall|b: int| 0 <= b < len ==> is_ascending((#[trigger] dependents@[b])@),
                    forall|b: int, m: int|
                        0 <= b < len && 0 <= m < dependents@[b]@.len() ==> {
                            &&& 0 <= (#[trigger] dependents@[b]@[m]) <= i
                            &&& needs[dependents@[b]@[m] as int].contains(b)
                            &&& dependents@[b]@[m] == i ==> met(
                                key_seq,
                                i as int,
                                declared,
                                it.index(),
                            ).contains(b)
                        },
                    forall|a: int, b: int|
                        0 <= a < i && #[trigger] needs[a].contains(b) ==> occurs_from(
                            dependents@[b]@,
                            0,
                            a,
                        ),
                    forall|b: int| #[trigger]
                        met(key_seq, i as int, declared, it.index()).contains(b) ==> occurs_from(
                            dependents@[b]@,
                            0,
                            i as int,
                        ),
                    degree@[i as int] == met(key_seq, i as int, declared, it.index()).len(),
                    forall|a: int| 0 <= a < i ==> #[trigger] degree@[a] == needs[a].len(),
                    forall|a: int| i < a < len ==> #[trigger] degree@[a] == 0,
            {
                let ghost at = it.index();
                let ghost rows = dependents@;
                let ghost seen = met(key_seq, i as int, declared, at);
                let ghost grown = met(key_seq, i as int, declared, at + 1);
                proof {
                    assert(*declared[at] == *dependency);
                    assert(declared.unref()[at] == *dependency);
                    assert(dependencies@.contains(*dependency));
                    lemma_met_bounded(key_seq, i as int, declared, at);
                    lemma_met_bounded(key_seq, i as int, declared, at + 1);
                    assert forall|b: int| seen.contains(b) implies grown.contains(b) by {
                        let m = choose|m: int| 0 <= m < at && *(#[trigger] declared[m]) == key_seq[b];
                        assert(0 <= m < at + 1 && *declared[m] == key_seq[b]);
                    }
                }
                let found = match node_depends.get(dependency) {
                    Some(entry) => Some(entry.0),
                    None => None,
                };
                let counts = match found {
                    Some(j) => j != i,
                    None => false,
                };
                if counts {
                    let j = found.unwrap();
                    proof {
                        assert(key_seq[j as int] == *dependency);
                        assert(needs[i as int].contains(j as int));
                        assert(grown.contains(j as int));
                        if seen.contains(j as int) {
                            let m = choose|m: int|
                                0 <= m < at && *(#[trigger] declared[m]) == key_seq[j as int];
                            assert(declared[m] == declared[at]);
                        }
                        assert forall|b: int| grown.contains(b) implies seen.insert(
                            j as int,
                        ).contains(b) by {
                            let m = choose|m: int|
                                0 <= m < at + 1 && *(#[trigger] declared[m]) == key_seq[b];
                            if m == at {
                                assert(node_depends@[key_seq[b]].0 == b);
                            }
                        }
                        assert(grown =~= seen.insert(j as int));
                    }
                    degree[i] = degree[i] + 1;
                    dependents[j].push(i);
                    proof {
                        assert(dependents@[j as int]@ == rows[j as int]@.push(i));
                        assert forall|b: int| 0 <= b < len implies (
                        #[trigger] dependents@[b])@.no_duplicates() by {
                            if b != j {
                                assert(dependents@[b] == rows[b]);
                            }
                        }
                        assert forall|b: int| 0 <= b < len implies is_ascending(
                            (#[trigger] dependents@[b])@,
                        ) by {
                            if b != j {
                                assert(dependents@[b] == rows[b]);
                            } else {
                                assert(is_ascending(rows[b]@));
                                assert forall|x: int, y: int|
                                    0 <= x < y < dependents@[b]@.len() implies dependents@[b]@[x]
                                    < dependents@[b]@[y] by {
                                    assert(dependents@[b]@[x] == rows[b]@[x]);
                                    if y < rows[b]@.len() {
                                        assert(dependents@[b]@[y] == rows[b]@[y]);
                                    }
                                }
                            }
                        }
                        assert forall|b: int, m: int|
                            0 <= b < len && 0 <= m < dependents@[b]@.len() implies {
                            &&& 0 <= (#[trigger] dependents@[b]@[m]) <= i
                            &&& needs[dependents@[b]@[m] as int].contains(b)
                            &&& dependents@[b]@[m] == i ==> grown.contains(b)
                        } by {
                            if b != j {
                                assert(dependents@[b] == rows[b]);
                            } else if m < rows[b]@.len() {
                                assert(dependents@[b]@[m] == rows[b]@[m]);
                            }
                        }
                        assert forall|a: int, b: int|
                            0 <= a < i && #[trigger] needs[a].contains(b) implies occurs_from(
                            dependents@[b]@,
                            0,
                            a,
                        ) by {
                            let m = choose|m: int|
                                0 <= m < rows[b]@.len() && #[trigger] rows[b]@[m] == a;
                            if b != j {
                                assert(dependents@[b] == rows[b]);
                            }
                            assert(dependents@[b]@[m] == a);
                        }
                        assert forall|b: int| #[trigger] grown.contains(b) implies occurs_from(
                            dependents@[b]@,
                            0,
                            i as int,
                        ) by {
                            if b != j {
                                assert(dependents@[b] == rows[b]);
                                assert(seen.contains(b));
                                assert(occurs_from(rows[b]@, 0, i as int));
                            } else {
                                assert(dependents@[b]@[rows[b]@.len() as int] == i);
                            }
                        }
                    }
                } else {
                    proof {
                        assert forall|b: int| grown.contains(b) implies seen.contains(b) by {
                            let m = choose|m: int|
                                0 <= m < at + 1 && *(#[trigger] declared[m]) == key_seq[b];
                            if m == at {
                                assert(node_depends@.contains_key(key_seq[b]));
                                assert(node_depends@[key_seq[b]].0 == b);
                            }
                        }
                        assert(grown =~= seen);
                    }
                }
            }
            proof {
                let all = met(key_seq, i as int, declared, declared.len() as int);
                assert forall|j: int| needs[i as int].contains(j) implies all.contains(j) by {
                    assert(declared.unref().to_set().contains(key_seq[j]));
                    let m = choose|m: int|
                        0 <= m < declared.unref().len() && declared.unref()[m] == key_seq[j];
                    assert(*declared[m] == key_seq[j]);
                }
                assert forall|j: int| all.contains(j) implies needs[i as int].contains(j) by {
                    let m = choose|m: int|
                        0 <= m < declared.len() && *(#[trigger] declared[m]) == key_seq[j];
                    assert(declared.unref()[m] == key_seq[j]);
                    assert(declared.unref().to_set().contains(key_seq[j]));
                }
                assert(all =~= needs[i as int]);
            }
            i = i + 1;
        }
        (dependents, degree)
    }

    /// The handles that wait for nothing: the first that a traversal can emit.
    pub fn make_no_edges(degree: &Vec<usize>) -> (r: Vec<usize>)
        ensures
            is_ascending(r@),
            r@.no_duplicates(),
            forall|m: int|
                0 <= m < r@.len() ==> 0 <= #[trigger] r@[m] < degree@.len() && degree@[r@[m] as int]
                    == 0,
            forall|i: int|
                0 <= i < degree@.len() && #[trigger] degree@[i] == 0 ==> exists|m: int|
                    0 <= m < r@.len() && r@[m] == i,
    {
        let mut no_edges: Vec<usize> = Vec::new();
        let mut node: usize = 0;
        while node < degree.len()
            invariant
                0 <= node <= degree@.len(),
                is_ascending(no_edges@),
                no_edges@.no_duplicates(),
                forall|m: int|
                    0 <= m < no_edges@.len() ==> 0 <= #[trigger] no_edges@[m] < node
                        && degree@[no_edges@[m] as int] == 0,
                forall|i: int|
                    0 <= i < node && #[trigger] degree@[i] == 0 ==> exists|m: int|
                        0 <= m < no_edges@.len() && no_edges@[m] == i,
            decreases degree@.len() - node,
        {
            if degree[node] == 0 {
                let ghost found = no_edges@;
                no_edges.push(node);
                proof {
                    assert forall|i: int|
                        0 <= i < node + 1 && #[trigger] degree@[i] == 0 implies exists|m: int|
                        0 <= m < no_edges@.len() && no_edges@[m] == i by {
                        if i < node {
                            let m = choose|m: int| 0 <= m < found.len() && found[m] == i;
                            assert(no_edges@[m] == i);
                        } else {
                            assert(no_edges@[found.len() as int] == i);
                        }
                    }
                }
            }
            node = node + 1;
        }
        no_edges
    }

    /// Emits a waiting handle that waits for no other waiting handle, if there is one.
    /// If there is none and handles are still waiting, they are all discarded and the
    /// cycle is reported, once. With no handle waiting the traversal is over.
    pub fn next(&mut self) -> (r: Option<Result<usize, CycleError>>)
        requires
            old(self).wf(),
        ensures
            final(self).wf(),
            final(self).needs() == old(self).needs(),
            match r {
                Some(Ok(node)) => {
                    &&& old(self).live().contains(node as int)
                    &&& old(self).needs()[node as int].disjoint(old(self).live())
                    &&& final(self).live() == old(self).live().remove(node as int)
                },
                Some(Err(_)) => {
                    &&& !old(self).live().is_empty()
                    &&& forall|i: int|
                        old(self).live().contains(i) ==> !(#[trigger] old(self).needs()[i]).disjoint(
                            old(self).live(),
                        )
                    &&& final(self).live().is_empty()
                },
                None => old(self).live().is_empty() && final(self).live().is_empty(),
            },
    {
        match self.no_edges.pop() {
            Some(node) => {
                let ghost needs = self.needs@;
                let ghost before = self.live@;
                let ghost after = before.remove(node as int);
                let ghost row = self.dependents@[node as int]@;
                proof {
                    assert(old(self).no_edges@.last() == node);
                    assert(before.contains(node as int));
                    assert(needs[node as int].intersect(before).len() == 0);
                    assert(needs[node as int].intersect(before).finite());
                    assert(needs[node as int].intersect(before) =~= Set::<int>::empty());
                    assert(needs[node as int].disjoint(before)) by {
                        assert forall|j: int| needs[node as int].contains(j) implies !before.contains(
                            j,
                        ) by {
                            if before.contains(j) {
                                assert(needs[node as int].intersect(before).contains(j));
                            }
                        }
                    }
                    assert forall|i: int|
                        after.contains(i) && #[trigger] self.degree@[i] == 0 implies occurs_from(
                        self.no_edges@,
                        0,
                        i,
                    ) by {
                        let m = choose|m: int|
                            0 <= m < old(self).no_edges@.len() && #[trigger] old(self).no_edges@[m]
                                == i;
                        assert(self.no_edges@[m] == i);
                    }
                    assert forall|i: int| after.contains(i) implies #[trigger] self.degree@[i]
                        == needs[i].intersect(after).len() + (if occurs_from(row, 0, i) {
                        1int
                    } else {
                        0int
                    }) by {
                        lemma_count_after_removal(needs[i], before, node as int);
                        if occurs_from(row, 0, i) {
                            let m = choose|m: int| 0 <= m < row.len() && #[trigger] row[m] == i;
                            assert(needs[row[m] as int].contains(node as int));
                        }
                    }
                }
                self.live = Ghost(after);
                self.remaining = self.remaining - 1;
                let count = self.dependents[node].len();
                let mut k: usize = 0;
                while k < count
                    invariant
                        0 <= k <= count,
                        count == row.len(),
                        node < self.dependents@.len(),
                        row == self.dependents@[node as int]@,
                        needs == self.needs@,
                        after == self.live@,
                        after == before.remove(node as int),
                        before.contains(node as int),
                        before.finite(),
                        self.degree@.len() == needs.len(),
                        needs_in_range(needs),
                        is_transposed(needs, self.dependents@),
                        self.remaining == after.len(),
                        forall|i: int| before.contains(i) ==> 0 <= i < needs.len(),
                        forall|i: int|
                            after.contains(i) ==> #[trigger] self.degree@[i] == needs[i].intersect(
                                after,
                            ).len() + (if occurs_from(row, k as int, i) {
                                1int
                            } else {
                                0int
                            }),
                        self.no_edges@.no_duplicates(),
                        forall|m: int|
                            0 <= m < self.no_edges@.len() ==> {
                                &&& after.contains(#[trigger] self.no_edges@[m] as int)
                                &&& self.degree@[self.no_edges@[m] as int] == 0
                            },
                        forall|i: int|
                            after.contains(i) && #[trigger] self.degree@[i] == 0 ==> occurs_from(
                                self.no_edges@,
                                0,
                                i,
                            ),
                        forall|i: int, j: int|
                            0 <= i < needs.len() && !before.contains(i) && #[trigger] needs[i].contains(
                                j,
                            ) ==> !before.contains(j),
                    decreases count - k,
                {
                    let dependent = self.dependents[node][k];
                    proof {
                        assert(row[k as int] == dependent);
                        assert(needs[dependent as int].contains(node as int));
                        assert(before.contains(dependent as int));
                        assert(after.contains(dependent as int));
                        assert(occurs_from(row, k as int, dependent as int));
                    }
                    let ghost degree_before = self.degree@;
                    let ghost ready_before = self.no_edges@;
                    let edges = self.degree[dependent] - 1;
                    self.degree[dependent] = edges;
                    if edges == 0 {
                        self.no_edges.push(dependent);
                    }
                    proof {
                        assert forall|i: int| after.contains(i) implies #[trigger] self.degree@[i]
                            == needs[i].intersect(after).len() + (if occurs_from(
                            row,
                            k as int + 1,
                            i,
                        ) {
                            1int
                        } else {
                            0int
                        }) by {
                            if i == dependent as int {
                                if occurs_from(row, k as int + 1, i) {
                                    let m = choose|m: int|
                                        k as int + 1 <= m < row.len() && #[trigger] row[m] == i;
                                    assert(row[m] == row[k as int]);
                                }
                            } else {
                                if occurs_from(row, k as int, i) {
                                    let m = choose|m: int|
                                        k as int <= m < row.len() && #[trigger] row[m] == i;
                                    assert(m != k as int);
                                    assert(occurs_from(row, k as int + 1, i));
                                }
                                if occurs_from(row, k as int + 1, i) {
                                    let m = choose|m: int|
                                        k as int + 1 <= m < row.len() && #[trigger] row[m] == i;
                                    assert(occurs_from(row, k as int, i));
                                }
                            }
                        }
                        assert forall|i: int|
                            after.contains(i) && #[trigger] self.degree@[i] == 0 implies occurs_from(
                            self.no_edges@,
                            0,
                            i,
                        ) by {
                            if i == dependent as int {
                                assert(self.no_edges@[self.no_edges@.len() - 1] == i);
                            } else {
                                assert(degree_before[i] == 0);
                                let m = choose|m: int|
                                    0 <= m < ready_before.len() && #[trigger] ready_before[m] == i;
                                assert(self.no_edges@[m] == i);
                            }
                        }
                        assert forall|m: int| 0 <= m < self.no_edges@.len() implies {
                            &&& after.contains(#[trigger] self.no_edges@[m] as int)
                            &&& self.degree@[self.no_edges@[m] as int] == 0
                        } by {
                            if m < ready_before.len() {
                                assert(ready_before[m] == self.no_edges@[m]);
                                assert(degree_before[ready_before[m] as int] == 0);
                            }
                        }
                        assert(self.no_edges@.no_duplicates()) by {
                            if edges == 0 {
                                assert forall|a: int, b: int|
                                    0 <= a < self.no_edges@.len() && 0 <= b < self.no_edges@.len()
                                        && a != b implies self.no_edges@[a] != self.no_edges@[b] by {
                                    if a < ready_before.len() && b < ready_before.len() {
                                    } else if a < ready_before.len() {
                                        assert(degree_before[ready_before[a] as int] == 0);
                                    } else {
                                        assert(degree_before[ready_before[b] as int] == 0);
                                    }
                                }
                            }
                        }
                    }
                    k = k + 1;
                }
                Some(Ok(node))
            },
            None => {
                if self.remaining == 0 {
                    proof {
                        assert(self.live@.len() == 0);
                        assert(self.live@ =~= Set::<int>::empty());
                    }
                    None
                } else {
                    proof {
                        assert(self.no_edges@.len() == 0);
                        assert forall|i: int| self.live@.contains(i) implies !(
                        #[trigger] self.needs@[i]).disjoint(self.live@) by {
                            if self.degree@[i] == 0 {
                                assert(occurs_from(self.no_edges@, 0, i));
                            }
                            let waiting = self.needs@[i].intersect(self.live@);
                            assert(waiting.len() > 0);
                            let j = waiting.choose();
                            assert(waiting.contains(j));
                        }
                        assert(self.live@.len() != 0);
                    }
                    self.remaining = 0;
                    self.live = Ghost(Set::empty());
                    Some(Err(CycleError))
                }
            },
        }
    }

    /// The number of handles still waiting, as the lower and the upper bound of what is
    /// left of the traversal.
    pub fn size_hint(&self) -> (r: (usize, Option<usize>))
        requires
            self.wf(),
        ensures
            r.0 == self.live().len(),
            r.1 == Some(r.0),
    {
        let len = self.remaining;
        (len, Some(len))
    }
}

} // verus!
