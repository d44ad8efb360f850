//! The entries of the store laid out by number, borrowed or moved out.

use crate::engine::{is_index_of, set_views};
use crate::handles::enumerates;
use crate::store::{is_numbered, is_taken, store_of};
use std::collections::{HashMap, HashSet};
use std::hash::Hash;
use vstd::prelude::*;
use vstd::std_specs::hash::obeys_key_model;
use vstd::std_specs::iter::IteratorSpec;

verus! {

/// `entries` lists every key of `nodes` once, each with the value that `nodes` maps it to.
pub open spec fn is_listing<K, V>(nodes: Map<K, V>, entries: Seq<(K, V)>) -> bool {
    &&& forall|i: int|
        0 <= i < entries.len() ==> nodes.contains_key((#[trigger] entries[i]).0) && nodes[entries[i].0]
            == entries[i].1
    &&& forall|i: int, j: int|
        0 <= i < entries.len() && 0 <= j < entries.len() && i != j ==> (#[trigger] entries[i]).0 != (
        #[trigger] entries[j]).0
    &&& forall|key: K|
        nodes.contains_key(key) ==> exists|i: int|
            0 <= i < entries.len() && (#[trigger] entries[i]).0 == key
}

/// Moves the entries out of a hash map of std into a vector, by `Vec::from_iter` over
/// the map's consuming iterator. Trusted, as std documents that iterator for keys whose
/// `Eq` and `Hash` agree with equality: each key of the map comes once, with its value,
/// and nothing else comes. No order is promised.
#[verifier::external_body]
pub(crate) fn into_entries<K: Eq + Hash, V>(nodes: HashMap<K, V>) -> (entries: Vec<(K, V)>)
    ensures
        obeys_key_model::<K>() ==> is_listing(nodes@, entries@),
{
    Vec::from_iter(nodes)
}

/// The keys of the store and the sets of their declared dependencies, borrowed, each at
/// the position that is the number of its node.
pub fn by_number<'d, T: Eq + Hash>(node_depends: &'d HashMap<T, (usize, HashSet<T>)>) -> (r: (
    Vec<&'d T>,
    Vec<&'d HashSet<T>>,
))
    requires
        obeys_key_model::<T>(),
        is_numbered(node_depends@),
    ensures
        is_index_of(node_depends@, r.0@.unref()),
        enumerates(store_of(node_depends@), r.0@.unref(), set_views(r.1@)),
        forall|i: int| 0 <= i < r.1@.len() ==> *(#[trigger] r.1@[i]) == node_depends@[*r.0@[i]].1,
{
    let len = node_depends.len();
    let mut arena: Vec<Option<(&'d T, &'d HashSet<T>)>> = Vec::with_capacity(len);
    let mut fill: usize = 0;
    while fill < len
        invariant
            0 <= fill <= len,
            arena@.len() == fill,
        decreases len - fill,
    {
        arena.push(None);
        fill = fill + 1;
    }
    let ghost nodes = node_depends@;
    let ghost listed = node_depends.iter().remaining();
    for entry in it: node_depends.iter()
        invariant
            it.seq() == listed,
            listed.no_duplicates(),
            nodes == node_depends@,
            is_numbered(nodes),
            len == nodes.dom().len(),
            arena@.len() == len,
            forall|m: int|
                0 <= m < listed.len() ==> nodes.contains_key(*(#[trigger] listed[m]).0) && nodes[*listed[m].0]
                    == *listed[m].1,
            forall|m: int|
                0 <= m < it.index() ==> arena@[(*(#[trigger] listed[m]).1).0 as int] == Some(
                    (listed[m].0, &(*listed[m].1).1),
                ),
    {
        let ghost at = it.index();
        let ghost before = arena@;
        let id = (entry.1).0;
        arena[id] = Some((entry.0, &(entry.1).1));
        proof {
            assert forall|m: int| 0 <= m < at + 1 implies arena@[(*(#[trigger] listed[m]).1).0 as int]
                == Some((listed[m].0, &(*listed[m].1).1)) by {
                if m < at {
                    assert(nodes.contains_key(*listed[m].0));
                    assert(nodes.contains_key(*listed[at].0));
                    if (*listed[m].1).0 == id {
                        assert(nodes[*listed[m].0].0 == nodes[*listed[at].0].0);
                        assert(listed[m] == listed[at]);
                    }
                    assert(arena@[(*listed[m].1).0 as int] == before[(*listed[m].1).0 as int]);
                }
            }
        }
    }
    proof {
        assert forall|id: int| 0 <= id < len implies (#[trigger] arena@[id]) is Some && nodes.contains_key(
            *(arena@[id]->Some_0).0,
        ) && nodes[*(arena@[id]->Some_0).0].0 == id && nodes[*(arena@[id]->Some_0).0].1 == *(
        arena@[id]->Some_0).1 by {
            assert(is_taken(nodes, id));
            let node = choose|node: T| nodes.contains_key(node) && (#[trigger] nodes[node]).0 == id;
            assert(listed.contains((&node, &nodes[node])));
            let m = choose|m: int| 0 <= m < listed.len() && listed[m] == (&node, &nodes[node]);
            assert(arena@[(*listed[m].1).0 as int] == Some((listed[m].0, &(*listed[m].1).1)));
        }
    }
    let mut keys: Vec<&'d T> = Vec::with_capacity(len);
    let mut depends: Vec<&'d HashSet<T>> = Vec::with_capacity(len);
    let mut id: usize = 0;
    while id < len
        invariant
            0 <= id <= len,
            arena@.len() == len,
            keys@.len() == id,
            depends@.len() == id,
            forall|i: int| 0 <= i < len ==> (#[trigger] arena@[i]) is Some,
            forall|i: int|
                0 <= i < id ==> #[trigger] keys@[i] == (arena@[i]->Some_0).0 && depends@[i] == (
                arena@[i]->Some_0).1,
        decreases len - id,
    {
        let slot = arena[id].unwrap();
        keys.push(slot.0);
        depends.push(slot.1);
        id = id + 1;
    }
    proof {
        let key_seq = keys@.unref();
        let set_seq = set_views(depends@);
        let store = store_of(nodes);
        assert forall|i: int| 0 <= i < key_seq.len() implies nodes.contains_key(
            #[trigger] key_seq[i],
        ) && nodes[key_seq[i]].0 == i by {
            assert(arena@[i] is Some);
        }
        assert forall|node: T| nodes.contains_key(node) implies (#[trigger] nodes[node]).0
            < key_seq.len() && key_seq[nodes[node].0 as int] == node by {
            let i = nodes[node].0 as int;
            assert(arena@[i] is Some);
            assert(nodes.contains_key(key_seq[i]) && nodes[key_seq[i]].0 == i);
        }
        assert forall|i: int, j: int|
            0 <= i < key_seq.len() && 0 <= j < key_seq.len() && i != j implies key_seq[i]
            != key_seq[j] by {
            assert(nodes[key_seq[i]].0 == i);
            assert(nodes[key_seq[j]].0 == j);
        }
        assert forall|i: int| 0 <= i < key_seq.len() implies store.contains_key(
            #[trigger] key_seq[i],
        ) && store[key_seq[i]] == set_seq[i] by {
            assert(arena@[i] is Some);
        }
        assert forall|node: T| store.contains_key(node) implies key_seq.contains(node) by {
            assert(key_seq[nodes[node].0 as int] == node);
        }
        assert forall|i: int| 0 <= i < depends@.len() implies *(#[trigger] depends@[i])
            == nodes[*keys@[i]].1 by {
            assert(arena@[i] is Some);
        }
    }
    (keys, depends)
}

} // verus!
