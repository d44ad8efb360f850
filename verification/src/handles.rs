//! How handles stand for nodes: what the engine says of handles, said of the nodes of a
//! store.

use crate::engine::needs_of;
use crate::graph::{depends_on, is_ready, is_stuck};
use vstd::prelude::*;
use vstd::set_lib::{lemma_map_size, set_int_range};

verus! {

/// `keys` lists every key of the store once, and `depends` the dependencies declared for
/// each, in the same order.
pub open spec fn enumerates<T>(store: Map<T, Set<T>>, keys: Seq<T>, depends: Seq<Set<T>>) -> bool {
    &&& keys.len() == depends.len()
    &&& keys.no_duplicates()
    &&& forall|i: int|
        0 <= i < keys.len() ==> store.contains_key(#[trigger] keys[i]) && store[keys[i]]
            == depends[i]
    &&& forall|node: T| store.contains_key(node) ==> keys.contains(node)
}

/// The nodes that the handles in `live` stand for.
pub open spec fn named<T>(keys: Seq<T>, live: Set<int>) -> Set<T> {
    Set::new(
        |node: T| exists|i: int| 0 <= i < keys.len() && live.contains(i) && #[trigger] keys[i] == node,
    )
}

/// All handles together stand for all keys of the store.
pub proof fn lemma_named_all<T>(store: Map<T, Set<T>>, keys: Seq<T>, depends: Seq<Set<T>>)
    requires
        enumerates(store, keys, depends),
    ensures
        named(keys, set_int_range(0, keys.len() as int)) == store.dom(),
{
    let all = set_int_range(0, keys.len() as int);
    assert forall|node: T| store.contains_key(node) implies named(keys, all).contains(node) by {
        assert(keys.contains(node));
        let i = choose|i: int| 0 <= i < keys.len() && keys[i] == node;
        assert(all.contains(i) && keys[i] == node);
    }
    assert(named(keys, all) =~= store.dom());
}

/// No handle stands for no node.
pub proof fn lemma_named_none<T>(keys: Seq<T>, live: Set<int>)
    requires
        live.is_empty(),
    ensures
        named(keys, live) == Set::<T>::empty(),
{
    assert(named(keys, live) =~= Set::<T>::empty());
}

/// The nodes named are keys of the store, and as many as the handles.
pub proof fn lemma_named_len<T>(
    store: Map<T, Set<T>>,
    keys: Seq<T>,
    depends: Seq<Set<T>>,
    live: Set<int>,
)
    requires
        enumerates(store, keys, depends),
        live.finite(),
        forall|i: int| live.contains(i) ==> 0 <= i < keys.len(),
    ensures
        named(keys, live).subset_of(store.dom()),
        named(keys, live).finite(),
        named(keys, live).len() == live.len(),
{
    let f = |i: int| keys[i];
    assert forall|node: T| named(keys, live).contains(node) implies live.map(f).contains(node) by {
        let i = choose|i: int| 0 <= i < keys.len() && live.contains(i) && #[trigger] keys[i] == node;
        assert(live.contains(i) && node == f(i));
    }
    assert forall|node: T| live.map(f).contains(node) implies named(keys, live).contains(node) by {
        let i = choose|i: int| live.contains(i) && node == f(i);
        assert(keys[i] == node);
    }
    assert(live.map(f) =~= named(keys, live));
    lemma_map_size(live, named(keys, live), f);
}

/// Without the handle `h`, the handles stand for the same nodes without the node of `h`.
pub proof fn lemma_named_remove<T>(keys: Seq<T>, live: Set<int>, h: int)
    requires
        keys.no_duplicates(),
        0 <= h < keys.len(),
        live.contains(h),
    ensures
        named(keys, live).contains(keys[h]),
        named(keys, live.remove(h)) == named(keys, live).remove(keys[h]),
{
    let smaller = named(keys, live.remove(h));
    let larger = named(keys, live);
    assert forall|node: T| smaller.contains(node) implies larger.remove(keys[h]).contains(node) by {
        let i = choose|i: int|
            0 <= i < keys.len() && live.remove(h).contains(i) && #[trigger] keys[i] == node;
        assert(live.contains(i) && keys[i] == node);
    }
    assert forall|node: T| larger.remove(keys[h]).contains(node) implies smaller.contains(node) by {
        let i = choose|i: int| 0 <= i < keys.len() && live.contains(i) && #[trigger] keys[i] == node;
        assert(live.remove(h).contains(i) && keys[i] == node);
    }
    assert(smaller =~= larger.remove(keys[h]));
}

/// A waiting handle that waits for no waiting handle stands for a node that is ready.
pub proof fn lemma_ready<T>(
    store: Map<T, Set<T>>,
    keys: Seq<T>,
    depends: Seq<Set<T>>,
    live: Set<int>,
    h: int,
)
    requires
        enumerates(store, keys, depends),
        0 <= h < keys.len(),
        live.contains(h),
        needs_of(keys, depends)[h].disjoint(live),
    ensures
        is_ready(store, named(keys, live), keys[h]),
{
    let waiting = named(keys, live);
    assert forall|dep: T| depends_on(store, keys[h], dep) implies !waiting.contains(dep) by {
        if waiting.contains(dep) {
            let j = choose|j: int| 0 <= j < keys.len() && live.contains(j) && #[trigger] keys[j] == dep;
            assert(needs_of(keys, depends)[h].contains(j));
        }
    }
}

/// Waiting handles that all wait for a waiting handle stand for nodes that are stuck.
pub proof fn lemma_stuck<T>(
    store: Map<T, Set<T>>,
    keys: Seq<T>,
    depends: Seq<Set<T>>,
    live: Set<int>,
)
    requires
        enumerates(store, keys, depends),
        !live.is_empty(),
        forall|i: int| live.contains(i) ==> 0 <= i < keys.len(),
        forall|i: int| live.contains(i) ==> !(#[trigger] needs_of(keys, depends)[i]).disjoint(live),
    ensures
        is_stuck(store, named(keys, live)),
{
    let waiting = named(keys, live);
    let some = choose|i: int| live.contains(i);
    assert(waiting.contains(keys[some]));
    assert forall|node: T| !is_ready(store, waiting, node) by {
        if waiting.contains(node) {
            let i = choose|i: int| 0 <= i < keys.len() && live.contains(i) && #[trigger] keys[i] == node;
            let wanted = needs_of(keys, depends)[i];
            let j = choose|j: int| wanted.contains(j) && live.contains(j);
            assert(depends_on(store, node, keys[j]));
            assert(waiting.contains(keys[j]));
        }
    }
}

} // verus!
