//! The mathematical model of a dependency store and of the orders it admits.
//!
//! A store is a map from each node to the set of nodes declared as its dependencies.
//! Only some declared dependencies count: one that is not itself a key of the store, or
//! that is the node itself, constrains nothing.

use vstd::prelude::*;

verus! {

/// `node` has to wait for `dep`: both are keys of the store, they differ, and `dep` is
/// declared as a dependency of `node`.
pub open spec fn depends_on<T>(store: Map<T, Set<T>>, node: T, dep: T) -> bool {
    &&& store.contains_key(node)
    &&& store.contains_key(dep)
    &&& node != dep
    &&& store[node].contains(dep)
}

/// Two stores have the same keys, and in both the same key has to wait for the same keys.
pub open spec fn same_constraints<T>(store: Map<T, Set<T>>, other: Map<T, Set<T>>) -> bool {
    &&& store.dom() == other.dom()
    &&& forall|node: T, dep: T| depends_on(store, node, dep) <==> depends_on(other, node, dep)
}

/// `node` is still waiting in `remaining`, and nothing it has to wait for is.
pub open spec fn is_ready<T>(store: Map<T, Set<T>>, remaining: Set<T>, node: T) -> bool {
    &&& remaining.contains(node)
    &&& forall|dep: T|
        #![trigger depends_on(store, node, dep)]
        #![trigger remaining.contains(dep)]
        depends_on(store, node, dep) ==> !remaining.contains(dep)
}

/// Some nodes are still waiting, and none of them is ready.
pub open spec fn is_stuck<T>(store: Map<T, Set<T>>, remaining: Set<T>) -> bool {
    &&& exists|node: T| remaining.contains(node)
    &&& forall|node: T| !is_ready(store, remaining, node)
}

/// `order` lists keys of the store, none twice, each after everything it has to wait for.
pub open spec fn is_dependency_order<T>(store: Map<T, Set<T>>, order: Seq<T>) -> bool {
    &&& order.no_duplicates()
    &&& forall|i: int| 0 <= i < order.len() ==> store.contains_key(#[trigger] order[i])
    &&& forall|i: int, dep: T|
        0 <= i < order.len() && #[trigger] depends_on(store, order[i], dep) ==> exists|j: int|
            0 <= j < i && order[j] == dep
}

/// `order` is a dependency order that lists every key of the store.
pub open spec fn is_topological_order<T>(store: Map<T, Set<T>>, order: Seq<T>) -> bool {
    &&& is_dependency_order(store, order)
    &&& forall|node: T| store.contains_key(node) ==> order.contains(node)
}

/// `order` is what a traversal that started with the nodes of `start` waiting has yielded
/// when the nodes of `waiting` are left: the nodes of `start` that no longer wait, none
/// twice, each after the nodes of `start` that it has to wait for.
pub open spec fn is_progress<T>(
    store: Map<T, Set<T>>,
    start: Set<T>,
    order: Seq<T>,
    waiting: Set<T>,
) -> bool {
    &&& order.no_duplicates()
    &&& waiting.subset_of(start)
    &&& forall|node: T| order.contains(node) <==> start.contains(node) && !waiting.contains(node)
    &&& forall|i: int, dep: T|
        0 <= i < order.len() && #[trigger] depends_on(store, order[i], dep) && start.contains(dep)
            ==> exists|j: int| 0 <= j < i && order[j] == dep
}

/// `order` is what a traversal that starts with the nodes of `remaining` waiting, and is
/// stepped to its end, yields, and `cycled` says whether it ends on a cycle: the nodes of
/// `order` were waiting, none comes twice, each comes after the waiting nodes it has to
/// wait for, and the nodes then left are stuck if the traversal ends on a cycle, and none
/// is left if it does not.
pub open spec fn is_traversal<T>(
    store: Map<T, Set<T>>,
    remaining: Set<T>,
    order: Seq<T>,
    cycled: bool,
) -> bool {
    &&& order.no_duplicates()
    &&& forall|i: int| 0 <= i < order.len() ==> remaining.contains(#[trigger] order[i])
    &&& forall|i: int, dep: T|
        0 <= i < order.len() && #[trigger] depends_on(store, order[i], dep) && remaining.contains(
            dep,
        ) ==> exists|j: int| 0 <= j < i && order[j] == dep
    &&& if cycled {
        is_stuck(store, remaining.difference(order.to_set()))
    } else {
        remaining.difference(order.to_set()) == Set::<T>::empty()
    }
}

/// Every member of `knot` has to wait for another member.
pub open spec fn is_knot<T>(store: Map<T, Set<T>>, knot: Set<T>) -> bool {
    forall|node: T| #[trigger]
        knot.contains(node) ==> exists|dep: T| knot.contains(dep) && depends_on(store, node, dep)
}

/// Each element of `chain` has to wait for the element that follows it.
pub open spec fn is_chain<T>(store: Map<T, Set<T>>, chain: Seq<T>) -> bool {
    &&& chain.len() >= 1
    &&& forall|i: int|
        0 <= i < chain.len() - 1 ==> depends_on(store, #[trigger] chain[i], chain[i + 1])
}

/// `chain` is a dependency chain that ends on the node it started from.
pub open spec fn is_cycle<T>(store: Map<T, Set<T>>, chain: Seq<T>) -> bool {
    &&& is_chain(store, chain)
    &&& chain.len() >= 2
    &&& chain.first() == chain.last()
}

/// The store holds nodes that wait for one another in a circle.
pub open spec fn has_cycle<T>(store: Map<T, Set<T>>) -> bool {
    exists|chain: Seq<T>| is_cycle(store, chain)
}

/// A dependency chain starts at `node` and ends on a node that it has already visited:
/// `node` lies on a cycle, or waits, directly or through others, for a node that does.
pub open spec fn leads_to_cycle<T>(store: Map<T, Set<T>>, node: T) -> bool {
    exists|chain: Seq<T>, k: int|
        #![trigger is_chain(store, chain), chain[k]]
        is_chain(store, chain) && chain.first() == node && 0 <= k < chain.len() - 1 && chain[k]
            == chain.last()
}

} // verus!
