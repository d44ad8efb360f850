//! What holds of every traversal of a store, whatever the order in which ready nodes are
//! taken.

use crate::cycles::{
    lemma_cycle_iff_led_to, lemma_order_avoids_cycles, lemma_sorted_means_acyclic,
    lemma_stuck_means_cycle,
};
use crate::graph::{
    depends_on, has_cycle, is_cycle, is_dependency_order, is_progress, is_ready,
    is_stuck, is_topological_order, is_traversal, leads_to_cycle, same_constraints,
};
use vstd::prelude::*;
use vstd::set_lib::lemma_len_subset;

verus! {

/// A traversal that has yielded nothing has made progress from where it starts.
pub proof fn lemma_progress_start<T>(store: Map<T, Set<T>>, start: Set<T>)
    ensures
        is_progress(store, start, Seq::<T>::empty(), start),
{
}

/// Yielding a ready node is progress.
pub proof fn lemma_progress_step<T>(
    store: Map<T, Set<T>>,
    start: Set<T>,
    order: Seq<T>,
    waiting: Set<T>,
    node: T,
)
    requires
        is_progress(store, start, order, waiting),
        is_ready(store, waiting, node),
    ensures
        is_progress(store, start, order.push(node), waiting.remove(node)),
{
    let longer = order.push(node);
    let fewer = waiting.remove(node);
    assert forall|wanted: T|
        longer.contains(wanted) <==> start.contains(wanted) && !fewer.contains(wanted) by {
        if order.contains(wanted) {
            let j = choose|j: int| 0 <= j < order.len() && order[j] == wanted;
            assert(longer[j] == wanted);
        }
        if longer.contains(wanted) {
            let j = choose|j: int| 0 <= j < longer.len() && longer[j] == wanted;
            if j < order.len() {
                assert(order[j] == wanted);
            }
        }
        if wanted == node {
            assert(longer[order.len() as int] == wanted);
        }
    }
    assert forall|i: int, dep: T|
        0 <= i < longer.len() && #[trigger] depends_on(store, longer[i], dep) && start.contains(
            dep,
        ) implies exists|j: int| 0 <= j < i && longer[j] == dep by {
        if i < order.len() {
            assert(depends_on(store, order[i], dep));
            let j = choose|j: int| 0 <= j < i && order[j] == dep;
            assert(longer[j] == dep);
        } else {
            assert(!waiting.contains(dep));
            assert(order.contains(dep));
            let j = choose|j: int| 0 <= j < order.len() && order[j] == dep;
            assert(longer[j] == dep);
        }
    }
}

/// Progress that leaves no node waiting, or leaves the waiting nodes stuck, is a traversal
/// stepped to its end.
pub proof fn lemma_progress_end<T>(
    store: Map<T, Set<T>>,
    start: Set<T>,
    order: Seq<T>,
    waiting: Set<T>,
    cycled: bool,
)
    requires
        is_progress(store, start, order, waiting),
        if cycled {
            is_stuck(store, waiting)
        } else {
            waiting == Set::<T>::empty()
        },
    ensures
        is_traversal(store, start, order, cycled),
{
    assert(start.difference(order.to_set()) =~= waiting);
    assert forall|i: int| 0 <= i < order.len() implies start.contains(#[trigger] order[i]) by {
        assert(order.contains(order[i]));
    }
}

/// Progress from the whole store that leaves no node waiting has sorted the store, which
/// therefore has no cycle.
pub proof fn lemma_progress_sorts<T>(store: Map<T, Set<T>>, order: Seq<T>)
    requires
        is_progress(store, store.dom(), order, Set::<T>::empty()),
    ensures
        is_topological_order(store, order),
        !has_cycle(store),
{
    assert forall|i: int| 0 <= i < order.len() implies store.contains_key(#[trigger] order[i]) by {
        assert(order.contains(order[i]));
    }
    lemma_sorted_means_acyclic(store, order);
}

/// A traversal of the whole store yields keys of the store, none twice, each after every
/// key that it depends on.
pub proof fn law_dependencies_come_first<T>(store: Map<T, Set<T>>, order: Seq<T>, cycled: bool)
    requires
        is_traversal(store, store.dom(), order, cycled),
    ensures
        is_dependency_order(store, order),
{
}

/// A traversal of the whole of a finite store without a cycle does not end on a cycle, and
/// yields every key of the store.
pub proof fn law_acyclic_store_is_sorted<T>(store: Map<T, Set<T>>, order: Seq<T>, cycled: bool)
    requires
        store.dom().finite(),
        is_traversal(store, store.dom(), order, cycled),
        !has_cycle(store),
    ensures
        !cycled,
        is_topological_order(store, order),
{
    law_cycles_are_found(store, order, cycled);
    lemma_cycle_iff_led_to(store);
}

/// A traversal of the whole of a finite store ends on a cycle exactly if the store has one,
/// and yields exactly the keys from which no dependency chain leads into a cycle.
pub proof fn law_cycles_are_found<T>(store: Map<T, Set<T>>, order: Seq<T>, cycled: bool)
    requires
        store.dom().finite(),
        is_traversal(store, store.dom(), order, cycled),
    ensures
        cycled <==> has_cycle(store),
        forall|node: T|
            order.contains(node) <==> store.contains_key(node) && !leads_to_cycle(store, node),
{
    let left = store.dom().difference(order.to_set());
    lemma_len_subset(left, store.dom());
    lemma_order_avoids_cycles(store, order);
    if cycled {
        lemma_stuck_means_cycle(store, left);
    } else {
        assert forall|node: T| store.contains_key(node) implies order.contains(node) by {
            if !order.contains(node) {
                assert(left.contains(node));
            }
        }
        lemma_sorted_means_acyclic(store, order);
    }
    assert forall|node: T|
        order.contains(node) <==> store.contains_key(node) && !leads_to_cycle(store, node) by {
        if order.contains(node) {
            let i = choose|i: int| 0 <= i < order.len() && order[i] == node;
            assert(store.dom().contains(order[i]));
        }
        if store.contains_key(node) && !order.contains(node) {
            assert(left.contains(node));
        }
    }
}

/// A store sorts as every store with the same constraints does: the same outcomes are
/// traversals of both, the same orders sort both, and both have a cycle or neither.
pub proof fn law_constraints_decide<T>(
    store: Map<T, Set<T>>,
    other: Map<T, Set<T>>,
    remaining: Set<T>,
    order: Seq<T>,
    cycled: bool,
)
    requires
        same_constraints(store, other),
    ensures
        is_traversal(store, remaining, order, cycled) <==> is_traversal(
            other,
            remaining,
            order,
            cycled,
        ),
        is_topological_order(store, order) <==> is_topological_order(other, order),
        has_cycle(store) <==> has_cycle(other),
{
    lemma_same_constraints_one_way(store, other, remaining, order, cycled);
    lemma_same_constraints_one_way(other, store, remaining, order, cycled);
}

/// What holds of a store holds of every store with the same constraints.
proof fn lemma_same_constraints_one_way<T>(
    store: Map<T, Set<T>>,
    other: Map<T, Set<T>>,
    remaining: Set<T>,
    order: Seq<T>,
    cycled: bool,
)
    requires
        same_constraints(store, other),
    ensures
        is_traversal(store, remaining, order, cycled) ==> is_traversal(
            other,
            remaining,
            order,
            cycled,
        ),
        is_topological_order(store, order) ==> is_topological_order(other, order),
        has_cycle(store) ==> has_cycle(other),
{
    if is_traversal(store, remaining, order, cycled) {
        assert forall|i: int, dep: T|
            0 <= i < order.len() && #[trigger] depends_on(other, order[i], dep)
                && remaining.contains(dep) implies exists|j: int| 0 <= j < i && order[j] == dep by {
            assert(depends_on(store, order[i], dep));
        }
        if cycled {
            let left = remaining.difference(order.to_set());
            assert forall|node: T| !is_ready(other, left, node) by {
                assert(!is_ready(store, left, node));
                if left.contains(node) {
                    let dep = choose|dep: T| depends_on(store, node, dep) && left.contains(dep);
                    assert(depends_on(other, node, dep));
                }
            }
        }
    }
    if is_topological_order(store, order) {
        assert forall|i: int| 0 <= i < order.len() implies other.contains_key(
            #[trigger] order[i],
        ) by {
            assert(store.dom().contains(order[i]));
        }
        assert forall|i: int, dep: T|
            0 <= i < order.len() && #[trigger] depends_on(other, order[i], dep) implies exists|
            j: int,
        | 0 <= j < i && order[j] == dep by {
            assert(depends_on(store, order[i], dep));
        }
        assert forall|node: T| other.contains_key(node) implies order.contains(node) by {
            assert(store.dom().contains(node));
        }
    }
    if has_cycle(store) {
        let chain = choose|chain: Seq<T>| is_cycle(store, chain);
        assert forall|i: int| 0 <= i < chain.len() - 1 implies depends_on(
            other,
            #[trigger] chain[i],
            chain[i + 1],
        ) by {
            assert(depends_on(store, chain[i], chain[i + 1]));
        }
        assert(is_cycle(other, chain));
    }
}

/// A declared dependency that is no key of the store changes nothing. With it and without
/// it the store has the same constraints, so the same outcomes are traversals of both.
pub proof fn law_dangling_dependency_is_ignored<T>(
    store: Map<T, Set<T>>,
    node: T,
    dep: T,
    remaining: Set<T>,
    order: Seq<T>,
    cycled: bool,
)
    requires
        store.contains_key(node),
        !store.contains_key(dep),
    ensures
        same_constraints(store, store.insert(node, store[node].remove(dep))),
        is_traversal(store, remaining, order, cycled) <==> is_traversal(
            store.insert(node, store[node].remove(dep)),
            remaining,
            order,
            cycled,
        ),
        is_topological_order(store, order) <==> is_topological_order(
            store.insert(node, store[node].remove(dep)),
            order,
        ),
        has_cycle(store) <==> has_cycle(store.insert(node, store[node].remove(dep))),
{
    let lighter = store.insert(node, store[node].remove(dep));
    assert(store.dom() =~= lighter.dom());
    law_constraints_decide(store, lighter, remaining, order, cycled);
}

/// A node declared as its own dependency changes nothing. With the declaration and without
/// it the store has the same constraints, so the same outcomes are traversals of both.
pub proof fn law_self_dependency_is_ignored<T>(
    store: Map<T, Set<T>>,
    node: T,
    remaining: Set<T>,
    order: Seq<T>,
    cycled: bool,
)
    requires
        store.contains_key(node),
    ensures
        same_constraints(store, store.insert(node, store[node].remove(node))),
        is_traversal(store, remaining, order, cycled) <==> is_traversal(
            store.insert(node, store[node].remove(node)),
            remaining,
            order,
            cycled,
        ),
        is_topological_order(store, order) <==> is_topological_order(
            store.insert(node, store[node].remove(node)),
            order,
        ),
        has_cycle(store) <==> has_cycle(store.insert(node, store[node].remove(node))),
{
    let lighter = store.insert(node, store[node].remove(node));
    assert(store.dom() =~= lighter.dom());
    law_constraints_decide(store, lighter, remaining, order, cycled);
}

/// Whatever was traversed before, every traversal of the whole of a finite store without a
/// cycle yields a topological order of it. Two traversals may differ in the order, not in
/// the nodes.
pub proof fn law_every_traversal_sorts<T>(
    store: Map<T, Set<T>>,
    first: Seq<T>,
    first_cycled: bool,
    second: Seq<T>,
    second_cycled: bool,
)
    requires
        store.dom().finite(),
        is_traversal(store, store.dom(), first, first_cycled),
        is_traversal(store, store.dom(), second, second_cycled),
    ensures
        first_cycled == second_cycled,
        first.to_set() == second.to_set(),
        is_dependency_order(store, first),
        is_dependency_order(store, second),
        !has_cycle(store) ==> is_topological_order(store, first) && is_topological_order(
            store,
            second,
        ),
{
    law_cycles_are_found(store, first, first_cycled);
    law_cycles_are_found(store, second, second_cycled);
    lemma_cycle_iff_led_to(store);
    assert(first.to_set() =~= second.to_set());
}

/// A traversal that starts with every entry that is left of the store waiting, and does not
/// end on a cycle, yields the key of each of them, once.
pub proof fn law_consumed_once<T>(
    store: Map<T, Set<T>>,
    held: Map<T, Set<T>>,
    order: Seq<T>,
)
    requires
        is_traversal(store, held.dom(), order, false),
    ensures
        order.no_duplicates(),
        order.to_set() == held.dom(),
        order.len() == held.dom().len(),
{
    assert forall|node: T| held.dom().contains(node) implies order.to_set().contains(node) by {
        if !order.to_set().contains(node) {
            assert(held.dom().difference(order.to_set()).contains(node));
        }
    }
    assert forall|node: T| order.to_set().contains(node) implies held.dom().contains(node) by {
        let i = choose|i: int| 0 <= i < order.len() && order[i] == node;
        assert(held.dom().contains(order[i]));
    }
    assert(order.to_set() =~= held.dom());
    order.unique_seq_to_set();
}

} // verus!
