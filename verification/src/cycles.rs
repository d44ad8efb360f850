//! Why a traversal that gets stuck has found a cycle, and why one that does not has not.

use crate::graph::{
    depends_on, has_cycle, is_chain, is_cycle, is_dependency_order, is_knot, is_ready, is_stuck,
    is_topological_order, leads_to_cycle,
};
use vstd::prelude::*;
use vstd::set_lib::lemma_len_subset;

verus! {

/// Nodes that are stuck form a knot: each of them waits for another of them.
pub proof fn lemma_stuck_is_knot<T>(store: Map<T, Set<T>>, remaining: Set<T>)
    requires
        is_stuck(store, remaining),
    ensures
        is_knot(store, remaining),
{
    assert forall|node: T| #[trigger] remaining.contains(node) implies exists|dep: T|
        remaining.contains(dep) && depends_on(store, node, dep) by {
        assert(!is_ready(store, remaining, node));
    }
}

/// No node of a knot stands among the first `upto` nodes of a dependency order.
proof fn lemma_order_avoids_knot_upto<T>(
    store: Map<T, Set<T>>,
    order: Seq<T>,
    knot: Set<T>,
    upto: int,
)
    requires
        is_dependency_order(store, order),
        is_knot(store, knot),
        0 <= upto <= order.len(),
    ensures
        forall|i: int| 0 <= i < upto ==> !knot.contains(#[trigger] order[i]),
    decreases upto,
{
    if upto > 0 {
        lemma_order_avoids_knot_upto(store, order, knot, upto - 1);
        let node = order[upto - 1];
        if knot.contains(node) {
            let dep = choose|dep: T| knot.contains(dep) && depends_on(store, node, dep);
            let j = choose|j: int| 0 <= j < upto - 1 && order[j] == dep;
            assert(!knot.contains(order[j]));
        }
    }
}

/// No node of a knot stands in a dependency order.
pub proof fn lemma_order_avoids_knot<T>(store: Map<T, Set<T>>, order: Seq<T>, knot: Set<T>)
    requires
        is_dependency_order(store, order),
        is_knot(store, knot),
    ensures
        forall|node: T| knot.contains(node) ==> !order.contains(node),
{
    lemma_order_avoids_knot_upto(store, order, knot, order.len() as int);
}

/// The nodes of a chain that ends on a node it has already visited form a knot.
pub proof fn lemma_lasso_is_knot<T>(store: Map<T, Set<T>>, chain: Seq<T>, k: int)
    requires
        is_chain(store, chain),
        0 <= k < chain.len() - 1,
        chain[k] == chain.last(),
    ensures
        is_knot(store, chain.to_set()),
{
    let knot = chain.to_set();
    assert forall|node: T| #[trigger] knot.contains(node) implies exists|dep: T|
        knot.contains(dep) && depends_on(store, node, dep) by {
        let i = choose|i: int| 0 <= i < chain.len() && chain[i] == node;
        let at = if i < chain.len() - 1 {
            i
        } else {
            k
        };
        assert(chain[at] == node);
        assert(depends_on(store, chain[at], chain[at + 1]));
        assert(knot.contains(chain[at + 1]));
    }
}

/// A chain of `steps` steps that starts at `node` and picks, at each step, a member of
/// `knot` that the node reached has to wait for.
pub open spec fn descent<T>(store: Map<T, Set<T>>, knot: Set<T>, node: T, steps: nat) -> Seq<T>
    decreases steps,
{
    if steps == 0 {
        seq![node]
    } else {
        let chain = descent(store, knot, node, (steps - 1) as nat);
        chain.push(choose|dep: T| knot.contains(dep) && depends_on(store, chain.last(), dep))
    }
}

/// A descent from a member of a knot is a dependency chain that stays in the knot.
pub proof fn lemma_descent<T>(store: Map<T, Set<T>>, knot: Set<T>, node: T, steps: nat)
    requires
        is_knot(store, knot),
        knot.contains(node),
    ensures
        is_chain(store, descent(store, knot, node, steps)),
        descent(store, knot, node, steps).len() == steps + 1,
        descent(store, knot, node, steps).first() == node,
        forall|i: int|
            0 <= i <= steps ==> knot.contains(#[trigger] descent(store, knot, node, steps)[i]),
    decreases steps,
{
    if steps > 0 {
        lemma_descent(store, knot, node, (steps - 1) as nat);
        let chain = descent(store, knot, node, (steps - 1) as nat);
        assert(knot.contains(chain[steps - 1]));
        let dep = choose|dep: T| knot.contains(dep) && depends_on(store, chain.last(), dep);
        let longer = chain.push(dep);
        assert(longer == descent(store, knot, node, steps));
        assert forall|i: int| 0 <= i < longer.len() - 1 implies depends_on(
            store,
            #[trigger] longer[i],
            longer[i + 1],
        ) by {
            if i < steps - 1 {
                assert(depends_on(store, chain[i], chain[i + 1]));
            }
        }
    }
}

/// From every member of a finite knot a dependency chain leads into a cycle.
pub proof fn lemma_knot_leads_to_cycle<T>(store: Map<T, Set<T>>, knot: Set<T>, node: T)
    requires
        is_knot(store, knot),
        knot.finite(),
        knot.contains(node),
    ensures
        leads_to_cycle(store, node),
{
    let steps = knot.len();
    let chain = descent(store, knot, node, steps);
    lemma_descent(store, knot, node, steps);
    if chain.no_duplicates() {
        chain.unique_seq_to_set();
        assert(chain.to_set().subset_of(knot)) by {
            assert forall|x: T| chain.to_set().contains(x) implies knot.contains(x) by {
                let i = choose|i: int| 0 <= i < chain.len() && chain[i] == x;
                assert(knot.contains(chain[i]));
            }
        }
        lemma_len_subset(chain.to_set(), knot);
        assert(false);
    }
    let (a, b) = choose|a: int, b: int|
        0 <= a < chain.len() && 0 <= b < chain.len() && a != b && chain[a] == chain[b];
    let (lo, hi) = if a < b {
        (a, b)
    } else {
        (b, a)
    };
    let lasso = chain.take(hi + 1);
    assert forall|i: int| 0 <= i < lasso.len() - 1 implies depends_on(
        store,
        #[trigger] lasso[i],
        lasso[i + 1],
    ) by {
        assert(depends_on(store, chain[i], chain[i + 1]));
    }
    assert(is_chain(store, lasso));
    assert(lasso[lo] == lasso.last());
}

/// A node on a cycle leads to a cycle, and where a node leads to a cycle there is one.
pub proof fn lemma_cycle_iff_led_to<T>(store: Map<T, Set<T>>)
    ensures
        has_cycle(store) <==> exists|node: T| leads_to_cycle(store, node),
{
    if has_cycle(store) {
        let chain = choose|chain: Seq<T>| is_cycle(store, chain);
        assert(is_chain(store, chain) && chain[0] == chain.last());
        assert(leads_to_cycle(store, chain.first()));
    }
    if exists|node: T| leads_to_cycle(store, node) {
        let node = choose|node: T| leads_to_cycle(store, node);
        let (chain, k) = choose|chain: Seq<T>, k: int|
            #![trigger is_chain(store, chain), chain[k]]
            is_chain(store, chain) && chain.first() == node && 0 <= k < chain.len() - 1 && chain[k]
                == chain.last();
        let circle = chain.subrange(k, chain.len() as int);
        assert forall|i: int| 0 <= i < circle.len() - 1 implies depends_on(
            store,
            #[trigger] circle[i],
            circle[i + 1],
        ) by {
            assert(depends_on(store, chain[k + i], chain[k + i + 1]));
        }
        assert(is_cycle(store, circle));
    }
}

/// Where finitely many nodes are stuck, each of them leads to a cycle, so there is one.
pub proof fn lemma_stuck_means_cycle<T>(store: Map<T, Set<T>>, remaining: Set<T>)
    requires
        is_stuck(store, remaining),
        remaining.finite(),
    ensures
        has_cycle(store),
        forall|node: T| remaining.contains(node) ==> leads_to_cycle(store, node),
{
    lemma_stuck_is_knot(store, remaining);
    assert forall|node: T| remaining.contains(node) implies leads_to_cycle(store, node) by {
        lemma_knot_leads_to_cycle(store, remaining, node);
    }
    let some = choose|node: T| remaining.contains(node);
    assert(leads_to_cycle(store, some));
    lemma_cycle_iff_led_to(store);
}

/// No node of a dependency order leads to a cycle.
pub proof fn lemma_order_avoids_cycles<T>(store: Map<T, Set<T>>, order: Seq<T>)
    requires
        is_dependency_order(store, order),
    ensures
        forall|node: T| leads_to_cycle(store, node) ==> !order.contains(node),
{
    assert forall|node: T| leads_to_cycle(store, node) implies !order.contains(node) by {
        let (chain, k) = choose|chain: Seq<T>, k: int|
            #![trigger is_chain(store, chain), chain[k]]
            is_chain(store, chain) && chain.first() == node && 0 <= k < chain.len() - 1 && chain[k]
                == chain.last();
        lemma_lasso_is_knot(store, chain, k);
        lemma_order_avoids_knot(store, order, chain.to_set());
        assert(chain.to_set().contains(chain[0]));
    }
}

/// A store that has a topological order has no cycle.
pub proof fn lemma_sorted_means_acyclic<T>(store: Map<T, Set<T>>, order: Seq<T>)
    requires
        is_topological_order(store, order),
    ensures
        !has_cycle(store),
{
    if has_cycle(store) {
        let chain = choose|chain: Seq<T>| is_cycle(store, chain);
        assert(is_chain(store, chain) && chain[0] == chain.last());
        assert(leads_to_cycle(store, chain.first()));
        assert(depends_on(store, chain[0], chain[1]));
        lemma_order_avoids_cycles(store, order);
        assert(order.contains(chain.first()));
    }
}

} // verus!
