//! The mathematical model of a ring of nodes.
//!
//! A ring is described by two sequences: the arena, which gives the node
//! standing at each slot, and the order, which lists the slots of the value
//! nodes from front to back.  The sentinel stands at slot 0 and closes the
//! ring: it follows the last value node and precedes the first.

use vstd::prelude::*;
use vstd::seq_lib::*;
use vstd::set_lib::*;
use crate::node::Node;

verus! {

/// The slot that follows position `k` of `order`; the sentinel's slot after
/// the last position.  Position -1 stands for the sentinel itself.
pub open spec fn after(order: Seq<int>, k: int) -> int {
    if 0 <= k + 1 < order.len() {
        order[k + 1]
    } else {
        0
    }
}

/// The slot that precedes position `k` of `order`; the sentinel's slot
/// before the first position.  Position `order.len()` stands for the
/// sentinel itself.
pub open spec fn before(order: Seq<int>, k: int) -> int {
    if 0 < k <= order.len() {
        order[k - 1]
    } else {
        0
    }
}

/// The value node at position `k` stands at a slot of the arena other than
/// the sentinel's, and its links name its two neighbours in the order.
pub open spec fn linked_at<T>(arena: Seq<Node<T>>, order: Seq<int>, k: int) -> bool {
    &&& 0 < order[k] < arena.len()
    &&& arena[order[k]].next == after(order, k)
    &&& arena[order[k]].prev == before(order, k)
}

/// The sentinel's links name the first and the last value node, or the
/// sentinel itself where there is none.
pub open spec fn sentinel_linked<T>(arena: Seq<Node<T>>, order: Seq<int>) -> bool {
    &&& arena[0].next == after(order, -1)
    &&& arena[0].prev == before(order, order.len() as int)
}

/// The nodes of `arena` form one ring that runs through the sentinel and
/// then through the slots of `order`, each exactly once, and the arena holds
/// no other node.
pub open spec fn ring_wf<T>(arena: Seq<Node<T>>, order: Seq<int>) -> bool {
    &&& arena.len() == order.len() + 1
    &&& order.no_duplicates()
    &&& sentinel_linked(arena, order)
    &&& forall|k: int| 0 <= k < order.len() ==> #[trigger] linked_at(arena, order, k)
}

/// The values of the ring from front to back.
pub open spec fn values_of<T>(arena: Seq<Node<T>>, order: Seq<int>) -> Seq<T> {
    Seq::new(order.len(), |k: int| arena[order[k]].value)
}

/// A sequence without duplicates that draws `hi - lo - 1` slots from
/// `lo..hi` and leaves out `gap` holds every other slot of that range.
pub(crate) proof fn lemma_position_of(
    order: Seq<int>,
    lo: int,
    hi: int,
    gap: int,
    slot: int,
) -> (k: int)
    requires
        order.no_duplicates(),
        lo <= gap < hi,
        order.len() == hi - lo - 1,
        forall|j: int| 0 <= j < order.len() ==> lo <= #[trigger] order[j] < hi && order[j] != gap,
        lo <= slot < hi,
        slot != gap,
    ensures
        0 <= k < order.len(),
        order[k] == slot,
{
    let found = order.to_set();
    let all = set_int_range(lo, hi).remove(gap);
    order.unique_seq_to_set();
    lemma_int_range(lo, hi);
    assert(found.subset_of(all)) by {
        assert forall|s: int| found.contains(s) implies all.contains(s) by {
            let j = choose|j: int| 0 <= j < order.len() && order[j] == s;
            assert(lo <= order[j] < hi);
        }
    }
    lemma_set_subset_finite(all, found);
    lemma_subset_equality(found, all);
    assert(found.contains(slot));
    choose|k: int| 0 <= k < order.len() && order[k] == slot
}

/// The node at slot `i` names two slots of the arena, and each of the two
/// nodes that it names has it as the opposite neighbour.
pub open spec fn linked_both_ways<T>(arena: Seq<Node<T>>, i: int) -> bool {
    &&& 0 <= arena[i].next < arena.len()
    &&& 0 <= arena[i].prev < arena.len()
    &&& arena[arena[i].next as int].prev == i
    &&& arena[arena[i].prev as int].next == i
}

/// Every node of the arena is linked both ways.
pub open spec fn doubly_linked<T>(arena: Seq<Node<T>>) -> bool {
    forall|i: int| 0 <= i < arena.len() ==> #[trigger] linked_both_ways(arena, i)
}

/// The slot reached from slot `from` by following `next` links `steps`
/// times.
pub open spec fn walk_next<T>(arena: Seq<Node<T>>, from: int, steps: nat) -> int
    decreases steps,
{
    if steps == 0 {
        from
    } else {
        arena[walk_next(arena, from, (steps - 1) as nat)].next as int
    }
}

/// The slot reached from slot `from` by following `prev` links `steps`
/// times.
pub open spec fn walk_prev<T>(arena: Seq<Node<T>>, from: int, steps: nat) -> int
    decreases steps,
{
    if steps == 0 {
        from
    } else {
        arena[walk_prev(arena, from, (steps - 1) as nat)].prev as int
    }
}

/// In a ring every node, the sentinel included, is the `prev` of its `next`
/// and the `next` of its `prev`, and no link leaves the arena.
pub proof fn lemma_ring_doubly_linked<T>(arena: Seq<Node<T>>, order: Seq<int>)
    requires
        ring_wf(arena, order),
    ensures
        doubly_linked(arena),
{
    assert forall|j: int| 0 <= j < order.len() implies 0 <= #[trigger] order[j] < arena.len()
        && order[j] != 0 by {
        assert(linked_at(arena, order, j));
    }
    assert forall|i: int| 0 <= i < arena.len() implies #[trigger] linked_both_ways(arena, i) by {
        if i == 0 {
            if order.len() > 0 {
                assert(linked_at(arena, order, 0));
                assert(linked_at(arena, order, order.len() - 1));
            }
        } else {
            let at = lemma_position_of(order, 0, arena.len() as int, 0, i);
            assert(linked_at(arena, order, at));
            if at > 0 {
                assert(linked_at(arena, order, at - 1));
            }
            if at + 1 < order.len() {
                assert(linked_at(arena, order, at + 1));
            }
        }
    }
}

/// A ring is empty exactly when the sentinel is its own successor, and
/// exactly when it is its own predecessor.
pub proof fn lemma_empty_iff_sentinel_alone<T>(arena: Seq<Node<T>>, order: Seq<int>)
    requires
        ring_wf(arena, order),
    ensures
        values_of(arena, order).len() == 0 <==> arena[0].next == 0,
        values_of(arena, order).len() == 0 <==> arena[0].prev == 0,
{
    if order.len() > 0 {
        assert(linked_at(arena, order, 0));
        assert(linked_at(arena, order, order.len() - 1));
    }
}

/// A ring holds one node for each value and one more, the sentinel.
pub proof fn lemma_node_count<T>(arena: Seq<Node<T>>, order: Seq<int>)
    requires
        ring_wf(arena, order),
    ensures
        arena.len() == values_of(arena, order).len() + 1,
{
}

/// Following `next` from the sentinel visits the value nodes front to back
/// and then comes back to the sentinel.
pub proof fn lemma_walk_next<T>(arena: Seq<Node<T>>, order: Seq<int>, steps: nat)
    requires
        ring_wf(arena, order),
        steps <= order.len() + 1,
    ensures
        walk_next(arena, 0, steps) == after(order, steps - 2),
    decreases steps,
{
    if steps > 0 {
        lemma_walk_next(arena, order, (steps - 1) as nat);
        if steps > 1 {
            assert(linked_at(arena, order, steps - 2));
        }
    }
}

/// Following `prev` from the sentinel visits the value nodes back to front
/// and then comes back to the sentinel.
pub proof fn lemma_walk_prev<T>(arena: Seq<Node<T>>, order: Seq<int>, steps: nat)
    requires
        ring_wf(arena, order),
        steps <= order.len() + 1,
    ensures
        walk_prev(arena, 0, steps) == before(order, order.len() + 1 - steps),
    decreases steps,
{
    if steps > 0 {
        lemma_walk_prev(arena, order, (steps - 1) as nat);
        if steps > 1 {
            assert(linked_at(arena, order, order.len() + 1 - steps));
        }
    }
}

/// A ring is circular: following either kind of link from the sentinel
/// leads through every value node, meeting the sentinel at none of them,
/// and then back to the sentinel.
pub proof fn lemma_ring_circular<T>(arena: Seq<Node<T>>, order: Seq<int>)
    requires
        ring_wf(arena, order),
    ensures
        walk_next(arena, 0, (order.len() + 1) as nat) == 0,
        walk_prev(arena, 0, (order.len() + 1) as nat) == 0,
        forall|steps: nat|
            0 < steps <= order.len() ==> #[trigger] walk_next(arena, 0, steps) != 0,
        forall|steps: nat|
            0 < steps <= order.len() ==> #[trigger] walk_prev(arena, 0, steps) != 0,
{
    lemma_walk_next(arena, order, (order.len() + 1) as nat);
    lemma_walk_prev(arena, order, (order.len() + 1) as nat);
    assert forall|steps: nat| 0 < steps <= order.len() implies #[trigger] walk_next(
        arena,
        0,
        steps,
    ) != 0 by {
        lemma_walk_next(arena, order, steps);
        assert(linked_at(arena, order, steps - 1));
    }
    assert forall|steps: nat| 0 < steps <= order.len() implies #[trigger] walk_prev(
        arena,
        0,
        steps,
    ) != 0 by {
        lemma_walk_prev(arena, order, steps);
        assert(linked_at(arena, order, order.len() - steps));
    }
}

/// The value at position `k` is the value of the node reached from the
/// sentinel by `k + 1` steps along `next`, and of the node reached by as
/// many steps along `prev` as there are values from position `k` on.
pub proof fn lemma_values_along_links<T>(arena: Seq<Node<T>>, order: Seq<int>, k: int)
    requires
        ring_wf(arena, order),
        0 <= k < order.len(),
    ensures
        values_of(arena, order)[k] == arena[walk_next(arena, 0, (k + 1) as nat)].value,
        values_of(arena, order)[k] == arena[walk_prev(arena, 0, (order.len() - k) as nat)].value,
{
    lemma_walk_next(arena, order, (k + 1) as nat);
    lemma_walk_prev(arena, order, (order.len() - k) as nat);
}

/// The links of an arena leave no choice of order: two orders that make a
/// ring of the same arena are the same.
pub proof fn lemma_order_unique<T>(arena: Seq<Node<T>>, first: Seq<int>, second: Seq<int>)
    requires
        ring_wf(arena, first),
        ring_wf(arena, second),
    ensures
        first == second,
{
    assert forall|k: int| 0 <= k < first.len() implies first[k] == second[k] by {
        lemma_walk_next(arena, first, (k + 1) as nat);
        lemma_walk_next(arena, second, (k + 1) as nat);
    }
    assert(first =~= second);
}

} // verus!
