//! Taking a node out of the arena.
//!
//! The arena has no gaps: when a node leaves, the node of the last slot
//! moves into the freed slot and its two neighbours are told its new place.
//! This module states what that does to a ring and proves that a ring
//! remains.

use vstd::prelude::*;
use crate::node::Node;
use crate::ring::{
    after, before, lemma_position_of, linked_at, ring_wf, sentinel_linked, values_of,
};

verus! {

/// As `ring_wf`, with one more node in the arena: the node at slot `spare`
/// is detached and stands outside the ring.
pub open spec fn ring_wf_apart<T>(arena: Seq<Node<T>>, order: Seq<int>, spare: int) -> bool {
    &&& arena.len() == order.len() + 2
    &&& 0 < spare < arena.len()
    &&& arena[spare].is_detached_at(spare)
    &&& order.no_duplicates()
    &&& sentinel_linked(arena, order)
    &&& forall|k: int|
        0 <= k < order.len() ==> #[trigger] linked_at(arena, order, k) && order[k] != spare
}

/// `order` with every occurrence of slot `from` replaced by slot `to`.
pub open spec fn renamed(order: Seq<int>, from: int, to: int) -> Seq<int> {
    Seq::new(order.len(), |k: int| if order[k] == from { to } else { order[k] })
}

/// `node` with its `next` link pointed at `slot`.
pub open spec fn with_next<T>(node: Node<T>, slot: int) -> Node<T> {
    Node { value: node.value, next: slot as usize, prev: node.prev }
}

/// `node` with its `prev` link pointed at `slot`.
pub open spec fn with_prev<T>(node: Node<T>, slot: int) -> Node<T> {
    Node { value: node.value, next: node.next, prev: slot as usize }
}

/// The arena after the detached node at slot `spare` was taken out and the
/// node of the last slot moved into its place, its two neighbours pointed at
/// the new slot.
pub open spec fn relocated<T>(arena: Seq<Node<T>>, spare: int) -> Seq<Node<T>> {
    let moved = arena.last();
    let filled = arena.update(spare, moved).drop_last();
    let behind = filled.update(moved.prev as int, with_next(filled[moved.prev as int], spare));
    behind.update(moved.next as int, with_prev(behind[moved.next as int], spare))
}

/// Every slot of a ring with a spare node is a slot of the arena, other
/// than the sentinel's and the spare one.
pub(crate) proof fn lemma_apart_slots<T>(arena: Seq<Node<T>>, order: Seq<int>, spare: int)
    requires
        ring_wf_apart(arena, order, spare),
    ensures
        forall|j: int|
            0 <= j < order.len() ==> 0 < #[trigger] order[j] < arena.len() && order[j] != spare,
{
    assert forall|j: int| 0 <= j < order.len() implies 0 < #[trigger] order[j] < arena.len()
        && order[j] != spare by {
        assert(linked_at(arena, order, j));
    }
}

/// Taking the spare node out of the last slot leaves a ring with the same
/// order.
pub(crate) proof fn lemma_take_last<T>(arena: Seq<Node<T>>, order: Seq<int>)
    requires
        ring_wf_apart(arena, order, arena.len() - 1),
    ensures
        ring_wf(arena.drop_last(), order),
        values_of(arena.drop_last(), order) == values_of(arena, order),
{
    let rest = arena.drop_last();
    lemma_apart_slots(arena, order, arena.len() - 1);
    assert forall|k: int| 0 <= k < order.len() implies #[trigger] linked_at(rest, order, k) by {
        assert(linked_at(arena, order, k));
    }
    assert(values_of(rest, order) =~= values_of(arena, order));
}

/// Taking the spare node out of another slot and moving the last node into
/// its place leaves a ring in which the moved node goes by its new slot.
pub(crate) proof fn lemma_take_inner<T>(arena: Seq<Node<T>>, order: Seq<int>, spare: int)
    requires
        ring_wf_apart(arena, order, spare),
        spare != arena.len() - 1,
    ensures
        0 <= arena.last().prev < arena.len() - 1,
        0 <= arena.last().next < arena.len() - 1,
        ring_wf(relocated(arena, spare), renamed(order, arena.len() - 1, spare)),
        values_of(relocated(arena, spare), renamed(order, arena.len() - 1, spare)) == values_of(
            arena,
            order,
        ),
        relocated(arena, spare)[0].value == arena[0].value,
{
    let last = arena.len() - 1;
    let moved = arena.last();
    let after_arena = relocated(arena, spare);
    let after_order = renamed(order, last, spare);
    lemma_apart_slots(arena, order, spare);
    let at = lemma_position_of(order, 1, arena.len() as int, spare, last);
    assert(linked_at(arena, order, at));
    assert(moved.prev == before(order, at));
    assert(moved.next == after(order, at));
    assert(moved.prev != last && moved.prev != spare);
    assert(moved.next != last && moved.next != spare);
    assert forall|i: int| 0 <= i < last && i != spare implies (#[trigger] after_arena[i]).value
        == arena[i].value && after_arena[i].next == (if i == moved.prev {
        spare
    } else {
        arena[i].next as int
    }) && after_arena[i].prev == (if i == moved.next {
        spare
    } else {
        arena[i].prev as int
    }) by {}
    assert forall|k: int| 0 <= k < after_order.len() implies #[trigger] linked_at(
        after_arena,
        after_order,
        k,
    ) by {
        assert(linked_at(arena, order, k));
        if k > 0 {
            assert(linked_at(arena, order, k - 1));
        }
        if k + 1 < order.len() {
            assert(linked_at(arena, order, k + 1));
        }
    }
    assert(sentinel_linked(after_arena, after_order)) by {
        if order.len() > 0 {
            assert(linked_at(arena, order, 0));
            assert(linked_at(arena, order, order.len() - 1));
        }
    }
    assert(values_of(after_arena, after_order) =~= values_of(arena, order));
}

} // verus!
