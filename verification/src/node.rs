//! A node of the ring and the slot of the sentinel.

use vstd::prelude::*;

verus! {

/// The slot of the sentinel in every arena.
pub const SENTINEL: usize = 0;

/// One node of a ring: a value and the slots of its two neighbours.
pub struct Node<T> {
    pub value: T,
    pub next: usize,
    pub prev: usize,
}

impl<T> Node<T> {
    /// Whether both links name `slot`: a node standing at `slot` with such
    /// links is a ring of its own, part of no other chain.
    pub open spec fn is_detached_at(&self, slot: int) -> bool {
        self.next == slot && self.prev == slot
    }

    /// A node holding `value` whose links both name the sentinel's slot.
    ///
    /// As the first node of an arena it is detached; a node placed at any
    /// other slot has its links pointed at that slot before it is used.
    pub fn new(value: T) -> (node: Node<T>)
        ensures
            node.value == value,
            node.is_detached_at(SENTINEL as int),
    {
        Node { value, next: SENTINEL, prev: SENTINEL }
    }
}

} // verus!
