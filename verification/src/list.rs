//! The list itself: a ring of nodes in an arena, entered through the
//! sentinel at slot 0.

use std::fmt::Display;
use vstd::prelude::*;
use vstd::string::to_string_from_display_ensures;
use crate::model::{back_of, front_of, with_back, with_front, without_back, without_front};
use crate::node::{Node, SENTINEL};
use crate::release::{lemma_take_inner, lemma_take_last, relocated, renamed, ring_wf_apart};
use crate::render::{joined, render, texts, SEPARATOR};
use crate::ring::{
    after, doubly_linked, lemma_ring_circular, lemma_ring_doubly_linked, linked_at,
    linked_both_ways, ring_wf, values_of, walk_next, walk_prev,
};

verus! {

/// A doubly linked list of values of type `T`.
///
/// The list owns every node of its arena.  The sentinel's value is the seed
/// that the list was made with; no operation ever hands it out.
pub struct LinkedList<T> {
    nodes: Vec<Node<T>>,
    order: Ghost<Seq<int>>,
}

impl<T> View for LinkedList<T> {
    type V = Seq<T>;

    /// The values of the list from front to back.
    open spec fn view(&self) -> Seq<T> {
        values_of(self.arena(), self.order())
    }
}

/// `parts` holds, for each value of `values` in turn, a text that the
/// value's `Display` gives for it.
pub open spec fn shows<T: Display>(values: Seq<T>, parts: Seq<String>) -> bool {
    &&& parts.len() == values.len()
    &&& forall|i: int|
        0 <= i < values.len() ==> to_string_from_display_ensures::<T>(
            &values[i],
            #[trigger] parts[i],
        )
}

impl<T> LinkedList<T> {
    /// The node standing at each slot.
    pub closed spec fn arena(&self) -> Seq<Node<T>> {
        self.nodes@
    }

    /// The slots of the value nodes from front to back.
    pub closed spec fn order(&self) -> Seq<int> {
        self.order@
    }

    /// The value that the sentinel keeps.
    pub open spec fn seed(&self) -> T {
        self.arena()[0].value
    }

    /// The list's nodes form one ring through the sentinel.
    pub open spec fn wf(&self) -> bool {
        ring_wf(self.arena(), self.order())
    }

    /// In a well-formed list every node, the sentinel included, is the
    /// `prev` of its `next` and the `next` of its `prev`.
    pub proof fn lemma_doubly_linked(&self)
        requires
            self.wf(),
        ensures
            doubly_linked(self.arena()),
    {
        lemma_ring_doubly_linked(self.arena(), self.order());
    }

    /// In a well-formed list the links close a circle: following either
    /// kind of link from the sentinel leads through as many other nodes as
    /// the list holds values and then back to the sentinel.
    pub proof fn lemma_circular(&self)
        requires
            self.wf(),
        ensures
            walk_next(self.arena(), 0, (self@.len() + 1) as nat) == 0,
            walk_prev(self.arena(), 0, (self@.len() + 1) as nat) == 0,
            forall|steps: nat|
                0 < steps <= self@.len() ==> #[trigger] walk_next(self.arena(), 0, steps) != 0,
            forall|steps: nat|
                0 < steps <= self@.len() ==> #[trigger] walk_prev(self.arena(), 0, steps) != 0,
    {
        lemma_ring_circular(self.arena(), self.order());
    }

    /// An empty list whose sentinel keeps `value`.
    pub fn new(value: T) -> (list: Self)
        ensures
            list.wf(),
            list@ == Seq::<T>::empty(),
            list.seed() == value,
    {
        let mut nodes: Vec<Node<T>> = Vec::new();
        nodes.push(Node::new(value));
        LinkedList { nodes, order: Ghost(Seq::empty()) }
    }

    /// Whether the sentinel is its own successor, which is the case exactly
    /// when the list holds no value.
    fn is_null(&self) -> (empty: bool)
        requires
            self.wf(),
        ensures
            empty == (self.arena()[0].next == 0),
            empty == (self@.len() == 0),
    {
        proof {
            if self.order@.len() > 0 {
                assert(linked_at(self.nodes@, self.order@, 0));
            }
        }
        self.nodes[SENTINEL].next == SENTINEL
    }

    /// Places a detached node holding `value` at the first free slot of the
    /// arena and returns that slot.
    fn new_node(nodes: &mut Vec<Node<T>>, value: T) -> (slot: usize)
        ensures
            slot == old(nodes)@.len(),
            final(nodes)@ == old(nodes)@.push((Node { value, next: slot, prev: slot })),
    {
        let slot: usize = nodes.len();
        let mut node = Node::new(value);
        node.next = slot;
        node.prev = slot;
        nodes.push(node);
        slot
    }

    /// Detaches the node at slot `node`: both its links name its own slot.
    fn clear_node(nodes: &mut Vec<Node<T>>, node: usize)
        requires
            node < old(nodes)@.len(),
        ensures
            final(nodes)@.len() == old(nodes)@.len(),
            final(nodes)@[node as int].is_detached_at(node as int),
            final(nodes)@[node as int].value == old(nodes)@[node as int].value,
            forall|i: int|
                0 <= i < old(nodes)@.len() && i != node ==> final(nodes)@[i] == old(nodes)@[i],
    {
        nodes[node].next = node;
        nodes[node].prev = node;
    }

    /// Takes the detached node at slot `node` out of the arena and returns
    /// its value.  The node of the last slot moves into the freed slot, and
    /// its two neighbours are pointed at its new place.
    fn take_node(&mut self, node: usize) -> (value: T)
        requires
            ring_wf_apart(old(self).arena(), old(self).order(), node as int),
        ensures
            final(self).wf(),
            final(self)@ == values_of(old(self).arena(), old(self).order()),
            final(self).seed() == old(self).seed(),
            value == old(self).arena()[node as int].value,
    {
        let last: usize = self.nodes.len() - 1;
        let ghost arena = self.nodes@;
        let ghost order = self.order@;
        let taken = self.nodes.swap_remove(node);
        if node != last {
            proof {
                lemma_take_inner(arena, order, node as int);
            }
            let prev_node: usize = self.nodes[node].prev;
            let next_node: usize = self.nodes[node].next;
            self.nodes[prev_node].next = node;
            self.nodes[next_node].prev = node;
            proof {
                self.order = Ghost(renamed(order, last as int, node as int));
                assert(self.nodes@ =~= relocated(arena, node as int));
            }
        } else {
            proof {
                lemma_take_last(arena, order);
                assert(self.nodes@ =~= arena.drop_last());
            }
        }
        taken.value
    }

    /// Puts `value` in front of all others.
    pub fn push_front(&mut self, value: T)
        requires
            old(self).wf(),
        ensures
            final(self).wf(),
            final(self)@ == with_front(old(self)@, value),
            final(self).seed() == old(self).seed(),
    {
        let ghost arena = self.nodes@;
        let ghost order = self.order@;
        let new_node: usize = Self::new_node(&mut self.nodes, value);
        let next_node: usize = self.nodes[SENTINEL].next;
        proof {
            if order.len() > 0 {
                assert(linked_at(arena, order, 0));
            }
        }
        self.nodes[SENTINEL].next = new_node;
        self.nodes[new_node].prev = SENTINEL;
        self.nodes[new_node].next = next_node;
        self.nodes[next_node].prev = new_node;
        proof {
            let grown = seq![new_node as int] + order;
            self.order = Ghost(grown);
            assert forall|k: int| 0 <= k < grown.len() implies #[trigger] linked_at(
                self.nodes@,
                grown,
                k,
            ) by {
                if k > 0 {
                    assert(linked_at(arena, order, k - 1));
                }
            }
            assert(grown.no_duplicates()) by {
                assert forall|i: int, j: int|
                    0 <= i < grown.len() && 0 <= j < grown.len() && i != j implies grown[i]
                    != grown[j] by {
                    if i > 0 {
                        assert(linked_at(arena, order, i - 1));
                    }
                    if j > 0 {
                        assert(linked_at(arena, order, j - 1));
                    }
                }
            }
            assert(self@ =~= with_front(old(self)@, value)) by {
                assert forall|k: int| 0 < k < grown.len() implies self.nodes@[grown[k]].value
                    == arena[order[k - 1]].value by {
                    assert(linked_at(arena, order, k - 1));
                }
            }
        }
    }

    /// Removes the front value and returns it, or returns `None` and leaves
    /// the list as it is where it holds no value.
    pub fn pop_front(&mut self) -> (value: Option<T>)
        requires
            old(self).wf(),
        ensures
            final(self).wf(),
            value == front_of(old(self)@),
            final(self)@ == without_front(old(self)@),
            final(self).seed() == old(self).seed(),
            old(self)@.len() == 0 ==> final(self).arena() == old(self).arena(),
    {
        if self.is_null() {
            return None;
        }
        let ghost arena = self.nodes@;
        let ghost order = self.order@;
        let pop_node: usize = self.nodes[SENTINEL].next;
        assert(linked_at(arena, order, 0));
        let next_node: usize = self.nodes[pop_node].next;
        proof {
            if order.len() > 1 {
                assert(linked_at(arena, order, 1));
            }
        }
        self.nodes[SENTINEL].next = next_node;
        self.nodes[next_node].prev = SENTINEL;
        Self::clear_node(&mut self.nodes, pop_node);
        proof {
            let rest = order.drop_first();
            self.order = Ghost(rest);
            assert forall|k: int| 0 <= k < rest.len() implies #[trigger] linked_at(
                self.nodes@,
                rest,
                k,
            ) && rest[k] != pop_node by {
                assert(linked_at(arena, order, k + 1));
            }
            assert(values_of(self.nodes@, rest) =~= old(self)@.drop_first()) by {
                assert forall|k: int| 0 <= k < rest.len() implies self.nodes@[rest[k]].value
                    == arena[order[k + 1]].value by {
                    assert(linked_at(arena, order, k + 1));
                }
            }
        }
        Some(self.take_node(pop_node))
    }

    /// Puts `value` behind all others.
    pub fn push_back(&mut self, value: T)
        requires
            old(self).wf(),
        ensures
            final(self).wf(),
            final(self)@ == with_back(old(self)@, value),
            final(self).seed() == old(self).seed(),
    {
        let ghost arena = self.nodes@;
        let ghost order = self.order@;
        let new_node: usize = Self::new_node(&mut self.nodes, value);
        let prev_node: usize = self.nodes[SENTINEL].prev;
        proof {
            if order.len() > 0 {
                assert(linked_at(arena, order, order.len() - 1));
            }
        }
        self.nodes[new_node].next = SENTINEL;
        self.nodes[new_node].prev = prev_node;
        self.nodes[prev_node].next = new_node;
        self.nodes[SENTINEL].prev = new_node;
        proof {
            let grown = order.push(new_node as int);
            self.order = Ghost(grown);
            assert forall|k: int| 0 <= k < grown.len() implies #[trigger] linked_at(
                self.nodes@,
                grown,
                k,
            ) by {
                if k < order.len() {
                    assert(linked_at(arena, order, k));
                }
            }
            assert(grown.no_duplicates()) by {
                assert forall|i: int, j: int|
                    0 <= i < grown.len() && 0 <= j < grown.len() && i != j implies grown[i]
                    != grown[j] by {
                    if i < order.len() {
                        assert(linked_at(arena, order, i));
                    }
                    if j < order.len() {
                        assert(linked_at(arena, order, j));
                    }
                }
            }
            assert(self@ =~= with_back(old(self)@, value)) by {
                assert forall|k: int| 0 <= k < order.len() implies self.nodes@[grown[k]].value
                    == arena[order[k]].value by {
                    assert(linked_at(arena, order, k));
                }
            }
        }
    }

    /// Removes the back value and returns it, or returns `None` and leaves
    /// the list as it is where it holds no value.
    pub fn pop_back(&mut self) -> (value: Option<T>)
        requires
            old(self).wf(),
        ensures
            final(self).wf(),
            value == back_of(old(self)@),
            final(self)@ == without_back(old(self)@),
            final(self).seed() == old(self).seed(),
            old(self)@.len() == 0 ==> final(self).arena() == old(self).arena(),
    {
        if self.is_null() {
            return None;
        }
        let ghost arena = self.nodes@;
        let ghost order = self.order@;
        let pop_node: usize = self.nodes[SENTINEL].prev;
        assert(linked_at(arena, order, order.len() - 1));
        let prev_node: usize = self.nodes[pop_node].prev;
        proof {
            if order.len() > 1 {
                assert(linked_at(arena, order, order.len() - 2));
            }
        }
        self.nodes[prev_node].next = SENTINEL;
        self.nodes[SENTINEL].prev = prev_node;
        Self::clear_node(&mut self.nodes, pop_node);
        proof {
            let rest = order.drop_last();
            self.order = Ghost(rest);
            assert forall|k: int| 0 <= k < rest.len() implies #[trigger] linked_at(
                self.nodes@,
                rest,
                k,
            ) && rest[k] != pop_node by {
                assert(linked_at(arena, order, k));
            }
            assert(values_of(self.nodes@, rest) =~= old(self)@.drop_last()) by {
                assert forall|k: int| 0 <= k < rest.len() implies self.nodes@[rest[k]].value
                    == arena[order[k]].value by {
                    assert(linked_at(arena, order, k));
                }
            }
        }
        Some(self.take_node(pop_node))
    }

    /// Whether every node of the arena, the sentinel included, is the `prev`
    /// of its `next` and the `next` of its `prev`.  A well-formed list always
    /// is; the answer is found by looking at each node in turn.
    pub fn is_doubly_linked(&self) -> (ok: bool)
        ensures
            ok == doubly_linked(self.arena()),
            self.wf() ==> ok,
    {
        proof {
            if self.wf() {
                self.lemma_doubly_linked();
            }
        }
        let count: usize = self.nodes.len();
        let mut slot: usize = 0;
        while slot < count
            invariant
                slot <= count,
                count == self.nodes@.len(),
                self.wf() ==> doubly_linked(self.nodes@),
                forall|i: int| 0 <= i < slot ==> #[trigger] linked_both_ways(self.nodes@, i),
            decreases count - slot,
        {
            let next: usize = self.nodes[slot].next;
            let prev: usize = self.nodes[slot].prev;
            if next >= count || prev >= count {
                assert(!linked_both_ways(self.nodes@, slot as int));
                return false;
            }
            if self.nodes[next].prev != slot || self.nodes[prev].next != slot {
                assert(!linked_both_ways(self.nodes@, slot as int));
                return false;
            }
            slot += 1;
        }
        true
    }

    /// The values of the list from front to back, found by following the
    /// `next` links from the sentinel until the sentinel is reached again.
    pub fn values(&self) -> (out: Vec<&T>)
        requires
            self.wf(),
        ensures
            out@.len() == self@.len(),
            forall|i: int| 0 <= i < out@.len() ==> *out@[i] == self@[i],
    {
        let mut out: Vec<&T> = Vec::new();
        let mut node: usize = self.nodes[SENTINEL].next;
        let ghost mut at: int = 0;
        while node != SENTINEL
            invariant
                self.wf(),
                0 <= at <= self.order@.len(),
                node == after(self.order@, at - 1),
                out@.len() == at,
                forall|i: int| 0 <= i < at ==> *out@[i] == self@[i],
            decreases self.order@.len() - at,
        {
            assert(linked_at(self.nodes@, self.order@, at));
            out.push(&self.nodes[node].value);
            node = self.nodes[node].next;
            proof {
                at = at + 1;
            }
        }
        proof {
            if at < self.order@.len() {
                assert(linked_at(self.nodes@, self.order@, at));
            }
        }
        out
    }

    /// The text of the list: the text of each value, front to back, with
    /// the separator between each two neighbours.  An empty list gives an
    /// empty text.
    pub fn to_string(&self) -> (text: String) where T: Display
        requires
            self.wf(),
        ensures
            exists|parts: Seq<String>| #[trigger]
                shows(self@, parts) && text@ == joined(texts(parts), SEPARATOR@),
    {
        let values = self.values();
        let mut parts: Vec<String> = Vec::new();
        let mut i: usize = 0;
        while i < values.len()
            invariant
                i <= values.len(),
                values@.len() == self@.len(),
                forall|j: int| 0 <= j < values@.len() ==> *values@[j] == self@[j],
                parts@.len() == i,
                forall|j: int|
                    0 <= j < i ==> to_string_from_display_ensures::<T>(
                        &self@[j],
                        #[trigger] parts@[j],
                    ),
            decreases values.len() - i,
        {
            parts.push(values[i].to_string());
            i += 1;
        }
        assert(shows(self@, parts@));
        render(&parts)
    }

    /// Tears the list down: takes out every value node, front to back, and
    /// then the sentinel.  Returns the number of nodes released, which is
    /// one more than the list held values.
    pub fn dispose(self) -> (released: usize)
        requires
            self.wf(),
        ensures
            released == self@.len() + 1,
    {
        let mut list = self;
        let mut released: usize = 0;
        assert(self@.len() < usize::MAX) by {
            assert(self.nodes.len() == self.nodes@.len());
        }
        loop
            invariant
                list.wf(),
                released + list@.len() == self@.len(),
                self@.len() < usize::MAX,
            ensures
                released == self@.len(),
                list.nodes@.len() == 1,
            decreases list@.len(),
        {
            match list.pop_front() {
                Some(_) => {
                    released += 1;
                },
                None => {
                    break ;
                },
            }
        }
        list.nodes.pop();
        released + 1
    }
}

} // verus!
