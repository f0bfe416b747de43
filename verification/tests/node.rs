use linked_list::node::SENTINEL;
use linked_list::Node;

#[test]
fn new_node_keeps_its_value() {
    let node = Node::new(42);
    assert_eq!(node.value, 42);
}

#[test]
fn new_node_names_the_sentinel_slot_both_ways() {
    let node = Node::new("seed");
    assert_eq!(node.next, SENTINEL);
    assert_eq!(node.prev, SENTINEL);
    assert_eq!(node.next, node.prev);
}

#[test]
fn sentinel_stands_at_slot_zero() {
    assert_eq!(SENTINEL, 0);
}
