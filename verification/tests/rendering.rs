use linked_list::render::{render, SEPARATOR};
use linked_list::LinkedList;

#[test]
fn separator_is_an_arrow() {
    assert_eq!(SEPARATOR, "->");
}

#[test]
fn empty_list_renders_as_empty_text() {
    let list = LinkedList::new(0);
    assert_eq!(list.to_string(), "");
}

#[test]
fn three_values_render_with_arrows_between() {
    let mut list = LinkedList::new(0);
    list.push_back(1);
    list.push_back(2);
    list.push_back(3);
    assert_eq!(list.to_string(), "1->2->3");
}

#[test]
fn single_value_renders_without_separator() {
    let mut list = LinkedList::new(0);
    list.push_front(5);
    assert_eq!(list.to_string(), "5");
}

#[test]
fn rendering_runs_front_to_back() {
    let mut list = LinkedList::new(0);
    list.push_front(2);
    list.push_front(1);
    list.push_back(3);
    assert_eq!(list.to_string(), "1->2->3");
    assert_eq!(list.pop_front(), Some(1));
    assert_eq!(list.to_string(), "2->3");
    assert_eq!(list.pop_back(), Some(3));
    assert_eq!(list.to_string(), "2");
    assert_eq!(list.pop_back(), Some(2));
    assert_eq!(list.to_string(), "");
}

#[test]
fn rendering_leaves_the_seed_out() {
    let mut list = LinkedList::new(String::from("seed"));
    assert_eq!(list.to_string(), "");
    list.push_back(String::from("a"));
    list.push_back(String::from("b"));
    assert_eq!(list.to_string(), "a->b");
}

#[test]
fn rendering_does_not_change_the_list() {
    let mut list = LinkedList::new(0);
    list.push_back(1);
    list.push_back(2);
    assert_eq!(list.to_string(), "1->2");
    assert_eq!(list.to_string(), "1->2");
    assert_eq!(list.pop_front(), Some(1));
    assert_eq!(list.pop_front(), Some(2));
}

#[test]
fn render_of_no_parts_is_empty() {
    let parts: Vec<String> = Vec::new();
    assert_eq!(render(&parts), "");
}

#[test]
fn render_of_one_part_is_that_part() {
    let parts = vec![String::from("only")];
    assert_eq!(render(&parts), "only");
}

#[test]
fn render_puts_the_separator_between_parts_only() {
    let parts = vec![String::from("1"), String::from("2"), String::from("3")];
    assert_eq!(render(&parts), "1->2->3");
}

#[test]
fn render_keeps_empty_parts() {
    let parts = vec![String::new(), String::from("x"), String::new()];
    assert_eq!(render(&parts), "->x->");
}

#[test]
fn values_come_front_to_back() {
    let mut list = LinkedList::new('s');
    list.push_back('b');
    list.push_front('a');
    list.push_back('c');
    let values: Vec<char> = list.values().into_iter().copied().collect();
    assert_eq!(values, vec!['a', 'b', 'c']);
}
