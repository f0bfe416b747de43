use linked_list::LinkedList;
use std::collections::VecDeque;

fn front_to_back(list: &LinkedList<i32>) -> Vec<i32> {
    list.values().into_iter().copied().collect()
}

#[test]
fn fresh_list_pops_nothing() {
    let mut list = LinkedList::new(0);
    assert_eq!(list.pop_front(), None);
    assert_eq!(list.pop_back(), None);
    assert_eq!(list.pop_front(), None);
}

#[test]
fn seed_is_never_handed_out() {
    let mut list = LinkedList::new(99);
    assert!(list.values().is_empty());
    list.push_back(1);
    assert_eq!(front_to_back(&list), vec![1]);
    assert_eq!(list.pop_front(), Some(1));
    assert_eq!(list.pop_front(), None);
    assert_eq!(list.pop_back(), None);
}

#[test]
fn push_back_then_pop_front_is_a_queue() {
    let mut list = LinkedList::new(0);
    list.push_back(1);
    list.push_back(2);
    list.push_back(3);
    assert_eq!(list.pop_front(), Some(1));
    assert_eq!(list.pop_front(), Some(2));
    assert_eq!(list.pop_front(), Some(3));
    assert_eq!(list.pop_front(), None);
}

#[test]
fn push_front_then_pop_front_is_a_stack() {
    let mut list = LinkedList::new(0);
    list.push_front(1);
    list.push_front(2);
    assert_eq!(list.pop_front(), Some(2));
    assert_eq!(list.pop_front(), Some(1));
    assert_eq!(list.pop_front(), None);
}

#[test]
fn push_back_then_pop_back_reverses() {
    let mut list = LinkedList::new(0);
    for v in [10, 20, 30, 40, 50] {
        list.push_back(v);
    }
    let mut out = Vec::new();
    while let Some(v) = list.pop_back() {
        out.push(v);
    }
    assert_eq!(out, vec![50, 40, 30, 20, 10]);
    assert_eq!(list.pop_back(), None);
    assert_eq!(list.pop_front(), None);
}

#[test]
fn push_front_then_pop_back_is_a_queue() {
    let mut list = LinkedList::new(0);
    for v in [1, 2, 3, 4] {
        list.push_front(v);
    }
    assert_eq!(front_to_back(&list), vec![4, 3, 2, 1]);
    assert_eq!(list.pop_back(), Some(1));
    assert_eq!(list.pop_back(), Some(2));
    assert_eq!(list.pop_back(), Some(3));
    assert_eq!(list.pop_back(), Some(4));
    assert_eq!(list.pop_back(), None);
}

#[test]
fn round_trip_of_many_values_leaves_the_list_empty() {
    let mut list = LinkedList::new(-1);
    for v in 0..100 {
        list.push_back(v);
    }
    for v in 0..100 {
        assert_eq!(list.pop_front(), Some(v));
    }
    assert_eq!(list.pop_front(), None);
    for v in 0..100 {
        list.push_front(v);
    }
    for v in 0..100 {
        assert_eq!(list.pop_back(), Some(v));
    }
    assert_eq!(list.pop_back(), None);
    assert!(list.values().is_empty());
}

#[test]
fn single_value_leaves_by_either_end() {
    let mut list = LinkedList::new(0);
    list.push_front(7);
    assert_eq!(list.pop_back(), Some(7));
    assert_eq!(list.pop_back(), None);
    list.push_back(8);
    assert_eq!(list.pop_front(), Some(8));
    assert_eq!(list.pop_front(), None);
}

#[test]
fn both_ends_can_be_mixed() {
    let mut list = LinkedList::new(0);
    list.push_back(2);
    list.push_front(1);
    list.push_back(3);
    list.push_front(0);
    assert_eq!(front_to_back(&list), vec![0, 1, 2, 3]);
    assert_eq!(list.pop_front(), Some(0));
    assert_eq!(list.pop_back(), Some(3));
    assert_eq!(front_to_back(&list), vec![1, 2]);
    list.push_back(9);
    assert_eq!(front_to_back(&list), vec![1, 2, 9]);
    assert_eq!(list.pop_front(), Some(1));
    assert_eq!(list.pop_front(), Some(2));
    assert_eq!(list.pop_front(), Some(9));
    assert_eq!(list.pop_front(), None);
}

#[test]
fn taking_the_front_keeps_the_rest_in_order() {
    let mut list = LinkedList::new(0);
    for v in [1, 2, 3, 4, 5] {
        list.push_back(v);
    }
    assert_eq!(list.pop_front(), Some(1));
    assert_eq!(front_to_back(&list), vec![2, 3, 4, 5]);
    assert_eq!(list.pop_front(), Some(2));
    assert_eq!(front_to_back(&list), vec![3, 4, 5]);
    list.push_front(6);
    list.push_back(7);
    assert_eq!(front_to_back(&list), vec![6, 3, 4, 5, 7]);
    assert_eq!(list.pop_back(), Some(7));
    assert_eq!(list.pop_back(), Some(5));
    assert_eq!(front_to_back(&list), vec![6, 3, 4]);
}

#[test]
fn taking_the_back_keeps_the_rest_in_order() {
    let mut list = LinkedList::new(0);
    for v in [1, 2, 3] {
        list.push_front(v);
    }
    assert_eq!(front_to_back(&list), vec![3, 2, 1]);
    assert_eq!(list.pop_back(), Some(1));
    assert_eq!(front_to_back(&list), vec![3, 2]);
    list.push_back(4);
    assert_eq!(front_to_back(&list), vec![3, 2, 4]);
    assert_eq!(list.pop_front(), Some(3));
    assert_eq!(front_to_back(&list), vec![2, 4]);
}

#[test]
fn values_can_be_read_again_and_again() {
    let mut list = LinkedList::new(0);
    list.push_back(1);
    list.push_back(2);
    assert_eq!(front_to_back(&list), vec![1, 2]);
    assert_eq!(front_to_back(&list), vec![1, 2]);
    list.push_back(3);
    assert_eq!(front_to_back(&list), vec![1, 2, 3]);
}

#[test]
fn list_agrees_with_a_deque_over_a_long_run() {
    let mut list = LinkedList::new(0);
    let mut model: VecDeque<i32> = VecDeque::new();
    let mut state: u64 = 0x2545_f491_4f6c_dd1d;
    for step in 0..5000 {
        state = state.wrapping_mul(6364136223846793005).wrapping_add(1442695040888963407);
        let choice = (state >> 33) % 6;
        match choice {
            0 | 1 => {
                list.push_front(step);
                model.push_front(step);
            }
            2 | 3 => {
                list.push_back(step);
                model.push_back(step);
            }
            4 => assert_eq!(list.pop_front(), model.pop_front()),
            _ => assert_eq!(list.pop_back(), model.pop_back()),
        }
        if step % 97 == 0 {
            let expected: Vec<i32> = model.iter().copied().collect();
            assert_eq!(front_to_back(&list), expected);
        }
    }
    let expected: Vec<i32> = model.iter().copied().collect();
    assert_eq!(front_to_back(&list), expected);
    while let Some(v) = model.pop_back() {
        assert_eq!(list.pop_back(), Some(v));
    }
    assert_eq!(list.pop_back(), None);
    assert_eq!(list.pop_front(), None);
}

#[test]
fn list_holds_values_that_cannot_be_copied() {
    let mut list = LinkedList::new(String::new());
    list.push_back(String::from("b"));
    list.push_front(String::from("a"));
    list.push_back(String::from("c"));
    assert_eq!(list.pop_front(), Some(String::from("a")));
    assert_eq!(list.pop_back(), Some(String::from("c")));
    assert_eq!(list.pop_back(), Some(String::from("b")));
    assert_eq!(list.pop_back(), None);
}

#[test]
fn links_stay_consistent_after_every_operation() {
    let mut list = LinkedList::new(0);
    assert!(list.is_doubly_linked());
    let mut state: u64 = 0x9e37_79b9_7f4a_7c15;
    for step in 0..2000 {
        state = state.wrapping_mul(6364136223846793005).wrapping_add(1442695040888963407);
        match (state >> 33) % 5 {
            0 | 1 => list.push_front(step),
            2 => list.push_back(step),
            3 => {
                list.pop_front();
            }
            _ => {
                list.pop_back();
            }
        }
        assert!(list.is_doubly_linked());
    }
    while list.pop_front().is_some() {
        assert!(list.is_doubly_linked());
    }
    assert!(list.is_doubly_linked());
}

#[test]
fn forward_walk_and_backward_pops_agree() {
    let mut list = LinkedList::new(0);
    for v in [3, 1, 4, 1, 5, 9, 2, 6] {
        list.push_back(v);
    }
    assert_eq!(list.pop_front(), Some(3));
    list.push_front(8);
    let mut forward = front_to_back(&list);
    assert_eq!(forward, vec![8, 1, 4, 1, 5, 9, 2, 6]);
    let mut backward = Vec::new();
    while let Some(v) = list.pop_back() {
        backward.push(v);
    }
    forward.reverse();
    assert_eq!(backward, forward);
}
