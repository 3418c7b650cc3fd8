use lru::doubly_linked_list::{List, Node};

#[test]
fn test_build_list_back() {
    let mut list = List::new();
    list.push_back(1);
    list.push_back(2);
    list.push_back(3);
    list.push_back(4);

    assert_eq!(list.pop_back(), Some(4));
    assert_eq!(list.pop_back(), Some(3));
    assert_eq!(list.pop_back(), Some(2));
    assert_eq!(list.pop_back(), Some(1));
    assert_eq!(list.pop_back(), None);
}

#[test]
fn test_build_list_front() {
    let mut list = List::new();
    list.push_front(1);
    list.push_front(2);
    list.push_front(3);
    list.push_front(4);

    assert_eq!(list.pop_front(), Some(4));
    assert_eq!(list.pop_front(), Some(3));
    assert_eq!(list.pop_front(), Some(2));
    assert_eq!(list.pop_front(), Some(1));
    assert_eq!(list.pop_front(), None);
}

#[test]
fn test_front_and_back() {
    let mut list = List::new();
    list.push_front(1);
    list.push_back(2);
    list.push_front(3);
    list.push_back(4);

    assert_eq!(list.pop_front(), Some(3));
    assert_eq!(list.pop_back(), Some(4));
    assert_eq!(list.pop_front(), Some(1));
    assert_eq!(list.pop_back(), Some(2));
    assert_eq!(list.pop_front(), None);
    assert_eq!(list.pop_back(), None);
}

#[test]
fn works_builds_list_iter() {
    let mut list = List::new();
    list.push_front(1);
    list.push_back(2);
    list.push_front(3);
    list.push_back(4);

    let mut iter = list.iter();
    assert_eq!(iter.next(), Some(3));
    assert_eq!(iter.next(), Some(1));
    assert_eq!(iter.next(), Some(2));
    assert_eq!(iter.next(), Some(4));
    assert_eq!(iter.next(), None);
}

#[test]
fn works_builds_list_iter_rev() {
    let mut list = List::new();
    list.push_front(1);
    list.push_back(2);
    list.push_front(3);
    list.push_back(4);

    let mut iter = list.iter();
    assert_eq!(iter.next_back(), Some(4));
    assert_eq!(iter.next_back(), Some(2));
    assert_eq!(iter.next_back(), Some(1));
    assert_eq!(iter.next_back(), Some(3));
    assert_eq!(iter.next_back(), None);
}

fn collect_forward(list: &List<i32>) -> Vec<i32> {
    let mut out = Vec::new();
    let mut iter = list.iter();
    while let Some(v) = iter.next() {
        out.push(v);
    }
    out
}

fn collect_backward(list: &List<i32>) -> Vec<i32> {
    let mut out = Vec::new();
    let mut iter = list.iter();
    while let Some(v) = iter.next_back() {
        out.push(v);
    }
    out
}

#[test]
fn iter_backward_mirrors_forward() {
    let mut list = List::new();
    for i in 0..6 {
        if i % 2 == 0 {
            list.push_back(i);
        } else {
            list.push_front(i);
        }
    }
    let forward = collect_forward(&list);
    assert_eq!(forward, vec![5, 3, 1, 0, 2, 4]);
    let mut backward = collect_backward(&list);
    backward.reverse();
    assert_eq!(backward, forward);
    assert_eq!(list.len(), 6);
}

#[test]
fn iter_ends_meet_in_the_middle() {
    let mut list = List::new();
    list.push_back(1);
    list.push_back(2);
    list.push_back(3);
    let mut iter = list.iter();
    assert_eq!(iter.next(), Some(1));
    assert_eq!(iter.next_back(), Some(3));
    assert_eq!(iter.next(), Some(2));
    assert_eq!(iter.next_back(), None);
    assert_eq!(iter.next(), None);
}

#[test]
fn iter_on_empty_list() {
    let list: List<i32> = List::new();
    let mut iter = list.iter();
    assert_eq!(iter.next(), None);
    assert_eq!(iter.next_back(), None);
    assert_eq!(list.len(), 0);
}

#[test]
fn remove_node_in_each_position() {
    let mut list = List::new();
    list.push_back(1);
    let first = list.get_weak_tail().unwrap();
    list.push_back(2);
    let second = list.get_weak_tail().unwrap();
    list.push_back(3);
    let third = list.get_weak_tail().unwrap();
    list.push_back(4);
    let fourth = list.get_weak_tail().unwrap();

    list.remove_node(second);
    assert_eq!(collect_forward(&list), vec![1, 3, 4]);
    list.remove_node(first);
    assert_eq!(collect_forward(&list), vec![3, 4]);
    assert_eq!(list.get_head(), Some(third));
    list.remove_node(fourth);
    assert_eq!(collect_forward(&list), vec![3]);
    assert_eq!(list.get_weak_tail(), Some(third));
    list.remove_node(third);
    assert_eq!(collect_forward(&list), Vec::<i32>::new());
    assert_eq!(list.len(), 0);
    assert_eq!(list.get_head(), None);

    list.push_node_back(second);
    assert_eq!(collect_forward(&list), vec![2]);
    assert_eq!(collect_backward(&list), vec![2]);
}

#[test]
fn move_node_to_back_keeps_value() {
    let mut list = List::new();
    list.push_back(10);
    let front = list.get_head().unwrap();
    list.push_back(20);
    list.push_back(30);
    list.move_node_to_back(front);
    assert_eq!(collect_forward(&list), vec![20, 30, 10]);
    assert_eq!(collect_backward(&list), vec![10, 30, 20]);
    assert_eq!(list.len(), 3);
    assert_eq!(list.value(front), 10);
    list.set_value(front, 11);
    assert_eq!(collect_forward(&list), vec![20, 30, 11]);
}

#[test]
fn popped_slot_is_reused() {
    let mut list = List::new();
    list.push_back(1);
    list.push_back(2);
    assert_eq!(list.pop_front(), Some(1));
    list.push_front(7);
    assert_eq!(collect_forward(&list), vec![7, 2]);
    assert_eq!(list.pop_back(), Some(2));
    assert_eq!(list.pop_back(), Some(7));
    assert_eq!(list.pop_front(), None);
}

#[test]
fn new_node_is_unlinked() {
    let node = Node::new(5);
    assert_eq!(node.value, 5);
    assert_eq!(node.next, None);
    assert_eq!(node.prev, None);
}

#[test]
fn default_list_is_empty() {
    let mut list: List<u8> = List::default();
    assert_eq!(list.len(), 0);
    assert_eq!(list.pop_back(), None);
    list.push_front(9);
    assert_eq!(list.len(), 1);
}
