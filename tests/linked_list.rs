use lru::linked_list::{LinkedList, Node};

#[test]
fn test_push_front() {
    let mut list = LinkedList::new();
    list.push_front(1);
    list.push_front(2);
    list.push_front(3);
    assert_eq!(list.pop_front().unwrap(), 3);
    assert_eq!(list.pop_front().unwrap(), 2);
    assert_eq!(list.pop_front().unwrap(), 1);
    assert_eq!(list.pop_front(), None);
}

#[test]
fn stack_node_starts_alone() {
    let node = Node::new('a');
    assert_eq!(node.value, 'a');
    assert!(node.next.is_none());
}
