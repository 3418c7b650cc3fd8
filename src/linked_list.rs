//! A singly linked stack of boxed nodes.
use vstd::prelude::*;

verus! {

/// A node of the stack: a value and the rest of the chain.
pub struct Node<T> {
    pub value: T,
    pub next: Option<Box<Node<T>>>,
}

/// The values of the chain that starts at `link`, first node first.
pub open spec fn chain_values<T>(link: Option<Box<Node<T>>>) -> Seq<T>
    decreases link,
{
    match link {
        None => Seq::empty(),
        Some(node) => seq![node.value] + chain_values(node.next),
    }
}

impl<T: Copy> Node<T> {
    /// A node holding `value`, followed by nothing.
    pub fn new(value: T) -> (r: Self)
        ensures
            r.value == value,
            r.next is None,
    {
        Node { value, next: None }
    }
}

/// A stack of values, pushed and popped at the front.
pub struct LinkedList<T> {
    head: Option<Box<Node<T>>>,
}

impl<T: Copy> View for LinkedList<T> {
    type V = Seq<T>;

    /// The values from front to back.
    closed spec fn view(&self) -> Seq<T> {
        chain_values(self.head)
    }
}

impl<T: Copy> LinkedList<T> {
    /// An empty stack.
    pub fn new() -> (r: Self)
        ensures
            r@ == Seq::<T>::empty(),
    {
        LinkedList { head: None }
    }

    /// Puts `value` in front.
    pub fn push_front(&mut self, value: T)
        ensures
            final(self)@ == seq![value] + old(self)@,
    {
        let mut node = Node::new(value);
        node.next = self.head.take();
        self.head = Some(Box::new(node));
    }

    /// Takes the front value off, or returns `None` when the stack is empty.
    pub fn pop_front(&mut self) -> (r: Option<T>)
        ensures
            old(self)@.len() == 0 ==> r is None && final(self)@ == old(self)@,
            old(self)@.len() > 0 ==> r == Some(old(self)@[0]) && final(self)@ == old(self)@.drop_first(),
    {
        match self.head.take() {
            None => None,
            Some(node) => {
                let node = *node;
                self.head = node.next;
                assert(chain_values(self.head) =~= old(self)@.drop_first());
                Some(node.value)
            },
        }
    }
}

} // verus!
