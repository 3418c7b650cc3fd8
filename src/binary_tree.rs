//! An unbalanced binary search tree of distinct integers.
use vstd::prelude::*;

verus! {

/// A node of the tree: a value, smaller values on the left, larger ones on
/// the right.
pub struct Node {
    pub value: i32,
    pub left: Option<Box<Node>>,
    pub right: Option<Box<Node>>,
}

/// The values of the subtree at `link`.
pub open spec fn subtree_values(link: Option<Box<Node>>) -> Set<i32>
    decreases link,
{
    match link {
        None => Set::empty(),
        Some(n) => subtree_values(n.left).union(subtree_values(n.right)).insert(n.value),
    }
}

/// Every node of the subtree at `link` has smaller values on its left and
/// larger ones on its right.
pub open spec fn ordered(link: Option<Box<Node>>) -> bool
    decreases link,
{
    match link {
        None => true,
        Some(n) => {
            &&& ordered(n.left)
            &&& ordered(n.right)
            &&& forall|x: i32| subtree_values(n.left).contains(x) ==> x < n.value
            &&& forall|x: i32| subtree_values(n.right).contains(x) ==> x > n.value
        },
    }
}

impl Node {
    /// A leaf holding `value`.
    pub fn new(value: i32) -> (r: Self)
        ensures
            r.value == value,
            r.left is None,
            r.right is None,
    {
        Node { value, left: None, right: None }
    }
}

/// A binary search tree.
pub struct Tree {
    pub root: Option<Box<Node>>,
}

impl Tree {
    /// The values in the tree.
    pub open spec fn values(&self) -> Set<i32> {
        subtree_values(self.root)
    }

    /// The tree is ordered.
    pub open spec fn wf(&self) -> bool {
        ordered(self.root)
    }

    /// An empty tree.
    pub fn new() -> (r: Self)
        ensures
            r.wf(),
            r.values() == Set::<i32>::empty(),
    {
        Tree { root: None }
    }

    /// Adds `value`; a value already present is left alone.
    pub fn insert(&mut self, value: i32)
        requires
            old(self).wf(),
        ensures
            final(self).wf(),
            final(self).values() == old(self).values().insert(value),
    {
        match self.root.take() {
            None => {
                self.root = Some(Tree::leaf(value));
            },
            Some(node) => {
                self.root = Some(Tree::insert_recursive(node, value));
            },
        }
    }

    /// A subtree of one node holding `value`.
    fn leaf(value: i32) -> (r: Box<Node>)
        ensures
            ordered(Some(r)),
            subtree_values(Some(r)) == set![value],
            r.value == value,
    {
        let r = Box::new(Node::new(value));
        proof {
            assert(subtree_values(r.left) =~= Set::<i32>::empty());
            assert(subtree_values(r.right) =~= Set::<i32>::empty());
            assert(ordered(r.left) && ordered(r.right));
            assert(subtree_values(Some(r)) =~= set![value]);
        }
        r
    }

    /// The subtree `node` with `value` added below it where it belongs.
    pub fn insert_recursive(node: Box<Node>, value: i32) -> (r: Box<Node>)
        requires
            ordered(Some(node)),
        ensures
            ordered(Some(r)),
            subtree_values(Some(r)) == subtree_values(Some(node)).insert(value),
            r.value == node.value,
        decreases node,
    {
        let n = *node;
        if value > n.value {
            let right = match n.right {
                None => {
                    assert(subtree_values(None) =~= Set::<i32>::empty());
                    Tree::leaf(value)
                },
                Some(right) => Tree::insert_recursive(right, value),
            };
            assert(subtree_values(Some(right)) =~= subtree_values(n.right).insert(value));
            let r = Box::new(Node { value: n.value, left: n.left, right: Some(right) });
            assert(subtree_values(Some(r)) =~= subtree_values(Some(node)).insert(value));
            r
        } else if value < n.value {
            let left = match n.left {
                None => {
                    assert(subtree_values(None) =~= Set::<i32>::empty());
                    Tree::leaf(value)
                },
                Some(left) => Tree::insert_recursive(left, value),
            };
            assert(subtree_values(Some(left)) =~= subtree_values(n.left).insert(value));
            let r = Box::new(Node { value: n.value, left: Some(left), right: n.right });
            assert(subtree_values(Some(r)) =~= subtree_values(Some(node)).insert(value));
            r
        } else {
            assert(subtree_values(Some(node)).insert(value) =~= subtree_values(Some(node)));
            Box::new(n)
        }
    }
}

} // verus!
