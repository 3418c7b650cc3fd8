//! A doubly linked list whose nodes live in an arena.
//!
//! Each node is addressed by its slot in the arena (a *locator*). Links to
//! the neighbours are slots as well, so the list has no ownership cycles and
//! a locator handed out by the list stays meaningful for as long as the node
//! is linked in.
use vstd::prelude::*;
use vstd::set_lib::{lemma_int_range, lemma_len_subset, set_int_range};

verus! {

/// A node of the list: a value and the slots of its neighbours.
#[derive(Clone, Copy)]
pub struct Node<T> {
    pub value: T,
    pub next: Option<usize>,
    pub prev: Option<usize>,
}

impl<T: Copy> Node<T> {
    /// A node holding `value`, linked to nothing.
    pub fn new(value: T) -> (r: Self)
        ensures
            r.value == value,
            r.next is None,
            r.prev is None,
    {
        Node { value, next: None, prev: None }
    }
}

/// A double-ended list of values, ordered from front to back.
pub struct List<T> {
    nodes: Vec<Node<T>>,
    free: Vec<usize>,
    head: Option<usize>,
    tail: Option<usize>,
    count: usize,
    /// The slots of the linked nodes, from front to back.
    order: Ghost<Seq<usize>>,
}

/// A sequence of distinct slots below `m` has at most `m` elements.
proof fn lemma_distinct_bounded(s: Seq<usize>, m: int)
    requires
        0 <= m,
        s.no_duplicates(),
        forall|i: int| 0 <= i < s.len() ==> (s[i] as int) < m,
    ensures
        s.len() <= m,
{
    let t = s.map_values(|x: usize| x as int);
    assert(t.no_duplicates()) by {
        assert forall|i: int, j: int| 0 <= i < t.len() && 0 <= j < t.len() && i != j implies t[i]
            != t[j] by {
            assert(s[i] != s[j]);
        }
    }
    t.unique_seq_to_set();
    lemma_int_range(0, m);
    assert(t.to_set().subset_of(set_int_range(0, m))) by {
        assert forall|x: int| t.to_set().contains(x) implies set_int_range(0, m).contains(x) by {
            assert(t.contains(x));
            let i = choose|i: int| 0 <= i < t.len() && t[i] == x;
            assert(t[i] == s[i] as int);
        }
    }
    lemma_len_subset(t.to_set(), set_int_range(0, m));
}

/// Writes `next` into the forward link of slot `at`.
fn set_next<T: Copy>(nodes: &mut Vec<Node<T>>, at: usize, next: Option<usize>)
    requires
        at < old(nodes)@.len(),
    ensures
        final(nodes)@ == old(nodes)@.update(
            at as int,
            (Node { value: old(nodes)@[at as int].value, next: next, prev: old(nodes)@[at as int].prev }),
        ),
{
    let mut n = nodes[at];
    n.next = next;
    nodes.set(at, n);
}

/// Writes `prev` into the backward link of slot `at`.
fn set_prev<T: Copy>(nodes: &mut Vec<Node<T>>, at: usize, prev: Option<usize>)
    requires
        at < old(nodes)@.len(),
    ensures
        final(nodes)@ == old(nodes)@.update(
            at as int,
            (Node { value: old(nodes)@[at as int].value, next: old(nodes)@[at as int].next, prev: prev }),
        ),
{
    let mut n = nodes[at];
    n.prev = prev;
    nodes.set(at, n);
}

impl<T: Copy> Default for List<T> {
    /// An empty list.
    fn default() -> (r: Self)
        ensures
            r.wf(),
            r@ == Seq::<T>::empty(),
    {
        Self::new()
    }
}

/// The values that repeated [`ListIterator::next_back`] calls hand out of a
/// cursor over `s`: its last value, then those of what is left.
pub open spec fn drained_from_back<T>(s: Seq<T>) -> Seq<T>
    decreases s.len(),
{
    if s.len() == 0 {
        Seq::empty()
    } else {
        seq![s.last()] + drained_from_back(s.drop_last())
    }
}

/// Walking a cursor from the back hands out the values in exactly the
/// reverse of their front-to-back order.
pub proof fn lemma_back_walk_mirrors_front<T>(s: Seq<T>)
    ensures
        drained_from_back(s) == s.reverse(),
    decreases s.len(),
{
    if s.len() > 0 {
        lemma_back_walk_mirrors_front(s.drop_last());
        assert(drained_from_back(s) =~= s.reverse());
    } else {
        assert(drained_from_back(s) =~= s.reverse());
    }
}

impl<T: Copy> View for List<T> {
    type V = Seq<T>;

    /// The values from front to back.
    open spec fn view(&self) -> Seq<T> {
        Seq::new(self.locators().len(), |i: int| self.value_at(self.locators()[i]))
    }
}

impl<T: Copy> List<T> {
    /// The locators of the linked nodes, from front to back.
    pub closed spec fn locators(&self) -> Seq<usize> {
        self.order@
    }

    /// The value stored in slot `loc`.
    pub closed spec fn value_at(&self, loc: usize) -> T {
        self.nodes@[loc as int].value
    }

    /// Slot `loc` holds a node that is linked into no list and may be pushed back in.
    pub closed spec fn is_detached(&self, loc: usize) -> bool {
        &&& loc < self.nodes@.len()
        &&& !self.order@.contains(loc)
        &&& !self.free@.contains(loc)
    }

    spec fn link_ok(&self, i: int) -> bool {
        let n = self.order@.len();
        let node = self.nodes@[self.order@[i] as int];
        &&& (self.order@[i] as int) < self.nodes@.len()
        &&& node.next == (if i + 1 < n { Some(self.order@[i + 1]) } else { None::<usize> })
        &&& node.prev == (if i > 0 { Some(self.order@[i - 1]) } else { None::<usize> })
    }

    /// The links, the end pointers, the count and the free slots agree with
    /// the order of the nodes.
    pub closed spec fn wf(&self) -> bool {
        let n = self.order@.len();
        &&& self.count == n
        &&& self.order@.no_duplicates()
        &&& forall|i: int| 0 <= i < n ==> #[trigger] self.link_ok(i)
        &&& self.head == (if n == 0 { None::<usize> } else { Some(self.order@[0]) })
        &&& self.tail == (if n == 0 { None::<usize> } else { Some(self.order@[n - 1]) })
        &&& self.free@.no_duplicates()
        &&& forall|j: int|
            0 <= j < self.free@.len() ==> (#[trigger] self.free@[j] as int) < self.nodes@.len()
                && !self.order@.contains(self.free@[j])
    }

    /// No locator is linked in twice.
    pub proof fn lemma_distinct(&self)
        requires
            self.wf(),
        ensures
            self.locators().no_duplicates(),
    {
    }

    /// An empty list.
    pub fn new() -> (r: Self)
        ensures
            r.wf(),
            r@ == Seq::<T>::empty(),
            r.locators() == Seq::<usize>::empty(),
    {
        List {
            nodes: Vec::new(),
            free: Vec::new(),
            head: None,
            tail: None,
            count: 0,
            order: Ghost(Seq::empty()),
        }
    }

    /// The number of values in the list.
    pub fn len(&self) -> (r: usize)
        requires
            self.wf(),
        ensures
            r == self@.len(),
    {
        self.count
    }

    /// Stores `node` in a slot that holds no linked node, reusing a freed
    /// slot where there is one.
    fn take_slot(&mut self, node: Node<T>) -> (idx: usize)
        requires
            old(self).wf(),
        ensures
            final(self).order == old(self).order,
            final(self).head == old(self).head,
            final(self).tail == old(self).tail,
            final(self).count == old(self).count,
            old(self).nodes@.len() <= final(self).nodes@.len(),
            idx < final(self).nodes@.len(),
            final(self).nodes@[idx as int] == node,
            forall|l: int|
                0 <= l < old(self).nodes@.len() && l != idx ==> final(self).nodes@[l] == old(self).nodes@[l],
            !old(self).order@.contains(idx),
            old(self).count < usize::MAX,
            final(self).free@.no_duplicates(),
            forall|j: int|
                0 <= j < final(self).free@.len() ==> (#[trigger] final(self).free@[j] as int)
                    < final(self).nodes@.len() && !old(self).order@.contains(final(self).free@[j])
                    && final(self).free@[j] != idx,
    {
        let idx = if self.free.len() > 0 {
            let last = self.free.len() - 1;
            let i = self.free[last];
            assert(self.free@[last as int] == i);
            let ghost old_free = self.free@;
            self.free.pop();
            assert(self.free@ == old_free.drop_last());
            assert forall|j: int| 0 <= j < self.free@.len() implies self.free@[j] != i by {
                assert(old_free[j] != old_free[last as int]);
            }
            self.nodes.set(i, node);
            i
        } else {
            self.nodes.push(node);
            self.nodes.len() - 1
        };
        proof {
            assert forall|i: int| 0 <= i < self.order@.len() implies (self.order@[i] as int)
                < self.nodes@.len() && self.order@[i] != idx by {
                assert(old(self).link_ok(i));
            }
            let s = self.order@.push(idx);
            assert forall|i: int, j: int|
                0 <= i < s.len() && 0 <= j < s.len() && i != j implies s[i] != s[j] by {
                if i < self.order@.len() && j < self.order@.len() {
                    assert(self.order@[i] != self.order@[j]);
                }
            }
            assert(s.no_duplicates());
            assert forall|i: int| 0 <= i < s.len() implies (s[i] as int) < self.nodes@.len() by {
                if i < self.order@.len() {
                    assert(s[i] == self.order@[i]);
                }
            }
            lemma_distinct_bounded(s, self.nodes@.len() as int);
        }
        idx
    }

    /// Appends `value` at the back.
    pub fn push_back(&mut self, value: T)
        requires
            old(self).wf(),
        ensures
            final(self).wf(),
            final(self)@ == old(self)@.push(value),
            final(self).locators() == old(self).locators().push(final(self).locators().last()),
            !old(self).locators().contains(final(self).locators().last()),
            final(self).value_at(final(self).locators().last()) == value,
            forall|l: usize|
                old(self).locators().contains(l) ==> #[trigger] final(self).value_at(l) == old(self).value_at(l),
    {
        let ghost old_order = self.order@;
        let ghost n = old_order.len() as int;
        let idx = self.take_slot(Node { value, next: None, prev: self.tail });
        match self.tail {
            None => {
                self.head = Some(idx);
            },
            Some(t) => {
                assert(old(self).link_ok(n - 1));
                set_next(&mut self.nodes, t, Some(idx));
            },
        }
        self.tail = Some(idx);
        self.count = self.count + 1;
        self.order = Ghost(old_order.push(idx));
        proof {
            let s = self.order@;
            assert forall|i: int| 0 <= i < s.len() implies #[trigger] self.link_ok(i) by {
                if i < n {
                    assert(old(self).link_ok(i));
                    assert(s[i] == old_order[i]);
                    if i + 1 < n {
                        assert(old(self).link_ok(i + 1));
                    }
                }
            }
            assert forall|i: int, j: int|
                0 <= i < s.len() && 0 <= j < s.len() && i != j implies s[i] != s[j] by {
                if i < n && j < n {
                    assert(old_order[i] != old_order[j]);
                }
            }
            assert forall|l: usize| old_order.contains(l) implies #[trigger] self.value_at(l)
                == old(self).value_at(l) by {
                let i = choose|i: int| 0 <= i < n && old_order[i] == l;
                assert(old(self).link_ok(i));
            }
            assert forall|j: int| 0 <= j < self.free@.len() implies !s.contains(
                #[trigger] self.free@[j],
            ) by {
                assert(!old_order.contains(self.free@[j]));
                assert(self.free@[j] != idx);
            }
            assert(self@ =~= old(self)@.push(value));
        }
    }

    /// Prepends `value` at the front.
    pub fn push_front(&mut self, value: T)
        requires
            old(self).wf(),
        ensures
            final(self).wf(),
            final(self)@ == seq![value] + old(self)@,
            final(self).locators() == seq![final(self).locators()[0]] + old(self).locators(),
            !old(self).locators().contains(final(self).locators()[0]),
            final(self).value_at(final(self).locators()[0]) == value,
            forall|l: usize|
                old(self).locators().contains(l) ==> #[trigger] final(self).value_at(l) == old(self).value_at(l),
    {
        let ghost old_order = self.order@;
        let ghost n = old_order.len() as int;
        let idx = self.take_slot(Node { value, next: self.head, prev: None });
        match self.head {
            None => {
                self.tail = Some(idx);
            },
            Some(h) => {
                assert(old(self).link_ok(0));
                set_prev(&mut self.nodes, h, Some(idx));
            },
        }
        self.head = Some(idx);
        self.count = self.count + 1;
        self.order = Ghost(seq![idx] + old_order);
        proof {
            let s = self.order@;
            assert forall|i: int| 0 <= i < s.len() implies #[trigger] self.link_ok(i) by {
                if i > 0 {
                    assert(old(self).link_ok(i - 1));
                    assert(s[i] == old_order[i - 1]);
                    if i < n {
                        assert(old(self).link_ok(i));
                        assert(s[i + 1] == old_order[i]);
                    }
                    assert(s[i - 1] == if i == 1 { idx } else { old_order[i - 2] });
                } else if n > 0 {
                    assert(s[1] == old_order[0]);
                }
            }
            assert forall|i: int, j: int|
                0 <= i < s.len() && 0 <= j < s.len() && i != j implies s[i] != s[j] by {
                if i > 0 && j > 0 {
                    assert(old_order[i - 1] != old_order[j - 1]);
                } else if i > 0 {
                    assert(old_order.contains(s[i]));
                } else if j > 0 {
                    assert(old_order.contains(s[j]));
                }
            }
            assert forall|l: usize| old_order.contains(l) implies #[trigger] self.value_at(l)
                == old(self).value_at(l) by {
                let i = choose|i: int| 0 <= i < n && old_order[i] == l;
                assert(old(self).link_ok(i));
            }
            assert forall|j: int| 0 <= j < self.free@.len() implies !s.contains(
                #[trigger] self.free@[j],
            ) by {
                assert(!old_order.contains(self.free@[j]));
                assert(self.free@[j] != idx);
                if s.contains(self.free@[j]) {
                    let i = choose|i: int| 0 <= i < s.len() && s[i] == self.free@[j];
                    assert(old_order[i - 1] == s[i]);
                }
            }
            assert(s[0] == idx);
            assert(self@ =~= seq![value] + old(self)@) by {
                assert forall|i: int| 0 <= i < self@.len() implies self@[i] == (seq![value] + old(self)@)[i] by {
                    if i > 0 {
                        assert(s[i] == old_order[i - 1]);
                        assert(old_order.contains(old_order[i - 1]));
                    }
                }
            }
        }
    }

    /// Removes the front value and returns it, or `None` on an empty list.
    pub fn pop_front(&mut self) -> (r: Option<T>)
        requires
            old(self).wf(),
        ensures
            final(self).wf(),
            old(self)@.len() == 0 ==> r is None && final(self)@ == old(self)@ && final(self).locators() == old(self).locators(),
            old(self)@.len() > 0 ==> r == Some(old(self)@[0]) && final(self)@ == old(self)@.drop_first() && final(self).locators() == old(self).locators().drop_first(),
            forall|l: usize|
                old(self).locators().contains(l) ==> #[trigger] final(self).value_at(l) == old(self).value_at(l),
    {
        match self.head {
            None => None,
            Some(h) => {
                let ghost old_order = self.order@;
                let ghost n = old_order.len() as int;
                assert(old(self).link_ok(0));
                let node = self.nodes[h];
                match node.next {
                    None => {
                        self.head = None;
                        self.tail = None;
                    },
                    Some(nx) => {
                        assert(old(self).link_ok(1));
                        set_prev(&mut self.nodes, nx, None);
                        self.head = Some(nx);
                    },
                }
                self.free.push(h);
                self.count = self.count - 1;
                self.order = Ghost(old_order.drop_first());
                proof {
                    let s = self.order@;
                    assert forall|i: int| 0 <= i < s.len() implies #[trigger] self.link_ok(i) by {
                        assert(old(self).link_ok(i + 1));
                        assert(s[i] == old_order[i + 1]);
                        assert(old_order[i + 1] != old_order[0]);
                        if i > 0 {
                            assert(old_order[i + 1] != old_order[1]);
                        }
                    }
                    assert forall|i: int, j: int|
                        0 <= i < s.len() && 0 <= j < s.len() && i != j implies s[i] != s[j] by {
                        assert(old_order[i + 1] != old_order[j + 1]);
                    }
                    assert(!old(self).free@.contains(h)) by {
                        if old(self).free@.contains(h) {
                            let j = choose|j: int|
                                0 <= j < old(self).free@.len() && old(self).free@[j] == h;
                            assert(!old_order.contains(old(self).free@[j]));
                        }
                    }
                    assert forall|j: int| 0 <= j < self.free@.len() implies (
                    #[trigger] self.free@[j] as int) < self.nodes@.len() && !s.contains(
                        self.free@[j],
                    ) by {
                        if j < old(self).free@.len() {
                            assert(self.free@[j] == old(self).free@[j]);
                            assert(!old_order.contains(old(self).free@[j]));
                            if s.contains(self.free@[j]) {
                                let k = choose|k: int| 0 <= k < s.len() && s[k] == self.free@[j];
                                assert(old_order[k + 1] == s[k]);
                            }
                        } else {
                            if s.contains(h) {
                                let k = choose|k: int| 0 <= k < s.len() && s[k] == h;
                                assert(old_order[k + 1] != old_order[0]);
                            }
                        }
                    }
                    assert forall|l: usize| old_order.contains(l) implies #[trigger] self.value_at(l)
                        == old(self).value_at(l) by {
                        let i = choose|i: int| 0 <= i < n && old_order[i] == l;
                        assert(old(self).link_ok(i));
                    }
                    assert(self@ =~= old(self)@.drop_first()) by {
                        assert forall|i: int| 0 <= i < s.len() implies self@[i] == old(self)@[i
                            + 1] by {
                            assert(old_order.contains(old_order[i + 1]));
                        }
                    }
                }
                Some(node.value)
            },
        }
    }

    /// Removes the back value and returns it, or `None` on an empty list.
    pub fn pop_back(&mut self) -> (r: Option<T>)
        requires
            old(self).wf(),
        ensures
            final(self).wf(),
            old(self)@.len() == 0 ==> r is None && final(self)@ == old(self)@ && final(self).locators() == old(self).locators(),
            old(self)@.len() > 0 ==> r == Some(old(self)@.last()) && final(self)@ == old(self)@.drop_last() && final(self).locators() == old(self).locators().drop_last(),
            forall|l: usize|
                old(self).locators().contains(l) ==> #[trigger] final(self).value_at(l) == old(self).value_at(l),
    {
        match self.tail {
            None => None,
            Some(t) => {
                let ghost old_order = self.order@;
                let ghost n = old_order.len() as int;
                assert(old(self).link_ok(n - 1));
                let node = self.nodes[t];
                match node.prev {
                    None => {
                        self.head = None;
                        self.tail = None;
                    },
                    Some(pv) => {
                        assert(old(self).link_ok(n - 2));
                        set_next(&mut self.nodes, pv, None);
                        self.tail = Some(pv);
                    },
                }
                self.free.push(t);
                self.count = self.count - 1;
                self.order = Ghost(old_order.drop_last());
                proof {
                    let s = self.order@;
                    assert forall|i: int| 0 <= i < s.len() implies #[trigger] self.link_ok(i) by {
                        assert(old(self).link_ok(i));
                        assert(s[i] == old_order[i]);
                        assert(old_order[i] != old_order[n - 1]);
                        if i < n - 2 {
                            assert(old_order[i] != old_order[n - 2]);
                        }
                    }
                    assert forall|i: int, j: int|
                        0 <= i < s.len() && 0 <= j < s.len() && i != j implies s[i] != s[j] by {
                        assert(old_order[i] != old_order[j]);
                    }
                    assert(!old(self).free@.contains(t)) by {
                        if old(self).free@.contains(t) {
                            let j = choose|j: int|
                                0 <= j < old(self).free@.len() && old(self).free@[j] == t;
                            assert(!old_order.contains(old(self).free@[j]));
                        }
                    }
                    assert forall|j: int| 0 <= j < self.free@.len() implies (
                    #[trigger] self.free@[j] as int) < self.nodes@.len() && !s.contains(
                        self.free@[j],
                    ) by {
                        if j < old(self).free@.len() {
                            assert(self.free@[j] == old(self).free@[j]);
                            assert(!old_order.contains(old(self).free@[j]));
                            if s.contains(self.free@[j]) {
                                let k = choose|k: int| 0 <= k < s.len() && s[k] == self.free@[j];
                                assert(old_order[k] == s[k]);
                            }
                        } else {
                            if s.contains(t) {
                                let k = choose|k: int| 0 <= k < s.len() && s[k] == t;
                                assert(old_order[k] != old_order[n - 1]);
                            }
                        }
                    }
                    assert forall|l: usize| old_order.contains(l) implies #[trigger] self.value_at(l)
                        == old(self).value_at(l) by {
                        let i = choose|i: int| 0 <= i < n && old_order[i] == l;
                        assert(old(self).link_ok(i));
                    }
                    assert(self@ =~= old(self)@.drop_last()) by {
                        assert forall|i: int| 0 <= i < s.len() implies self@[i] == old(self)@[i] by {
                            assert(old_order.contains(old_order[i]));
                        }
                    }
                }
                Some(node.value)
            },
        }
    }

    /// Unlinks the node at `loc`, joining its neighbours to each other. The
    /// node keeps its value and may be pushed back in.
    pub fn remove_node(&mut self, loc: usize)
        requires
            old(self).wf(),
            old(self).locators().contains(loc),
        ensures
            final(self).wf(),
            final(self).is_detached(loc),
            forall|i: int|
                0 <= i < old(self).locators().len() && old(self).locators()[i] == loc ==> final(self).locators()
                    == old(self).locators().remove(i) && final(self)@ == old(self)@.remove(i),
            forall|l: usize|
                old(self).locators().contains(l) ==> #[trigger] final(self).value_at(l) == old(self).value_at(l),
    {
        let ghost old_order = self.order@;
        let ghost n = old_order.len() as int;
        let ghost i = choose|i: int| 0 <= i < n && old_order[i] == loc;
        assert(old(self).link_ok(i));
        let node = self.nodes[loc];
        match (node.prev, node.next) {
            (None, None) => {
                self.head = None;
                self.tail = None;
            },
            (None, Some(nx)) => {
                assert(old(self).link_ok(i + 1));
                set_prev(&mut self.nodes, nx, None);
                self.head = Some(nx);
            },
            (Some(pv), None) => {
                assert(old(self).link_ok(i - 1));
                set_next(&mut self.nodes, pv, None);
                self.tail = Some(pv);
            },
            (Some(pv), Some(nx)) => {
                assert(old(self).link_ok(i - 1));
                assert(old(self).link_ok(i + 1));
                assert(old_order[i - 1] != old_order[i + 1]);
                set_prev(&mut self.nodes, nx, Some(pv));
                set_next(&mut self.nodes, pv, Some(nx));
            },
        }
        self.count = self.count - 1;
        self.order = Ghost(old_order.remove(i));
        proof {
            let s = self.order@;
            assert forall|j: int| 0 <= j < s.len() implies #[trigger] self.link_ok(j) by {
                let k = if j < i { j } else { j + 1 };
                assert(s[j] == old_order[k]);
                assert(old(self).link_ok(k));
                if j + 1 < s.len() {
                    assert(s[j + 1] == old_order[if j + 1 < i { j + 1 } else { j + 2 }]);
                }
                if j > 0 {
                    assert(s[j - 1] == old_order[if j - 1 < i { j - 1 } else { j }]);
                }
                if i > 0 {
                    assert(old_order[k] != old_order[i - 1] || k == i - 1);
                }
                if i + 1 < n {
                    assert(old_order[k] != old_order[i + 1] || k == i + 1);
                }
                if k == i - 1 && i + 1 < n {
                    assert(old_order[i - 1] != old_order[i + 1]);
                }
            }
            assert forall|a: int, b: int|
                0 <= a < s.len() && 0 <= b < s.len() && a != b implies s[a] != s[b] by {
                let ka = if a < i { a } else { a + 1 };
                let kb = if b < i { b } else { b + 1 };
                assert(old_order[ka] != old_order[kb]);
            }
            assert(!s.contains(loc)) by {
                if s.contains(loc) {
                    let a = choose|a: int| 0 <= a < s.len() && s[a] == loc;
                    let ka = if a < i { a } else { a + 1 };
                    assert(old_order[ka] == s[a]);
                }
            }
            assert forall|j: int| 0 <= j < self.free@.len() implies (#[trigger] self.free@[j] as int)
                < self.nodes@.len() && !s.contains(self.free@[j]) by {
                assert(!old_order.contains(self.free@[j]));
                if s.contains(self.free@[j]) {
                    let a = choose|a: int| 0 <= a < s.len() && s[a] == self.free@[j];
                    let ka = if a < i { a } else { a + 1 };
                    assert(old_order[ka] == s[a]);
                }
            }
            assert(!self.free@.contains(loc)) by {
                if self.free@.contains(loc) {
                    let j = choose|j: int| 0 <= j < self.free@.len() && self.free@[j] == loc;
                    assert(!old_order.contains(self.free@[j]));
                }
            }
            assert forall|l: usize| old_order.contains(l) implies #[trigger] self.value_at(l) == old(self).value_at(l) by {
                let k = choose|k: int| 0 <= k < n && old_order[k] == l;
                assert(old(self).link_ok(k));
            }
            assert forall|i2: int| 0 <= i2 < n && old_order[i2] == loc implies self@ == old(self)@.remove(i2) by {
                assert(i2 == i);
                assert(self@ =~= old(self)@.remove(i)) by {
                    assert forall|a: int| 0 <= a < s.len() implies self@[a] == old(self)@.remove(i)[a] by {
                        let ka = if a < i { a } else { a + 1 };
                        assert(old_order.contains(old_order[ka]));
                    }
                }
            }
        }
    }

    /// Links the detached node at `loc` in at the back.
    pub fn push_node_back(&mut self, loc: usize)
        requires
            old(self).wf(),
            old(self).is_detached(loc),
        ensures
            final(self).wf(),
            final(self).locators() == old(self).locators().push(loc),
            final(self)@ == old(self)@.push(old(self).value_at(loc)),
            forall|l: usize|
                old(self).locators().contains(l) || l == loc ==> #[trigger] final(self).value_at(l)
                    == old(self).value_at(l),
    {
        let ghost old_order = self.order@;
        let ghost n = old_order.len() as int;
        // The slot count fits in a usize; it bounds the count from above.
        let _slots = self.nodes.len();
        proof {
            let s = old_order.push(loc);
            assert forall|a: int, b: int|
                0 <= a < s.len() && 0 <= b < s.len() && a != b implies s[a] != s[b] by {
                if a < n && b < n {
                    assert(old_order[a] != old_order[b]);
                }
            }
            assert forall|a: int| 0 <= a < s.len() implies (s[a] as int) < self.nodes@.len() by {
                if a < n {
                    assert(self.link_ok(a));
                }
            }
            lemma_distinct_bounded(s, self.nodes@.len() as int);
        }
        set_next(&mut self.nodes, loc, None);
        set_prev(&mut self.nodes, loc, self.tail);
        match self.tail {
            None => {
                self.head = Some(loc);
            },
            Some(t) => {
                assert(old(self).link_ok(n - 1));
                set_next(&mut self.nodes, t, Some(loc));
            },
        }
        self.tail = Some(loc);
        self.count = self.count + 1;
        self.order = Ghost(old_order.push(loc));
        proof {
            let s = self.order@;
            assert forall|i: int| 0 <= i < s.len() implies #[trigger] self.link_ok(i) by {
                if i < n {
                    assert(old(self).link_ok(i));
                    assert(s[i] == old_order[i]);
                    if i + 1 < n {
                        assert(old(self).link_ok(i + 1));
                    }
                }
            }
            assert forall|a: int, b: int|
                0 <= a < s.len() && 0 <= b < s.len() && a != b implies s[a] != s[b] by {
                if a < n && b < n {
                    assert(old_order[a] != old_order[b]);
                }
            }
            assert forall|l: usize| old_order.contains(l) || l == loc implies #[trigger] self.value_at(l)
                == old(self).value_at(l) by {
                if l != loc {
                    let i = choose|i: int| 0 <= i < n && old_order[i] == l;
                    assert(old(self).link_ok(i));
                }
            }
            assert forall|j: int| 0 <= j < self.free@.len() implies !s.contains(#[trigger] self.free@[j]) by {
                assert(!old_order.contains(self.free@[j]));
                assert(self.free@[j] != loc);
            }
            assert(self@ =~= old(self)@.push(old(self).value_at(loc))) by {
                assert forall|a: int| 0 <= a < n implies self@[a] == old(self)@[a] by {
                    assert(old_order.contains(old_order[a]));
                }
            }
        }
    }

    /// Moves the node at `loc` to the back, keeping its value.
    pub fn move_node_to_back(&mut self, loc: usize)
        requires
            old(self).wf(),
            old(self).locators().contains(loc),
        ensures
            final(self).wf(),
            forall|i: int|
                0 <= i < old(self).locators().len() && old(self).locators()[i] == loc ==> final(self).locators()
                    == old(self).locators().remove(i).push(loc) && final(self)@ == old(self)@.remove(i).push(old(self)@[i]),
            forall|l: usize|
                old(self).locators().contains(l) ==> #[trigger] final(self).value_at(l) == old(self).value_at(l),
    {
        let ghost before = *self;
        self.remove_node(loc);
        let ghost between = *self;
        self.push_node_back(loc);
        proof {
            assert forall|l: usize| before.locators().contains(l) && l != loc implies between.locators().contains(l) by {
                let k = choose|k: int| 0 <= k < before.locators().len() && before.locators()[k] == l;
                let i = choose|i: int| 0 <= i < before.locators().len() && before.locators()[i] == loc;
                let m = before.locators().remove(i);
                assert(m[if k < i { k } else { k - 1 }] == l);
            }
        }
    }

    /// The locator of the back node, if any.
    pub fn get_weak_tail(&self) -> (r: Option<usize>)
        requires
            self.wf(),
        ensures
            r == (if self.locators().len() == 0 { None } else { Some(self.locators().last()) }),
    {
        self.tail
    }

    /// The locator of the front node, if any.
    pub fn get_head(&self) -> (r: Option<usize>)
        requires
            self.wf(),
        ensures
            r == (if self.locators().len() == 0 { None } else { Some(self.locators()[0]) }),
    {
        self.head
    }

    /// The value of the linked node at `loc`.
    pub fn value(&self, loc: usize) -> (r: T)
        requires
            self.wf(),
            self.locators().contains(loc),
        ensures
            r == self.value_at(loc),
    {
        proof {
            let i = choose|i: int| 0 <= i < self.order@.len() && self.order@[i] == loc;
            assert(self.link_ok(i));
        }
        self.nodes[loc].value
    }

    /// Overwrites the value of the linked node at `loc`, keeping its place.
    pub fn set_value(&mut self, loc: usize, value: T)
        requires
            old(self).wf(),
            old(self).locators().contains(loc),
        ensures
            final(self).wf(),
            final(self).locators() == old(self).locators(),
            final(self).value_at(loc) == value,
            forall|l: usize|
                l != loc && old(self).locators().contains(l) ==> #[trigger] final(self).value_at(l)
                    == old(self).value_at(l),
            forall|i: int|
                0 <= i < old(self).locators().len() && old(self).locators()[i] == loc ==> final(self)@
                    == old(self)@.update(i, value),
    {
        let ghost n = self.order@.len() as int;
        proof {
            let i = choose|i: int| 0 <= i < n && self.order@[i] == loc;
            assert(self.link_ok(i));
        }
        let mut node = self.nodes[loc];
        node.value = value;
        self.nodes.set(loc, node);
        proof {
            assert forall|i: int| 0 <= i < n implies #[trigger] self.link_ok(i) by {
                assert(old(self).link_ok(i));
            }
            assert forall|l: usize| l != loc && old(self).locators().contains(l) implies #[trigger] self.value_at(l)
                == old(self).value_at(l) by {
                let i = choose|i: int| 0 <= i < n && self.order@[i] == l;
                assert(old(self).link_ok(i));
            }
            assert forall|i: int| 0 <= i < n && old(self).locators()[i] == loc implies self@
                == old(self)@.update(i, value) by {
                assert forall|a: int| 0 <= a < n implies self@[a] == old(self)@.update(i, value)[a] by {
                    if a != i {
                        assert(self.order@[a] != self.order@[i]);
                        assert(old(self).locators().contains(self.order@[a]));
                    }
                }
                assert(self@ =~= old(self)@.update(i, value));
            }
        }
    }

    /// A cursor over the values, from either end.
    pub fn iter(&self) -> (r: ListIterator<'_, T>)
        requires
            self.wf(),
        ensures
            r.wf(),
            r@ == self@,
    {
        ListIterator {
            list: self,
            current: self.head,
            current_back: self.tail,
            remaining: self.count,
            front: Ghost(0),
            back: Ghost(self.count as int),
        }
    }
}

/// Walks a list from the front and from the back; the two ends stop when
/// they meet.
pub struct ListIterator<'a, T> {
    list: &'a List<T>,
    current: Option<usize>,
    current_back: Option<usize>,
    remaining: usize,
    front: Ghost<int>,
    back: Ghost<int>,
}

impl<'a, T: Copy> View for ListIterator<'a, T> {
    type V = Seq<T>;

    /// The values not yet handed out, from front to back.
    closed spec fn view(&self) -> Seq<T> {
        self.list@.subrange(self.front@, self.back@)
    }
}

impl<'a, T: Copy> ListIterator<'a, T> {
    /// The cursors point at the ends of the part not yet handed out.
    pub closed spec fn wf(&self) -> bool {
        let locs = self.list.order@;
        &&& self.list.wf()
        &&& 0 <= self.front@ <= self.back@ <= locs.len()
        &&& self.remaining == self.back@ - self.front@
        &&& self.current == (if self.front@ < locs.len() { Some(locs[self.front@]) } else { None::<usize> })
        &&& self.current_back == (if self.back@ > 0 { Some(locs[self.back@ - 1]) } else { None::<usize> })
    }

    /// Hands out the front value of what is left.
    pub fn next(&mut self) -> (r: Option<T>)
        requires
            old(self).wf(),
        ensures
            final(self).wf(),
            old(self)@.len() == 0 ==> r is None && final(self)@ == old(self)@,
            old(self)@.len() > 0 ==> r == Some(old(self)@[0]) && final(self)@ == old(self)@.drop_first(),
    {
        if self.remaining == 0 {
            return None;
        }
        let ghost f = self.front@;
        assert(self.list.link_ok(f));
        match self.current {
            None => None,
            Some(idx) => {
                let node = self.list.nodes[idx];
                self.current = node.next;
                self.remaining = self.remaining - 1;
                self.front = Ghost(f + 1);
                assert(self@ =~= old(self)@.drop_first());
                Some(node.value)
            },
        }
    }

    /// Hands out the back value of what is left.
    pub fn next_back(&mut self) -> (r: Option<T>)
        requires
            old(self).wf(),
        ensures
            final(self).wf(),
            old(self)@.len() == 0 ==> r is None && final(self)@ == old(self)@,
            old(self)@.len() > 0 ==> r == Some(old(self)@.last()) && final(self)@ == old(self)@.drop_last(),
    {
        if self.remaining == 0 {
            return None;
        }
        let ghost b = self.back@;
        assert(self.list.link_ok(b - 1));
        match self.current_back {
            None => None,
            Some(idx) => {
                let node = self.list.nodes[idx];
                self.current_back = node.prev;
                self.remaining = self.remaining - 1;
                self.back = Ghost(b - 1);
                assert(self@ =~= old(self)@.drop_last());
                Some(node.value)
            },
        }
    }
}

} // verus!
