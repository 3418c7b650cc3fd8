//! A fixed-capacity cache that evicts the least recently used entry.
//!
//! The entries sit in a [`List`] ordered from least to most recently used.
//! An index maps each key to the locator of its node, and a second index
//! maps each locator back to its key, so that the evicted front node's key
//! can be dropped from the first.
use crate::doubly_linked_list::List;
use std::collections::HashMap;
use vstd::prelude::*;

verus! {

broadcast use vstd::std_specs::hash::group_hash_axioms;

/// The capacity of a cache made by [`LRU::new`].
pub const DEFAULT_CAPACITY: usize = 10;

/// `k` is the key of some entry of `s`.
pub open spec fn has_key<T>(s: Seq<(u64, T)>, k: u64) -> bool {
    exists|i: int| 0 <= i < s.len() && #[trigger] s[i].0 == k
}

/// No two entries of `s` share a key.
pub open spec fn keys_distinct<T>(s: Seq<(u64, T)>) -> bool {
    forall|i: int, j: int|
        #![trigger s[i], s[j]]
        0 <= i < s.len() && 0 <= j < s.len() && i != j ==> s[i].0 != s[j].0
}

/// The position of the entry with key `k`.
pub open spec fn key_pos<T>(s: Seq<(u64, T)>, k: u64) -> int
    recommends
        has_key(s, k),
{
    choose|i: int| 0 <= i < s.len() && #[trigger] s[i].0 == k
}

/// The entries after a lookup of `k`, and what the lookup returns: a hit
/// moves the entry to the back.
pub open spec fn get_model<T>(s: Seq<(u64, T)>, k: u64) -> (Seq<(u64, T)>, Option<T>) {
    if has_key(s, k) {
        let i = key_pos(s, k);
        (s.remove(i).push(s[i]), Some(s[i].1))
    } else {
        (s, None)
    }
}

/// The entries after storing `v` under `k` with room for `cap` entries: an
/// existing entry is updated and moved to the back; a new one is appended,
/// and the front entry is evicted when that makes one too many.
pub open spec fn put_model<T>(s: Seq<(u64, T)>, cap: nat, k: u64, v: T) -> Seq<(u64, T)> {
    if has_key(s, k) {
        s.remove(key_pos(s, k)).push((k, v))
    } else if s.len() + 1 > cap {
        s.push((k, v)).drop_first()
    } else {
        s.push((k, v))
    }
}

/// Storing under any key leaves at most `cap` entries, and the keys stay distinct.
pub proof fn lemma_put_within_capacity<T>(s: Seq<(u64, T)>, cap: nat, k: u64, v: T)
    requires
        1 <= cap,
        s.len() <= cap,
        keys_distinct(s),
    ensures
        put_model(s, cap, k, v).len() <= cap,
        keys_distinct(put_model(s, cap, k, v)),
{
    let r = put_model(s, cap, k, v);
    if has_key(s, k) {
        let i = key_pos(s, k);
        assert forall|a: int, b: int|
            0 <= a < r.len() && 0 <= b < r.len() && a != b implies r[a].0 != r[b].0 by {
            let ka = if a < i { a } else { a + 1 };
            let kb = if b < i { b } else { b + 1 };
            if a < r.len() - 1 && b < r.len() - 1 {
                assert(s[ka].0 != s[kb].0);
            } else if a < r.len() - 1 {
                assert(s[ka].0 != s[i].0);
            } else {
                assert(s[kb].0 != s[i].0);
            }
        }
    } else {
        let t = s.push((k, v));
        assert forall|a: int, b: int|
            0 <= a < t.len() && 0 <= b < t.len() && a != b implies t[a].0 != t[b].0 by {
            if a < s.len() && b < s.len() {
                assert(s[a].0 != s[b].0);
            } else if a < s.len() {
                assert(t[a] == s[a]);
            } else {
                assert(t[b] == s[b]);
            }
        }
        assert forall|a: int, b: int|
            0 <= a < t.len() - 1 && 0 <= b < t.len() - 1 && a != b implies t.drop_first()[a].0
            != t.drop_first()[b].0 by {
            assert(t[a + 1].0 != t[b + 1].0);
        }
    }
}

/// The entry touched last sits at the back and the others keep their order:
/// a hit moves its entry out of its place to the back, and storing puts the
/// stored entry at the back after the rest, less the evicted front entry.
pub proof fn lemma_recency_order<T>(s: Seq<(u64, T)>, cap: nat, k: u64, v: T)
    requires
        1 <= cap,
        s.len() <= cap,
    ensures
        has_key(s, k) ==> get_model(s, k).0.last().0 == k && get_model(s, k).0.drop_last() == s.remove(key_pos(s, k)),
        put_model(s, cap, k, v).last() == (k, v),
        has_key(s, k) ==> put_model(s, cap, k, v).drop_last() == s.remove(key_pos(s, k)),
        !has_key(s, k) && s.len() == cap ==> put_model(s, cap, k, v).drop_last() == s.drop_first(),
        !has_key(s, k) && s.len() < cap ==> put_model(s, cap, k, v).drop_last() == s,
{
    if has_key(s, k) {
        let i = key_pos(s, k);
        assert(get_model(s, k).0.drop_last() =~= s.remove(i));
        assert(put_model(s, cap, k, v).drop_last() =~= s.remove(i));
    } else if s.len() == cap {
        assert(put_model(s, cap, k, v).drop_last() =~= s.drop_first());
    } else {
        assert(put_model(s, cap, k, v).drop_last() =~= s);
    }
}

/// A hit keeps the number of entries, returns the key's value and makes its
/// entry the most recently used; a miss changes nothing.
pub proof fn lemma_get_refreshes<T>(s: Seq<(u64, T)>, k: u64)
    requires
        keys_distinct(s),
    ensures
        has_key(s, k) ==> {
            let (r, found) = get_model(s, k);
            &&& r.len() == s.len()
            &&& r.last().0 == k
            &&& forall|i: int| 0 <= i < s.len() && s[i].0 == k ==> found == Some(s[i].1)
        },
        !has_key(s, k) ==> get_model(s, k) == (s, None::<T>),
{
    if has_key(s, k) {
        let p = key_pos(s, k);
        assert forall|i: int| 0 <= i < s.len() && s[i].0 == k implies get_model(s, k).1 == Some(
            s[i].1,
        ) by {
            if i != p {
                assert(s[i].0 != s[p].0);
            }
        }
    }
}

/// Storing under a present key keeps the number of entries and the set of
/// keys, overwrites the value and makes the entry the most recently used.
pub proof fn lemma_put_updates<T>(s: Seq<(u64, T)>, cap: nat, k: u64, v: T)
    requires
        keys_distinct(s),
        has_key(s, k),
    ensures
        put_model(s, cap, k, v).len() == s.len(),
        put_model(s, cap, k, v).last() == (k, v),
        forall|k2: u64| has_key(put_model(s, cap, k, v), k2) == has_key(s, k2),
{
    let r = put_model(s, cap, k, v);
    let p = key_pos(s, k);
    assert forall|k2: u64| has_key(r, k2) == has_key(s, k2) by {
        if has_key(s, k2) {
            let i = choose|i: int| 0 <= i < s.len() && #[trigger] s[i].0 == k2;
            if i < p {
                assert(r[i] == s[i]);
            } else if i > p {
                assert(r[i - 1] == s[i]);
            } else {
                assert(r[r.len() - 1].0 == k2);
            }
        }
        if has_key(r, k2) {
            let j = choose|j: int| 0 <= j < r.len() && #[trigger] r[j].0 == k2;
            if j < p {
                assert(s[j] == r[j]);
            } else if j < r.len() - 1 {
                assert(s[j + 1] == r[j]);
            } else {
                assert(s[p].0 == k2);
            }
        }
    }
}

/// Storing a new key into a full cache evicts exactly the front entry, the
/// least recently used one, and keeps every other; below capacity nothing is
/// evicted.
pub proof fn lemma_eviction_identity<T>(s: Seq<(u64, T)>, cap: nat, k: u64, v: T)
    requires
        1 <= cap,
        s.len() <= cap,
        keys_distinct(s),
        !has_key(s, k),
    ensures
        s.len() == cap ==> {
            let r = put_model(s, cap, k, v);
            &&& r == s.drop_first().push((k, v))
            &&& !has_key(r, s[0].0)
            &&& forall|i: int| 1 <= i < s.len() ==> has_key(r, #[trigger] s[i].0)
        },
        s.len() < cap ==> put_model(s, cap, k, v) == s.push((k, v)),
{
    if s.len() == cap {
        let r = put_model(s, cap, k, v);
        assert(r =~= s.drop_first().push((k, v)));
        if has_key(r, s[0].0) {
            let j = choose|j: int| 0 <= j < r.len() && #[trigger] r[j].0 == s[0].0;
            if j < r.len() - 1 {
                assert(r[j] == s[j + 1]);
            } else {
                assert(s[0].0 == k);
            }
        }
        assert forall|i: int| 1 <= i < s.len() implies has_key(r, #[trigger] s[i].0) by {
            assert(r[i - 1] == s[i]);
        }
    }
}

/// A cache of at most `capacity` entries, keyed by `u64`.
pub struct LRU<T> {
    list: List<T>,
    map: HashMap<u64, usize>,
    keys: HashMap<usize, u64>,
    capacity: usize,
}

impl<T: Copy> View for LRU<T> {
    type V = Seq<(u64, T)>;

    /// The entries, from least to most recently used.
    closed spec fn view(&self) -> Seq<(u64, T)> {
        let locs = self.list.locators();
        Seq::new(locs.len(), |i: int| (self.keys@[locs[i]], self.list.value_at(locs[i])))
    }
}

impl<T: Copy> LRU<T> {
    /// The largest number of entries the cache holds.
    pub closed spec fn spec_capacity(&self) -> nat {
        self.capacity as nat
    }

    spec fn entry_ok(&self, i: int) -> bool {
        let loc = self.list.locators()[i];
        &&& self.keys@.contains_key(loc)
        &&& self.map@.contains_key(self.keys@[loc])
        &&& self.map@[self.keys@[loc]] == loc
    }

    /// The list is well formed and the two indexes match its nodes one to one.
    spec fn indexed(&self) -> bool {
        let locs = self.list.locators();
        &&& self.list.wf()
        &&& forall|i: int| 0 <= i < locs.len() ==> #[trigger] self.entry_ok(i)
        &&& forall|k: u64|
            #[trigger] self.map@.contains_key(k) ==> self.keys@[self.map@[k]] == k && exists|i: int|
                0 <= i < locs.len() && #[trigger] locs[i] == self.map@[k]
    }

    /// The indexes match the list, which holds at most `capacity` nodes.
    pub closed spec fn wf(&self) -> bool {
        &&& self.indexed()
        &&& 1 <= self.capacity
        &&& self.list.locators().len() <= self.capacity
    }

    proof fn lemma_index(&self)
        requires
            self.indexed(),
        ensures
            keys_distinct(self@),
            self@.len() == self.list.locators().len(),
            forall|k: u64| has_key(self@, k) <==> #[trigger] self.map@.contains_key(k),
            forall|i: int|
                0 <= i < self@.len() ==> #[trigger] self.map@[self@[i].0] == self.list.locators()[i],
    {
        let locs = self.list.locators();
        self.list.lemma_distinct();
        assert forall|i: int| 0 <= i < self@.len() implies #[trigger] self.map@[self@[i].0]
            == locs[i] by {
            assert(self.entry_ok(i));
        }
        assert forall|i: int, j: int|
            0 <= i < self@.len() && 0 <= j < self@.len() && i != j implies self@[i].0 != self@[j].0 by {
            assert(self.entry_ok(i));
            assert(self.entry_ok(j));
        }
        assert forall|k: u64| has_key(self@, k) <==> #[trigger] self.map@.contains_key(k) by {
            if has_key(self@, k) {
                let i = choose|i: int| 0 <= i < self@.len() && #[trigger] self@[i].0 == k;
                assert(self.entry_ok(i));
            }
            if self.map@.contains_key(k) {
                let i = choose|i: int| 0 <= i < locs.len() && #[trigger] locs[i] == self.map@[k];
                assert(self@[i].0 == k);
            }
        }
    }

    /// An empty cache with room for ten entries.
    pub fn new() -> (r: Self)
        ensures
            r.wf(),
            r@ == Seq::<(u64, T)>::empty(),
            r.spec_capacity() == DEFAULT_CAPACITY,
    {
        LRU::with_capacity(DEFAULT_CAPACITY)
    }

    /// An empty cache with room for `capacity` entries.
    pub fn with_capacity(capacity: usize) -> (r: Self)
        requires
            capacity >= 1,
        ensures
            r.wf(),
            r@ == Seq::<(u64, T)>::empty(),
            r.spec_capacity() == capacity,
    {
        let r = LRU {
            list: List::new(),
            map: HashMap::new(),
            keys: HashMap::new(),
            capacity,
        };
        assert(r@ =~= Seq::<(u64, T)>::empty());
        r
    }

    /// The list of values, from least to most recently used.
    pub fn list(&self) -> (r: &List<T>)
        requires
            self.wf(),
        ensures
            r.wf(),
            r@ == self@.map_values(|e: (u64, T)| e.1),
    {
        assert(self.list@ =~= self@.map_values(|e: (u64, T)| e.1));
        &self.list
    }

    /// The locator indexed under `k`, if any.
    fn locate(&self, k: u64) -> (r: Option<usize>)
        ensures
            r == (if self.map@.contains_key(k) { Some(self.map@[k]) } else { None }),
    {
        match self.map.get(&k) {
            Some(loc) => Some(*loc),
            None => None,
        }
    }

    /// The value under `k`, if any; a hit makes the entry the most recently used.
    pub fn get(&mut self, k: u64) -> (r: Option<T>)
        requires
            old(self).wf(),
        ensures
            final(self).wf(),
            final(self).spec_capacity() == old(self).spec_capacity(),
            (final(self)@, r) == get_model(old(self)@, k),
    {
        proof {
            self.lemma_index();
        }
        match self.locate(k) {
            None => None,
            Some(loc) => {
                let ghost s = self@;
                let ghost locs = self.list.locators();
                let ghost i = key_pos(s, k);
                assert(self.map@[s[i].0] == locs[i]);
                let value = self.list.value(loc);
                self.list.move_node_to_back(loc);
                proof {
                    assert forall|j: int| 0 <= j < locs.len() implies self.keys@.contains_key(
                        #[trigger] locs[j],
                    ) && self.keys@[locs[j]] == s[j].0 && self.map@.contains_key(s[j].0)
                        && self.map@[s[j].0] == locs[j] && self.list.value_at(locs[j]) == s[j].1 by {
                        assert(old(self).entry_ok(j));
                        assert(locs.contains(locs[j]));
                    }
                    self.lemma_moved(s, locs, i);
                }
                Some(value)
            },
        }
    }

    /// The key indexed under locator `loc`, if any.
    fn key_of(&self, loc: usize) -> (r: Option<u64>)
        ensures
            r == (if self.keys@.contains_key(loc) { Some(self.keys@[loc]) } else { None }),
    {
        match self.keys.get(&loc) {
            Some(key) => Some(*key),
            None => None,
        }
    }

    /// Stores `v` under `k` as the most recently used entry. A new key that
    /// makes one entry too many evicts the least recently used entry.
    pub fn put(&mut self, k: u64, v: T)
        requires
            old(self).wf(),
        ensures
            final(self).wf(),
            final(self).spec_capacity() == old(self).spec_capacity(),
            final(self)@ == put_model(old(self)@, old(self).spec_capacity(), k, v),
    {
        proof {
            self.lemma_index();
            self.list.lemma_distinct();
        }
        let ghost s = self@;
        let ghost locs = self.list.locators();
        let ghost n = locs.len() as int;
        match self.locate(k) {
            Some(loc) => {
                let ghost i = key_pos(s, k);
                assert(self.map@[s[i].0] == locs[i]);
                self.list.set_value(loc, v);
                self.list.move_node_to_back(loc);
                proof {
                    let s2 = s.update(i, (k, v));
                    assert forall|j: int| 0 <= j < locs.len() implies self.keys@.contains_key(
                        #[trigger] locs[j],
                    ) && self.keys@[locs[j]] == s2[j].0 && self.map@.contains_key(s2[j].0)
                        && self.map@[s2[j].0] == locs[j] && self.list.value_at(locs[j]) == s2[j].1 by {
                        assert(old(self).entry_ok(j));
                        assert(locs.contains(locs[j]));
                        if j != i {
                            assert(locs[j] != locs[i]);
                        }
                    }
                    assert(keys_distinct(s2)) by {
                        assert forall|a: int, b: int|
                            0 <= a < s2.len() && 0 <= b < s2.len() && a != b implies s2[a].0
                            != s2[b].0 by {
                            assert(s[a].0 != s[b].0);
                        }
                    }
                    self.lemma_moved(s2, locs, i);
                    assert(s2.remove(i).push(s2[i]) =~= s.remove(i).push((k, v)));
                }
            },
            None => {
                self.list.push_back(v);
                let ghost mid = *self;
                match self.list.get_weak_tail() {
                    Some(loc) => {
                        self.map.insert(k, loc);
                        self.keys.insert(loc, k);
                    },
                    None => {},
                }
                proof {
                    let locs1 = self.list.locators();
                    let loc = locs1.last();
                    assert(locs1 == locs.push(loc));
                    assert forall|j: int| 0 <= j < locs1.len() implies #[trigger] self.entry_ok(j) by {
                        if j < n {
                            assert(old(self).entry_ok(j));
                            assert(locs1[j] == locs[j]);
                            assert(locs.contains(locs[j]));
                            assert(s[j].0 != k);
                        }
                    }
                    assert forall|k2: u64| #[trigger] self.map@.contains_key(k2) implies self.keys@[
                        self.map@[k2]] == k2 && exists|j: int|
                        0 <= j < locs1.len() && #[trigger] locs1[j] == self.map@[k2] by {
                        if k2 == k {
                            assert(locs1[n] == loc);
                        } else {
                            let m = choose|m: int|
                                0 <= m < locs.len() && #[trigger] locs[m] == old(self).map@[k2];
                            assert(locs.contains(locs[m]));
                            assert(locs1[m] == locs[m]);
                        }
                    }
                    assert(self@ =~= s.push((k, v))) by {
                        assert forall|j: int| 0 <= j < n implies self@[j] == s[j] by {
                            assert(locs.contains(locs[j]));
                            assert(locs1[j] == locs[j]);
                        }
                    }
                }
                if self.list.len() > self.capacity {
                    self.evict_front();
                    proof {
                        self.lemma_index();
                    }
                }
            },
        }
    }

    /// Drops the front entry from the list and from both indexes.
    fn evict_front(&mut self)
        requires
            old(self).indexed(),
            old(self).list.locators().len() >= 1,
        ensures
            final(self).indexed(),
            final(self).capacity == old(self).capacity,
            final(self)@ == old(self)@.drop_first(),
    {
        proof {
            self.lemma_index();
            self.list.lemma_distinct();
        }
        let ghost s = self@;
        let ghost locs = self.list.locators();
        let ghost n = locs.len() as int;
        match self.list.get_head() {
            None => {},
            Some(front) => {
                assert(self.entry_ok(0));
                let evicted = self.key_of(front);
                self.list.pop_front();
                self.keys.remove(&front);
                match evicted {
                    Some(ek) => {
                        self.map.remove(&ek);
                    },
                    None => {},
                }
                proof {
                    let locs2 = self.list.locators();
                    assert(locs2 == locs.drop_first());
                    assert forall|j: int| 0 <= j < locs2.len() implies #[trigger] self.entry_ok(j) by {
                        assert(old(self).entry_ok(j + 1));
                        assert(locs2[j] == locs[j + 1]);
                        assert(locs[j + 1] != locs[0]);
                        assert(s[j + 1].0 != s[0].0);
                    }
                    assert forall|k2: u64| #[trigger] self.map@.contains_key(k2) implies self.keys@[
                        self.map@[k2]] == k2 && exists|j: int|
                        0 <= j < locs2.len() && #[trigger] locs2[j] == self.map@[k2] by {
                        let m = choose|m: int|
                            0 <= m < locs.len() && #[trigger] locs[m] == old(self).map@[k2];
                        assert(m != 0);
                        assert(locs[m] != locs[0]);
                        assert(locs2[m - 1] == locs[m]);
                    }
                    assert(self@ =~= s.drop_first()) by {
                        assert forall|j: int| 0 <= j < n - 1 implies self@[j] == s[j + 1] by {
                            assert(locs.contains(locs[j + 1]));
                            assert(locs2[j] == locs[j + 1]);
                            assert(locs[j + 1] != locs[0]);
                        }
                    }
                }
            },
        }
    }

    /// After the node at position `i` moved to the back, the cache is well
    /// formed and its entry moved with it.
    proof fn lemma_moved(&self, s: Seq<(u64, T)>, locs: Seq<usize>, i: int)
        requires
            0 <= i < locs.len(),
            locs.len() <= self.capacity,
            1 <= self.capacity,
            self.list.wf(),
            self.list.locators() == locs.remove(i).push(locs[i]),
            s.len() == locs.len(),
            keys_distinct(s),
            forall|j: int|
                0 <= j < locs.len() ==> self.keys@.contains_key(#[trigger] locs[j])
                    && self.keys@[locs[j]] == s[j].0 && self.map@.contains_key(s[j].0)
                    && self.map@[s[j].0] == locs[j] && self.list.value_at(locs[j]) == s[j].1,
            forall|k: u64|
                #[trigger] self.map@.contains_key(k) ==> self.keys@[self.map@[k]] == k && exists|
                    j: int,
                | 0 <= j < locs.len() && #[trigger] locs[j] == self.map@[k],
        ensures
            self.wf(),
            self@ == s.remove(i).push(s[i]),
    {
        let nl = self.list.locators();
        let pos = |j: int| if j < i { j } else if j < locs.len() - 1 { j + 1 } else { i };
        assert forall|j: int| 0 <= j < nl.len() implies nl[j] == locs[pos(j)] by {}
        assert forall|j: int| 0 <= j < nl.len() implies #[trigger] self.entry_ok(j) by {
            assert(nl[j] == locs[pos(j)]);
        }
        assert forall|k: u64| #[trigger] self.map@.contains_key(k) implies exists|j: int|
            0 <= j < nl.len() && #[trigger] nl[j] == self.map@[k] by {
            let m = choose|m: int| 0 <= m < locs.len() && #[trigger] locs[m] == self.map@[k];
            let j = if m < i { m } else if m == i { nl.len() - 1 } else { m - 1 };
            assert(nl[j] == locs[m]);
        }
        assert(self@ =~= s.remove(i).push(s[i])) by {
            assert forall|j: int| 0 <= j < nl.len() implies self@[j] == s.remove(i).push(s[i])[j] by {
                assert(nl[j] == locs[pos(j)]);
            }
        }
    }
}

} // verus!
