use lru::lru_cache::LRU;

fn values_back_to_front<T: Copy>(lru: &LRU<T>) -> Vec<T> {
    let mut out = Vec::new();
    let mut iter = lru.list().iter();
    while let Some(v) = iter.next_back() {
        out.push(v);
    }
    out
}

#[test]
fn works_builds_lru() {
    let mut lru = LRU::with_capacity(2);
    lru.put(1, 1);
    lru.put(2, 2);
    assert_eq!(lru.get(1), Some(1));
    lru.put(3, 3);
    assert_eq!(lru.get(2), None);
    lru.put(4, 4);
    assert_eq!(lru.get(1), None);
    assert_eq!(lru.get(3), Some(3));
    assert_eq!(lru.get(4), Some(4));
}

#[test]
fn works_builds_lru_str() {
    let mut lru = LRU::new();
    lru.put(1, "foo");
    lru.put(2, "bar");
    lru.put(3, "fizz");
    lru.put(4, "buzz");
    lru.put(5, "bazz");

    assert_eq!(lru.get(3), Some("fizz"));
    assert_eq!(lru.get(2), Some("bar"));

    let mut iter = lru.list().iter();
    assert_eq!(iter.next_back(), Some("bar"));
    assert_eq!(iter.next_back(), Some("fizz"));
    assert_eq!(iter.next_back(), Some("bazz"));
    assert_eq!(iter.next_back(), Some("buzz"));
    assert_eq!(iter.next_back(), Some("foo"));
    assert_eq!(iter.next_back(), None);
}

#[test]
fn size_never_exceeds_capacity() {
    let mut lru = LRU::with_capacity(3);
    for k in 0..10u64 {
        lru.put(k, k * 10);
        assert!(lru.list().len() <= 3);
    }
    assert_eq!(values_back_to_front(&lru), vec![90, 80, 70]);
}

#[test]
fn get_hit_moves_entry_to_back() {
    let mut lru = LRU::with_capacity(3);
    lru.put(1, 'a');
    lru.put(2, 'b');
    lru.put(3, 'c');
    assert_eq!(lru.get(1), Some('a'));
    assert_eq!(lru.list().len(), 3);
    assert_eq!(values_back_to_front(&lru), vec!['a', 'c', 'b']);
}

#[test]
fn get_miss_changes_nothing() {
    let mut lru = LRU::with_capacity(3);
    lru.put(1, 'a');
    lru.put(2, 'b');
    assert_eq!(lru.get(9), None);
    assert_eq!(values_back_to_front(&lru), vec!['b', 'a']);
}

#[test]
fn put_on_present_key_updates_without_eviction() {
    let mut lru = LRU::with_capacity(2);
    lru.put(1, 10);
    lru.put(2, 20);
    lru.put(1, 11);
    assert_eq!(lru.list().len(), 2);
    assert_eq!(values_back_to_front(&lru), vec![11, 20]);
    assert_eq!(lru.get(2), Some(20));
    assert_eq!(lru.get(1), Some(11));
}

#[test]
fn eviction_drops_least_recently_used() {
    let mut lru = LRU::with_capacity(3);
    lru.put(1, 1);
    lru.put(2, 2);
    lru.put(3, 3);
    assert_eq!(lru.get(1), Some(1));
    lru.put(4, 4);
    assert_eq!(lru.get(2), None);
    assert_eq!(lru.get(1), Some(1));
    assert_eq!(lru.get(3), Some(3));
    assert_eq!(lru.get(4), Some(4));
}

#[test]
fn capacity_one_keeps_last_key() {
    let mut lru = LRU::with_capacity(1);
    lru.put(7, 70);
    lru.put(8, 80);
    assert_eq!(lru.get(7), None);
    assert_eq!(lru.get(8), Some(80));
    lru.put(8, 81);
    assert_eq!(lru.get(8), Some(81));
    assert_eq!(lru.list().len(), 1);
}

#[test]
fn evicted_key_can_return() {
    let mut lru = LRU::with_capacity(2);
    lru.put(1, 1);
    lru.put(2, 2);
    lru.put(3, 3);
    assert_eq!(lru.get(1), None);
    lru.put(1, 100);
    assert_eq!(lru.get(2), None);
    assert_eq!(lru.get(1), Some(100));
    assert_eq!(values_back_to_front(&lru), vec![100, 3]);
}
