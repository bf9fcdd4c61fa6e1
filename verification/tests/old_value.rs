use components::cdc::old_value::OldValueCache;
use std::cell::Cell;

fn k(s: &str) -> Vec<u8> {
    s.as_bytes().to_vec()
}

#[test]
fn a_new_cache_is_empty() {
    let c = OldValueCache::new(4);
    assert_eq!(c.len(), 0);
    assert_eq!(c.capacity(), 4);
    assert_eq!(c.update_count(), 0);
    assert_eq!(c.get(&k("a"), 1), None);
}

#[test]
fn insert_then_get() {
    let mut c = OldValueCache::new(4);
    c.insert(k("a"), 10, k("old-a"));
    assert_eq!(c.get(&k("a"), 10), Some(k("old-a")));
    // Another timestamp or another key is another entry.
    assert_eq!(c.get(&k("a"), 11), None);
    assert_eq!(c.get(&k("b"), 10), None);
    assert_eq!(c.update_count(), 1);
    assert_eq!(c.len(), 1);
}

#[test]
fn the_oldest_entry_leaves_first() {
    let mut c = OldValueCache::new(2);
    c.insert(k("a"), 1, k("A"));
    c.insert(k("b"), 2, k("B"));
    c.insert(k("c"), 3, k("C"));
    assert_eq!(c.len(), 2);
    assert_eq!(c.get(&k("a"), 1), None);
    assert_eq!(c.get(&k("b"), 2), Some(k("B")));
    assert_eq!(c.get(&k("c"), 3), Some(k("C")));
    assert_eq!(c.update_count(), 3);
}

#[test]
fn an_update_in_place_keeps_the_age() {
    let mut c = OldValueCache::new(2);
    c.insert(k("a"), 1, k("A"));
    c.insert(k("b"), 2, k("B"));
    // "a" takes a new value but stays the oldest.
    c.insert(k("a"), 1, k("A2"));
    assert_eq!(c.len(), 2);
    assert_eq!(c.get(&k("a"), 1), Some(k("A2")));
    c.insert(k("c"), 3, k("C"));
    assert_eq!(c.get(&k("a"), 1), None);
    assert_eq!(c.get(&k("b"), 2), Some(k("B")));
    assert_eq!(c.update_count(), 4);
}

#[test]
fn a_cache_without_budget_keeps_nothing_but_counts() {
    let mut c = OldValueCache::new(0);
    c.insert(k("a"), 1, k("A"));
    assert_eq!(c.len(), 0);
    assert_eq!(c.get(&k("a"), 1), None);
    assert_eq!(c.update_count(), 1);
}

#[test]
fn get_or_load_hits_without_loading() {
    let mut c = OldValueCache::new(2);
    c.insert(k("a"), 1, k("A"));
    let loads = Cell::new(0);
    let v = c.get_or_load(k("a"), 1, |_key: &Vec<u8>, _ts: u64| {
        loads.set(loads.get() + 1);
        k("from-storage")
    });
    assert_eq!(v, k("A"));
    assert_eq!(loads.get(), 0);
    assert_eq!(c.update_count(), 1);
}

#[test]
fn get_or_load_falls_through_and_keeps_what_it_loaded() {
    let mut c = OldValueCache::new(2);
    let loads = Cell::new(0);
    let v = c.get_or_load(k("a"), 7, |key: &Vec<u8>, ts: u64| {
        loads.set(loads.get() + 1);
        assert_eq!(key, &k("a"));
        assert_eq!(ts, 7);
        k("from-storage")
    });
    assert_eq!(v, k("from-storage"));
    assert_eq!(loads.get(), 1);
    assert_eq!(c.update_count(), 1);
    assert_eq!(c.get(&k("a"), 7), Some(k("from-storage")));
}

#[test]
fn an_evicted_entry_is_read_from_storage_again() {
    let mut c = OldValueCache::new(1);
    c.insert(k("a"), 1, k("A"));
    c.insert(k("b"), 2, k("B"));
    // "a" was evicted; the read does not fail, it goes to storage.
    let v = c.get_or_load(k("a"), 1, |_key: &Vec<u8>, _ts: u64| k("A-again"));
    assert_eq!(v, k("A-again"));
    assert_eq!(c.update_count(), 3);
}

#[test]
fn clear_drops_the_entries_and_keeps_the_count() {
    let mut c = OldValueCache::new(4);
    c.insert(k("a"), 1, k("A"));
    c.insert(k("b"), 2, k("B"));
    c.clear();
    assert_eq!(c.len(), 0);
    assert_eq!(c.get(&k("a"), 1), None);
    assert_eq!(c.update_count(), 2);
    assert_eq!(c.capacity(), 4);
}
