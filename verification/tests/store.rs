use std::sync::Arc;
use user_cache::store::{age_at, CacheStore};

fn rows(values: &[i32]) -> Arc<Vec<i32>> {
    Arc::new(values.to_vec())
}

fn key(text: &str) -> String {
    text.to_string()
}

#[test]
fn age_is_the_time_elapsed() {
    assert_eq!(age_at(10, 25), 15);
    assert_eq!(age_at(10, 10), 0);
    assert_eq!(age_at(0, u64::MAX), u64::MAX);
}

#[test]
fn age_is_zero_when_the_clock_reads_earlier() {
    assert_eq!(age_at(25, 10), 0);
    assert_eq!(age_at(u64::MAX, 0), 0);
}

#[test]
fn new_store_holds_nothing() {
    let store: CacheStore<i32> = CacheStore::new();
    assert!(store.lookup(&key("a")).is_none());
    assert!(store.fresh_lookup(&key("a"), 0, 300).is_none());
}

#[test]
fn lookup_returns_the_entry_whatever_its_age() {
    let mut store = CacheStore::new();
    store.insert(key("a"), rows(&[1, 2, 3]), 40);
    let entry = store.lookup(&key("a")).unwrap();
    assert_eq!(*entry.payload, vec![1, 2, 3]);
    assert_eq!(entry.created_at, 40);
    assert!(store.fresh_lookup(&key("a"), 1_000_000, 300).is_none());
    let stale = store.lookup(&key("a")).unwrap();
    assert_eq!(*stale.payload, vec![1, 2, 3]);
    assert!(store.lookup(&key("b")).is_none());
}

#[test]
fn fresh_lookup_returns_the_payload_while_younger_than_ttl() {
    let mut store = CacheStore::new();
    store.insert(key("a"), rows(&[4, 5]), 1000);
    assert_eq!(*store.fresh_lookup(&key("a"), 1000, 300).unwrap(), vec![4, 5]);
    assert_eq!(*store.fresh_lookup(&key("a"), 1299, 300).unwrap(), vec![4, 5]);
    assert!(store.fresh_lookup(&key("a"), 1300, 300).is_none());
    assert!(store.fresh_lookup(&key("a"), 1301, 300).is_none());
    assert!(store.fresh_lookup(&key("a"), u64::MAX, 300).is_none());
}

#[test]
fn fresh_lookup_with_zero_ttl_returns_nothing() {
    let mut store = CacheStore::new();
    store.insert(key("a"), rows(&[4, 5]), 1000);
    assert!(store.fresh_lookup(&key("a"), 1000, 0).is_none());
}

#[test]
fn fresh_lookup_before_the_creation_instant_counts_age_zero() {
    let mut store = CacheStore::new();
    store.insert(key("a"), rows(&[9]), 1000);
    assert_eq!(*store.fresh_lookup(&key("a"), 500, 1).unwrap(), vec![9]);
}

#[test]
fn fresh_lookup_of_another_key_returns_nothing() {
    let mut store = CacheStore::new();
    store.insert(key("a"), rows(&[4, 5]), 1000);
    assert!(store.fresh_lookup(&key("b"), 1000, 300).is_none());
    assert!(store.fresh_lookup(&key(""), 1000, 300).is_none());
    assert!(store.fresh_lookup(&key("aa"), 1000, 300).is_none());
}

#[test]
fn fresh_lookup_shares_the_stored_rows() {
    let mut store = CacheStore::new();
    let stored = rows(&[1, 2]);
    store.insert(key("a"), Arc::clone(&stored), 0);
    let found = store.fresh_lookup(&key("a"), 1, 300).unwrap();
    assert!(Arc::ptr_eq(&found, &stored));
    assert!(Arc::ptr_eq(&found, &store.lookup(&key("a")).unwrap().payload));
    assert_eq!(Arc::strong_count(&stored), 3);
}

#[test]
fn insert_replaces_the_prior_entry() {
    let mut store = CacheStore::new();
    store.insert(key("a"), rows(&[1]), 10);
    store.insert(key("b"), rows(&[7, 7]), 15);
    store.insert(key("a"), rows(&[2, 3]), 20);
    let entry = store.lookup(&key("a")).unwrap();
    assert_eq!(*entry.payload, vec![2, 3]);
    assert_eq!(entry.created_at, 20);
    let other = store.lookup(&key("b")).unwrap();
    assert_eq!(*other.payload, vec![7, 7]);
    assert_eq!(other.created_at, 15);
}

#[test]
fn insert_of_an_older_instant_still_wins() {
    let mut store = CacheStore::new();
    store.insert(key("a"), rows(&[1]), 500);
    store.insert(key("a"), rows(&[2]), 100);
    let entry = store.lookup(&key("a")).unwrap();
    assert_eq!(*entry.payload, vec![2]);
    assert_eq!(entry.created_at, 100);
}

#[test]
fn insert_renews_an_expired_entry() {
    let mut store = CacheStore::new();
    store.insert(key("a"), rows(&[1]), 0);
    assert!(store.fresh_lookup(&key("a"), 400, 300).is_none());
    store.insert(key("a"), rows(&[2]), 400);
    assert_eq!(*store.fresh_lookup(&key("a"), 400, 300).unwrap(), vec![2]);
}

#[test]
fn sweep_removes_exactly_the_expired_entries() {
    let mut store = CacheStore::new();
    store.insert(key("old"), rows(&[1]), 0);
    store.insert(key("edge"), rows(&[2]), 100);
    store.insert(key("young"), rows(&[3]), 101);
    store.insert(key("new"), rows(&[4]), 400);
    store.sweep_expired(400, 300);
    assert!(store.lookup(&key("old")).is_none());
    assert!(store.lookup(&key("edge")).is_none());
    let young = store.lookup(&key("young")).unwrap();
    assert_eq!(*young.payload, vec![3]);
    assert_eq!(young.created_at, 101);
    let new = store.lookup(&key("new")).unwrap();
    assert_eq!(*new.payload, vec![4]);
    assert_eq!(new.created_at, 400);
}

#[test]
fn sweep_leaves_only_entries_younger_than_ttl() {
    let mut store = CacheStore::new();
    let mut t: u64 = 0;
    while t < 50 {
        store.insert(format!("k{}", t), rows(&[1]), t * 10);
        t += 1;
    }
    store.insert(key("last"), rows(&[2]), 500);
    store.sweep_expired(500, 120);
    let mut t: u64 = 0;
    while t < 50 {
        let entry = store.lookup(&format!("k{}", t));
        if 500 - t * 10 < 120 {
            assert_eq!(entry.unwrap().created_at, t * 10);
        } else {
            assert!(entry.is_none());
        }
        t += 1;
    }
    assert!(store.lookup(&key("last")).is_some());
}

#[test]
fn sweep_with_zero_ttl_empties_the_store() {
    let mut store = CacheStore::new();
    store.insert(key("a"), rows(&[1]), 10);
    store.insert(key("b"), rows(&[2]), 20);
    store.sweep_expired(20, 0);
    assert!(store.lookup(&key("a")).is_none());
    assert!(store.lookup(&key("b")).is_none());
}

#[test]
fn sweep_of_fresh_entries_changes_nothing() {
    let mut store = CacheStore::new();
    store.insert(key("a"), rows(&[1]), 10);
    store.insert(key("b"), rows(&[2]), 20);
    store.sweep_expired(30, 300);
    assert_eq!(*store.lookup(&key("a")).unwrap().payload, vec![1]);
    assert_eq!(*store.lookup(&key("b")).unwrap().payload, vec![2]);
}

#[test]
fn reading_twice_returns_identical_payloads() {
    let mut store = CacheStore::new();
    store.insert(key("a"), rows(&[5, 6, 7]), 10);
    let first = store.fresh_lookup(&key("a"), 20, 300).unwrap();
    let second = store.fresh_lookup(&key("a"), 20, 300).unwrap();
    assert_eq!(*first, *second);
    let later = store.fresh_lookup(&key("a"), 200, 300).unwrap();
    assert_eq!(*first, *later);
    store.sweep_expired(250, 300);
    let after_sweep = store.fresh_lookup(&key("a"), 260, 300).unwrap();
    assert_eq!(*first, *after_sweep);
}

#[test]
fn empty_payload_is_a_valid_entry() {
    let mut store: CacheStore<i32> = CacheStore::new();
    store.insert(key("a"), rows(&[]), 10);
    let found = store.fresh_lookup(&key("a"), 11, 300).unwrap();
    assert_eq!(found.len(), 0);
}
