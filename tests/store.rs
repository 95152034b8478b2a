use std::sync::Arc;

use lru_loader::store::{CacheStore, MissStep};

/// Runs a whole lookup on one thread: fast path, slow path, then the load.
/// Returns the value and whether the loader ran.
fn get(store: &mut CacheStore<Arc<String>, u32>, key: usize, next_guard: &mut u32) -> (Arc<String>, bool) {
    if store.peek(key).is_some() && store.record_hit(key) {
        return (store.peek(key).unwrap().clone(), false);
    }
    *next_guard += 1;
    match store.prepare_miss(key, *next_guard) {
        MissStep::Hit => (store.peek(key).unwrap().clone(), false),
        MissStep::Load(_) => {
            assert!(store.guard_of(key).is_some());
            if store.record_hit(key) {
                return (store.peek(key).unwrap().clone(), false);
            }
            let value = Arc::new(format!("Data for cube {}", key));
            store.publish(key, value.clone());
            (value, true)
        }
    }
}

#[test]
fn zero_capacity_is_rejected() {
    assert!(CacheStore::<Arc<String>, u32>::new(0).is_none());
    assert!(CacheStore::<Arc<String>, u32>::new(1).is_some());
}

#[test]
fn lru_evicts_least_recent() {
    let mut store = CacheStore::new(2).unwrap();
    let mut g = 0u32;
    assert!(get(&mut store, 1, &mut g).1);
    assert!(get(&mut store, 2, &mut g).1);
    assert!(!get(&mut store, 1, &mut g).1);
    assert!(get(&mut store, 3, &mut g).1);
    assert!(store.contains(1));
    assert!(!store.contains(2));
    assert!(store.contains(3));
    assert_eq!(store.resident_count(), 2);
}

#[test]
fn hit_returns_same_instance() {
    let mut store = CacheStore::new(4).unwrap();
    let mut g = 0u32;
    let (a, loaded_a) = get(&mut store, 5, &mut g);
    let (b, loaded_b) = get(&mut store, 5, &mut g);
    assert!(loaded_a);
    assert!(!loaded_b);
    assert_eq!(a, b);
    assert!(Arc::ptr_eq(&a, &b));
    assert_eq!(a.as_str(), "Data for cube 5");
}

#[test]
fn capacity_holds_over_many_lookups() {
    let mut store = CacheStore::new(3).unwrap();
    let mut g = 0u32;
    for i in 0..200usize {
        let key = (i * 7 + i / 3) % 11;
        get(&mut store, key, &mut g);
        assert!(store.resident_count() <= 3);
        assert!(store.contains(key));
    }
}

#[test]
fn repeated_lookups_load_once() {
    let mut store = CacheStore::new(3).unwrap();
    let mut g = 0u32;
    let mut loads = 0;
    for _ in 0..10 {
        if get(&mut store, 7, &mut g).1 {
            loads += 1;
        }
    }
    assert_eq!(loads, 1);
}

#[test]
fn waiter_sees_published_value() {
    let mut store: CacheStore<Arc<String>, u32> = CacheStore::new(2).unwrap();
    // Two callers miss on the same key and share one guard.
    assert!(matches!(store.prepare_miss(4, 10), MissStep::Load(_)));
    assert!(matches!(store.prepare_miss(4, 11), MissStep::Load(_)));
    assert_eq!(store.guard_of(4), Some(&10));
    // The first holder of the guard loads and publishes.
    assert!(!store.record_hit(4));
    let v = Arc::new(String::from("four"));
    store.publish(4, v.clone());
    // The second checks again under the guard and finds it.
    assert!(store.record_hit(4));
    assert!(Arc::ptr_eq(store.peek(4).unwrap(), &v));
}

#[test]
fn eviction_releases_bookkeeping() {
    let mut store = CacheStore::new(1).unwrap();
    let mut g = 0u32;
    assert!(get(&mut store, 1, &mut g).1);
    assert_eq!(store.guard_of(1), Some(&1));
    assert!(get(&mut store, 2, &mut g).1);
    assert!(!store.contains(1));
    assert_eq!(store.guard_of(1), None);
    assert!(get(&mut store, 1, &mut g).1);
    assert_eq!(store.guard_of(1), Some(&3));
}

#[test]
fn make_room_evicts_in_recency_order() {
    let mut store = CacheStore::new(3).unwrap();
    let mut g = 0u32;
    get(&mut store, 10, &mut g);
    get(&mut store, 20, &mut g);
    get(&mut store, 30, &mut g);
    get(&mut store, 10, &mut g);
    let ev = store.make_room();
    assert_eq!(ev, vec![20]);
    assert_eq!(store.resident_count(), 2);
    let ev = store.make_room();
    assert!(ev.is_empty());
}

#[test]
fn evict_oldest_on_empty_store() {
    let mut store: CacheStore<Arc<String>, u32> = CacheStore::new(2).unwrap();
    assert_eq!(store.evict_oldest(), None);
}

#[test]
fn publish_over_resident_key_evicts_nothing() {
    let mut store: CacheStore<Arc<String>, u32> = CacheStore::new(1).unwrap();
    assert!(store.publish(8, Arc::new(String::from("a"))).is_empty());
    let ev = store.publish(8, Arc::new(String::from("b")));
    assert!(ev.is_empty());
    assert_eq!(store.peek(8).unwrap().as_str(), "b");
    let ev = store.publish(9, Arc::new(String::from("c")));
    assert_eq!(ev, vec![8]);
    assert_eq!(store.clock(), 3);
}
