use tao_store::BoundedCache;

#[test]
fn insert_then_get_returns_value() {
    let mut c: BoundedCache<i64, u32> = BoundedCache::new(3);
    c.insert(1, 10);
    c.insert(2, 20);
    assert_eq!(c.get(&1), Some(&10));
    assert_eq!(c.get(&2), Some(&20));
    assert_eq!(c.get(&3), None);
    assert_eq!(c.len(), 2);
}

#[test]
fn insert_existing_key_replaces_value() {
    let mut c: BoundedCache<i64, u32> = BoundedCache::new(2);
    c.insert(1, 10);
    c.insert(1, 11);
    assert_eq!(c.len(), 1);
    assert_eq!(c.get(&1), Some(&11));
}

#[test]
fn capacity_plus_one_keys_evicts_least_recent() {
    let mut c: BoundedCache<i64, u32> = BoundedCache::new(3);
    c.insert(1, 10);
    c.insert(2, 20);
    c.insert(3, 30);
    c.insert(4, 40);
    assert_eq!(c.len(), 3);
    assert_eq!(c.get(&1), None);
    assert_eq!(c.get(&2), Some(&20));
    assert_eq!(c.get(&3), Some(&30));
    assert_eq!(c.get(&4), Some(&40));
}

#[test]
fn get_refreshes_recency() {
    let mut c: BoundedCache<i64, u32> = BoundedCache::new(2);
    c.insert(1, 10);
    c.insert(2, 20);
    assert_eq!(c.get(&1), Some(&10));
    c.insert(3, 30);
    assert_eq!(c.get(&2), None);
    assert_eq!(c.get(&1), Some(&10));
    assert_eq!(c.get(&3), Some(&30));
}

#[test]
fn zero_capacity_accepts_nothing() {
    let mut c: BoundedCache<i64, u32> = BoundedCache::new(0);
    c.insert(1, 10);
    assert_eq!(c.len(), 0);
    assert_eq!(c.get(&1), None);
}

#[test]
fn remove_and_clear() {
    let mut c: BoundedCache<i64, u32> = BoundedCache::new(4);
    c.insert(1, 10);
    c.insert(2, 20);
    assert_eq!(c.remove(&1), Some(10));
    assert_eq!(c.remove(&1), None);
    assert_eq!(c.len(), 1);
    c.clear();
    assert_eq!(c.len(), 0);
    assert_eq!(c.get(&2), None);
}
