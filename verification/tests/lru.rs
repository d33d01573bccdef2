use cache::cache::lru::LRUCache;
use cache::cache::Cache;

#[test]
fn get_of_a_missing_key_is_none() {
    let mut cache: LRUCache<u64, u64> = LRUCache::new(2);
    assert_eq!(cache.get(&1), None);
    assert_eq!(cache.evact(), None);
}

#[test]
fn put_then_get_returns_the_value() {
    let mut cache: LRUCache<u64, &str> = LRUCache::new(2);
    assert_eq!(cache.put(1, "one"), Ok(()));
    assert_eq!(cache.get(&1), Some(&"one"));
    assert_eq!(cache.get(&2), None);
}

#[test]
fn get_does_not_change_other_values() {
    let mut cache: LRUCache<u64, u64> = LRUCache::new(3);
    cache.put(1, 10).unwrap();
    cache.put(2, 20).unwrap();
    cache.put(3, 30).unwrap();
    assert_eq!(cache.get(&1), Some(&10));
    assert_eq!(cache.get(&2), Some(&20));
    assert_eq!(cache.get(&3), Some(&30));
    assert_eq!(cache.get(&1), Some(&10));
}

#[test]
fn the_least_recently_used_key_is_evicted() {
    let mut cache: LRUCache<u64, u64> = LRUCache::new(3);
    for k in 1..=4 {
        assert_eq!(cache.put(k, k * 10), Ok(()));
    }
    assert_eq!(cache.get(&1), None);
    assert_eq!(cache.get(&2), Some(&20));
    assert_eq!(cache.get(&3), Some(&30));
    assert_eq!(cache.get(&4), Some(&40));
}

#[test]
fn get_protects_a_key_from_eviction() {
    let mut cache: LRUCache<String, String> = LRUCache::new(2);
    cache.put(String::from("a"), String::from("1")).unwrap();
    cache.put(String::from("b"), String::from("2")).unwrap();
    assert_eq!(cache.get(&String::from("a")), Some(&String::from("1")));
    cache.put(String::from("c"), String::from("3")).unwrap();
    assert_eq!(cache.get(&String::from("b")), None);
    assert_eq!(cache.get(&String::from("a")), Some(&String::from("1")));
    assert_eq!(cache.get(&String::from("c")), Some(&String::from("3")));
}

#[test]
fn put_of_a_present_key_replaces_the_value_and_adds_nothing() {
    let mut cache: LRUCache<u64, u64> = LRUCache::new(2);
    cache.put(1, 10).unwrap();
    cache.put(2, 20).unwrap();
    cache.put(1, 11).unwrap();
    assert_eq!(cache.get(&1), Some(&11));
    assert_eq!(cache.get(&2), Some(&20));
    assert_eq!(cache.evact(), Some(11));
    assert_eq!(cache.evact(), Some(20));
    assert_eq!(cache.evact(), None);
}

#[test]
fn put_of_a_present_key_in_a_full_cache_evicts_nothing() {
    let mut cache: LRUCache<u64, u64> = LRUCache::new(2);
    cache.put(1, 10).unwrap();
    cache.put(2, 20).unwrap();
    cache.put(2, 21).unwrap();
    assert_eq!(cache.get(&1), Some(&10));
    assert_eq!(cache.get(&2), Some(&21));
}

#[test]
fn put_of_a_present_key_makes_it_most_recent() {
    let mut cache: LRUCache<u64, u64> = LRUCache::new(2);
    cache.put(1, 10).unwrap();
    cache.put(2, 20).unwrap();
    cache.put(1, 11).unwrap();
    cache.put(3, 30).unwrap();
    assert_eq!(cache.get(&2), None);
    assert_eq!(cache.get(&1), Some(&11));
    assert_eq!(cache.get(&3), Some(&30));
}

#[test]
fn evact_removes_from_the_least_recent_end() {
    let mut cache: LRUCache<u64, u64> = LRUCache::new(3);
    cache.put(1, 10).unwrap();
    cache.put(2, 20).unwrap();
    cache.put(3, 30).unwrap();
    cache.get(&1);
    assert_eq!(cache.evact(), Some(20));
    assert_eq!(cache.evact(), Some(30));
    assert_eq!(cache.evact(), Some(10));
    assert_eq!(cache.evact(), None);
    assert_eq!(cache.get(&1), None);
}

#[test]
fn capacity_zero_holds_ten_entries() {
    let mut cache: LRUCache<u64, u64> = LRUCache::new(0);
    for k in 0..11 {
        cache.put(k, k).unwrap();
    }
    assert_eq!(cache.get(&0), None);
    for k in 1..11 {
        assert_eq!(cache.get(&k), Some(&k));
    }
}

#[test]
fn capacity_one_keeps_the_latest() {
    let mut cache: LRUCache<u64, u64> = LRUCache::new(1);
    cache.put(1, 10).unwrap();
    cache.put(2, 20).unwrap();
    assert_eq!(cache.get(&1), None);
    assert_eq!(cache.get(&2), Some(&20));
    cache.put(2, 21).unwrap();
    assert_eq!(cache.get(&2), Some(&21));
}

#[test]
fn the_cache_never_holds_more_than_its_capacity() {
    let mut cache: LRUCache<u64, u64> = LRUCache::new(4);
    for k in 0..100 {
        cache.put(k % 7, k).unwrap();
        cache.get(&(k % 3));
    }
    let mut held = 0;
    while cache.evact().is_some() {
        held += 1;
    }
    assert_eq!(held, 4);
}
