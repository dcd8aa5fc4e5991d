use rastd::lru_cache::LRUCache;

#[test]
fn cache_retrieve() {
    let mut cache = LRUCache::new(2);
    cache.insert(1, 100);
    assert_eq!(cache.get(&1), Some(&100));
}

#[test]
fn cache_evict() {
    let mut cache = LRUCache::new(2);
    cache.insert(1, 101);
    cache.insert(2, 102);
    cache.insert(3, 103);
    assert_eq!(cache.get(&1), None);
    assert_eq!(cache.get(&2), Some(&102));
    assert_eq!(cache.get(&3), Some(&103));
}

#[test]
fn cache_recent() {
    let mut cache = LRUCache::new(2);
    cache.insert(1, 101);
    cache.insert(2, 102);
    cache.get(&1);
    cache.insert(3, 103);
    assert_eq!(cache.get(&1), Some(&101));
    assert_eq!(cache.get(&2), None);
    assert_eq!(cache.get(&3), Some(&103));
}

#[test]
fn empty_cache_finds_nothing() {
    let mut cache = LRUCache::<i32, i32>::new(3);
    assert_eq!(cache.get(&1), None);
    assert!(cache.get_mut(&1).is_none());
}

#[test]
fn overwriting_keeps_the_order_of_use() {
    let mut cache = LRUCache::new(2);
    cache.insert(1, 101);
    cache.insert(2, 102);
    cache.insert(1, 111);
    cache.insert(3, 103);
    assert_eq!(cache.get(&1), None);
    assert_eq!(cache.get(&2), Some(&102));
    assert_eq!(cache.get(&3), Some(&103));
}

#[test]
fn overwriting_changes_the_value() {
    let mut cache = LRUCache::new(2);
    cache.insert(1, 101);
    cache.insert(1, 111);
    assert_eq!(cache.get(&1), Some(&111));
}

#[test]
fn looking_for_an_absent_key_changes_nothing() {
    let mut cache = LRUCache::new(2);
    cache.insert(1, 101);
    cache.insert(2, 102);
    assert_eq!(cache.get(&9), None);
    assert_eq!(cache.get(&9), None);
    cache.insert(3, 103);
    assert_eq!(cache.get(&1), None);
    assert_eq!(cache.get(&2), Some(&102));
    assert_eq!(cache.get(&3), Some(&103));
    cache.insert(9, 109);
    assert_eq!(cache.get(&9), Some(&109));
    assert_eq!(cache.get(&2), None);
    assert_eq!(cache.get(&3), Some(&103));
}

#[test]
fn get_mut_changes_the_value_and_not_the_order() {
    let mut cache = LRUCache::new(2);
    cache.insert(1, 101);
    cache.insert(2, 102);
    *cache.get_mut(&1).unwrap() = 7;
    cache.insert(3, 103);
    assert_eq!(cache.get(&1), None);
    assert_eq!(cache.get(&2), Some(&102));
    *cache.get_mut(&2).unwrap() += 1;
    assert_eq!(cache.get(&2), Some(&103));
}

#[test]
fn cache_of_one() {
    let mut cache = LRUCache::new(1);
    cache.insert(1, 101);
    cache.insert(2, 102);
    assert_eq!(cache.get(&1), None);
    assert_eq!(cache.get(&2), Some(&102));
    cache.insert(3, 103);
    assert_eq!(cache.get(&2), None);
    assert_eq!(cache.get(&3), Some(&103));
}

#[test]
fn eviction_goes_by_use_over_many_steps() {
    let mut cache = LRUCache::new(3);
    for k in 1..=3 {
        cache.insert(k, k * 10);
    }
    cache.get(&1);
    cache.get(&2);
    cache.insert(4, 40);
    assert_eq!(cache.get(&3), None);
    cache.insert(5, 50);
    assert_eq!(cache.get(&1), None);
    assert_eq!(cache.get(&2), Some(&20));
    assert_eq!(cache.get(&4), Some(&40));
    assert_eq!(cache.get(&5), Some(&50));
}
