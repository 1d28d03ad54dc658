use common_cache::lru::new_lru;
use common_cache::BasicCache;
use hashlink::LruCache;

#[test]
fn lru_test_pub_and_get() {
    let mut cache = LruCache::new(2);
    cache.insert(1, 10);
    cache.insert(2, 20);
    assert_eq!(cache.get(&1), Some(&10));
    assert_eq!(cache.get(&2), Some(&20));
    assert_eq!(cache.len(), 2);
    assert_eq!(cache.len(), 2);
}

#[test]
fn lru_promotes_on_access() {
    let mut cache: LruCache<i32, i32> = LruCache::new(2);
    cache.put_basic(1, 10);
    cache.put_basic(2, 20);
    assert_eq!(cache.get_basic(&1), Some(&10));
    cache.put_basic(3, 30);
    assert_eq!(cache.get_basic(&2), None);
    assert_eq!(cache.get_basic(&1), Some(&10));
    assert_eq!(cache.get_basic(&3), Some(&30));
    assert_eq!(cache.len(), 2);
}

#[test]
fn lru_overwrite_counts_as_use() {
    let mut cache: LruCache<i32, i32> = LruCache::new(2);
    cache.put_basic(1, 10);
    cache.put_basic(2, 20);
    cache.put_basic(1, 11);
    cache.put_basic(3, 30);
    assert_eq!(cache.get_basic(&2), None);
    assert_eq!(cache.get_basic(&1), Some(&11));
    assert_eq!(cache.get_basic(&3), Some(&30));
}

#[test]
fn lru_absent_key_changes_nothing() {
    let mut cache: LruCache<i32, i32> = LruCache::new(2);
    cache.put_basic(1, 10);
    cache.put_basic(2, 20);
    assert_eq!(cache.get_basic(&9), None);
    cache.put_basic(3, 30);
    assert_eq!(cache.get_basic(&1), None);
    assert_eq!(cache.get_basic(&2), Some(&20));
    assert_eq!(cache.get_basic(&3), Some(&30));
}

#[test]
fn lru_get_twice_is_the_same() {
    let mut cache: LruCache<i32, i32> = LruCache::new(3);
    cache.put_basic(1, 10);
    cache.put_basic(2, 20);
    let first = cache.get_basic(&1).copied();
    let second = cache.get_basic(&1).copied();
    assert_eq!(first, Some(10));
    assert_eq!(first, second);
    assert_eq!(cache.len(), 2);
}

#[test]
fn lru_put_then_get_round_trip() {
    let mut cache: LruCache<i32, i32> = LruCache::new(1);
    for key in 0..5 {
        cache.put_basic(key, key + 100);
        assert_eq!(cache.get_basic(&key), Some(&(key + 100)));
        assert_eq!(cache.len(), 1);
    }
}

#[test]
fn lru_built_for_none_holds_none() {
    let mut cache: LruCache<i32, i32> = LruCache::new(0);
    cache.put_basic(1, 10);
    assert_eq!(cache.get_basic(&1), None);
    assert_eq!(cache.len(), 0);
}

#[test]
fn new_lru_is_empty_and_bounded() {
    let mut cache = new_lru(2);
    assert_eq!(cache.len(), 0);
    assert_eq!(cache.capacity(), 2);
    assert_eq!(cache.get_basic(&1), None);
    cache.put_basic(1, 10);
    cache.put_basic(2, 20);
    cache.put_basic(3, 30);
    assert_eq!(cache.len(), 2);
    assert_eq!(cache.get_basic(&1), None);
    assert_eq!(cache.get_basic(&2), Some(&20));
    assert_eq!(cache.get_basic(&3), Some(&30));
}

#[test]
fn lru_len_never_exceeds_capacity() {
    let mut cache = new_lru(3);
    for round in 0..50 {
        cache.put_basic(round % 7, round);
        assert!(cache.len() <= 3);
        assert_eq!(cache.get_basic(&(round % 7)), Some(&round));
    }
    assert_eq!(cache.len(), 3);
}
