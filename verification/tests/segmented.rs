use common_cache::segmented::Segmented;
use common_cache::BasicCache;

#[test]
fn segmented_put_and_get() {
    let mut cache = Segmented::new(10);
    assert_eq!(cache.len(), 0);
    assert_eq!(cache.put(1, "a"), None);
    assert_eq!(cache.put(2, "b"), None);
    assert_eq!(cache.get(&2), Some(&"b"));
    assert_eq!(cache.get(&3), None);
    assert_eq!(cache.put(2, "b2"), Some("b"));
    assert_eq!(cache.get(&2), Some(&"b2"));
}

#[test]
fn unused_key_leaves_probation_and_the_cache() {
    let mut cache = Segmented::with_segments(1, 2, 2);
    cache.put(1, 10);
    cache.put(2, 20);
    assert_eq!(cache.get(&1), None);
    assert_eq!(cache.get(&2), Some(&20));
    assert_eq!(cache.len(), 1);
}

#[test]
fn used_key_is_promoted_from_probation() {
    let mut cache = Segmented::with_segments(1, 2, 2);
    cache.put(1, 10);
    assert_eq!(cache.get(&1), Some(&10));
    cache.put(2, 20);
    assert_eq!(cache.get(&1), Some(&10));
    assert_eq!(cache.len(), 2);
    // Key 1 is in the main segment now: probation can turn over without it.
    cache.put(3, 30);
    cache.put(4, 40);
    cache.put(5, 50);
    assert_eq!(cache.get(&1), Some(&10));
    assert_eq!(cache.get(&2), None);
    assert_eq!(cache.get(&3), None);
    assert_eq!(cache.get(&4), None);
    assert_eq!(cache.get(&5), Some(&50));
    assert_eq!(cache.len(), 2);
}

#[test]
fn ghost_is_admitted_to_the_main_segment() {
    let mut cache = Segmented::with_segments(1, 2, 2);
    cache.put(1, 10);
    cache.put(2, 20);
    assert_eq!(cache.get(&1), None);
    // Key 1 is a ghost: it comes back into the main segment.
    assert_eq!(cache.put(1, 11), None);
    assert_eq!(cache.get(&1), Some(&11));
    assert_eq!(cache.get(&2), Some(&20));
    cache.put(3, 30);
    cache.put(4, 40);
    assert_eq!(cache.get(&1), Some(&11));
    assert_eq!(cache.get(&3), None);
    assert_eq!(cache.get(&4), Some(&40));
}

#[test]
fn ghost_is_forgotten_once_admitted() {
    let mut cache = Segmented::with_segments(1, 1, 2);
    cache.put(1, 10);
    cache.put(2, 20);
    cache.put(1, 11);
    cache.put(3, 30);
    // Keys 1 and 3 are live, in the main segment and on probation; 2 is a ghost.
    cache.put(2, 21);
    // Key 2 took the one place of the main segment, and key 1 left for good:
    // it is no ghost any more, so it comes back on probation.
    assert_eq!(cache.get(&1), None);
    cache.put(1, 12);
    assert_eq!(cache.get(&2), Some(&21));
    cache.put(4, 40);
    assert_eq!(cache.get(&1), None);
    assert_eq!(cache.get(&2), Some(&21));
    assert_eq!(cache.get(&4), Some(&40));
}

#[test]
fn ghosts_are_forgotten_oldest_first() {
    let mut cache = Segmented::with_segments(1, 2, 1);
    cache.put(1, 10);
    cache.put(2, 20);
    cache.put(3, 30);
    // Keys 1 and 2 left probation unused. One ghost is remembered, and that
    // is key 2: key 1 comes back on probation, and the next new key evicts it.
    cache.put(1, 11);
    cache.put(4, 40);
    assert_eq!(cache.get(&1), None);
    // Key 1 is the one ghost now: it comes back into the main segment, and
    // stays while probation turns over.
    cache.put(1, 12);
    cache.put(5, 50);
    cache.put(6, 60);
    assert_eq!(cache.get(&1), Some(&12));
    assert_eq!(cache.get(&5), None);
    assert_eq!(cache.get(&6), Some(&60));
}

#[test]
fn main_segment_evicts_by_recency() {
    let mut cache = Segmented::with_segments(1, 2, 4);
    cache.put(1, 10);
    cache.get(&1);
    cache.put(2, 20);
    cache.get(&2);
    cache.put(3, 30);
    cache.get(&3);
    cache.put(4, 40);
    // Keys 1, 2 and 3 were promoted in turn; the main segment holds two.
    assert_eq!(cache.get(&1), None);
    assert_eq!(cache.get(&2), Some(&20));
    assert_eq!(cache.get(&3), Some(&30));
    // Key 2 is the more recently used of the two after this lookup.
    assert_eq!(cache.get(&2), Some(&20));
    cache.get(&4);
    cache.put(5, 50);
    assert_eq!(cache.get(&3), None);
    assert_eq!(cache.get(&2), Some(&20));
    assert_eq!(cache.get(&4), Some(&40));
    assert_eq!(cache.get(&5), Some(&50));
}

#[test]
fn overwrite_on_probation_keeps_place_and_mark() {
    let mut cache = Segmented::with_segments(2, 2, 2);
    cache.put(1, 10);
    cache.put(2, 20);
    assert_eq!(cache.put(1, 11), Some(10));
    cache.put(3, 30);
    // Key 1 was still the oldest on probation, and was never looked up.
    assert_eq!(cache.get(&1), None);
    assert_eq!(cache.get(&2), Some(&20));
    assert_eq!(cache.get(&3), Some(&30));
}

#[test]
fn segmented_default_split() {
    let mut cache = Segmented::new(20);
    for key in 0..3 {
        cache.put(key, key);
    }
    // Two places on probation: key 0 has left, unused.
    assert_eq!(cache.get(&0), None);
    assert_eq!(cache.get(&1), Some(&1));
    assert_eq!(cache.get(&2), Some(&2));
    assert_eq!(cache.len(), 2);
    let mut small = Segmented::new(2);
    small.put(1, 1);
    small.get(&1);
    small.put(2, 2);
    assert_eq!(small.len(), 2);
    small.put(3, 3);
    assert_eq!(small.len(), 2);
    assert_eq!(small.get(&1), Some(&1));
    assert_eq!(small.get(&2), None);
    assert_eq!(small.get(&3), Some(&3));
}

#[test]
fn segmented_len_never_exceeds_capacity() {
    let mut cache = Segmented::new(10);
    let mut seed: u64 = 0x1234_5678_9abc_def1;
    for round in 0..5000 {
        seed = seed.wrapping_mul(6364136223846793005).wrapping_add(1442695040888963407);
        let key = ((seed >> 33) % 40) as i32;
        if (seed >> 20) % 3 == 0 {
            cache.get(&key);
        } else {
            cache.put(key, round);
            assert_eq!(cache.get(&key), Some(&round));
        }
        assert!(cache.len() <= 10);
    }
    assert_eq!(cache.len(), 10);
}

#[test]
fn segmented_get_twice_is_the_same() {
    let mut cache = Segmented::with_segments(2, 2, 2);
    cache.put(1, 10);
    cache.put(2, 20);
    let first = cache.get(&1).copied();
    let second = cache.get(&1).copied();
    assert_eq!(first, Some(10));
    assert_eq!(first, second);
    assert_eq!(cache.len(), 2);
}

#[test]
fn segmented_through_basic_cache() {
    let mut cache = Segmented::with_segments(1, 2, 2);
    cache.put_basic(1, "a");
    assert_eq!(cache.get_basic(&1), Some(&"a"));
    cache.put_basic(2, "b");
    cache.put_basic(3, "c");
    assert_eq!(cache.get_basic(&1), Some(&"a"));
    assert_eq!(cache.get_basic(&2), None);
    assert_eq!(cache.get_basic(&3), Some(&"c"));
}

// One scan of keys that are never used again leaves the main segment as it
// was.
#[test]
fn scan_does_not_displace_the_main_segment() {
    let mut cache = Segmented::with_segments(2, 3, 8);
    for key in [1, 2, 3] {
        cache.put(key, key * 10);
        cache.get(&key);
    }
    cache.put(4, 40);
    cache.put(5, 50);
    // Keys 1, 2 and 3 have been promoted by now.
    for key in 100..200 {
        cache.put(key, key);
    }
    assert_eq!(cache.get(&1), Some(&10));
    assert_eq!(cache.get(&2), Some(&20));
    assert_eq!(cache.get(&3), Some(&30));
    assert_eq!(cache.len(), 5);
}
