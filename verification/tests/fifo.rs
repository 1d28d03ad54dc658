use common_cache::fifo::Fifo;
use common_cache::meter::{BytesMeter, FileSize};
use common_cache::BasicCache;

#[test]
fn fifo_test_pub_and_get() {
    let mut cache = Fifo::new(2);
    cache.put(1, 10);
    cache.put(2, 20);
    assert_eq!(cache.get(&1), Some(&10));
    assert_eq!(cache.get(&2), Some(&20));
    assert_eq!(cache.len(), 2);
    assert_eq!(cache.len(), 2);
}

#[test]
fn fifo_new_cache_is_empty() {
    let cache: Fifo<i32> = Fifo::new(3);
    assert_eq!(cache.len(), 0);
    assert_eq!(cache.get(&1), None);
}

#[test]
fn fifo_evicts_in_arrival_order() {
    let mut cache = Fifo::new(2);
    assert_eq!(cache.put(1, "a"), None);
    assert_eq!(cache.put(2, "b"), None);
    assert_eq!(cache.put(3, "c"), None);
    assert_eq!(cache.get(&1), None);
    assert_eq!(cache.get(&2), Some(&"b"));
    assert_eq!(cache.get(&3), Some(&"c"));
    assert_eq!(cache.len(), 2);
}

#[test]
fn fifo_overwrite_keeps_arrival_order() {
    let mut cache = Fifo::new(2);
    assert_eq!(cache.put(1, "a"), None);
    assert_eq!(cache.put(2, "b"), None);
    assert_eq!(cache.put(1, "a2"), Some("a"));
    assert_eq!(cache.get(&1), Some(&"a2"));
    assert_eq!(cache.len(), 2);
    assert_eq!(cache.put(3, "c"), None);
    assert_eq!(cache.get(&1), None);
    assert_eq!(cache.get(&2), Some(&"b"));
    assert_eq!(cache.get(&3), Some(&"c"));
}

#[test]
fn fifo_get_does_not_refresh() {
    let mut cache = Fifo::new(2);
    cache.put(1, "a");
    cache.put(2, "b");
    assert_eq!(cache.get(&1), Some(&"a"));
    cache.put(3, "c");
    assert_eq!(cache.get(&1), None);
    assert_eq!(cache.get(&2), Some(&"b"));
    assert_eq!(cache.get(&3), Some(&"c"));
}

#[test]
fn fifo_len_never_exceeds_capacity() {
    let mut cache = Fifo::new(3);
    let keys = [5, 1, 5, 9, 2, 2, 7, 1, 5, 8, 3, 9, 9, 4];
    let mut value = 0;
    for key in keys {
        value += 1;
        cache.put(key, value);
        assert!(cache.len() <= 3);
        assert_eq!(cache.get(&key), Some(&value));
    }
    assert_eq!(cache.len(), 3);
    assert_eq!(cache.get(&3), Some(&11));
    assert_eq!(cache.get(&9), Some(&13));
    assert_eq!(cache.get(&4), Some(&14));
    assert_eq!(cache.get(&8), None);
}

#[test]
fn fifo_capacity_one() {
    let mut cache = Fifo::new(1);
    assert_eq!(cache.put(1, 10), None);
    assert_eq!(cache.put(1, 11), Some(10));
    assert_eq!(cache.put(2, 20), None);
    assert_eq!(cache.get(&1), None);
    assert_eq!(cache.get(&2), Some(&20));
    assert_eq!(cache.len(), 1);
}

#[test]
fn fifo_get_twice_is_the_same() {
    let mut cache = Fifo::new(2);
    cache.put(7, 70);
    let first = cache.get(&7).copied();
    let second = cache.get(&7).copied();
    assert_eq!(first, Some(70));
    assert_eq!(first, second);
    assert_eq!(cache.len(), 1);
    assert_eq!(cache.get(&8), None);
    assert_eq!(cache.get(&8), None);
    assert_eq!(cache.len(), 1);
}

#[test]
fn fifo_put_then_get_round_trip() {
    let mut cache = Fifo::new(2);
    for key in -3..4 {
        cache.put(key, key * 100);
        assert_eq!(cache.get(&key), Some(&(key * 100)));
    }
}

#[test]
fn fifo_slots_follow_evictions() {
    let mut cache = Fifo::new(3);
    cache.put(1, 10);
    cache.put(2, 20);
    cache.put(3, 30);
    cache.put(4, 40);
    assert_eq!(cache.get(&1), None);
    assert_eq!(cache.get(&2), Some(&20));
    assert_eq!(cache.get(&3), Some(&30));
    assert_eq!(cache.get(&4), Some(&40));
    cache.put(5, 50);
    cache.put(6, 60);
    assert_eq!(cache.get(&2), None);
    assert_eq!(cache.get(&3), None);
    assert_eq!(cache.get(&4), Some(&40));
    assert_eq!(cache.get(&5), Some(&50));
    assert_eq!(cache.get(&6), Some(&60));
    assert_eq!(cache.len(), 3);
}

#[test]
fn bytes_meter_full_weight_evicts_all() {
    let mut cache = Fifo::with_meter(8, BytesMeter);
    cache.put(1, vec![1u8, 2, 3]);
    cache.put(2, vec![4u8, 5]);
    assert_eq!(cache.len(), 2);
    assert_eq!(cache.put(3, vec![0u8; 8]), None);
    assert_eq!(cache.len(), 1);
    assert_eq!(cache.get(&1), None);
    assert_eq!(cache.get(&2), None);
    assert_eq!(cache.get(&3), Some(&vec![0u8; 8]));
}

#[test]
fn bytes_meter_evicts_only_what_is_needed() {
    let mut cache = Fifo::with_meter(10, BytesMeter);
    cache.put(1, vec![0u8; 4]);
    cache.put(2, vec![0u8; 3]);
    cache.put(3, vec![0u8; 3]);
    assert_eq!(cache.len(), 3);
    cache.put(4, vec![0u8; 2]);
    assert_eq!(cache.get(&1), None);
    assert_eq!(cache.len(), 3);
    cache.put(5, vec![0u8; 7]);
    assert_eq!(cache.get(&2), None);
    assert_eq!(cache.get(&3), None);
    assert_eq!(cache.get(&4), Some(&vec![0u8; 2]));
    assert_eq!(cache.get(&5), Some(&vec![0u8; 7]));
    assert_eq!(cache.len(), 2);
}

#[test]
fn bytes_meter_overweight_pair_is_not_stored() {
    let mut cache = Fifo::with_meter(4, BytesMeter);
    cache.put(1, vec![1u8, 1]);
    cache.put(2, vec![2u8]);
    assert_eq!(cache.put(1, vec![0u8; 5]), Some(vec![1u8, 1]));
    assert_eq!(cache.len(), 0);
    assert_eq!(cache.get(&1), None);
    assert_eq!(cache.get(&2), None);
}

#[test]
fn bytes_meter_overwrite_gives_old_weight_back() {
    let mut cache = Fifo::with_meter(6, BytesMeter);
    cache.put(1, vec![0u8; 3]);
    cache.put(2, vec![0u8; 3]);
    assert_eq!(cache.put(2, vec![9u8; 2]), Some(vec![0u8; 3]));
    assert_eq!(cache.len(), 2);
    assert_eq!(cache.put(3, vec![7u8]), None);
    assert_eq!(cache.len(), 3);
    assert_eq!(cache.get(&1), Some(&vec![0u8; 3]));
    assert_eq!(cache.get(&2), Some(&vec![9u8; 2]));
    assert_eq!(cache.get(&3), Some(&vec![7u8]));
}

#[test]
fn bytes_meter_growing_overwrite_evicts_older_entries() {
    let mut cache = Fifo::with_meter(6, BytesMeter);
    cache.put(1, vec![0u8; 3]);
    cache.put(2, vec![0u8; 3]);
    assert_eq!(cache.put(2, vec![5u8; 4]), Some(vec![0u8; 3]));
    assert_eq!(cache.get(&1), None);
    assert_eq!(cache.get(&2), Some(&vec![5u8; 4]));
    assert_eq!(cache.len(), 1);
}

#[test]
fn bytes_meter_growing_overwrite_of_the_oldest_rejoins_at_the_back() {
    let mut cache = Fifo::with_meter(6, BytesMeter);
    cache.put(1, vec![0u8; 3]);
    cache.put(2, vec![0u8; 3]);
    assert_eq!(cache.put(1, vec![5u8; 4]), Some(vec![0u8; 3]));
    assert_eq!(cache.get(&2), None);
    assert_eq!(cache.get(&1), Some(&vec![5u8; 4]));
    assert_eq!(cache.len(), 1);
    cache.put(3, vec![1u8; 2]);
    cache.put(4, vec![1u8; 2]);
    assert_eq!(cache.get(&1), None);
    assert_eq!(cache.get(&3), Some(&vec![1u8; 2]));
    assert_eq!(cache.get(&4), Some(&vec![1u8; 2]));
}

#[test]
fn bytes_meter_empty_values_are_bounded_by_count() {
    let mut cache = Fifo::with_meter(2, BytesMeter);
    cache.put(1, Vec::new());
    cache.put(2, Vec::new());
    cache.put(3, Vec::new());
    assert_eq!(cache.len(), 2);
    assert_eq!(cache.get(&1), None);
    assert_eq!(cache.get(&2), Some(&Vec::new()));
    assert_eq!(cache.get(&3), Some(&Vec::new()));
    cache.put(4, vec![1u8, 2]);
    assert_eq!(cache.len(), 2);
    assert_eq!(cache.get(&2), None);
    assert_eq!(cache.get(&3), Some(&Vec::new()));
    assert_eq!(cache.get(&4), Some(&vec![1u8, 2]));
}

#[test]
fn file_size_meter_counts_the_value() {
    let mut cache = Fifo::with_meter(100, FileSize);
    cache.put(1, 60u64);
    cache.put(2, 40u64);
    assert_eq!(cache.len(), 2);
    cache.put(3, 1u64);
    assert_eq!(cache.get(&1), None);
    assert_eq!(cache.get(&2), Some(&40));
    assert_eq!(cache.get(&3), Some(&1));
    assert_eq!(cache.put(4, 101u64), None);
    assert_eq!(cache.len(), 0);
    assert_eq!(cache.put(5, u64::MAX), None);
    assert_eq!(cache.len(), 0);
    assert_eq!(cache.put(6, 100u64), None);
    assert_eq!(cache.get(&6), Some(&100));
}

#[test]
fn fifo_through_basic_cache() {
    let mut cache = Fifo::new(2);
    cache.put_basic(1, "a");
    cache.put_basic(2, "b");
    assert_eq!(cache.get_basic(&1), Some(&"a"));
    cache.put_basic(3, "c");
    assert_eq!(cache.get_basic(&1), None);
    assert_eq!(cache.get_basic(&2), Some(&"b"));
    assert_eq!(cache.get_basic(&3), Some(&"c"));
    assert_eq!(cache.len(), 2);
}
