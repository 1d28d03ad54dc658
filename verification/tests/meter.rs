use common_cache::fifo::Fifo;
use common_cache::{BytesMeter, Count, FileSize, Meter};

#[test]
fn count_weighs_every_pair_one() {
    assert_eq!(Count.measure(&1, &"a"), 1);
    assert_eq!(Count.measure(&-7, &vec![0u8; 100]), 1);
    assert_eq!(Count.measure(&0, &()), 1);
}

#[test]
fn bytes_meter_weighs_the_length() {
    assert_eq!(BytesMeter.measure(&1, &Vec::new()), 0);
    assert_eq!(BytesMeter.measure(&1, &vec![9u8]), 1);
    assert_eq!(BytesMeter.measure(&2, &vec![0u8; 4096]), 4096);
}

#[test]
fn file_size_weighs_the_size_given() {
    assert_eq!(FileSize.measure(&1, &0), 0);
    assert_eq!(FileSize.measure(&1, &1_048_576), 1_048_576);
    assert_eq!(FileSize.measure(&1, &u64::MAX), u64::MAX);
}

#[test]
fn count_meter_given_by_hand_is_the_default() {
    let mut counted = Fifo::with_meter(2, Count);
    let mut plain = Fifo::new(2);
    for key in [4, 5, 4, 6, 7, 5] {
        assert_eq!(counted.put(key, key * 2), plain.put(key, key * 2));
        assert_eq!(counted.len(), plain.len());
    }
    for key in 0..10 {
        assert_eq!(counted.get(&key), plain.get(&key));
    }
}

// What the arrival-order policy does, written out on a plain vector of
// (key, value, weight), the oldest first.
fn reference_put(
    entries: &mut Vec<(i32, Vec<u8>, u64)>,
    capacity: u64,
    key: i32,
    value: Vec<u8>,
    weight: u64,
) -> Option<Vec<u8>> {
    let prior = entries.iter().find(|e| e.0 == key).map(|e| e.1.clone());
    loop {
        let total: u64 = entries.iter().map(|e| e.2).sum();
        let at = entries.iter().position(|e| e.0 == key);
        let fits = match at {
            Some(i) => total - entries[i].2 + weight <= capacity,
            None => total + weight <= capacity && (entries.len() as u64) < capacity,
        };
        if fits {
            match at {
                Some(i) => entries[i] = (key, value, weight),
                None => entries.push((key, value, weight)),
            }
            return prior;
        }
        if entries.is_empty() {
            return prior;
        }
        entries.remove(0);
    }
}

#[test]
fn bytes_cache_agrees_with_the_reference() {
    let capacity = 12u64;
    let mut cache = Fifo::with_meter(12, BytesMeter);
    let mut reference: Vec<(i32, Vec<u8>, u64)> = Vec::new();
    let mut seed: u64 = 0x2545_f491_4f6c_dd1d;
    for round in 0..4000 {
        seed = seed.wrapping_mul(6364136223846793005).wrapping_add(1442695040888963407);
        let key = ((seed >> 33) % 9) as i32;
        let size = ((seed >> 45) % 15) as usize;
        let value = vec![(round % 251) as u8; size];
        let expected = reference_put(&mut reference, capacity, key, value.clone(), size as u64);
        assert_eq!(cache.put(key, value), expected);
        assert_eq!(cache.len(), reference.len());
        assert!(cache.len() as u64 <= capacity);
        for probe in 0..9 {
            let live = reference.iter().find(|e| e.0 == probe).map(|e| &e.1);
            assert_eq!(cache.get(&probe), live);
        }
    }
}

#[test]
fn counted_cache_agrees_with_the_reference() {
    let mut cache = Fifo::new(5);
    let mut reference: Vec<(i32, Vec<u8>, u64)> = Vec::new();
    let mut seed: u64 = 0x9e37_79b9_7f4a_7c15;
    for round in 0..4000 {
        seed = seed.wrapping_mul(6364136223846793005).wrapping_add(1442695040888963407);
        let key = ((seed >> 33) % 11) as i32 - 5;
        let value = vec![(round % 251) as u8];
        let expected = reference_put(&mut reference, 5, key, value.clone(), 1);
        assert_eq!(cache.put(key, value), expected);
        assert_eq!(cache.len(), reference.len());
        assert!(cache.len() <= 5);
        for probe in -5..6 {
            let live = reference.iter().find(|e| e.0 == probe).map(|e| &e.1);
            assert_eq!(cache.get(&probe), live);
        }
    }
}
