//! Meters: how much of a cache's capacity one key/value pair takes up.
//!
//! A cache is handed its meter when it is built, so the unit in which its
//! capacity is counted is fixed at that call and nowhere else.

use crate::model::CacheEntry;
use vstd::prelude::*;

verus! {

/// Assigns a weight to every key/value pair.
///
/// A meter is pure: the weight is a function of the pair alone, which is what
/// lets a cache keep a running total and give a weight back when its entry
/// leaves.
pub trait Meter<V> {
    /// The weight of the pair.
    spec fn weight_of(&self, key: i32, value: V) -> u64;

    /// Measures the pair.
    fn measure(&self, key: &i32, value: &V) -> (weight: u64)
        ensures
            weight == self.weight_of(*key, *value),
    ;
}

/// Every pair weighs one, so a capacity is a number of entries.
pub struct Count;

/// A byte string weighs its length, so a capacity is a number of bytes.
pub struct BytesMeter;

/// The value is itself the size that its key stands for, such as the length
/// of a file on disk, and weighs that much.
pub struct FileSize;

/// Every entry of `s` carries the weight that `meter` gives to its pair.
pub open spec fn metered<V, M: Meter<V>>(s: Seq<CacheEntry<V>>, meter: M) -> bool {
    forall|i: int|
        0 <= i < s.len() ==> (#[trigger] s[i]).weight == meter.weight_of(s[i].key, s[i].value)
}

impl<V> Meter<V> for Count {
    open spec fn weight_of(&self, key: i32, value: V) -> u64 {
        1
    }

    fn measure(&self, key: &i32, value: &V) -> (weight: u64) {
        1
    }
}

impl Meter<Vec<u8>> for BytesMeter {
    open spec fn weight_of(&self, key: i32, value: Vec<u8>) -> u64 {
        value.len() as u64
    }

    fn measure(&self, key: &i32, value: &Vec<u8>) -> (weight: u64) {
        value.len() as u64
    }
}

impl Meter<u64> for FileSize {
    open spec fn weight_of(&self, key: i32, value: u64) -> u64 {
        value
    }

    fn measure(&self, key: &i32, value: &u64) -> (weight: u64) {
        *value
    }
}

} // verus!
