//! The arrival-order policy: the entry that has been in the cache longest is
//! the one that leaves.
//!
//! The keys wait in a bounded queue in the order in which they arrived, a
//! hash map finds the slot of a key, and the slots hold the entries. A key
//! that is stored again keeps its place in the queue.

use crate::meter::{metered, Count, Meter};
use crate::model::{
    bounded, distinct_keys, entry_map, evictions, fits, holds_key, lemma_position,
    lemma_put_stores, lemma_skip, lemma_skip_lookup, lemma_total_drop_first, lemma_total_push,
    lemma_total_update, position, put_result, total_weight, value_at, CacheEntry,
};
use crate::queue::{queue_keys, queue_limit, queue_new, queue_pop, queue_push};
use crate::table::{
    table_get, table_insert, table_len, table_new, table_remove, table_slots, SlotTable,
};
use crate::BasicCache;
use crossbeam_queue::ArrayQueue;
use vstd::pervasive::unreached;
use vstd::prelude::*;

verus! {

/// The largest capacity a cache can be built with. The queue and the table
/// are sized for the capacity when the cache is built, and beyond this bound
/// the size of the table in bytes would no longer fit an `isize`.
pub const MAX_CAPACITY: usize = usize::MAX / 512;

/// A cache that evicts in arrival order.
///
/// The capacity is counted in the units of the meter `M`. It bounds the total
/// weight of the entries and, since the queue is built for that many keys,
/// their number as well.
pub struct Fifo<V, M = Count> {
    queue: ArrayQueue<i32>,
    table: SlotTable,
    slots: Vec<CacheEntry<V>>,
    used: u64,
    max_capacity: usize,
    meter: M,
}

impl<V, M: Meter<V>> View for Fifo<V, M> {
    type V = Seq<CacheEntry<V>>;

    /// The live entries, the oldest arrival first.
    closed spec fn view(&self) -> Seq<CacheEntry<V>> {
        Seq::new(
            queue_keys(self.queue).len(),
            |i: int| self.slots@[table_slots(self.table)[queue_keys(self.queue)[i]] as int],
        )
    }
}

impl<V> Fifo<V, Count> {
    /// An empty cache for at most `capacity` entries.
    pub fn new(capacity: usize) -> (cache: Self)
        requires
            0 < capacity <= MAX_CAPACITY,
        ensures
            cache.wf(),
            cache@ == Seq::<CacheEntry<V>>::empty(),
            cache.capacity() == capacity,
            cache.meter() == Count,
    {
        Fifo::with_meter(capacity, Count)
    }
}

impl<V, M: Meter<V>> Fifo<V, M> {
    /// The capacity that the cache was built with.
    pub closed spec fn capacity(&self) -> nat {
        self.max_capacity as nat
    }

    /// The meter that the cache was built with.
    pub closed spec fn meter(&self) -> M {
        self.meter
    }

    /// The queue, the table and the slots describe the same entries.
    pub closed spec fn inv(&self) -> bool {
        let keys = queue_keys(self.queue);
        let bound = table_slots(self.table);
        &&& queue_limit(self.queue) == self.max_capacity
        &&& keys.len() == self.slots@.len()
        &&& keys.no_duplicates()
        &&& forall|key: i32| #[trigger] bound.contains_key(key) <==> keys.contains(key)
        &&& forall|key: i32| #[trigger]
            bound.contains_key(key) ==> bound[key] < self.slots@.len()
                && self.slots@[bound[key] as int].key == key
        &&& forall|i: int|
            0 <= i < self.slots@.len() ==> bound.contains_key((#[trigger] self.slots@[i]).key)
                && bound[self.slots@[i].key] == i
        &&& self.used == total_weight(self@)
    }

    /// The cache is well formed: its parts agree, its entries have distinct
    /// keys and stay within the capacity, and each carries the weight that the
    /// meter gives it.
    pub open spec fn wf(&self) -> bool {
        &&& self.inv()
        &&& 0 < self.capacity() <= MAX_CAPACITY
        &&& bounded(self@, self.capacity())
        &&& metered(self@, self.meter())
    }

    /// An empty cache of the given capacity, counted in the units of `meter`.
    ///
    /// The queue and the table are allocated here, for `capacity` keys each.
    pub fn with_meter(capacity: usize, meter: M) -> (cache: Self)
        requires
            0 < capacity <= MAX_CAPACITY,
        ensures
            cache.wf(),
            cache@ == Seq::<CacheEntry<V>>::empty(),
            cache.capacity() == capacity,
            cache.meter() == meter,
    {
        let cache = Fifo {
            queue: queue_new(capacity),
            table: table_new(capacity),
            slots: Vec::new(),
            used: 0,
            max_capacity: capacity,
            meter,
        };
        assert(cache@ =~= Seq::<CacheEntry<V>>::empty());
        cache
    }

    /// How the view reads the parts: the entry at each place of the view is
    /// the one in the slot of the key at that place of the queue.
    proof fn lemma_view(&self)
        requires
            self.inv(),
        ensures
            self@.len() == self.slots@.len(),
            distinct_keys(self@),
            table_slots(self.table).dom().finite(),
            table_slots(self.table).len() == self.slots@.len(),
            forall|i: int|
                0 <= i < self@.len() ==> (#[trigger] self@[i]).key == queue_keys(self.queue)[i]
                    && table_slots(self.table).contains_key(self@[i].key) && self@[i]
                    == self.slots@[table_slots(self.table)[self@[i].key] as int],
            forall|key: i32|
                holds_key(self@, key) <==> #[trigger] table_slots(self.table).contains_key(key),
            forall|key: i32| #[trigger]
                table_slots(self.table).contains_key(key) ==> self@[position(self@, key)]
                    == self.slots@[table_slots(self.table)[key] as int],
    {
        let keys = queue_keys(self.queue);
        let bound = table_slots(self.table);
        let view = self@;
        assert forall|i: int| 0 <= i < view.len() implies (#[trigger] view[i]).key == keys[i]
            && bound.contains_key(view[i].key) && view[i] == self.slots@[bound[view[i].key] as int] by {
            assert(keys.contains(keys[i]));
            assert(bound.contains_key(keys[i]));
        }
        assert forall|i: int, j: int| 0 <= i < j < view.len() implies (#[trigger] view[i]).key != (
        #[trigger] view[j]).key by {
            assert(keys[i] != keys[j]);
        }
        assert forall|key: i32| holds_key(view, key) <==> #[trigger] bound.contains_key(
            key,
        ) by {
            if holds_key(view, key) {
                let i = position(view, key);
                assert(view[i].key == key);
            }
            if bound.contains_key(key) {
                assert(keys.contains(key));
                let i = choose|i: int| 0 <= i < keys.len() && keys[i] == key;
                assert(view[i].key == key);
            }
        }
        assert forall|key: i32| #[trigger] bound.contains_key(key) implies view[position(view, key)]
            == self.slots@[bound[key] as int] by {
            assert(holds_key(view, key));
            let i = position(view, key);
            assert(view[i].key == key);
        }
        assert(bound.dom() =~= keys.to_set());
        vstd::seq_lib::seq_to_set_is_finite(keys);
        keys.unique_seq_to_set();
    }

    /// Evicts the oldest entry and returns it.
    fn evict(&mut self) -> (evicted: CacheEntry<V>)
        requires
            old(self).wf(),
            old(self)@.len() > 0,
        ensures
            final(self).wf(),
            final(self).capacity() == old(self).capacity(),
            final(self).meter() == old(self).meter(),
            final(self)@ == old(self)@.drop_first(),
            evicted == old(self)@.first(),
    {
        let ghost keys = queue_keys(self.queue);
        let ghost bound = table_slots(self.table);
        let ghost slots = self.slots@;
        let ghost view = self@;
        proof {
            self.lemma_view();
            assert(keys.contains(keys[0]));
        }
        let key = match queue_pop(&mut self.queue) {
            Some(key) => key,
            None => unreached(),
        };
        let slot = match table_remove(&mut self.table, &key) {
            Some(slot) => slot,
            None => unreached(),
        };
        // The last slot's entry takes the place of the one that leaves, and the
        // table is told where it went.
        let evicted = self.slots.swap_remove(slot);
        let ghost last = slots.len() - 1;
        if slot < self.slots.len() {
            let moved = self.slots[slot].key;
            proof {
                assert(bound.remove(key).dom() =~= bound.dom().remove(key));
            }
            let _ = table_insert(&mut self.table, moved, slot);
        }
        proof {
            assert(evicted == view[0]);
            lemma_total_drop_first(view);
        }
        self.used = self.used - evicted.weight;
        proof {
            let keys1 = queue_keys(self.queue);
            let bound1 = table_slots(self.table);
            let slots1 = self.slots@;
            let moved = slots[last].key;
            assert(bound1 =~= if slot < last {
                bound.remove(key).insert(moved, slot)
            } else {
                bound.remove(key)
            });
            assert(bound[moved] == last);
            assert(slots[slot as int].key == key);
            assert forall|k: i32| #[trigger] bound1.contains_key(k) <==> keys1.contains(k) by {
                if keys1.contains(k) {
                    let i = choose|i: int| 0 <= i < keys1.len() && keys1[i] == k;
                    assert(keys[i + 1] == k);
                    assert(keys.contains(k));
                    assert(keys[0] != keys[i + 1]);
                }
                if bound1.contains_key(k) {
                    assert(bound.contains_key(k));
                    assert(keys.contains(k));
                    let i = choose|i: int| 0 <= i < keys.len() && keys[i] == k;
                    assert(i != 0);
                    assert(keys1[i - 1] == k);
                }
            }
            assert forall|k: i32| #[trigger] bound1.contains_key(k) implies bound1[k] < slots1.len()
                && slots1[bound1[k] as int].key == k by {
                assert(bound.contains_key(k));
            }
            assert forall|i: int| 0 <= i < slots1.len() implies bound1.contains_key(
                (#[trigger] slots1[i]).key,
            ) && bound1[slots1[i].key] == i by {
                if i == slot {
                    assert(slots1[i] == slots[last]);
                } else {
                    assert(slots1[i] == slots[i]);
                    assert(bound[slots[i].key] == i);
                }
            }
            assert forall|i: int| 0 <= i < keys1.len() implies self@[i] == view[i + 1] by {
                let k = keys1[i];
                assert(k == keys[i + 1]);
                assert(keys.contains(k));
                assert(keys[0] != keys[i + 1]);
                assert(view[i + 1] == slots[bound[k] as int]);
                if k != moved {
                    assert(bound[k] != last);
                    assert(bound[k] != slot);
                }
            }
            assert(self@ =~= view.drop_first());
            lemma_skip(view, 1);
            assert(view.skip(1) =~= view.drop_first());
        }
        evicted
    }

    /// Stores an entry in place of the live entry of the same key, which
    /// keeps its place in the eviction order, and returns the value replaced.
    fn overwrite(&mut self, slot: usize, key: i32, value: V, weight: u64) -> (prior: V)
        requires
            old(self).wf(),
            table_slots(old(self).table).contains_key(key),
            slot == table_slots(old(self).table)[key],
            weight == old(self).meter().weight_of(key, value),
            fits(old(self)@, old(self).capacity(), key, weight as nat),
        ensures
            final(self).wf(),
            final(self).capacity() == old(self).capacity(),
            final(self).meter() == old(self).meter(),
            final(self)@ == old(self)@.update(
                position(old(self)@, key),
                CacheEntry { key, value, weight },
            ),
            Some(prior) == value_at(old(self)@, key),
    {
        let ghost view = self@;
        let ghost at = position(view, key);
        let ghost entry = CacheEntry { key, value, weight };
        proof {
            self.lemma_view();
            lemma_total_update(view, at, entry);
        }
        // The new entry goes to the end of the slots, and from there into
        // the slot of the key, which hands the old entry out.
        self.slots.push(CacheEntry { key, value, weight });
        let replaced = self.slots.swap_remove(slot);
        self.used = self.used - replaced.weight + weight;
        proof {
            assert(self@ =~= view.update(at, entry));
            assert forall|i: int, j: int| 0 <= i < j < self@.len() implies (#[trigger] self@[i]).key
                != (#[trigger] self@[j]).key by {
                assert(view[i].key != view[j].key);
            }
        }
        replaced.value
    }

    /// Stores an entry under a key that is not live, as the newest arrival.
    fn append(&mut self, key: i32, value: V, weight: u64)
        requires
            old(self).wf(),
            !table_slots(old(self).table).contains_key(key),
            weight == old(self).meter().weight_of(key, value),
            fits(old(self)@, old(self).capacity(), key, weight as nat),
        ensures
            final(self).wf(),
            final(self).capacity() == old(self).capacity(),
            final(self).meter() == old(self).meter(),
            final(self)@ == old(self)@.push(CacheEntry { key, value, weight }),
    {
        let ghost view = self@;
        let ghost keys = queue_keys(self.queue);
        let ghost bound = table_slots(self.table);
        let ghost entry = CacheEntry { key, value, weight };
        proof {
            self.lemma_view();
            lemma_total_push(view, entry);
        }
        let slot = self.slots.len();
        let _ = table_insert(&mut self.table, key, slot);
        self.slots.push(CacheEntry { key, value, weight });
        match queue_push(&mut self.queue, key) {
            Ok(()) => {},
            Err(_) => unreached(),
        }
        self.used = self.used + weight;
        proof {
            let keys1 = queue_keys(self.queue);
            let bound1 = table_slots(self.table);
            assert(keys1 == keys.push(key));
            assert forall|k: i32| #[trigger] bound1.contains_key(k) <==> keys1.contains(k) by {
                if keys1.contains(k) {
                    let i = choose|i: int| 0 <= i < keys1.len() && keys1[i] == k;
                    if i < keys.len() {
                        assert(keys[i] == k);
                        assert(keys.contains(k));
                    }
                }
                if bound1.contains_key(k) {
                    if k == key {
                        assert(keys1[keys.len() as int] == k);
                    } else {
                        assert(keys.contains(k));
                        let i = choose|i: int| 0 <= i < keys.len() && keys[i] == k;
                        assert(keys1[i] == k);
                    }
                }
            }
            assert forall|i: int, j: int|
                0 <= i < keys1.len() && 0 <= j < keys1.len() && i != j implies keys1[i]
                != keys1[j] by {
                if i < keys.len() {
                    assert(keys.contains(keys[i]));
                }
                if j < keys.len() {
                    assert(keys.contains(keys[j]));
                }
            }
            assert forall|i: int| 0 <= i < keys.len() implies self@[i] == view[i] by {
                assert(keys.contains(keys[i]));
            }
            assert(self@ =~= view.push(entry));
            assert forall|i: int, j: int| 0 <= i < j < self@.len() implies (#[trigger] self@[i]).key
                != (#[trigger] self@[j]).key by {
                if j < view.len() {
                    assert(view[i].key != view[j].key);
                } else {
                    assert(view[i].key == keys[i]);
                    assert(keys.contains(keys[i]));
                }
            }
        }
    }

    /// Stores `value` under `key` and returns the value that the key held
    /// before the call, if it was live.
    ///
    /// The oldest entries are evicted until the new entry fits. A key that is
    /// still live then has its value replaced and keeps its place in the
    /// eviction order; a key that is not joins as the newest arrival. A pair
    /// that outweighs the whole capacity is not stored, and every entry has
    /// been evicted by the time that shows.
    pub fn put(&mut self, key: i32, value: V) -> (prior: Option<V>)
        requires
            old(self).wf(),
        ensures
            final(self).wf(),
            final(self).capacity() == old(self).capacity(),
            final(self).meter() == old(self).meter(),
            final(self)@ == put_result(
                old(self)@,
                old(self).capacity(),
                CacheEntry { key, value, weight: old(self).meter().weight_of(key, value) },
            ),
            prior == value_at(old(self)@, key),
    {
        let weight = self.meter.measure(&key, &value);
        let limit = self.max_capacity as u64;
        let ghost start = self@;
        let ghost mut gone: int = 0;
        let mut prior: Option<V> = None;
        proof {
            assert(start.skip(0) =~= start);
        }
        loop
            invariant
                self.wf(),
                self.capacity() == old(self).capacity(),
                self.meter() == old(self).meter(),
                start == old(self)@,
                limit == self.capacity(),
                weight == self.meter().weight_of(key, value),
                distinct_keys(start),
                0 <= gone <= start.len(),
                self@ == start.skip(gone),
                evictions(start, self.capacity(), key, weight as nat) == gone + evictions(
                    self@,
                    self.capacity(),
                    key,
                    weight as nat,
                ),
                prior == if holds_key(start, key) && !holds_key(self@, key) {
                    value_at(start, key)
                } else {
                    None
                },
            decreases self@.len(),
        {
            proof {
                self.lemma_view();
                if holds_key(self@, key) {
                    lemma_total_update(self@, position(self@, key), self@[position(self@, key)]);
                    lemma_skip_lookup(start, gone, key);
                }
            }
            match table_get(&self.table, &key) {
                Some(slot) => {
                    if weight <= limit && self.used - self.slots[*slot].weight <= limit - weight {
                        let replaced = self.overwrite(*slot, key, value, weight);
                        return Some(replaced);
                    }
                },
                None => {
                    if weight <= limit && self.used <= limit - weight && self.slots.len()
                        < self.max_capacity {
                        self.append(key, value, weight);
                        return prior;
                    }
                },
            }
            if self.slots.len() == 0 {
                return prior;
            }
            let evicted = self.evict();
            if evicted.key == key {
                prior = Some(evicted.value);
            }
            proof {
                let before = start.skip(gone);
                assert(before.drop_first() =~= start.skip(gone + 1));
                assert(before[0] == start[gone]);
                lemma_position(start, gone);
                if start[gone].key == key {
                    if holds_key(self@, key) {
                        lemma_skip_lookup(start, gone + 1, key);
                    }
                } else {
                    if holds_key(before, key) {
                        let i = position(before, key);
                        assert(before[i].key == key);
                        assert(self@[i - 1] == before[i]);
                    }
                    if holds_key(self@, key) {
                        let i = position(self@, key);
                        assert(before[i + 1] == self@[i]);
                    }
                }
                gone = gone + 1;
            }
        }
    }

    /// The number of live entries.
    pub fn len(&self) -> (n: usize)
        requires
            self.wf(),
        ensures
            n == self@.len(),
    {
        proof {
            self.lemma_view();
        }
        table_len(&self.table)
    }

    /// The value stored under `key`, if the key is live. A lookup changes
    /// nothing, the eviction order included.
    pub fn get(&self, key: &i32) -> (found: Option<&V>)
        requires
            self.wf(),
        ensures
            found == match value_at(self@, *key) {
                Some(value) => Some(&value),
                None => None,
            },
    {
        proof {
            self.lemma_view();
        }
        match table_get(&self.table, key) {
            Some(slot) => Some(&self.slots[*slot].value),
            None => None,
        }
    }
}

impl<V, M: Meter<V>> BasicCache<i32, V> for Fifo<V, M> {
    open spec fn basic_wf(&self) -> bool {
        self.wf()
    }

    open spec fn basic_entries(&self) -> Map<i32, V> {
        entry_map(self@)
    }

    /// A pair is admitted if its weight alone is within the capacity.
    open spec fn admits(&self, key: i32, value: V) -> bool {
        self.meter().weight_of(key, value) <= self.capacity()
    }

    /// A lookup under this policy is not a use: the cache stays as it was.
    fn get_basic(&mut self, key: &i32) -> (found: Option<&V>)
        ensures
            *final(self) == *old(self),
    {
        self.get(key)
    }

    /// Stores the pair as [`Fifo::put`] does.
    fn put_basic(&mut self, key: i32, value: V)
        ensures
            final(self).capacity() == old(self).capacity(),
            final(self).meter() == old(self).meter(),
            final(self)@ == put_result(
                old(self)@,
                old(self).capacity(),
                CacheEntry { key, value, weight: old(self).meter().weight_of(key, value) },
            ),
    {
        proof {
            lemma_put_stores(
                self@,
                self.capacity(),
                CacheEntry { key, value, weight: self.meter().weight_of(key, value) },
            );
        }
        let _ = self.put(key, value);
    }
}

} // verus!
