//! A capacity-bounded key-value cache with interchangeable eviction policies.
//!
//! A cache holds entries up to a capacity, and evicts when a new entry would
//! not fit. Which entry leaves is the policy. [`fifo::Fifo`] evicts in
//! arrival order, and counts its capacity in the units of a [`meter::Meter`].
//! The recency cache of the `hashlink` crate evicts the entry that has gone
//! longest without use. [`segmented::Segmented`] makes a new key wait on
//! probation, and gives it a lasting place only once it has been used. All of
//! them can be driven through [`BasicCache`], and [`laws`] states what holds
//! of them.
//!
//! A cache is not synchronised. Every operation takes the cache exclusively
//! or reads it without changing it.

pub mod fifo;
pub mod laws;
pub mod lru;
pub mod meter;
pub mod model;
pub mod queue;
pub mod segmented;
pub mod table;

pub use meter::{BytesMeter, Count, FileSize, Meter};
use vstd::prelude::*;

verus! {

/// What a lookup leaves behind and returns: the entries are the same as
/// before, and the value found is the one stored under the key, if any.
pub open spec fn lookup_post<K, V>(
    before: Map<K, V>,
    after: Map<K, V>,
    key: K,
    found: Option<&V>,
) -> bool {
    &&& after == before
    &&& found == if before.contains_key(key) {
        Some(&before[key])
    } else {
        None
    }
}

/// What a store leaves behind: the pair is live if the cache admits it and
/// the key is not live if it does not, and every other entry is as it was or
/// gone.
pub open spec fn store_post<K, V>(
    before: Map<K, V>,
    after: Map<K, V>,
    admitted: bool,
    key: K,
    value: V,
) -> bool {
    &&& after.contains_key(key) <==> admitted
    &&& admitted ==> after[key] == value
    &&& forall|k: K|
        k != key && #[trigger] after.contains_key(k) ==> before.contains_key(k) && after[k]
            == before[k]
}

/// The operations that every eviction policy offers, so that policies can be
/// swapped behind one interface.
///
/// A policy states its live entries as a map and says which pairs it can
/// hold at all. What it evicts, and when, is its own.
pub trait BasicCache<K, V> {
    /// The cache is in a state that its own operations can leave it in.
    spec fn basic_wf(&self) -> bool;

    /// The live entries.
    spec fn basic_entries(&self) -> Map<K, V>;

    /// The pair alone does not exceed the capacity.
    spec fn admits(&self, key: K, value: V) -> bool;

    /// Looks `key` up. A policy may count this as a use of the entry.
    fn get_basic(&mut self, key: &K) -> (found: Option<&V>)
        requires
            old(self).basic_wf(),
        ensures
            final(self).basic_wf(),
            forall|k: K, v: V| #[trigger] final(self).admits(k, v) == old(self).admits(k, v),
            lookup_post(old(self).basic_entries(), final(self).basic_entries(), *key, found),
    ;

    /// Stores `value` under `key`, evicting as the policy sees fit.
    fn put_basic(&mut self, key: K, value: V)
        requires
            old(self).basic_wf(),
        ensures
            final(self).basic_wf(),
            forall|k: K, v: V| #[trigger] final(self).admits(k, v) == old(self).admits(k, v),
            store_post(
                old(self).basic_entries(),
                final(self).basic_entries(),
                old(self).admits(key, value),
                key,
                value,
            ),
    ;
}

} // verus!
