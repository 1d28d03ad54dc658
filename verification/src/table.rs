//! The lookup table of the arrival-order policy: a hash map of the
//! `hashbrown` crate, from each live key to the slot that holds its entry.
//!
//! Nothing in this file is proved. Each function states what the crate's
//! source shows of the one call it makes, and the policy is verified against
//! these statements.

use hashbrown::HashMap;
use vstd::prelude::*;

verus! {

/// A hash map from key to slot.
///
/// The map's type takes an allocator whose trait belongs to a crate that
/// `hashbrown` keeps to itself, so the map is held here, out of the
/// verifier's sight, and reached through the functions below only.
#[verifier::external_body]
pub struct SlotTable {
    map: HashMap<i32, usize>,
}

/// The most keys a table is asked to hold. A key and its slot take 17 bytes of
/// a bucket array that the map sizes at up to five times its entries, and no
/// allocation may exceed `isize::MAX` bytes.
pub const TABLE_MAX_LEN: usize = usize::MAX / 512;

/// The slot that a table binds to each of its keys.
pub uninterp spec fn table_slots(t: SlotTable) -> Map<i32, usize>;

/// `HashMap::with_capacity`: an empty table with room for `capacity` keys.
///
/// The call panics on a capacity whose buckets cannot be allocated, so such
/// a capacity is left out.
#[verifier::external_body]
pub(crate) fn table_new(capacity: usize) -> (t: SlotTable)
    requires
        capacity <= TABLE_MAX_LEN,
    ensures
        (table_slots(t) == Map::<i32, usize>::empty()),
{
    SlotTable { map: HashMap::with_capacity(capacity) }
}

/// `HashMap::len`: the number of keys.
#[verifier::external_body]
pub(crate) fn table_len(t: &SlotTable) -> (n: usize)
    requires
        table_slots(*t).dom().finite(),
    ensures
        n == table_slots(*t).len(),
{
    t.map.len()
}

/// `HashMap::get`: the slot bound to `key`, if the key is present.
#[verifier::external_body]
pub(crate) fn table_get<'a>(t: &'a SlotTable, key: &i32) -> (slot: Option<&'a usize>)
    ensures
        slot == if table_slots(*t).contains_key(*key) {
            Some(&table_slots(*t)[*key])
        } else {
            None
        },
{
    t.map.get(key)
}

/// `HashMap::insert`: binds `key` to `slot`, in place of any slot bound to it
/// before, which is returned.
///
/// The call may grow the table, and panics where the grown table cannot be
/// allocated, so a table that already holds its most keys is left out.
#[verifier::external_body]
pub(crate) fn table_insert(t: &mut SlotTable, key: i32, slot: usize) -> (before: Option<usize>)
    requires
        table_slots(*old(t)).dom().finite(),
        table_slots(*old(t)).len() < TABLE_MAX_LEN,
    ensures
        before == if table_slots(*old(t)).contains_key(key) {
            Some(table_slots(*old(t))[key])
        } else {
            None
        },
        table_slots(*final(t)) == table_slots(*old(t)).insert(key, slot),
{
    t.map.insert(key, slot)
}

/// `HashMap::remove`: unbinds `key` and returns the slot that was bound to
/// it; a table without the key stays as it was.
#[verifier::external_body]
pub(crate) fn table_remove(t: &mut SlotTable, key: &i32) -> (before: Option<usize>)
    ensures
        before == if table_slots(*old(t)).contains_key(*key) {
            Some(table_slots(*old(t))[*key])
        } else {
            None
        },
        table_slots(*final(t)) == table_slots(*old(t)).remove(*key),
{
    t.map.remove(key)
}

} // verus!
