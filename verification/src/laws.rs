//! What holds of every cache, stated over the contracts of the operations
//! and proved from them.

use crate::lru::{
    inserted, lemma_inserted, lemma_pair_position, lemma_touched, pair_position, pair_value,
    pairs_distinct, pairs_hold, touched,
};
use crate::model::{
    bounded, distinct_keys, evictions, fits, holds_key, lemma_evictions_least, lemma_position,
    lemma_put_bounded, lemma_put_stores, lemma_skip, lemma_total_drop_first, lemma_total_update,
    position, put_all, put_result, total_weight, value_at, weight_at, CacheEntry,
};
use crate::segmented::{recorded, Segments};
use crate::{lookup_post, store_post};
use vstd::prelude::*;

verus! {

/// However many entries are stored, one after another, the cache stays
/// within its capacity after each: it never holds more entries than the
/// capacity, nor more weight, and its keys stay distinct.
pub proof fn law_puts_stay_within_capacity<V>(
    s: Seq<CacheEntry<V>>,
    capacity: nat,
    entries: Seq<CacheEntry<V>>,
)
    requires
        bounded(s, capacity),
    ensures
        forall|n: int|
            0 <= n <= entries.len() ==> bounded(
                #[trigger] put_all(s, capacity, entries.take(n)),
                capacity,
            ),
        put_all(s, capacity, entries).len() <= capacity,
    decreases entries.len(),
{
    if entries.len() > 0 {
        let earlier = entries.drop_last();
        law_puts_stay_within_capacity(s, capacity, earlier);
        assert(earlier.take(earlier.len() as int) =~= earlier);
        lemma_put_bounded(put_all(s, capacity, earlier), capacity, entries.last());
        assert forall|n: int| 0 <= n <= entries.len() implies bounded(
            #[trigger] put_all(s, capacity, entries.take(n)),
            capacity,
        ) by {
            if n < entries.len() {
                assert(entries.take(n) =~= earlier.take(n));
            } else {
                assert(entries.take(n) =~= entries);
            }
        }
    }
    assert(entries.take(entries.len() as int) =~= entries);
}

/// A recency cache that holds no more pairs than it was built for still does
/// after a store.
pub proof fn law_insert_stays_within_limit(s: Seq<(i32, i32)>, limit: nat, key: i32, value: i32)
    requires
        pairs_distinct(s),
        s.len() <= limit,
    ensures
        pairs_distinct(inserted(s, limit, key, value)),
        inserted(s, limit, key, value).len() <= limit,
{
    lemma_inserted(s, limit, key, value);
}

/// Two lookups of one key in a row, with no store between them, find the same
/// value, and leave the entries as they were.
pub proof fn law_lookup_twice<K, V>(
    before: Map<K, V>,
    between: Map<K, V>,
    after: Map<K, V>,
    key: K,
    first: Option<&V>,
    second: Option<&V>,
)
    requires
        lookup_post(before, between, key, first),
        lookup_post(between, after, key, second),
    ensures
        first == second,
        after == before,
{
}

/// Under the recency policy a lookup is a use, and a second use of the same
/// key changes nothing more: it finds the value that the first found, and
/// leaves the eviction order as the first left it.
pub proof fn law_use_twice(s: Seq<(i32, i32)>, key: i32)
    requires
        pairs_distinct(s),
    ensures
        pair_value(touched(s, key), key) == pair_value(s, key),
        touched(touched(s, key), key) == touched(s, key),
        touched(s, key).len() == s.len(),
{
    lemma_touched(s, key);
    if pairs_hold(s, key) {
        let once = touched(s, key);
        let back = once.len() - 1;
        assert(once[back] == s[pair_position(s, key)]);
        lemma_pair_position(once, back);
        lemma_pair_position(s, pair_position(s, key));
        assert(once.remove(back).push(once[back]) =~= once);
    }
}

/// A lookup that follows a store of the same key finds the value stored,
/// under every policy, if the cache admits the pair.
pub proof fn law_store_then_lookup<K, V>(
    before: Map<K, V>,
    stored: Map<K, V>,
    after: Map<K, V>,
    key: K,
    value: V,
    found: Option<&V>,
)
    requires
        store_post(before, stored, true, key, value),
        lookup_post(stored, after, key, found),
    ensures
        found == Some(&value),
{
}

/// Under the arrival-order policy, an entry is live once stored, with the
/// value stored, if its weight alone is within the capacity, and its key is
/// not live if it is not.
pub proof fn law_put_then_get<V>(s: Seq<CacheEntry<V>>, capacity: nat, entry: CacheEntry<V>)
    requires
        bounded(s, capacity),
        0 < capacity,
    ensures
        value_at(put_result(s, capacity, entry), entry.key) == if entry.weight <= capacity {
            Some(entry.value)
        } else {
            None
        },
{
    lemma_put_stores(s, capacity, entry);
}

/// Storing under a live key a value that weighs no more than the one it
/// replaces evicts nothing and moves nothing: the entry keeps its place in
/// the eviction order.
pub proof fn law_overwrite_keeps_place<V>(
    s: Seq<CacheEntry<V>>,
    capacity: nat,
    entry: CacheEntry<V>,
)
    requires
        bounded(s, capacity),
        holds_key(s, entry.key),
        entry.weight <= weight_at(s, entry.key),
    ensures
        put_result(s, capacity, entry) == s.update(position(s, entry.key), entry),
{
    lemma_total_update(s, position(s, entry.key), entry);
    assert(s.skip(0) =~= s);
}

/// The newest entry of `s` under a key other than `key`, if there is one,
/// weighs something.
pub open spec fn newest_other_weighs<V>(s: Seq<CacheEntry<V>>, key: i32) -> bool {
    forall|i: int|
        0 <= i < s.len() && (#[trigger] s[i]).key != key && later_are(s, key, i) ==> s[i].weight
            > 0
}

/// Every entry of `s` behind place `i` is under `key`.
pub open spec fn later_are<V>(s: Seq<CacheEntry<V>>, key: i32, i: int) -> bool {
    forall|j: int| i < j < s.len() ==> (#[trigger] s[j]).key == key
}

/// Storing an entry whose weight is the whole capacity evicts every other
/// entry, but for entries that weigh nothing: the cache then holds that entry
/// alone exactly if the newest entry under another key weighs something, or
/// the capacity is one.
pub proof fn law_full_weight_evicts_all<V>(
    s: Seq<CacheEntry<V>>,
    capacity: nat,
    entry: CacheEntry<V>,
)
    requires
        bounded(s, capacity),
        0 < capacity,
        entry.weight == capacity,
    ensures
        put_result(s, capacity, entry) == seq![entry] <==> capacity == 1 || newest_other_weighs(
            s,
            entry.key,
        ),
{
    if capacity == 1 || newest_other_weighs(s, entry.key) {
        lemma_full_weight_alone(s, capacity, entry);
    } else {
        lemma_full_weight_shared(s, capacity, entry);
    }
}

/// Where an entry of the whole capacity fits, every entry under another key
/// weighs nothing, and a new key has found a free place.
proof fn lemma_full_weight_fits<V>(kept: Seq<CacheEntry<V>>, capacity: nat, key: i32, i: int)
    requires
        distinct_keys(kept),
        fits(kept, capacity, key, capacity),
        0 <= i < kept.len(),
        kept[i].key != key,
    ensures
        kept[i].weight == 0,
        !holds_key(kept, key) ==> kept.len() < capacity,
        holds_key(kept, key) ==> kept.len() >= 2,
{
    if holds_key(kept, key) {
        let at = position(kept, key);
        lemma_position(kept, at);
        lemma_two_weights(kept, i, at);
    } else {
        lemma_total_update(kept, i, kept[i]);
    }
}

/// The entry is left alone in the cache if the newest entry under another
/// key weighs something, or the capacity is one.
proof fn lemma_full_weight_alone<V>(s: Seq<CacheEntry<V>>, capacity: nat, entry: CacheEntry<V>)
    requires
        bounded(s, capacity),
        0 < capacity,
        entry.weight == capacity,
        capacity == 1 || newest_other_weighs(s, entry.key),
    ensures
        put_result(s, capacity, entry) == seq![entry],
{
    let key = entry.key;
    let n = evictions(s, capacity, key, capacity) as int;
    lemma_evictions_least(s, capacity, key, capacity);
    lemma_skip(s, n);
    let kept = s.skip(n);
    assert(fits(kept, capacity, key, capacity));
    assert forall|i: int| 0 <= i < kept.len() implies (#[trigger] kept[i]).key == key by {
        if kept[i].key != key {
            assert(kept[i] == s[n + i]);
            let t = lemma_newest_other(s, key, n + i);
            assert(kept[t - n] == s[t]);
            lemma_full_weight_fits(kept, capacity, key, t - n);
        }
    }
    if kept.len() > 1 {
        assert(kept[0].key != kept[1].key);
    }
    if kept.len() == 1 {
        assert(kept[0].key == key);
        lemma_position(kept, 0);
        assert(kept.update(0, entry) =~= seq![entry]);
    } else {
        assert(!holds_key(kept, key));
        assert(kept.push(entry) =~= seq![entry]);
    }
}

/// The entry shares the cache with another if the newest entry under another
/// key weighs nothing and the capacity is more than one.
proof fn lemma_full_weight_shared<V>(s: Seq<CacheEntry<V>>, capacity: nat, entry: CacheEntry<V>)
    requires
        bounded(s, capacity),
        1 < capacity,
        entry.weight == capacity,
        !newest_other_weighs(s, entry.key),
    ensures
        put_result(s, capacity, entry) != seq![entry],
{
    let key = entry.key;
    let t = choose|t: int|
        0 <= t < s.len() && (#[trigger] s[t]).key != key && later_are(s, key, t) && s[t].weight
            == 0;
    let tail = s.skip(t);
    lemma_skip(s, t);
    assert(tail[0] == s[t]);
    assert(fits(tail, capacity, key, capacity)) by {
        lemma_total_drop_first(tail);
        if t + 2 < s.len() {
            assert(s[t + 1].key == key);
            assert(s[t + 2].key == key);
            assert(s[t + 1].key != s[t + 2].key);
        }
        if t + 1 < s.len() {
            assert(tail[1] == s[t + 1]);
            assert(s[t + 1].key == key);
            lemma_position(tail, 1);
            lemma_total_drop_first(tail.drop_first());
            assert(tail.drop_first().drop_first().len() == 0);
        } else {
            assert(tail.drop_first().len() == 0);
            if holds_key(tail, key) {
                assert(tail[position(tail, key)].key == key);
            }
        }
    }
    let n = evictions(s, capacity, key, capacity) as int;
    lemma_evictions_least(s, capacity, key, capacity);
    assert(n <= t);
    let kept = s.skip(n);
    let next = put_result(s, capacity, entry);
    assert(kept[t - n] == s[t]);
    assert(fits(kept, capacity, key, capacity));
    if holds_key(kept, key) {
        assert(kept[position(kept, key)].key == key);
    }
    assert(next[t - n] == s[t]);
    assert(seq![entry].len() == 1);
    assert(seq![entry][0] == entry);
}

/// Behind any entry under another key stands a newest entry under another key.
proof fn lemma_newest_other<V>(s: Seq<CacheEntry<V>>, key: i32, i: int) -> (t: int)
    requires
        0 <= i < s.len(),
        s[i].key != key,
    ensures
        i <= t < s.len(),
        s[t].key != key,
        later_are(s, key, t),
    decreases s.len() - i,
{
    if later_are(s, key, i) {
        i
    } else {
        let j = choose|j: int| i < j < s.len() && (#[trigger] s[j]).key != key;
        lemma_newest_other(s, key, j)
    }
}

/// Two entries at different places weigh no more together than all of them.
proof fn lemma_two_weights<V>(s: Seq<CacheEntry<V>>, i: int, j: int)
    requires
        0 <= i < s.len(),
        0 <= j < s.len(),
        i != j,
    ensures
        s[i].weight + s[j].weight <= total_weight(s),
    decreases s.len(),
{
    let last = s.len() - 1;
    if i == last {
        lemma_total_update(s.drop_last(), j, s[j]);
    } else if j == last {
        lemma_total_update(s.drop_last(), i, s[i]);
    } else {
        lemma_two_weights(s.drop_last(), i, j);
    }
}

/// However many entries a segmented cache is given to store, one after
/// another, it keeps its invariant after each: the two segments together
/// never hold more entries than their sizes allow, and no more ghosts are
/// remembered than the list has room for.
pub proof fn law_segments_stay_within_capacity<V>(s: Segments<V>, entries: Seq<CacheEntry<V>>)
    requires
        s.wf(),
        forall|i: int| 0 <= i < entries.len() ==> (#[trigger] entries[i]).weight == 1,
    ensures
        forall|n: int|
            0 <= n <= entries.len() ==> (#[trigger] s.stored_all(entries.take(n))).wf(),
        s.stored_all(entries).wf(),
        s.stored_all(entries).len() <= s.probation_size + s.main_size,
        s.stored_all(entries).ghosts.len() <= s.ghost_size,
{
    lemma_stored_all(s, entries);
    assert forall|n: int| 0 <= n <= entries.len() implies (#[trigger] s.stored_all(
        entries.take(n),
    )).wf() by {
        lemma_stored_all(s, entries.take(n));
    }
}

/// Storing entries in turn keeps the invariant and the segment sizes.
proof fn lemma_stored_all<V>(s: Segments<V>, entries: Seq<CacheEntry<V>>)
    requires
        s.wf(),
        forall|i: int| 0 <= i < entries.len() ==> (#[trigger] entries[i]).weight == 1,
    ensures
        s.stored_all(entries).wf(),
        s.stored_all(entries).probation_size == s.probation_size,
        s.stored_all(entries).main_size == s.main_size,
        s.stored_all(entries).ghost_size == s.ghost_size,
    decreases entries.len(),
{
    if entries.len() > 0 {
        let earlier = entries.drop_last();
        assert forall|i: int| 0 <= i < earlier.len() implies (#[trigger] earlier[i]).weight
            == 1 by {
            assert(earlier[i] == entries[i]);
        }
        lemma_stored_all(s, earlier);
        s.stored_all(earlier).lemma_stored(entries.last());
    }
}

/// A key that is neither live nor a ghost enters probation, as its newest
/// entry and unmarked, and not the main segment.
pub proof fn law_new_key_enters_probation<V>(s: Segments<V>, entry: CacheEntry<V>)
    requires
        s.wf(),
        entry.weight == 1,
        !s.holds(entry.key),
        !s.ghosts.contains(entry.key),
    ensures
        s.stored(entry).probation.last() == entry,
        s.stored(entry).used.last() == false,
        !holds_key(s.stored(entry).main, entry.key),
{
    s.lemma_stored(entry);
    let after = s.stored(entry);
    let at = after.probation.len() - 1;
    assert(after.probation[at] == entry);
    if holds_key(after.main, entry.key) {
        let j = position(after.main, entry.key);
        assert(after.probation[at].key != after.main[j].key);
    }
}

/// A key that comes back while it is a ghost skips probation: it is admitted
/// to the main segment as the most recently used, and is a ghost no more.
pub proof fn law_ghost_skips_probation<V>(s: Segments<V>, entry: CacheEntry<V>)
    requires
        s.wf(),
        entry.weight == 1,
        s.ghosts.contains(entry.key),
    ensures
        s.stored(entry).main.last() == entry,
        s.stored(entry).probation == s.probation,
        !holds_key(s.stored(entry).probation, entry.key),
        !s.stored(entry).ghosts.contains(entry.key),
{
    s.lemma_stored(entry);
    let after = s.stored(entry);
    let g = s.ghosts.index_of(entry.key);
    assert(!s.holds(s.ghosts[g]));
    if after.ghosts.contains(entry.key) {
        let i = choose|i: int| 0 <= i < after.ghosts.len() && after.ghosts[i] == entry.key;
        assert(!after.holds(after.ghosts[i]));
    }
}

/// When a new key finds probation full, the oldest entry on probation leaves
/// it. An entry that was looked up while it waited is promoted: it becomes
/// the most recently used of the main segment. One that was not leaves the
/// cache, and its key becomes the newest ghost, in place of the oldest ghost
/// if the list was full.
pub proof fn law_probation_decides<V>(s: Segments<V>, entry: CacheEntry<V>)
    requires
        s.wf(),
        entry.weight == 1,
        !s.holds(entry.key),
        !s.ghosts.contains(entry.key),
        s.probation.len() == s.probation_size,
    ensures
        !holds_key(s.stored(entry).probation, s.probation[0].key),
        s.used[0] ==> s.stored(entry).main.last() == s.probation[0] && s.stored(entry).ghosts
            == s.ghosts,
        !s.used[0] ==> !s.stored(entry).holds(s.probation[0].key) && s.stored(entry).main
            == s.main && s.stored(entry).ghosts == recorded(
            s.ghosts,
            s.ghost_size,
            s.probation[0].key,
        ),
{
    s.lemma_stored(entry);
    let after = s.stored(entry);
    let oldest = s.probation[0];
    lemma_position(s.probation, 0);
    if holds_key(after.probation, oldest.key) {
        let i = position(after.probation, oldest.key);
        if i < after.probation.len() - 1 {
            assert(after.probation[i] == s.probation[i + 1]);
            assert(s.probation[0].key != s.probation[i + 1].key);
        } else {
            assert(after.probation[i] == entry);
        }
    }
    if !s.used[0] {
        if holds_key(after.main, oldest.key) {
            let j = position(s.main, oldest.key);
            assert(s.probation[0].key != s.main[j].key);
        }
    }
}

/// A lookup of an entry on probation marks it and moves nothing; a lookup of
/// an entry of the main segment makes it the most recently used there.
pub proof fn law_lookup_is_a_use<V>(s: Segments<V>, key: i32)
    requires
        s.wf(),
        s.holds(key),
    ensures
        s.touched(key).lookup(key) == s.lookup(key),
        holds_key(s.probation, key) ==> s.touched(key).used[position(s.probation, key)]
            && s.touched(key).probation == s.probation && s.touched(key).main == s.main,
        !holds_key(s.probation, key) ==> s.touched(key).main.last() == s.main[position(
            s.main,
            key,
        )] && s.touched(key).probation == s.probation && s.touched(key).used == s.used,
{
    s.lemma_touched(key);
}

} // verus!
