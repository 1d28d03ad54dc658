//! The abstract state of a cache: its live entries as a sequence, the entry
//! that leaves next at the front.
//!
//! Nothing here is executable. The policies state their contracts over these
//! functions, and the lemmas are what their proofs and the laws rest on.

use vstd::prelude::*;

verus! {

/// One live entry: a key, the value stored under it, and the weight that the
/// meter gave to the pair when it was stored.
pub struct CacheEntry<V> {
    pub key: i32,
    pub value: V,
    pub weight: u64,
}

/// Some entry of `s` has this key.
pub open spec fn holds_key<V>(s: Seq<CacheEntry<V>>, key: i32) -> bool {
    exists|i: int| 0 <= i < s.len() && (#[trigger] s[i]).key == key
}

/// Where the entry with this key stands in `s`. Meaningful when
/// `holds_key(s, key)`; with distinct keys there is one such place.
pub open spec fn position<V>(s: Seq<CacheEntry<V>>, key: i32) -> int {
    choose|i: int| 0 <= i < s.len() && (#[trigger] s[i]).key == key
}

/// The value stored under `key`, if any.
pub open spec fn value_at<V>(s: Seq<CacheEntry<V>>, key: i32) -> Option<V> {
    if holds_key(s, key) {
        Some(s[position(s, key)].value)
    } else {
        None
    }
}

/// The weight stored under `key`, zero if the key is absent.
pub open spec fn weight_at<V>(s: Seq<CacheEntry<V>>, key: i32) -> nat {
    if holds_key(s, key) {
        s[position(s, key)].weight as nat
    } else {
        0
    }
}

/// No two entries share a key.
pub open spec fn distinct_keys<V>(s: Seq<CacheEntry<V>>) -> bool {
    forall|i: int, j: int|
        0 <= i < j < s.len() ==> (#[trigger] s[i]).key != (#[trigger] s[j]).key
}

/// The sum of the weights of all entries.
pub open spec fn total_weight<V>(s: Seq<CacheEntry<V>>) -> nat
    decreases s.len(),
{
    if s.len() == 0 {
        0
    } else {
        total_weight(s.drop_last()) + s.last().weight as nat
    }
}

/// The entries as a map from key to value.
pub open spec fn entry_map<V>(s: Seq<CacheEntry<V>>) -> Map<i32, V> {
    Map::new(|key: i32| holds_key(s, key), |key: i32| s[position(s, key)].value)
}

/// What every cache keeps true of its entries: keys are distinct, and neither
/// the number of entries nor their total weight exceeds the capacity.
pub open spec fn bounded<V>(s: Seq<CacheEntry<V>>, capacity: nat) -> bool {
    &&& distinct_keys(s)
    &&& s.len() <= capacity
    &&& total_weight(s) <= capacity
}

/// Whether an entry of this key and weight can be stored in `s` with nothing
/// evicted. An entry that replaces one of the same key gives the old weight
/// back first; a new key also needs a free place.
pub open spec fn fits<V>(s: Seq<CacheEntry<V>>, capacity: nat, key: i32, weight: nat) -> bool {
    if holds_key(s, key) {
        total_weight(s) - weight_at(s, key) + weight <= capacity
    } else {
        total_weight(s) + weight <= capacity && s.len() < capacity
    }
}

/// How many entries leave, oldest first, before an entry of this key and
/// weight is stored: as few as make it fit, and all of them if it never does.
pub open spec fn evictions<V>(s: Seq<CacheEntry<V>>, capacity: nat, key: i32, weight: nat) -> nat
    decreases s.len(),
{
    if s.len() == 0 || fits(s, capacity, key, weight) {
        0
    } else {
        1 + evictions(s.drop_first(), capacity, key, weight)
    }
}

/// The entries after storing `entry` under the arrival-order policy.
///
/// The oldest entries leave until `entry` fits. If its key is still present
/// the entry takes that place, so an overwrite does not count as a fresh
/// arrival; otherwise it joins at the back. An entry heavier than the whole
/// capacity is not stored, and the cache is left empty.
pub open spec fn put_result<V>(
    s: Seq<CacheEntry<V>>,
    capacity: nat,
    entry: CacheEntry<V>,
) -> Seq<CacheEntry<V>> {
    let kept = s.skip(evictions(s, capacity, entry.key, entry.weight as nat) as int);
    if !fits(kept, capacity, entry.key, entry.weight as nat) {
        kept
    } else if holds_key(kept, entry.key) {
        kept.update(position(kept, entry.key), entry)
    } else {
        kept.push(entry)
    }
}

/// The entries after storing each entry of `entries` in turn.
pub open spec fn put_all<V>(
    s: Seq<CacheEntry<V>>,
    capacity: nat,
    entries: Seq<CacheEntry<V>>,
) -> Seq<CacheEntry<V>>
    decreases entries.len(),
{
    if entries.len() == 0 {
        s
    } else {
        put_result(put_all(s, capacity, entries.drop_last()), capacity, entries.last())
    }
}

/// With distinct keys, the entry with a given key stands where it is found.
pub proof fn lemma_position<V>(s: Seq<CacheEntry<V>>, i: int)
    requires
        distinct_keys(s),
        0 <= i < s.len(),
    ensures
        holds_key(s, s[i].key),
        position(s, s[i].key) == i,
        value_at(s, s[i].key) == Some(s[i].value),
        weight_at(s, s[i].key) == s[i].weight,
{
    let key = s[i].key;
    let j = position(s, key);
    assert(0 <= j < s.len() && s[j].key == key);
    if j < i {
        assert(s[j].key != s[i].key);
    } else if i < j {
        assert(s[i].key != s[j].key);
    }
}

/// The total weight after an entry joins at the back.
pub proof fn lemma_total_push<V>(s: Seq<CacheEntry<V>>, entry: CacheEntry<V>)
    ensures
        total_weight(s.push(entry)) == total_weight(s) + entry.weight,
{
    assert(s.push(entry).drop_last() =~= s);
}

/// The total weight is that of the first entry and of the rest.
pub proof fn lemma_total_drop_first<V>(s: Seq<CacheEntry<V>>)
    requires
        s.len() > 0,
    ensures
        total_weight(s) == s.first().weight + total_weight(s.drop_first()),
    decreases s.len(),
{
    if s.len() == 1 {
        assert(s.drop_last() =~= s.drop_first());
        assert(total_weight(s.drop_first()) == 0);
    } else {
        lemma_total_drop_first(s.drop_last());
        assert(s.drop_last().drop_first() =~= s.drop_first().drop_last());
        assert(s.drop_first().last() == s.last());
        assert(s.drop_last().first() == s.first());
    }
}

/// The total weight after one entry is replaced; no entry weighs more than
/// all of them.
pub proof fn lemma_total_update<V>(s: Seq<CacheEntry<V>>, i: int, entry: CacheEntry<V>)
    requires
        0 <= i < s.len(),
    ensures
        total_weight(s.update(i, entry)) == total_weight(s) - s[i].weight + entry.weight,
        s[i].weight <= total_weight(s),
    decreases s.len(),
{
    if i == s.len() - 1 {
        assert(s.update(i, entry).drop_last() =~= s.drop_last());
    } else {
        lemma_total_update(s.drop_last(), i, entry);
        assert(s.update(i, entry).drop_last() =~= s.drop_last().update(i, entry));
    }
}

/// Dropping entries from the front keeps the keys distinct and gives their
/// weight back.
pub proof fn lemma_skip<V>(s: Seq<CacheEntry<V>>, n: int)
    requires
        0 <= n <= s.len(),
    ensures
        distinct_keys(s) ==> distinct_keys(s.skip(n)),
        total_weight(s.skip(n)) <= total_weight(s),
    decreases n,
{
    if n == 0 {
        assert(s.skip(0) =~= s);
    } else {
        lemma_skip(s, n - 1);
        let t = s.skip(n - 1);
        lemma_total_drop_first(t);
        assert(t.drop_first() =~= s.skip(n));
        if distinct_keys(s) {
            assert forall|i: int, j: int| 0 <= i < j < s.skip(n).len() implies (#[trigger] s.skip(
                n,
            )[i]).key != (#[trigger] s.skip(n)[j]).key by {
                assert(s.skip(n)[i] == s[i + n]);
                assert(s.skip(n)[j] == s[j + n]);
            }
        }
    }
}

/// What is found in the entries that are left after some have gone from the
/// front is what was found there before.
pub proof fn lemma_skip_lookup<V>(s: Seq<CacheEntry<V>>, n: int, key: i32)
    requires
        distinct_keys(s),
        0 <= n <= s.len(),
        holds_key(s.skip(n), key),
    ensures
        holds_key(s, key),
        position(s, key) == position(s.skip(n), key) + n,
        value_at(s, key) == value_at(s.skip(n), key),
        weight_at(s, key) == weight_at(s.skip(n), key),
{
    let i = position(s.skip(n), key);
    assert(s.skip(n)[i] == s[i + n]);
    lemma_position(s, i + n);
}

/// The evictions are the fewest that make the entry fit: no shorter run of
/// departures does, and the run stops short of emptying the cache only where
/// the entry fits.
pub proof fn lemma_evictions_least<V>(s: Seq<CacheEntry<V>>, capacity: nat, key: i32, weight: nat)
    ensures
        evictions(s, capacity, key, weight) <= s.len(),
        evictions(s, capacity, key, weight) < s.len() ==> fits(
            s.skip(evictions(s, capacity, key, weight) as int),
            capacity,
            key,
            weight,
        ),
        forall|n: int|
            0 <= n < evictions(s, capacity, key, weight) ==> !fits(
                #[trigger] s.skip(n),
                capacity,
                key,
                weight,
            ),
    decreases s.len(),
{
    if s.len() == 0 || fits(s, capacity, key, weight) {
        assert(s.skip(0) =~= s);
    } else {
        let t = s.drop_first();
        lemma_evictions_least(t, capacity, key, weight);
        let m = evictions(t, capacity, key, weight);
        assert(t.skip(m as int) =~= s.skip(m as int + 1));
        assert forall|n: int| 0 <= n < m + 1 implies !fits(
            #[trigger] s.skip(n),
            capacity,
            key,
            weight,
        ) by {
            if n == 0 {
                assert(s.skip(0) =~= s);
            } else {
                assert(t.skip(n - 1) =~= s.skip(n));
            }
        }
    }
}

/// Storing an entry keeps the cache within its bounds.
pub proof fn lemma_put_bounded<V>(s: Seq<CacheEntry<V>>, capacity: nat, entry: CacheEntry<V>)
    requires
        bounded(s, capacity),
    ensures
        bounded(put_result(s, capacity, entry), capacity),
{
    let weight = entry.weight as nat;
    let n = evictions(s, capacity, entry.key, weight);
    lemma_evictions_least(s, capacity, entry.key, weight);
    lemma_skip(s, n as int);
    let kept = s.skip(n as int);
    if !fits(kept, capacity, entry.key, weight) {
    } else if holds_key(kept, entry.key) {
        let i = position(kept, entry.key);
        lemma_total_update(kept, i, entry);
        let next = kept.update(i, entry);
        assert forall|a: int, b: int| 0 <= a < b < next.len() implies (#[trigger] next[a]).key != (
        #[trigger] next[b]).key by {
            assert(kept[a].key != kept[b].key);
        }
    } else {
        lemma_total_push(kept, entry);
        let next = kept.push(entry);
        assert forall|a: int, b: int| 0 <= a < b < next.len() implies (#[trigger] next[a]).key != (
        #[trigger] next[b]).key by {
            if b < kept.len() {
                assert(kept[a].key != kept[b].key);
            } else {
                assert(kept[a].key != entry.key);
            }
        }
    }
}

/// What a store does to the entries, key by key: the new entry is live if
/// its weight alone is within the capacity and its key is not live if it is
/// not, and every other key holds what it held or nothing.
pub proof fn lemma_put_stores<V>(s: Seq<CacheEntry<V>>, capacity: nat, entry: CacheEntry<V>)
    requires
        distinct_keys(s),
        0 < capacity,
    ensures
        value_at(put_result(s, capacity, entry), entry.key) == if entry.weight <= capacity {
            Some(entry.value)
        } else {
            None
        },
        forall|key: i32|
            key != entry.key && #[trigger] holds_key(put_result(s, capacity, entry), key)
                ==> holds_key(s, key) && value_at(put_result(s, capacity, entry), key) == value_at(
                s,
                key,
            ),
{
    let weight = entry.weight as nat;
    let n = evictions(s, capacity, entry.key, weight) as int;
    lemma_evictions_least(s, capacity, entry.key, weight);
    lemma_skip(s, n);
    let kept = s.skip(n);
    let next = put_result(s, capacity, entry);
    if !fits(kept, capacity, entry.key, weight) {
        assert(kept.len() == 0);
    } else if holds_key(kept, entry.key) {
        let at = position(kept, entry.key);
        lemma_total_update(kept, at, entry);
        assert(next[at].key == entry.key);
        assert forall|i: int, j: int| 0 <= i < j < next.len() implies (#[trigger] next[i]).key != (
        #[trigger] next[j]).key by {
            assert(kept[i].key != kept[j].key);
        }
        lemma_position(next, at);
        assert forall|key: i32| key != entry.key && #[trigger] holds_key(next, key) implies holds_key(
            s,
            key,
        ) && value_at(next, key) == value_at(s, key) by {
            let i = position(next, key);
            assert(next[i] == kept[i]);
            lemma_position(next, i);
            lemma_position(kept, i);
            lemma_skip_lookup(s, n, key);
        }
    } else {
        let at = kept.len() as int;
        assert(next[at].key == entry.key);
        assert forall|i: int, j: int| 0 <= i < j < next.len() implies (#[trigger] next[i]).key != (
        #[trigger] next[j]).key by {
            if j < kept.len() {
                assert(kept[i].key != kept[j].key);
            } else {
                assert(kept[i].key != entry.key);
            }
        }
        lemma_position(next, at);
        assert forall|key: i32| key != entry.key && #[trigger] holds_key(next, key) implies holds_key(
            s,
            key,
        ) && value_at(next, key) == value_at(s, key) by {
            let i = position(next, key);
            assert(next[i] == kept[i]);
            lemma_position(next, i);
            lemma_position(kept, i);
            lemma_skip_lookup(s, n, key);
        }
    }
}

/// Taking one entry out keeps the keys distinct; its key is no longer held,
/// and every other key holds what it held.
pub proof fn lemma_entry_removed<V>(s: Seq<CacheEntry<V>>, at: int)
    requires
        distinct_keys(s),
        0 <= at < s.len(),
    ensures
        distinct_keys(s.remove(at)),
        !holds_key(s.remove(at), s[at].key),
        forall|key: i32|
            key != s[at].key ==> (#[trigger] holds_key(s.remove(at), key) <==> holds_key(s, key)),
        forall|key: i32|
            key != s[at].key ==> #[trigger] value_at(s.remove(at), key) == value_at(s, key),
{
    let t = s.remove(at);
    assert forall|i: int| 0 <= i < t.len() implies #[trigger] t[i] == s[if i < at {
        i
    } else {
        i + 1
    }] by {}
    assert forall|i: int, j: int| 0 <= i < j < t.len() implies (#[trigger] t[i]).key != (
    #[trigger] t[j]).key by {
        let a = if i < at { i } else { i + 1 };
        let b = if j < at { j } else { j + 1 };
        assert(s[a].key != s[b].key);
    }
    if holds_key(t, s[at].key) {
        let i = position(t, s[at].key);
        let a = if i < at { i } else { i + 1 };
        assert(t[i] == s[a]);
        if a < at {
            assert(s[a].key != s[at].key);
        } else {
            assert(s[at].key != s[a].key);
        }
    }
    assert forall|key: i32| key != s[at].key implies (#[trigger] holds_key(t, key) <==> holds_key(
        s,
        key,
    )) && value_at(t, key) == value_at(s, key) by {
        if holds_key(t, key) {
            let i = position(t, key);
            let a = if i < at { i } else { i + 1 };
            assert(t[i] == s[a]);
            lemma_position(t, i);
            lemma_position(s, a);
        }
        if holds_key(s, key) {
            let a = position(s, key);
            let i = if a < at { a } else { a - 1 };
            assert(t[i] == s[a]);
            lemma_position(t, i);
            lemma_position(s, a);
        }
    }
}

/// Putting an entry of a new key at the back keeps the keys distinct; the new
/// key holds the new value, and every other key holds what it held.
pub proof fn lemma_entry_pushed<V>(s: Seq<CacheEntry<V>>, entry: CacheEntry<V>)
    requires
        distinct_keys(s),
        !holds_key(s, entry.key),
    ensures
        distinct_keys(s.push(entry)),
        holds_key(s.push(entry), entry.key),
        position(s.push(entry), entry.key) == s.len(),
        value_at(s.push(entry), entry.key) == Some(entry.value),
        forall|key: i32|
            key != entry.key ==> (#[trigger] holds_key(s.push(entry), key) <==> holds_key(s, key)),
        forall|key: i32|
            key != entry.key ==> #[trigger] value_at(s.push(entry), key) == value_at(s, key),
{
    let t = s.push(entry);
    assert forall|i: int, j: int| 0 <= i < j < t.len() implies (#[trigger] t[i]).key != (
    #[trigger] t[j]).key by {
        if j < s.len() {
            assert(s[i].key != s[j].key);
        } else {
            assert(s[i].key != entry.key);
        }
    }
    assert(t[s.len() as int] == entry);
    lemma_position(t, s.len() as int);
    assert forall|key: i32| key != entry.key implies (#[trigger] holds_key(t, key) <==> holds_key(
        s,
        key,
    )) && value_at(t, key) == value_at(s, key) by {
        if holds_key(t, key) {
            let i = position(t, key);
            assert(t[i] == s[i]);
            lemma_position(t, i);
            lemma_position(s, i);
        }
        if holds_key(s, key) {
            let i = position(s, key);
            assert(t[i] == s[i]);
            lemma_position(t, i);
            lemma_position(s, i);
        }
    }
}

/// Putting an entry in the place of the entry of the same key keeps the keys
/// distinct; the key holds the new value, and every other key holds what it
/// held.
pub proof fn lemma_entry_updated<V>(s: Seq<CacheEntry<V>>, entry: CacheEntry<V>)
    requires
        distinct_keys(s),
        holds_key(s, entry.key),
    ensures
        distinct_keys(s.update(position(s, entry.key), entry)),
        value_at(s.update(position(s, entry.key), entry), entry.key) == Some(entry.value),
        forall|key: i32| #[trigger]
            holds_key(s.update(position(s, entry.key), entry), key) <==> holds_key(s, key),
        forall|key: i32|
            key != entry.key ==> #[trigger] value_at(s.update(position(s, entry.key), entry), key)
                == value_at(s, key),
{
    let at = position(s, entry.key);
    let t = s.update(at, entry);
    assert forall|i: int, j: int| 0 <= i < j < t.len() implies (#[trigger] t[i]).key != (
    #[trigger] t[j]).key by {
        assert(s[i].key != s[j].key);
    }
    assert(t[at] == entry);
    lemma_position(t, at);
    assert forall|key: i32| (#[trigger] holds_key(t, key) <==> holds_key(s, key)) && (key
        != entry.key ==> value_at(t, key) == value_at(s, key)) by {
        if holds_key(t, key) {
            let i = position(t, key);
            assert(t[i].key == s[i].key);
            lemma_position(t, i);
            lemma_position(s, i);
        }
        if holds_key(s, key) {
            let i = position(s, key);
            assert(t[i].key == s[i].key);
            lemma_position(t, i);
            lemma_position(s, i);
        }
    }
}

} // verus!
