//! The recency policy: the entry that has gone longest without use is the one
//! that leaves.
//!
//! The policy is the `LruCache` of the `hashlink` crate, which counts entries
//! and holds at most as many as it was built for. This file states what the
//! two calls that drive it do, and proves from that the contract that every
//! policy keeps.

use crate::BasicCache;
use hashlink::LruCache;
use vstd::prelude::*;

verus! {

/// `hashlink::LruCache`, declared so that a cache can be handed to the
/// functions below. The verifier sees nothing inside it.
#[verifier::external_type_specification]
#[verifier::external_body]
#[verifier::reject_recursive_types(K)]
#[verifier::reject_recursive_types(V)]
#[verifier::reject_recursive_types(S)]
pub struct ExLruCache<K, V, S>(LruCache<K, V, S>);

/// `core::hash::BuildHasherDefault`, which with `ahash::AHasher` below makes
/// up the hasher that a cache has unless it is given another. Both are
/// declared for the sake of the cache's type alone.
#[verifier::external_type_specification]
#[verifier::external_body]
#[verifier::reject_recursive_types(H)]
pub struct ExBuildHasherDefault<H>(core::hash::BuildHasherDefault<H>);

/// `ahash::AHasher`.
#[verifier::external_type_specification]
#[verifier::external_body]
pub struct ExAHasher(ahash::AHasher);

/// The pairs that a recency cache holds, the least recently used first.
pub uninterp spec fn lru_pairs(c: LruCache<i32, i32>) -> Seq<(i32, i32)>;

/// The number of pairs that a recency cache was built to hold.
pub uninterp spec fn lru_limit(c: LruCache<i32, i32>) -> nat;

/// Some pair of `s` has this key.
pub open spec fn pairs_hold(s: Seq<(i32, i32)>, key: i32) -> bool {
    exists|i: int| 0 <= i < s.len() && (#[trigger] s[i]).0 == key
}

/// Where the pair with this key stands in `s`. Meaningful when
/// `pairs_hold(s, key)`; with distinct keys there is one such place.
pub open spec fn pair_position(s: Seq<(i32, i32)>, key: i32) -> int {
    choose|i: int| 0 <= i < s.len() && (#[trigger] s[i]).0 == key
}

/// The value paired with `key`, if any.
pub open spec fn pair_value(s: Seq<(i32, i32)>, key: i32) -> Option<i32> {
    if pairs_hold(s, key) {
        Some(s[pair_position(s, key)].1)
    } else {
        None
    }
}

/// No two pairs share a key.
pub open spec fn pairs_distinct(s: Seq<(i32, i32)>) -> bool {
    forall|i: int, j: int| 0 <= i < j < s.len() ==> (#[trigger] s[i]).0 != (#[trigger] s[j]).0
}

/// The pairs as a map from key to value.
pub open spec fn pair_map(s: Seq<(i32, i32)>) -> Map<i32, i32> {
    Map::new(|key: i32| pairs_hold(s, key), |key: i32| s[pair_position(s, key)].1)
}

/// The pairs after a use of `key`: its pair moves to the back, and an absent
/// key changes nothing.
pub open spec fn touched(s: Seq<(i32, i32)>, key: i32) -> Seq<(i32, i32)> {
    if pairs_hold(s, key) {
        s.remove(pair_position(s, key)).push(s[pair_position(s, key)])
    } else {
        s
    }
}

/// The pairs after storing `value` under `key` in a cache built for `limit`
/// pairs: the pair stands at the back, in place of any pair of the same key,
/// and the pair at the front leaves if that made one too many.
pub open spec fn inserted(
    s: Seq<(i32, i32)>,
    limit: nat,
    key: i32,
    value: i32,
) -> Seq<(i32, i32)> {
    let stored = if pairs_hold(s, key) {
        s.remove(pair_position(s, key)).push((key, value))
    } else {
        s.push((key, value))
    };
    if stored.len() > limit {
        stored.drop_first()
    } else {
        stored
    }
}

/// `LruCache::new`: an empty cache built for `limit` pairs. Nothing is
/// allocated until the first store.
#[verifier::external_body]
fn lru_new(limit: usize) -> (c: LruCache<i32, i32>)
    ensures
        (lru_pairs(c) == Seq::<(i32, i32)>::empty()),
        lru_limit(c) == limit,
{
    LruCache::new(limit)
}

/// `LruCache::get`: the value stored under `key`, if the key is live. The
/// call counts as a use: the pair moves to the back of the eviction order.
#[verifier::external_body]
pub(crate) fn lru_get<'a>(c: &'a mut LruCache<i32, i32>, key: &i32) -> (found: Option<&'a i32>)
    ensures
        found == match pair_value(lru_pairs(*old(c)), *key) {
            Some(value) => Some(&value),
            None => None,
        },
        lru_pairs(*final(c)) == touched(lru_pairs(*old(c)), *key),
        lru_limit(*final(c)) == lru_limit(*old(c)),
{
    c.get(key)
}

/// `LruCache::insert`: stores the pair at the back of the eviction order and
/// returns the value that the key held before. If the cache then holds more
/// pairs than it was built for, the pair at the front is evicted, and no
/// more than that one.
#[verifier::external_body]
pub(crate) fn lru_insert(c: &mut LruCache<i32, i32>, key: i32, value: i32) -> (prior: Option<i32>)
    ensures
        prior == pair_value(lru_pairs(*old(c)), key),
        lru_pairs(*final(c)) == inserted(lru_pairs(*old(c)), lru_limit(*old(c)), key, value),
        lru_limit(*final(c)) == lru_limit(*old(c)),
{
    c.insert(key, value)
}

/// With distinct keys, the pair with a given key stands where it is found.
pub proof fn lemma_pair_position(s: Seq<(i32, i32)>, i: int)
    requires
        pairs_distinct(s),
        0 <= i < s.len(),
    ensures
        pairs_hold(s, s[i].0),
        pair_position(s, s[i].0) == i,
        pair_value(s, s[i].0) == Some(s[i].1),
{
    let j = pair_position(s, s[i].0);
    assert(0 <= j < s.len() && s[j].0 == s[i].0);
    if j < i {
        assert(s[j].0 != s[i].0);
    } else if i < j {
        assert(s[i].0 != s[j].0);
    }
}

/// Taking one pair out keeps the keys distinct, and every other key holds
/// what it held.
proof fn lemma_removed(s: Seq<(i32, i32)>, at: int)
    requires
        pairs_distinct(s),
        0 <= at < s.len(),
    ensures
        pairs_distinct(s.remove(at)),
        !pairs_hold(s.remove(at), s[at].0),
        forall|key: i32|
            key != s[at].0 ==> (#[trigger] pairs_hold(s.remove(at), key) <==> pairs_hold(s, key)),
        forall|key: i32|
            key != s[at].0 ==> #[trigger] pair_value(s.remove(at), key) == pair_value(s, key),
{
    let t = s.remove(at);
    assert forall|i: int| 0 <= i < t.len() implies #[trigger] t[i] == s[if i < at {
        i
    } else {
        i + 1
    }] by {}
    assert forall|i: int, j: int| 0 <= i < j < t.len() implies (#[trigger] t[i]).0 != (
    #[trigger] t[j]).0 by {
        let a = if i < at { i } else { i + 1 };
        let b = if j < at { j } else { j + 1 };
        assert(s[a].0 != s[b].0);
    }
    if pairs_hold(t, s[at].0) {
        let i = pair_position(t, s[at].0);
        let a = if i < at { i } else { i + 1 };
        assert(t[i] == s[a]);
        if a < at {
            assert(s[a].0 != s[at].0);
        } else {
            assert(s[at].0 != s[a].0);
        }
    }
    assert forall|key: i32| key != s[at].0 implies (#[trigger] pairs_hold(t, key) <==> pairs_hold(
        s,
        key,
    )) && pair_value(t, key) == pair_value(s, key) by {
        if pairs_hold(t, key) {
            let i = pair_position(t, key);
            let a = if i < at { i } else { i + 1 };
            assert(t[i] == s[a]);
            lemma_pair_position(t, i);
            lemma_pair_position(s, a);
        }
        if pairs_hold(s, key) {
            let a = pair_position(s, key);
            let i = if a < at { a } else { a - 1 };
            assert(t[i] == s[a]);
            lemma_pair_position(t, i);
            lemma_pair_position(s, a);
        }
    }
}

/// Putting a pair of a new key at the back keeps the keys distinct; the new
/// key holds the new value, and every other key holds what it held.
proof fn lemma_pushed(s: Seq<(i32, i32)>, pair: (i32, i32))
    requires
        pairs_distinct(s),
        !pairs_hold(s, pair.0),
    ensures
        pairs_distinct(s.push(pair)),
        pair_value(s.push(pair), pair.0) == Some(pair.1),
        forall|key: i32|
            key != pair.0 ==> (#[trigger] pairs_hold(s.push(pair), key) <==> pairs_hold(s, key)),
        forall|key: i32|
            key != pair.0 ==> #[trigger] pair_value(s.push(pair), key) == pair_value(s, key),
{
    let t = s.push(pair);
    assert forall|i: int, j: int| 0 <= i < j < t.len() implies (#[trigger] t[i]).0 != (
    #[trigger] t[j]).0 by {
        if j < s.len() {
            assert(s[i].0 != s[j].0);
        } else {
            assert(s[i].0 != pair.0);
        }
    }
    assert(t[s.len() as int] == pair);
    lemma_pair_position(t, s.len() as int);
    assert forall|key: i32| key != pair.0 implies (#[trigger] pairs_hold(t, key) <==> pairs_hold(
        s,
        key,
    )) && pair_value(t, key) == pair_value(s, key) by {
        if pairs_hold(t, key) {
            let i = pair_position(t, key);
            assert(t[i] == s[i]);
            lemma_pair_position(t, i);
            lemma_pair_position(s, i);
        }
        if pairs_hold(s, key) {
            let i = pair_position(s, key);
            assert(t[i] == s[i]);
            lemma_pair_position(t, i);
            lemma_pair_position(s, i);
        }
    }
}

/// A use changes the eviction order and nothing else: the keys stay
/// distinct, and every key holds what it held.
pub proof fn lemma_touched(s: Seq<(i32, i32)>, key: i32)
    requires
        pairs_distinct(s),
    ensures
        pairs_distinct(touched(s, key)),
        touched(s, key).len() == s.len(),
        pair_map(touched(s, key)) == pair_map(s),
{
    if pairs_hold(s, key) {
        let at = pair_position(s, key);
        lemma_removed(s, at);
        lemma_pushed(s.remove(at), s[at]);
        lemma_pair_position(s, at);
        let t = touched(s, key);
        assert forall|k: i32| pairs_hold(t, k) == pairs_hold(s, k) && pair_value(t, k)
            == pair_value(s, k) by {
            if k != key {
                assert(pairs_hold(s.remove(at), k) <==> pairs_hold(s, k));
                assert(pair_value(s.remove(at), k) == pair_value(s, k));
                assert(pairs_hold(t, k) <==> pairs_hold(s.remove(at), k));
                assert(pair_value(t, k) == pair_value(s.remove(at), k));
            }
        }
        assert forall|k: i32| pair_map(t).contains_key(k) implies #[trigger] pair_map(t)[k]
            == pair_map(s)[k] by {
            assert(pair_value(t, k) == pair_value(s, k));
        }
        assert(pair_map(t) =~= pair_map(s));
    }
}

/// What a store does to the pairs, key by key: the new pair is live if the
/// cache was built for at least one and its key is not live if it was built
/// for none, and every other key holds what it held or nothing.
pub proof fn lemma_inserted(s: Seq<(i32, i32)>, limit: nat, key: i32, value: i32)
    requires
        pairs_distinct(s),
    ensures
        pairs_distinct(inserted(s, limit, key, value)),
        s.len() <= limit ==> inserted(s, limit, key, value).len() <= limit,
        limit >= 1 || s.len() == 0 ==> pair_value(inserted(s, limit, key, value), key) == if limit
            >= 1 {
            Some(value)
        } else {
            None
        },
        forall|k: i32|
            k != key && #[trigger] pairs_hold(inserted(s, limit, key, value), k) ==> pairs_hold(
                s,
                k,
            ) && pair_value(inserted(s, limit, key, value), k) == pair_value(s, k),
{
    let rest = if pairs_hold(s, key) {
        s.remove(pair_position(s, key))
    } else {
        s
    };
    if pairs_hold(s, key) {
        let at = pair_position(s, key);
        lemma_removed(s, at);
    }
    lemma_pushed(rest, (key, value));
    let stored = rest.push((key, value));
    let next = inserted(s, limit, key, value);
    assert forall|k: i32| k != key implies (#[trigger] pairs_hold(stored, k) <==> pairs_hold(s, k))
        && pair_value(stored, k) == pair_value(s, k) by {
        assert(pairs_hold(stored, k) <==> pairs_hold(rest, k));
        assert(pair_value(stored, k) == pair_value(rest, k));
        if pairs_hold(s, key) {
            assert(pairs_hold(rest, k) <==> pairs_hold(s, k));
            assert(pair_value(rest, k) == pair_value(s, k));
        }
    }
    if stored.len() > limit {
        lemma_removed(stored, 0);
        assert(next =~= stored.remove(0));
        if limit >= 1 {
            assert(stored[0].0 != stored[stored.len() - 1].0);
            assert(pairs_hold(next, key) <==> pairs_hold(stored, key));
            assert(pair_value(next, key) == pair_value(stored, key));
        }
        if pairs_hold(next, key) {
            if stored[0].0 == key {
                assert(false);
            }
            assert(pair_value(next, key) == pair_value(stored, key));
        }
        assert forall|k: i32| k != key && #[trigger] pairs_hold(next, k) implies pairs_hold(s, k)
            && pair_value(next, k) == pair_value(s, k) by {
            if k == stored[0].0 {
                assert(false);
            }
            assert(pairs_hold(next, k) <==> pairs_hold(stored, k));
            assert(pair_value(next, k) == pair_value(stored, k));
        }
    }
}

/// An empty recency cache for at most `capacity` entries.
pub fn new_lru(capacity: usize) -> (cache: LruCache<i32, i32>)
    ensures
        cache.basic_wf(),
        lru_pairs(cache) == Seq::<(i32, i32)>::empty(),
        lru_limit(cache) == capacity,
{
    lru_new(capacity)
}

impl BasicCache<i32, i32> for LruCache<i32, i32> {
    /// The keys are distinct, and the cache holds no more pairs than it was
    /// built for.
    open spec fn basic_wf(&self) -> bool {
        &&& pairs_distinct(lru_pairs(*self))
        &&& lru_pairs(*self).len() <= lru_limit(*self)
    }

    open spec fn basic_entries(&self) -> Map<i32, i32> {
        pair_map(lru_pairs(*self))
    }

    /// Every pair counts one, so a pair is admitted by a cache built for at
    /// least one.
    open spec fn admits(&self, key: i32, value: i32) -> bool {
        lru_limit(*self) >= 1
    }

    /// A lookup under this policy is a use: the pair found moves to the
    /// back of the eviction order.
    fn get_basic(&mut self, key: &i32) -> (found: Option<&i32>)
        ensures
            lru_pairs(*final(self)) == touched(lru_pairs(*old(self)), *key),
            lru_limit(*final(self)) == lru_limit(*old(self)),
    {
        proof {
            lemma_touched(lru_pairs(*self), *key);
        }
        lru_get(self, key)
    }

    /// A store under this policy is a use as well: the pair stands at the
    /// back of the eviction order, and the pair at the front leaves if the
    /// cache was full.
    fn put_basic(&mut self, key: i32, value: i32)
        ensures
            lru_pairs(*final(self)) == inserted(
                lru_pairs(*old(self)),
                lru_limit(*old(self)),
                key,
                value,
            ),
            lru_limit(*final(self)) == lru_limit(*old(self)),
    {
        proof {
            lemma_inserted(lru_pairs(*self), lru_limit(*self), key, value);
        }
        let _ = lru_insert(self, key, value);
    }
}

} // verus!
