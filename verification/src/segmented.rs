//! The segmented-admission policy: a key has to be used before it is given
//! a lasting place.
//!
//! The cache is split into a small probationary segment and a larger main
//! segment. A new key enters probation. When probation is full its oldest
//! entry leaves: to the main segment if it was looked up while it waited,
//! and out of the cache otherwise, with its key remembered in a bounded list
//! of ghosts. A key that comes back while it is a ghost goes straight to the
//! main segment. The main segment evicts by recency. A scan of keys that are
//! never used again thus passes through probation and leaves the main
//! segment alone.
//!
//! The policy counts entries. Each segment is a vector searched from the
//! front, so an operation takes time in proportion to the entries held.

use crate::model::{
    distinct_keys, holds_key, lemma_entry_pushed, lemma_entry_removed, lemma_entry_updated,
    lemma_position, position, value_at, CacheEntry,
};
use crate::BasicCache;
use vstd::prelude::*;

verus! {

/// The state of a segmented cache.
pub struct Segments<V> {
    /// The entries on probation, the oldest arrival first.
    pub probation: Seq<CacheEntry<V>>,
    /// For each entry on probation, whether it was looked up since it arrived.
    pub used: Seq<bool>,
    /// The entries of the main segment, the least recently used first.
    pub main: Seq<CacheEntry<V>>,
    /// The keys that left probation unused, the oldest departure first.
    pub ghosts: Seq<i32>,
    /// The most entries that probation holds.
    pub probation_size: nat,
    /// The most entries that the main segment holds.
    pub main_size: nat,
    /// The most keys that are remembered as ghosts.
    pub ghost_size: nat,
}

/// The main segment after `entry` is admitted at the back: if the segment was
/// full, the entry at the front has left.
pub open spec fn admitted<V>(
    main: Seq<CacheEntry<V>>,
    size: nat,
    entry: CacheEntry<V>,
) -> Seq<CacheEntry<V>> {
    if main.len() < size {
        main.push(entry)
    } else {
        main.drop_first().push(entry)
    }
}

/// The ghosts after `key` is remembered: if the list was full, the oldest
/// ghost has been forgotten.
pub open spec fn recorded(ghosts: Seq<i32>, size: nat, key: i32) -> Seq<i32> {
    if ghosts.len() < size {
        ghosts.push(key)
    } else {
        ghosts.drop_first().push(key)
    }
}

impl<V> Segments<V> {
    /// The state of a cache with these segment sizes and nothing in it.
    pub open spec fn empty(probation_size: nat, main_size: nat, ghost_size: nat) -> Self {
        Segments {
            probation: Seq::empty(),
            used: Seq::empty(),
            main: Seq::empty(),
            ghosts: Seq::empty(),
            probation_size,
            main_size,
            ghost_size,
        }
    }

    /// What the policy keeps true. No segment is empty by design and the main
    /// segment is at least as large as probation; no segment holds more than
    /// its size, so the cache never holds more than both together; a key is
    /// live in one segment at most, and a ghost is not live; every entry
    /// counts one.
    pub open spec fn wf(self) -> bool {
        &&& 1 <= self.probation_size <= self.main_size
        &&& 1 <= self.ghost_size
        &&& self.used.len() == self.probation.len()
        &&& self.probation.len() <= self.probation_size
        &&& self.main.len() <= self.main_size
        &&& self.ghosts.len() <= self.ghost_size
        &&& distinct_keys(self.probation)
        &&& distinct_keys(self.main)
        &&& forall|i: int, j: int|
            0 <= i < self.probation.len() && 0 <= j < self.main.len() ==> (
            #[trigger] self.probation[i]).key != (#[trigger] self.main[j]).key
        &&& self.ghosts.no_duplicates()
        &&& forall|g: int| 0 <= g < self.ghosts.len() ==> !self.holds(#[trigger] self.ghosts[g])
        &&& forall|i: int|
            0 <= i < self.probation.len() ==> (#[trigger] self.probation[i]).weight == 1
        &&& forall|j: int| 0 <= j < self.main.len() ==> (#[trigger] self.main[j]).weight == 1
    }

    /// The key is live, in one segment or the other.
    pub open spec fn holds(self, key: i32) -> bool {
        holds_key(self.probation, key) || holds_key(self.main, key)
    }

    /// The value stored under `key`, if the key is live.
    pub open spec fn lookup(self, key: i32) -> Option<V> {
        if holds_key(self.probation, key) {
            value_at(self.probation, key)
        } else {
            value_at(self.main, key)
        }
    }

    /// The live entries as a map from key to value.
    pub open spec fn entries(self) -> Map<i32, V> {
        Map::new(|key: i32| self.holds(key), |key: i32| self.lookup(key).unwrap())
    }

    /// The number of live entries.
    pub open spec fn len(self) -> nat {
        self.probation.len() + self.main.len()
    }

    /// The state after a lookup of `key`. An entry on probation is marked as
    /// used and stays where it is; an entry of the main segment becomes its
    /// most recently used; an absent key changes nothing.
    pub open spec fn touched(self, key: i32) -> Self {
        if holds_key(self.probation, key) {
            Segments { used: self.used.update(position(self.probation, key), true), ..self }
        } else if holds_key(self.main, key) {
            let at = position(self.main, key);
            Segments { main: self.main.remove(at).push(self.main[at]), ..self }
        } else {
            self
        }
    }

    /// The state after `entry` is stored.
    ///
    /// A key on probation has its value replaced where it stands, and keeps
    /// its mark. A key of the main segment has its value replaced and becomes
    /// the most recently used. A ghost is forgotten as one and admitted to the
    /// main segment. Any other key enters probation, unmarked; if probation is
    /// full, its oldest entry first leaves, to the main segment if it is
    /// marked, and to the ghosts if it is not.
    pub open spec fn stored(self, entry: CacheEntry<V>) -> Self {
        if holds_key(self.probation, entry.key) {
            Segments {
                probation: self.probation.update(position(self.probation, entry.key), entry),
                ..self
            }
        } else if holds_key(self.main, entry.key) {
            Segments { main: self.main.remove(position(self.main, entry.key)).push(entry), ..self }
        } else if self.ghosts.contains(entry.key) {
            Segments {
                ghosts: self.ghosts.remove(self.ghosts.index_of(entry.key)),
                main: admitted(self.main, self.main_size, entry),
                ..self
            }
        } else if self.probation.len() < self.probation_size {
            Segments {
                probation: self.probation.push(entry),
                used: self.used.push(false),
                ..self
            }
        } else if self.used[0] {
            Segments {
                probation: self.probation.drop_first().push(entry),
                used: self.used.drop_first().push(false),
                main: admitted(self.main, self.main_size, self.probation[0]),
                ..self
            }
        } else {
            Segments {
                probation: self.probation.drop_first().push(entry),
                used: self.used.drop_first().push(false),
                ghosts: recorded(self.ghosts, self.ghost_size, self.probation[0].key),
                ..self
            }
        }
    }

    /// The state after each entry of `entries` is stored in turn.
    pub open spec fn stored_all(self, entries: Seq<CacheEntry<V>>) -> Self
        decreases entries.len(),
    {
        if entries.len() == 0 {
            self
        } else {
            self.stored_all(entries.drop_last()).stored(entries.last())
        }
    }
}

/// What a store keeps of the state before it: the policy's invariant and
/// the segment sizes, the new entry live under its key, and every other key
/// holding what it held or nothing.
pub open spec fn store_keeps<V>(
    before: Segments<V>,
    after: Segments<V>,
    entry: CacheEntry<V>,
) -> bool {
    &&& after.wf()
    &&& after.probation_size == before.probation_size
    &&& after.main_size == before.main_size
    &&& after.ghost_size == before.ghost_size
    &&& after.holds(entry.key)
    &&& after.lookup(entry.key) == Some(entry.value)
    &&& forall|key: i32|
        key != entry.key && #[trigger] after.holds(key) ==> before.holds(key) && after.lookup(key)
            == before.lookup(key)
}

/// Admitting an entry of a new key to the main segment keeps it within its
/// size and its keys distinct; the new key holds the new value, and every
/// other key holds what it held or nothing.
proof fn lemma_admitted<V>(main: Seq<CacheEntry<V>>, size: nat, entry: CacheEntry<V>)
    requires
        distinct_keys(main),
        !holds_key(main, entry.key),
        main.len() <= size,
        1 <= size,
    ensures
        distinct_keys(admitted(main, size, entry)),
        admitted(main, size, entry).len() <= size,
        holds_key(admitted(main, size, entry), entry.key),
        value_at(admitted(main, size, entry), entry.key) == Some(entry.value),
        forall|key: i32|
            key != entry.key && #[trigger] holds_key(admitted(main, size, entry), key)
                ==> holds_key(main, key) && value_at(admitted(main, size, entry), key) == value_at(
                main,
                key,
            ),
{
    if main.len() < size {
        lemma_entry_pushed(main, entry);
    } else {
        let rest = main.drop_first();
        assert(rest =~= main.remove(0));
        lemma_entry_removed(main, 0);
        if holds_key(rest, entry.key) {
            assert(holds_key(main, entry.key));
        }
        lemma_entry_pushed(rest, entry);
        assert forall|key: i32|
            key != entry.key && #[trigger] holds_key(rest.push(entry), key) implies holds_key(
            main,
            key,
        ) && value_at(rest.push(entry), key) == value_at(main, key) by {
            assert(holds_key(rest, key));
            assert(value_at(rest.push(entry), key) == value_at(rest, key));
            if key == main[0].key {
                assert(!holds_key(rest, key));
            }
            assert(value_at(rest, key) == value_at(main, key));
        }
    }
}

/// Remembering a key that is not a ghost keeps the ghosts within their size
/// and free of duplicates, and adds no other key.
proof fn lemma_recorded(ghosts: Seq<i32>, size: nat, key: i32)
    requires
        ghosts.no_duplicates(),
        !ghosts.contains(key),
        ghosts.len() <= size,
        1 <= size,
    ensures
        recorded(ghosts, size, key).no_duplicates(),
        recorded(ghosts, size, key).len() <= size,
        recorded(ghosts, size, key).contains(key),
        forall|k: i32| #[trigger]
            recorded(ghosts, size, key).contains(k) ==> k == key || ghosts.contains(k),
{
    let rest = if ghosts.len() < size {
        ghosts
    } else {
        ghosts.drop_first()
    };
    let next = rest.push(key);
    assert forall|i: int| 0 <= i < rest.len() implies ghosts.contains(#[trigger] rest[i]) by {
        if ghosts.len() < size {
            assert(ghosts[i] == rest[i]);
        } else {
            assert(ghosts[i + 1] == rest[i]);
        }
    }
    assert forall|i: int, j: int| 0 <= i < next.len() && 0 <= j < next.len() && i != j implies next[i]
        != next[j] by {
        if i < rest.len() && j < rest.len() {
            if ghosts.len() < size {
                assert(ghosts[i] != ghosts[j]);
            } else {
                assert(ghosts[i + 1] != ghosts[j + 1]);
            }
        } else if i < rest.len() {
            assert(ghosts.contains(rest[i]));
        } else {
            assert(ghosts.contains(rest[j]));
        }
    }
    assert(next[rest.len() as int] == key);
    assert forall|k: i32| #[trigger] next.contains(k) implies k == key || ghosts.contains(k) by {
        let i = choose|i: int| 0 <= i < next.len() && next[i] == k;
        if i < rest.len() {
            assert(ghosts.contains(rest[i]));
        }
    }
}

/// Forgetting a ghost leaves the other ghosts, free of duplicates.
proof fn lemma_forgotten(ghosts: Seq<i32>, key: i32)
    requires
        ghosts.no_duplicates(),
        ghosts.contains(key),
    ensures
        ghosts.remove(ghosts.index_of(key)).no_duplicates(),
        ghosts.remove(ghosts.index_of(key)).len() == ghosts.len() - 1,
        !ghosts.remove(ghosts.index_of(key)).contains(key),
        forall|k: i32| #[trigger]
            ghosts.remove(ghosts.index_of(key)).contains(k) ==> ghosts.contains(k),
{
    let at = ghosts.index_of(key);
    let rest = ghosts.remove(at);
    assert forall|i: int| 0 <= i < rest.len() implies #[trigger] rest[i] == ghosts[if i < at {
        i
    } else {
        i + 1
    }] by {}
    assert forall|i: int, j: int| 0 <= i < rest.len() && 0 <= j < rest.len() && i != j implies rest[i]
        != rest[j] by {
        let a = if i < at { i } else { i + 1 };
        let b = if j < at { j } else { j + 1 };
        assert(ghosts[a] != ghosts[b]);
    }
    assert forall|k: i32| #[trigger] rest.contains(k) implies ghosts.contains(k) && k != key by {
        let i = choose|i: int| 0 <= i < rest.len() && rest[i] == k;
        let a = if i < at { i } else { i + 1 };
        assert(ghosts[a] == k);
        assert(ghosts[a] != ghosts[at]);
    }
}

impl<V> Segments<V> {
    /// No key is live in both segments, and no ghost is live.
    proof fn lemma_apart(self, key: i32)
        requires
            self.wf(),
        ensures
            !(holds_key(self.probation, key) && holds_key(self.main, key)),
            self.ghosts.contains(key) ==> !self.holds(key),
    {
        if holds_key(self.probation, key) && holds_key(self.main, key) {
            let i = position(self.probation, key);
            let j = position(self.main, key);
            assert(self.probation[i].key != self.main[j].key);
        }
        if self.ghosts.contains(key) {
            let g = self.ghosts.index_of(key);
            assert(!self.holds(self.ghosts[g]));
        }
    }

    /// A store under a key on probation.
    proof fn lemma_stored_on_probation(self, entry: CacheEntry<V>)
        requires
            self.wf(),
            entry.weight == 1,
            holds_key(self.probation, entry.key),
        ensures
            store_keeps(self, self.stored(entry), entry),
    {
        let after = self.stored(entry);
        let at = position(self.probation, entry.key);
        lemma_entry_updated(self.probation, entry);
        self.lemma_apart(entry.key);
        assert forall|i: int, j: int|
            0 <= i < after.probation.len() && 0 <= j < after.main.len() implies (
        #[trigger] after.probation[i]).key != (#[trigger] after.main[j]).key by {
            assert(self.probation[i].key != self.main[j].key);
        }
        assert forall|g: int| 0 <= g < after.ghosts.len() implies !after.holds(
            #[trigger] after.ghosts[g],
        ) by {
            assert(!self.holds(self.ghosts[g]));
        }
    }

    /// A store under a key of the main segment.
    proof fn lemma_stored_in_main(self, entry: CacheEntry<V>)
        requires
            self.wf(),
            entry.weight == 1,
            !holds_key(self.probation, entry.key),
            holds_key(self.main, entry.key),
        ensures
            store_keeps(self, self.stored(entry), entry),
    {
        let after = self.stored(entry);
        let at = position(self.main, entry.key);
        let rest = self.main.remove(at);
        lemma_position(self.main, at);
        lemma_entry_removed(self.main, at);
        lemma_entry_pushed(rest, entry);
        assert forall|key: i32| #[trigger] holds_key(after.main, key) implies holds_key(
            self.main,
            key,
        ) by {
            if key != entry.key {
                assert(holds_key(rest, key));
            }
        }
        assert forall|i: int, j: int|
            0 <= i < after.probation.len() && 0 <= j < after.main.len() implies (
        #[trigger] after.probation[i]).key != (#[trigger] after.main[j]).key by {
            assert(after.main[j].key == after.main[j].key);
            lemma_position(after.main, j);
            lemma_position(self.probation, i);
            self.lemma_apart(self.probation[i].key);
        }
        assert forall|g: int| 0 <= g < after.ghosts.len() implies !after.holds(
            #[trigger] after.ghosts[g],
        ) by {
            assert(!self.holds(self.ghosts[g]));
        }
        assert forall|j: int| 0 <= j < after.main.len() implies (#[trigger] after.main[j]).weight
            == 1 by {
            if j < rest.len() {
                assert(rest[j] == self.main[if j < at { j } else { j + 1 }]);
            }
        }
        assert forall|key: i32| key != entry.key && #[trigger] after.holds(key) implies self.holds(
            key,
        ) && after.lookup(key) == self.lookup(key) by {
            assert(value_at(after.main, key) == value_at(rest, key));
            assert(value_at(rest, key) == value_at(self.main, key));
        }
    }

    /// A store under a key that is a ghost.
    proof fn lemma_stored_ghost(self, entry: CacheEntry<V>)
        requires
            self.wf(),
            entry.weight == 1,
            !self.holds(entry.key),
            self.ghosts.contains(entry.key),
        ensures
            store_keeps(self, self.stored(entry), entry),
    {
        let after = self.stored(entry);
        lemma_forgotten(self.ghosts, entry.key);
        lemma_admitted(self.main, self.main_size, entry);
        assert forall|i: int, j: int|
            0 <= i < after.probation.len() && 0 <= j < after.main.len() implies (
        #[trigger] after.probation[i]).key != (#[trigger] after.main[j]).key by {
            lemma_position(after.main, j);
            lemma_position(self.probation, i);
            self.lemma_apart(self.probation[i].key);
        }
        assert forall|g: int| 0 <= g < after.ghosts.len() implies !after.holds(
            #[trigger] after.ghosts[g],
        ) by {
            let k = after.ghosts[g];
            assert(after.ghosts.contains(k));
            assert(self.ghosts.contains(k));
            self.lemma_apart(k);
        }
        assert forall|j: int| 0 <= j < after.main.len() implies (#[trigger] after.main[j]).weight
            == 1 by {
            if self.main.len() < self.main_size {
                if j < self.main.len() {
                    assert(after.main[j] == self.main[j]);
                }
            } else {
                if j < self.main.len() - 1 {
                    assert(after.main[j] == self.main[j + 1]);
                }
            }
        }
        assert forall|key: i32| key != entry.key && #[trigger] after.holds(key) implies self.holds(
            key,
        ) && after.lookup(key) == self.lookup(key) by {
            self.lemma_apart(key);
        }
    }

    /// A store under a key that is neither live nor a ghost.
    proof fn lemma_stored_new(self, entry: CacheEntry<V>)
        requires
            self.wf(),
            entry.weight == 1,
            !self.holds(entry.key),
            !self.ghosts.contains(entry.key),
        ensures
            store_keeps(self, self.stored(entry), entry),
    {
        let after = self.stored(entry);
        if self.probation.len() < self.probation_size {
            lemma_entry_pushed(self.probation, entry);
            assert forall|i: int, j: int|
                0 <= i < after.probation.len() && 0 <= j < after.main.len() implies (
            #[trigger] after.probation[i]).key != (#[trigger] after.main[j]).key by {
                lemma_position(self.main, j);
                if i < self.probation.len() {
                    assert(self.probation[i].key != self.main[j].key);
                }
            }
            assert forall|g: int| 0 <= g < after.ghosts.len() implies !after.holds(
                #[trigger] after.ghosts[g],
            ) by {
                let k = self.ghosts[g];
                assert(self.ghosts.contains(k));
                assert(!self.holds(k));
            }
        } else {
            let oldest = self.probation[0];
            let rest = self.probation.drop_first();
            assert(rest =~= self.probation.remove(0));
            lemma_position(self.probation, 0);
            lemma_entry_removed(self.probation, 0);
            if holds_key(rest, entry.key) {
                assert(holds_key(self.probation, entry.key));
            }
            lemma_entry_pushed(rest, entry);
            self.lemma_apart(oldest.key);
            if self.used[0] {
                lemma_admitted(self.main, self.main_size, oldest);
            } else {
                lemma_recorded(self.ghosts, self.ghost_size, oldest.key);
            }
            assert(!holds_key(after.probation, oldest.key));
            assert forall|key: i32| #[trigger] holds_key(after.probation, key) implies key
                == entry.key || (holds_key(self.probation, key) && key != oldest.key && value_at(
                after.probation,
                key,
            ) == value_at(self.probation, key)) by {
                if key != entry.key {
                    assert(holds_key(rest, key));
                    assert(value_at(after.probation, key) == value_at(rest, key));
                }
            }
            assert forall|key: i32| #[trigger] holds_key(after.main, key) implies (key
                == oldest.key && self.used[0] && value_at(after.main, key) == Some(oldest.value))
                || (holds_key(self.main, key) && value_at(after.main, key) == value_at(
                self.main,
                key,
            )) by {}
            assert forall|i: int, j: int|
                0 <= i < after.probation.len() && 0 <= j < after.main.len() implies (
            #[trigger] after.probation[i]).key != (#[trigger] after.main[j]).key by {
                lemma_position(after.probation, i);
                lemma_position(after.main, j);
                self.lemma_apart(after.main[j].key);
            }
            assert forall|g: int| 0 <= g < after.ghosts.len() implies !after.holds(
                #[trigger] after.ghosts[g],
            ) by {
                let k = after.ghosts[g];
                assert(after.ghosts.contains(k));
                if k != oldest.key {
                    assert(self.ghosts.contains(k));
                }
                self.lemma_apart(k);
            }
            assert forall|i: int| 0 <= i < after.probation.len() implies (
            #[trigger] after.probation[i]).weight == 1 by {
                if i < rest.len() {
                    assert(after.probation[i] == self.probation[i + 1]);
                }
            }
            assert forall|j: int| 0 <= j < after.main.len() implies (#[trigger] after.main[j]).weight
                == 1 by {
                if self.used[0] {
                    if self.main.len() < self.main_size {
                        if j < self.main.len() {
                            assert(after.main[j] == self.main[j]);
                        }
                    } else {
                        if j < self.main.len() - 1 {
                            assert(after.main[j] == self.main[j + 1]);
                        }
                    }
                }
            }
            assert forall|key: i32| key != entry.key && #[trigger] after.holds(key) implies self.holds(
                key,
            ) && after.lookup(key) == self.lookup(key) by {
                self.lemma_apart(key);
            }
        }
    }

    /// A store keeps the policy's invariant, makes the new entry live, and
    /// leaves every other key holding what it held or nothing.
    pub proof fn lemma_stored(self, entry: CacheEntry<V>)
        requires
            self.wf(),
            entry.weight == 1,
        ensures
            store_keeps(self, self.stored(entry), entry),
    {
        if holds_key(self.probation, entry.key) {
            self.lemma_stored_on_probation(entry);
        } else if holds_key(self.main, entry.key) {
            self.lemma_stored_in_main(entry);
        } else if self.ghosts.contains(entry.key) {
            self.lemma_stored_ghost(entry);
        } else {
            self.lemma_stored_new(entry);
        }
    }

    /// A lookup keeps the policy's invariant and changes no entry: every key
    /// holds what it held.
    pub proof fn lemma_touched(self, key: i32)
        requires
            self.wf(),
        ensures
            self.touched(key).wf(),
            self.touched(key).probation_size == self.probation_size,
            self.touched(key).main_size == self.main_size,
            self.touched(key).ghost_size == self.ghost_size,
            self.touched(key).probation == self.probation,
            self.touched(key).ghosts == self.ghosts,
            self.touched(key).len() == self.len(),
            forall|k: i32| #[trigger] self.touched(key).holds(k) == self.holds(k),
            forall|k: i32| #[trigger] self.touched(key).lookup(k) == self.lookup(k),
            self.touched(key).entries() == self.entries(),
    {
        let after = self.touched(key);
        if !holds_key(self.probation, key) && holds_key(self.main, key) {
            let at = position(self.main, key);
            let rest = self.main.remove(at);
            lemma_position(self.main, at);
            lemma_entry_removed(self.main, at);
            lemma_entry_pushed(rest, self.main[at]);
            assert forall|k: i32|
                (#[trigger] holds_key(after.main, k) <==> holds_key(self.main, k)) && value_at(
                    after.main,
                    k,
                ) == value_at(self.main, k) by {
                if k != key {
                    assert(holds_key(after.main, k) <==> holds_key(rest, k));
                    assert(value_at(after.main, k) == value_at(rest, k));
                }
            }
            assert forall|i: int, j: int|
                0 <= i < after.probation.len() && 0 <= j < after.main.len() implies (
            #[trigger] after.probation[i]).key != (#[trigger] after.main[j]).key by {
                lemma_position(after.main, j);
                lemma_position(self.probation, i);
                self.lemma_apart(self.probation[i].key);
            }
            assert forall|g: int| 0 <= g < after.ghosts.len() implies !after.holds(
                #[trigger] after.ghosts[g],
            ) by {
                assert(!self.holds(self.ghosts[g]));
            }
            assert forall|j: int| 0 <= j < after.main.len() implies (#[trigger] after.main[j]).weight
                == 1 by {
                if j < rest.len() {
                    assert(rest[j] == self.main[if j < at { j } else { j + 1 }]);
                }
            }
            assert forall|k: i32| #[trigger] after.lookup(k) == self.lookup(k) by {
                assert(holds_key(after.main, k) <==> holds_key(self.main, k));
            }
        }
        assert forall|k: i32| #[trigger] after.holds(k) == self.holds(k) by {
            if !holds_key(self.probation, key) && holds_key(self.main, key) {
                assert(holds_key(after.main, k) <==> holds_key(self.main, k));
            }
        }
        assert(after.entries() =~= self.entries());
    }
}

/// The share of a capacity that goes to probation: a tenth, and at least one
/// entry.
pub open spec fn probation_share(capacity: nat) -> nat {
    if capacity / 10 == 0 {
        1
    } else {
        capacity / 10
    }
}

/// A cache that admits new keys on probation.
pub struct Segmented<V> {
    probation: Vec<CacheEntry<V>>,
    used: Vec<bool>,
    main: Vec<CacheEntry<V>>,
    ghosts: Vec<i32>,
    probation_size: usize,
    main_size: usize,
    ghost_size: usize,
}

impl<V> View for Segmented<V> {
    type V = Segments<V>;

    /// The state of the cache.
    closed spec fn view(&self) -> Segments<V> {
        Segments {
            probation: self.probation@,
            used: self.used@,
            main: self.main@,
            ghosts: self.ghosts@,
            probation_size: self.probation_size as nat,
            main_size: self.main_size as nat,
            ghost_size: self.ghost_size as nat,
        }
    }
}

/// Where the entry under `key` stands, if there is one.
fn find<V>(entries: &Vec<CacheEntry<V>>, key: i32) -> (at: Option<usize>)
    requires
        distinct_keys(entries@),
    ensures
        match at {
            Some(i) => holds_key(entries@, key) && i == position(entries@, key),
            None => !holds_key(entries@, key),
        },
{
    let mut i: usize = 0;
    while i < entries.len()
        invariant
            i <= entries@.len(),
            distinct_keys(entries@),
            forall|j: int| 0 <= j < i ==> (#[trigger] entries@[j]).key != key,
        decreases entries@.len() - i,
    {
        if entries[i].key == key {
            proof {
                lemma_position(entries@, i as int);
            }
            return Some(i);
        }
        i += 1;
    }
    None
}

/// Where `key` stands among the ghosts, if it is one.
fn find_ghost(ghosts: &Vec<i32>, key: i32) -> (at: Option<usize>)
    requires
        ghosts@.no_duplicates(),
    ensures
        match at {
            Some(i) => ghosts@.contains(key) && i == ghosts@.index_of(key),
            None => !ghosts@.contains(key),
        },
{
    let mut i: usize = 0;
    while i < ghosts.len()
        invariant
            i <= ghosts@.len(),
            ghosts@.no_duplicates(),
            forall|j: int| 0 <= j < i ==> ghosts@[j] != key,
        decreases ghosts@.len() - i,
    {
        if ghosts[i] == key {
            return Some(i);
        }
        i += 1;
    }
    None
}

/// Admits `entry` at the back of the main segment, in place of the entry at
/// the front if the segment is full.
fn enter_main<V>(main: &mut Vec<CacheEntry<V>>, size: usize, entry: CacheEntry<V>)
    requires
        old(main)@.len() <= size,
        1 <= size,
    ensures
        final(main)@ == admitted(old(main)@, size as nat, entry),
{
    if main.len() == size {
        let _ = main.remove(0);
        assert(main@ =~= old(main)@.drop_first());
    }
    main.push(entry);
}

/// Remembers `key` as the newest ghost, in place of the oldest if the list is
/// full.
fn record(ghosts: &mut Vec<i32>, size: usize, key: i32)
    requires
        old(ghosts)@.len() <= size,
        1 <= size,
    ensures
        final(ghosts)@ == recorded(old(ghosts)@, size as nat, key),
{
    if ghosts.len() == size {
        let _ = ghosts.remove(0);
        assert(ghosts@ =~= old(ghosts)@.drop_first());
    }
    ghosts.push(key);
}

impl<V> Segmented<V> {
    /// The cache is well formed: the policy's invariant holds, and the two
    /// segment sizes can be added.
    pub open spec fn wf(&self) -> bool {
        &&& self@.wf()
        &&& self@.probation_size + self@.main_size <= usize::MAX
    }

    /// An empty cache for at most `capacity` entries: a tenth of them on
    /// probation and the rest in the main segment, with as many ghosts
    /// remembered as the main segment holds entries.
    pub fn new(capacity: usize) -> (cache: Self)
        requires
            2 <= capacity,
        ensures
            cache.wf(),
            cache@ == Segments::<V>::empty(
                probation_share(capacity as nat),
                (capacity - probation_share(capacity as nat)) as nat,
                (capacity - probation_share(capacity as nat)) as nat,
            ),
    {
        let tenth: usize = capacity / 10;
        let probation_size: usize = if tenth == 0 {
            1
        } else {
            tenth
        };
        let main_size: usize = capacity - probation_size;
        Segmented::with_segments(probation_size, main_size, main_size)
    }

    /// An empty cache with segments of the given sizes.
    pub fn with_segments(probation_size: usize, main_size: usize, ghost_size: usize) -> (cache: Self)
        requires
            1 <= probation_size <= main_size,
            1 <= ghost_size,
            probation_size + main_size <= usize::MAX,
        ensures
            cache.wf(),
            cache@ == Segments::<V>::empty(
                probation_size as nat,
                main_size as nat,
                ghost_size as nat,
            ),
    {
        Segmented {
            probation: Vec::new(),
            used: Vec::new(),
            main: Vec::new(),
            ghosts: Vec::new(),
            probation_size,
            main_size,
            ghost_size,
        }
    }

    /// The number of live entries.
    pub fn len(&self) -> (n: usize)
        requires
            self.wf(),
        ensures
            n == self@.len(),
    {
        self.probation.len() + self.main.len()
    }

    /// The value stored under `key`, if the key is live. The lookup counts as
    /// a use of the entry.
    pub fn get(&mut self, key: &i32) -> (found: Option<&V>)
        requires
            old(self).wf(),
        ensures
            final(self).wf(),
            final(self)@ == old(self)@.touched(*key),
            found == match old(self)@.lookup(*key) {
                Some(value) => Some(&value),
                None => None,
            },
    {
        proof {
            self@.lemma_touched(*key);
        }
        match find(&self.probation, *key) {
            Some(at) => {
                self.used[at] = true;
                Some(&self.probation[at].value)
            },
            None => match find(&self.main, *key) {
                Some(at) => {
                    let entry = self.main.remove(at);
                    self.main.push(entry);
                    let last = self.main.len() - 1;
                    Some(&self.main[last].value)
                },
                None => None,
            },
        }
    }

    /// Stores `value` under `key` and returns the value that the key held
    /// before the call, if it was live.
    pub fn put(&mut self, key: i32, value: V) -> (prior: Option<V>)
        requires
            old(self).wf(),
        ensures
            final(self).wf(),
            final(self)@ == old(self)@.stored(CacheEntry { key, value, weight: 1 }),
            prior == old(self)@.lookup(key),
    {
        let entry = CacheEntry { key, value, weight: 1 };
        proof {
            self@.lemma_stored(entry);
        }
        match find(&self.probation, key) {
            Some(at) => {
                self.probation.push(entry);
                let replaced = self.probation.swap_remove(at);
                assert(self.probation@ =~= old(self).probation@.update(at as int, entry));
                return Some(replaced.value);
            },
            None => {},
        }
        match find(&self.main, key) {
            Some(at) => {
                let replaced = self.main.remove(at);
                self.main.push(entry);
                return Some(replaced.value);
            },
            None => {},
        }
        match find_ghost(&self.ghosts, key) {
            Some(at) => {
                let _ = self.ghosts.remove(at);
                enter_main(&mut self.main, self.main_size, entry);
                return None;
            },
            None => {},
        }
        if self.probation.len() == self.probation_size {
            let oldest = self.probation.remove(0);
            let was_used = self.used.remove(0);
            assert(self.probation@ =~= old(self).probation@.drop_first());
            assert(self.used@ =~= old(self).used@.drop_first());
            if was_used {
                enter_main(&mut self.main, self.main_size, oldest);
            } else {
                record(&mut self.ghosts, self.ghost_size, oldest.key);
            }
        }
        self.probation.push(entry);
        self.used.push(false);
        None
    }
}

impl<V> BasicCache<i32, V> for Segmented<V> {
    open spec fn basic_wf(&self) -> bool {
        self.wf()
    }

    open spec fn basic_entries(&self) -> Map<i32, V> {
        self@.entries()
    }

    /// Every pair counts one, and no segment is without room for one.
    open spec fn admits(&self, key: i32, value: V) -> bool {
        true
    }

    /// Looks the key up as [`Segmented::get`] does.
    fn get_basic(&mut self, key: &i32) -> (found: Option<&V>)
        ensures
            final(self)@ == old(self)@.touched(*key),
    {
        proof {
            self@.lemma_touched(*key);
        }
        self.get(key)
    }

    /// Stores the pair as [`Segmented::put`] does.
    fn put_basic(&mut self, key: i32, value: V)
        ensures
            final(self)@ == old(self)@.stored(CacheEntry { key, value, weight: 1 }),
    {
        proof {
            self@.lemma_stored(CacheEntry { key, value, weight: 1 });
        }
        let _ = self.put(key, value);
    }
}

} // verus!
