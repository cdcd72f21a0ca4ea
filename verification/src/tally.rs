//! Counting how often each key occurs in a list, and where it occurs first.

use std::collections::HashMap;
use vstd::prelude::*;

verus! {

broadcast use vstd::std_specs::hash::group_hash_axioms;

/// How often `k` occurs in `keys`.
pub open spec fn occurrences<A>(keys: Seq<A>, k: A) -> nat
    decreases keys.len(),
{
    if keys.len() == 0 {
        0
    } else {
        occurrences(keys.drop_last(), k) + if keys.last() == k {
            1nat
        } else {
            0nat
        }
    }
}

/// Whether the key at position `m` occurs at no earlier position.
pub open spec fn is_first<A>(keys: Seq<A>, m: int) -> bool {
    &&& 0 <= m < keys.len()
    &&& forall|n: int| 0 <= n < m ==> #[trigger] keys[n] != keys[m]
}

/// The positions below `n` at which a key occurs for the first time, in
/// rising order.
pub open spec fn firsts<A>(keys: Seq<A>, n: int) -> Seq<int>
    decreases n,
{
    if n <= 0 {
        Seq::empty()
    } else if is_first(keys, n - 1) {
        firsts(keys, n - 1).push(n - 1)
    } else {
        firsts(keys, n - 1)
    }
}

/// A key does not occur more often than the list is long.
pub proof fn lemma_occurrences_bound<A>(keys: Seq<A>, k: A)
    ensures
        occurrences(keys, k) <= keys.len(),
        keys.contains(k) <==> occurrences(keys, k) > 0,
    decreases keys.len(),
{
    if keys.len() > 0 {
        let shorter = keys.drop_last();
        lemma_occurrences_bound(shorter, k);
        if shorter.contains(k) {
            let m = shorter.index_of(k);
            assert(keys[m] == k);
        }
        if keys.contains(k) {
            let m = keys.index_of(k);
            if m < shorter.len() {
                assert(shorter[m] == k);
            }
        }
    }
}

/// How often each key of a list occurs.
pub struct Tally {
    counts: HashMap<u64, usize>,
}

impl Tally {
    /// How often the tally has counted `k`.
    pub closed spec fn count_of(&self, k: u64) -> nat {
        if self.counts@.contains_key(k) {
            self.counts@[k] as nat
        } else {
            0
        }
    }

    /// Counts the keys of `keys`.
    pub fn of(keys: &Vec<u64>) -> (tally: Tally)
        ensures
            forall|k: u64| tally.count_of(k) == occurrences(keys@, k),
    {
        let mut counts: HashMap<u64, usize> = HashMap::new();
        let mut i: usize = 0;
        while i < keys.len()
            invariant
                i <= keys.len(),
                forall|k: u64|
                    counts@.contains_key(k) ==> #[trigger] counts@[k] == occurrences(
                        keys@.take(i as int),
                        k,
                    ),
                forall|k: u64|
                    !counts@.contains_key(k) ==> #[trigger] occurrences(keys@.take(i as int), k) == 0,
            decreases keys.len() - i,
        {
            let key: u64 = keys[i];
            let ghost before = keys@.take(i as int);
            let ghost after = keys@.take(i + 1);
            proof {
                assert(after.drop_last() =~= before);
                assert(after.last() == key);
                lemma_occurrences_bound(after, key);
            }
            let seen: usize = match counts.get(&key) {
                Some(n) => *n,
                None => 0,
            };
            let ghost old_counts = counts@;
            counts.insert(key, seen + 1);
            proof {
                assert forall|k: u64| !counts@.contains_key(k) implies #[trigger] occurrences(
                    after,
                    k,
                ) == 0 by {
                    assert(!old_counts.contains_key(k));
                    assert(occurrences(before, k) == 0);
                }
                assert forall|k: u64| counts@.contains_key(k) implies #[trigger] counts@[k]
                    == occurrences(after, k) by {
                    if k != key {
                        assert(old_counts.contains_key(k));
                        assert(old_counts[k] == occurrences(before, k));
                    } else if !old_counts.contains_key(k) {
                        assert(occurrences(before, k) == 0);
                    }
                }
            }
            i += 1;
        }
        assert(keys@.take(keys.len() as int) =~= keys@);
        Tally { counts }
    }

    /// How often `k` was counted.
    pub fn count(&self, k: u64) -> (n: usize)
        ensures
            n == self.count_of(k),
    {
        match self.counts.get(&k) {
            Some(n) => *n,
            None => 0,
        }
    }
}

/// The positions of `keys` at which a key occurs for the first time, in
/// rising order.
pub fn first_occurrences(keys: &Vec<u64>) -> (places: Vec<usize>)
    ensures
        places@.len() == firsts(keys@, keys.len() as int).len(),
        forall|i: int| 0 <= i < places.len() ==> #[trigger] places[i] == firsts(
            keys@,
            keys.len() as int,
        )[i],
{
    let mut seen: HashMap<u64, bool> = HashMap::new();
    let mut places: Vec<usize> = Vec::new();
    let mut i: usize = 0;
    while i < keys.len()
        invariant
            i <= keys.len(),
            forall|k: u64| seen@.contains_key(k) <==> keys@.take(i as int).contains(k),
            places@.len() == firsts(keys@, i as int).len(),
            forall|m: int| 0 <= m < places.len() ==> #[trigger] places[m] == firsts(keys@, i as int)[m],
        decreases keys.len() - i,
    {
        let key: u64 = keys[i];
        let ghost before = keys@.take(i as int);
        let ghost after = keys@.take(i + 1);
        let known = seen.contains_key(&key);
        proof {
            if before.contains(key) {
                let m = before.index_of(key);
                assert(keys[m] == key);
            }
            if !is_first(keys@, i as int) {
                let n = choose|n: int| 0 <= n < i && keys[n] == keys[i as int];
                assert(before[n] == key);
            }
            assert(known == !is_first(keys@, i as int));
        }
        if !known {
            seen.insert(key, true);
            places.push(i);
        }
        proof {
            assert forall|k: u64| seen@.contains_key(k) <==> after.contains(k) by {
                if after.contains(k) {
                    let m = after.index_of(k);
                    if m < i {
                        assert(before[m] == k);
                    }
                }
                if before.contains(k) {
                    let m = before.index_of(k);
                    assert(after[m] == k);
                }
                assert(after[i as int] == key);
            }
        }
        i += 1;
    }
    places
}

/// For each key, in the order in which the keys occur first: the position
/// at which it occurs first, and how often it occurs.
pub fn first_counts(keys: &Vec<u64>) -> (counts: Vec<(usize, usize)>)
    ensures
        counts.len() == firsts(keys@, keys.len() as int).len(),
        forall|i: int|
            0 <= i < counts.len() ==> (#[trigger] counts[i]).0 == firsts(keys@, keys.len() as int)[i]
                && counts[i].0 < keys.len() && counts[i].1 == occurrences(
                keys@,
                keys[counts[i].0 as int],
            ),
{
    let tally = Tally::of(keys);
    let places = first_occurrences(keys);
    let mut counts: Vec<(usize, usize)> = Vec::new();
    let mut i: usize = 0;
    proof {
        lemma_firsts(keys@, keys.len() as int);
    }
    while i < places.len()
        invariant
            i <= places.len(),
            places@.len() == firsts(keys@, keys.len() as int).len(),
            forall|m: int|
                0 <= m < places.len() ==> #[trigger] places[m] == firsts(keys@, keys.len() as int)[m]
                    && places[m] < keys.len(),
            forall|k: u64| tally.count_of(k) == occurrences(keys@, k),
            counts.len() == i,
            forall|m: int|
                0 <= m < i ==> (#[trigger] counts[m]).0 == places[m] && counts[m].1 == occurrences(
                    keys@,
                    keys[places[m] as int],
                ),
        decreases places.len() - i,
    {
        let place: usize = places[i];
        counts.push((place, tally.count(keys[place])));
        i += 1;
    }
    counts
}

/// Every position of a first occurrence is listed by `firsts`, each position
/// listed is one, and the list rises.
pub proof fn lemma_firsts<A>(keys: Seq<A>, n: int)
    requires
        0 <= n <= keys.len(),
    ensures
        forall|i: int| 0 <= i < firsts(keys, n).len() ==> is_first(keys, #[trigger] firsts(keys, n)[i])
            && firsts(keys, n)[i] < n,
        forall|i: int, j: int|
            0 <= i < j < firsts(keys, n).len() ==> #[trigger] firsts(keys, n)[i] < #[trigger] firsts(
                keys,
                n,
            )[j],
        forall|m: int| 0 <= m < n && is_first(keys, m) ==> firsts(keys, n).contains(m),
    decreases n,
{
    if n > 0 {
        lemma_firsts(keys, n - 1);
        let earlier = firsts(keys, n - 1);
        let all = firsts(keys, n);
        assert forall|m: int| 0 <= m < n && is_first(keys, m) implies all.contains(m) by {
            if m < n - 1 {
                assert(earlier.contains(m));
                let i = earlier.index_of(m);
                assert(all[i] == m);
            } else {
                assert(all[all.len() - 1] == m);
            }
        }
    }
}

/// Counting the keys of items is counting the items, where different items
/// have different keys.
pub proof fn lemma_keyed<A>(items: Seq<A>, keys: Seq<u64>, n: int)
    requires
        keys.len() == items.len(),
        0 <= n <= items.len(),
        forall|i: int, j: int|
            0 <= i < items.len() && 0 <= j < items.len() ==> (#[trigger] keys[i] == #[trigger] keys[j]
                <==> items[i] == items[j]),
    ensures
        firsts(keys, n) == firsts(items, n),
        forall|m: int|
            0 <= m < items.len() ==> occurrences(keys.take(n), #[trigger] keys[m]) == occurrences(
                items.take(n),
                items[m],
            ),
    decreases n,
{
    if n > 0 {
        lemma_keyed(items, keys, n - 1);
        assert(is_first(keys, n - 1) == is_first(items, n - 1)) by {
            if !is_first(keys, n - 1) {
                let i = choose|i: int| 0 <= i < n - 1 && #[trigger] keys[i] == keys[n - 1];
                assert(items[i] == items[n - 1]);
            }
            if !is_first(items, n - 1) {
                let i = choose|i: int| 0 <= i < n - 1 && #[trigger] items[i] == items[n - 1];
                assert(keys[i] == keys[n - 1]);
            }
        }
        assert(keys.take(n).drop_last() =~= keys.take(n - 1));
        assert(items.take(n).drop_last() =~= items.take(n - 1));
        assert forall|m: int| 0 <= m < items.len() implies occurrences(
            keys.take(n),
            #[trigger] keys[m],
        ) == occurrences(items.take(n), items[m]) by {
            assert(keys.take(n).last() == keys[n - 1]);
            assert(items.take(n).last() == items[n - 1]);
        }
    }
}

} // verus!
