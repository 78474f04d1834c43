//! Sequences read as maps and as sets.
//!
//! The registry keeps its tables in vectors in which no key occurs twice.
//! Here such a sequence is given its meaning as a map, together with what
//! pushing, removing and replacing a pair does to that map. Loops that
//! walk a sequence speak of the set of what they have passed.

use vstd::prelude::*;

verus! {

/// No key occurs twice.
pub open spec fn keys_distinct<K, V>(entries: Seq<(K, V)>) -> bool {
    forall|i: int, j: int|
        0 <= i < j < entries.len() ==> (#[trigger] entries[i]).0 != (#[trigger] entries[j]).0
}

/// Whether `key` occurs.
pub open spec fn has_key<K, V>(entries: Seq<(K, V)>, key: K) -> bool {
    exists|i: int| 0 <= i < entries.len() && (#[trigger] entries[i]).0 == key
}

/// A position at which `key` occurs, if it does.
pub open spec fn position<K, V>(entries: Seq<(K, V)>, key: K) -> int {
    choose|i: int| 0 <= i < entries.len() && (#[trigger] entries[i]).0 == key
}

/// The map that sends each key to the value it is paired with.
pub open spec fn as_map<K, V>(entries: Seq<(K, V)>) -> Map<K, V> {
    Map::new(|key: K| has_key(entries, key), |key: K| entries[position(entries, key)].1)
}

/// The pair at position `i` is in the map.
pub proof fn lemma_entry_in_map<K, V>(entries: Seq<(K, V)>, i: int)
    requires
        keys_distinct(entries),
        0 <= i < entries.len(),
    ensures
        as_map(entries).contains_key(entries[i].0),
        as_map(entries)[entries[i].0] == entries[i].1,
        position(entries, entries[i].0) == i,
{
    let key = entries[i].0;
    assert(has_key(entries, key));
    let p = position(entries, key);
    assert(0 <= p < entries.len() && entries[p].0 == key);
    if p < i {
        assert(entries[p].0 != entries[i].0);
    }
    if i < p {
        assert(entries[i].0 != entries[p].0);
    }
}

/// A key of the map occurs at its position.
pub proof fn lemma_key_has_position<K, V>(entries: Seq<(K, V)>, key: K)
    requires
        as_map(entries).contains_key(key),
    ensures
        0 <= position(entries, key) < entries.len(),
        entries[position(entries, key)].0 == key,
        as_map(entries)[key] == entries[position(entries, key)].1,
{
    assert(has_key(entries, key));
}

/// The map of no pairs is empty.
pub proof fn lemma_empty_map<K, V>(entries: Seq<(K, V)>)
    requires
        entries.len() == 0,
    ensures
        as_map(entries) =~= Map::<K, V>::empty(),
        keys_distinct(entries),
{
}

/// Pushing a pair with a new key inserts it into the map.
pub proof fn lemma_push_inserts<K, V>(entries: Seq<(K, V)>, key: K, value: V)
    requires
        keys_distinct(entries),
        !as_map(entries).contains_key(key),
    ensures
        keys_distinct(entries.push((key, value))),
        as_map(entries.push((key, value))) =~= as_map(entries).insert(key, value),
{
    let after = entries.push((key, value));
    assert forall|i: int, j: int| 0 <= i < j < after.len() implies (#[trigger] after[i]).0 != (
    #[trigger] after[j]).0 by {
        if j < entries.len() {
            assert(entries[i].0 != entries[j].0);
        } else {
            assert(after[i] == entries[i]);
            if after[i].0 == key {
                assert(has_key(entries, key));
            }
        }
    }
    assert forall|k: K| as_map(after).contains_key(k) <==> as_map(entries).insert(
        key,
        value,
    ).contains_key(k) by {
        if has_key(after, k) {
            let p = position(after, k);
            if p < entries.len() {
                assert(entries[p].0 == k);
                assert(has_key(entries, k));
            }
        }
        if has_key(entries, k) {
            let p = position(entries, k);
            assert(after[p].0 == k);
            assert(has_key(after, k));
        }
        if k == key {
            assert(after[entries.len() as int].0 == k);
            assert(has_key(after, k));
        }
    }
    assert forall|k: K| as_map(after).contains_key(k) implies as_map(after)[k] == as_map(
        entries,
    ).insert(key, value)[k] by {
        let p = position(after, k);
        lemma_key_has_position(after, k);
        if p < entries.len() {
            assert(entries[p] == after[p]);
            lemma_entry_in_map(entries, p);
        }
    }
}

/// Removing the pair at position `i` removes its key from the map.
pub proof fn lemma_remove_removes<K, V>(entries: Seq<(K, V)>, i: int)
    requires
        keys_distinct(entries),
        0 <= i < entries.len(),
    ensures
        keys_distinct(entries.remove(i)),
        as_map(entries.remove(i)) =~= as_map(entries).remove(entries[i].0),
{
    let after = entries.remove(i);
    let gone = entries[i].0;
    assert forall|a: int, b: int| 0 <= a < b < after.len() implies (#[trigger] after[a]).0 != (
    #[trigger] after[b]).0 by {
        let a0 = if a < i {
            a
        } else {
            a + 1
        };
        let b0 = if b < i {
            b
        } else {
            b + 1
        };
        assert(after[a] == entries[a0]);
        assert(after[b] == entries[b0]);
        assert(entries[a0].0 != entries[b0].0);
    }
    assert forall|k: K| as_map(after).contains_key(k) <==> as_map(entries).remove(
        gone,
    ).contains_key(k) by {
        if has_key(after, k) {
            let p = position(after, k);
            let p0 = if p < i {
                p
            } else {
                p + 1
            };
            assert(after[p] == entries[p0]);
            assert(has_key(entries, k));
            if p0 < i {
                assert(entries[p0].0 != entries[i].0);
            } else {
                assert(entries[i].0 != entries[p0].0);
            }
        }
        if has_key(entries, k) && k != gone {
            let p = position(entries, k);
            let q = if p < i {
                p
            } else {
                p - 1
            };
            assert(after[q] == entries[p]);
            assert(has_key(after, k));
        }
    }
    assert forall|k: K| as_map(after).contains_key(k) implies as_map(after)[k] == as_map(
        entries,
    ).remove(gone)[k] by {
        let p = position(after, k);
        lemma_key_has_position(after, k);
        let p0 = if p < i {
            p
        } else {
            p + 1
        };
        assert(after[p] == entries[p0]);
        lemma_entry_in_map(entries, p0);
    }
}

/// Replacing the value at position `i` replaces it in the map.
pub proof fn lemma_update_replaces<K, V>(entries: Seq<(K, V)>, i: int, value: V)
    requires
        keys_distinct(entries),
        0 <= i < entries.len(),
    ensures
        keys_distinct(entries.update(i, (entries[i].0, value))),
        as_map(entries.update(i, (entries[i].0, value))) =~= as_map(entries).insert(
            entries[i].0,
            value,
        ),
{
    let key = entries[i].0;
    let after = entries.update(i, (key, value));
    assert forall|a: int, b: int| 0 <= a < b < after.len() implies (#[trigger] after[a]).0 != (
    #[trigger] after[b]).0 by {
        assert(after[a].0 == entries[a].0);
        assert(after[b].0 == entries[b].0);
        assert(entries[a].0 != entries[b].0);
    }
    assert forall|k: K| as_map(after).contains_key(k) <==> as_map(entries).insert(
        key,
        value,
    ).contains_key(k) by {
        if has_key(after, k) {
            let p = position(after, k);
            assert(entries[p].0 == k);
            assert(has_key(entries, k));
        }
        if has_key(entries, k) {
            let p = position(entries, k);
            assert(after[p].0 == k);
            assert(has_key(after, k));
        }
        if k == key {
            assert(after[i].0 == k);
            assert(has_key(after, k));
        }
    }
    assert forall|k: K| as_map(after).contains_key(k) implies as_map(after)[k] == as_map(
        entries,
    ).insert(key, value)[k] by {
        let p = position(after, k);
        lemma_key_has_position(after, k);
        lemma_entry_in_map(after, p);
        if p != i {
            assert(after[p] == entries[p]);
            lemma_entry_in_map(entries, p);
        }
    }
}

/// The map has as many keys as there are pairs.
pub proof fn lemma_map_size<K, V>(entries: Seq<(K, V)>)
    requires
        keys_distinct(entries),
    ensures
        as_map(entries).dom().finite(),
        as_map(entries).dom().len() == entries.len(),
    decreases entries.len(),
{
    if entries.len() == 0 {
        assert(as_map(entries).dom() =~= Set::<K>::empty());
    } else {
        let last = entries.len() - 1;
        let rest = entries.remove(last);
        lemma_remove_removes(entries, last);
        lemma_map_size(rest);
        lemma_entry_in_map(entries, last);
        assert(as_map(entries).dom() =~= as_map(rest).dom().insert(entries[last].0));
    }
}

/// The elements of `items` before position `end`.
pub open spec fn prefix_set<T>(items: Seq<T>, end: int) -> Set<T> {
    Set::new(
        |item: T| exists|j: int| 0 <= j < end && j < items.len() && #[trigger] items[j] == item,
    )
}

/// The whole of a sequence is a prefix of it.
pub proof fn lemma_prefix_set_all<T>(items: Seq<T>)
    ensures
        prefix_set(items, items.len() as int) =~= items.to_set(),
{
    assert forall|item: T| prefix_set(items, items.len() as int).contains(item)
        == items.to_set().contains(item) by {
        if items.contains(item) {
            let j = choose|j: int| 0 <= j < items.len() && items[j] == item;
            assert(items[j] == item);
        }
        if prefix_set(items, items.len() as int).contains(item) {
            let j = choose|j: int|
                0 <= j < items.len() && j < items.len() && #[trigger] items[j] == item;
            assert(items.contains(item));
        }
    }
}

/// A prefix that is one longer holds one more element.
pub proof fn lemma_prefix_set_next<T>(items: Seq<T>, end: int)
    requires
        0 <= end < items.len(),
    ensures
        prefix_set(items, end + 1) =~= prefix_set(items, end).insert(items[end]),
        items.no_duplicates() ==> !prefix_set(items, end).contains(items[end]),
{
    let done = prefix_set(items, end);
    let next = prefix_set(items, end + 1);
    assert forall|item: T| next.contains(item) == done.insert(items[end]).contains(item) by {
        if done.contains(item) {
            let j = choose|j: int| 0 <= j < end && j < items.len() && #[trigger] items[j] == item;
            assert(0 <= j < end + 1);
        }
        if item == items[end] {
            assert(items[end] == item);
        }
        if next.contains(item) {
            let j = choose|j: int|
                0 <= j < end + 1 && j < items.len() && #[trigger] items[j] == item;
            if j < end {
                assert(done.contains(item));
            }
        }
    }
    if items.no_duplicates() && done.contains(items[end]) {
        let j = choose|j: int|
            0 <= j < end && j < items.len() && #[trigger] items[j] == items[end];
        assert(items[j] != items[end]);
    }
}

} // verus!
