//! Lists of entries, each a key with a value, that stand for mappings.

use vstd::prelude::*;

verus! {

/// No key occurs twice among the entries.
pub open spec fn distinct_keys<K, V>(entries: Seq<(K, V)>) -> bool {
    forall|i: int, j: int|
        0 <= i < entries.len() && 0 <= j < entries.len() && #[trigger] entries[i].0
            == #[trigger] entries[j].0 ==> i == j
}

/// Some entry has the key `key`.
pub open spec fn has_key<K, V>(entries: Seq<(K, V)>, key: K) -> bool {
    exists|i: int| 0 <= i < entries.len() && #[trigger] entries[i].0 == key
}

/// The place of an entry with the key `key`.
pub open spec fn place_of<K, V>(entries: Seq<(K, V)>, key: K) -> int {
    choose|i: int| 0 <= i < entries.len() && #[trigger] entries[i].0 == key
}

/// The mapping that a sequence of entries stands for.
pub open spec fn entries_map<K, V>(entries: Seq<(K, V)>) -> Map<K, V> {
    Map::new(|key: K| has_key(entries, key), |key: K| entries[place_of(entries, key)].1)
}

/// The entries after `key` has been given `value`: a key that is among the
/// entries keeps its place, a new key goes behind the other entries.
pub open spec fn inserted<K, V>(entries: Seq<(K, V)>, key: K, value: V) -> Seq<(K, V)> {
    if has_key(entries, key) {
        entries.update(place_of(entries, key), (key, value))
    } else {
        entries.push((key, value))
    }
}

/// The entries after `key` has been taken out: the last entry takes the
/// place of the one that leaves, and the other entries stay where they are.
pub open spec fn removed<K, V>(entries: Seq<(K, V)>, key: K) -> Seq<(K, V)> {
    if has_key(entries, key) {
        entries.update(place_of(entries, key), entries.last()).drop_last()
    } else {
        entries
    }
}

/// Among entries with distinct keys, the entry at place `i` is the one that
/// the mapping holds for its key.
pub proof fn lemma_entry_in_map<K, V>(entries: Seq<(K, V)>, i: int)
    requires
        distinct_keys(entries),
        0 <= i < entries.len(),
    ensures
        entries_map(entries).contains_key(entries[i].0),
        entries_map(entries)[entries[i].0] == entries[i].1,
{
    assert(has_key(entries, entries[i].0));
}

/// Appending an entry with a new key inserts it into the mapping.
pub proof fn lemma_push_inserts<K, V>(
    entries: Seq<(K, V)>,
    key: K,
    value: V,
)
    requires
        distinct_keys(entries),
        !has_key(entries, key),
    ensures
        distinct_keys(entries.push((key, value))),
        entries_map(entries.push((key, value))) == entries_map(entries).insert(key, value),
{
    let after = entries.push((key, value));
    assert(distinct_keys(after)) by {
        assert forall|i: int, j: int|
            0 <= i < after.len() && 0 <= j < after.len() && #[trigger] after[i].0
                == #[trigger] after[j].0 implies i == j by {
            if i < entries.len() && j < entries.len() {
                assert(entries[i].0 == entries[j].0);
            } else if i < entries.len() {
                assert(entries[i].0 == key);
            } else if j < entries.len() {
                assert(entries[j].0 == key);
            }
        }
    }
    assert forall|k: K| has_key(after, k) <==> (k == key || has_key(entries, k)) by {
        if has_key(after, k) {
            let i = place_of(after, k);
            if i < entries.len() {
                assert(entries[i].0 == k);
            }
        }
        if k == key {
            assert(after[entries.len() as int].0 == k);
        }
        if has_key(entries, k) {
            let i = place_of(entries, k);
            assert(after[i].0 == k);
        }
    }
    assert forall|k: K| has_key(after, k) implies #[trigger] entries_map(after)[k]
        == entries_map(entries).insert(key, value)[k] by {
        let i = place_of(after, k);
        if k == key {
            assert(after[entries.len() as int].0 == key);
        } else {
            let j = place_of(entries, k);
            assert(after[j].0 == k);
        }
    }
    assert(entries_map(after) =~= entries_map(entries).insert(key, value));
}

/// Giving the entry at place `i` another value gives its key that value in
/// the mapping.
pub proof fn lemma_update_inserts<K, V>(
    entries: Seq<(K, V)>,
    i: int,
    value: V,
)
    requires
        distinct_keys(entries),
        0 <= i < entries.len(),
    ensures
        distinct_keys(entries.update(i, (entries[i].0, value))),
        entries_map(entries.update(i, (entries[i].0, value))) == entries_map(entries).insert(
            entries[i].0,
            value,
        ),
{
    let key = entries[i].0;
    let after = entries.update(i, (key, value));
    assert(distinct_keys(after)) by {
        assert forall|a: int, b: int|
            0 <= a < after.len() && 0 <= b < after.len() && #[trigger] after[a].0
                == #[trigger] after[b].0 implies a == b by {
            assert(entries[a].0 == after[a].0);
            assert(entries[b].0 == after[b].0);
        }
    }
    assert forall|k: K| has_key(after, k) <==> has_key(entries, k) by {
        if has_key(after, k) {
            let a = place_of(after, k);
            assert(entries[a].0 == k);
        }
        if has_key(entries, k) {
            let a = place_of(entries, k);
            assert(after[a].0 == k);
        }
    }
    assert(has_key(entries, key));
    assert forall|k: K| has_key(after, k) implies #[trigger] entries_map(after)[k]
        == entries_map(entries).insert(key, value)[k] by {
        let a = place_of(after, k);
        assert(entries[a].0 == k);
        if k != key {
            let b = place_of(entries, k);
            assert(a == b);
        } else {
            assert(a == i);
        }
    }
    assert(entries_map(after) =~= entries_map(entries).insert(key, value));
}

/// Taking out the entry at place `i`, with the last entry in its place,
/// removes its key from the mapping.
pub proof fn lemma_remove_removes<K, V>(entries: Seq<(K, V)>, i: int)
    requires
        distinct_keys(entries),
        0 <= i < entries.len(),
    ensures
        distinct_keys(entries.update(i, entries.last()).drop_last()),
        entries_map(entries.update(i, entries.last()).drop_last()) == entries_map(entries).remove(
            entries[i].0,
        ),
{
    let key = entries[i].0;
    let last = entries.len() - 1;
    let after = entries.update(i, entries.last()).drop_last();
    assert forall|a: int| 0 <= a < after.len() implies #[trigger] after[a] == entries[if a == i {
        last
    } else {
        a
    }] by {}
    assert(distinct_keys(after)) by {
        assert forall|a: int, b: int|
            0 <= a < after.len() && 0 <= b < after.len() && #[trigger] after[a].0
                == #[trigger] after[b].0 implies a == b by {
            let a0 = if a == i { last } else { a };
            let b0 = if b == i { last } else { b };
            assert(entries[a0].0 == entries[b0].0);
        }
    }
    assert forall|k: K| has_key(after, k) <==> (k != key && has_key(entries, k)) by {
        if has_key(after, k) {
            let a = place_of(after, k);
            let a0 = if a == i { last } else { a };
            assert(entries[a0].0 == k);
        }
        if k != key && has_key(entries, k) {
            let b = place_of(entries, k);
            let b1 = if b == last { i } else { b };
            assert(after[b1].0 == k);
        }
    }
    assert forall|k: K| has_key(after, k) implies #[trigger] entries_map(after)[k]
        == entries_map(entries).remove(key)[k] by {
        let a = place_of(after, k);
        let a0 = if a == i { last } else { a };
        assert(entries[a0].0 == k);
        let b = place_of(entries, k);
        assert(a0 == b);
    }
    assert(entries_map(after) =~= entries_map(entries).remove(key));
}

/// Giving a key a value keeps the keys distinct and inserts into the
/// mapping.
pub proof fn lemma_inserted<K, V>(
    entries: Seq<(K, V)>,
    key: K,
    value: V,
)
    requires
        distinct_keys(entries),
    ensures
        distinct_keys(inserted(entries, key, value)),
        entries_map(inserted(entries, key, value)) == entries_map(entries).insert(key, value),
{
    if has_key(entries, key) {
        lemma_update_inserts(entries, place_of(entries, key), value);
    } else {
        lemma_push_inserts(entries, key, value);
    }
}

/// Taking a key out keeps the keys distinct and removes from the mapping.
pub proof fn lemma_removed<K, V>(entries: Seq<(K, V)>, key: K)
    requires
        distinct_keys(entries),
    ensures
        distinct_keys(removed(entries, key)),
        entries_map(removed(entries, key)) == entries_map(entries).remove(key),
{
    if has_key(entries, key) {
        lemma_remove_removes(entries, place_of(entries, key));
    } else {
        assert(entries_map(entries) =~= entries_map(entries).remove(key));
    }
}

} // verus!
