//! Maps that remember the order in which their keys came, as mathematical
//! values: a sequence of entries, no key twice.

use vstd::prelude::*;

verus! {

/// The index of the first entry with key `key`, or the number of entries where
/// there is none.
pub open spec fn index_of_key<K, V>(entries: Seq<(K, V)>, key: K) -> int
    decreases entries.len(),
{
    if entries.len() == 0 || entries[0].0 == key {
        0
    } else {
        1 + index_of_key(entries.drop_first(), key)
    }
}

/// Whether some entry has key `key`.
pub open spec fn has_key<K, V>(entries: Seq<(K, V)>, key: K) -> bool {
    index_of_key(entries, key) < entries.len()
}

/// The value stored under `key`.
pub open spec fn value_of<K, V>(entries: Seq<(K, V)>, key: K) -> Option<V> {
    if has_key(entries, key) {
        Some(entries[index_of_key(entries, key)].1)
    } else {
        None
    }
}

/// The keys, in order.
pub open spec fn keys<K, V>(entries: Seq<(K, V)>) -> Seq<K> {
    Seq::new(entries.len(), |i: int| entries[i].0)
}

/// No key occurs twice.
pub open spec fn distinct_keys<K, V>(entries: Seq<(K, V)>) -> bool {
    forall|i: int, j: int|
        0 <= i < j < entries.len() ==> (#[trigger] entries[i]).0 != (#[trigger] entries[j]).0
}

/// The entries after `value` is stored under `key`: where the key is there
/// already it keeps its place and gets the new value; a new key goes last.
pub open spec fn put<K, V>(entries: Seq<(K, V)>, key: K, value: V) -> Seq<(K, V)> {
    let at = index_of_key(entries, key);
    if at < entries.len() {
        entries.update(at, (entries[at].0, value))
    } else {
        entries.push((key, value))
    }
}

/// `keys` with `key` noted: added at the end unless it is there.
pub open spec fn noted<K>(keys: Seq<K>, key: K) -> Seq<K> {
    if keys.contains(key) {
        keys
    } else {
        keys.push(key)
    }
}

/// `keys` with each of `more` noted, one after the other.
pub open spec fn noted_all<K>(keys: Seq<K>, more: Seq<K>) -> Seq<K>
    decreases more.len(),
{
    if more.len() == 0 {
        keys
    } else {
        noted_all(noted(keys, more[0]), more.drop_first())
    }
}

/// The entries after each of `more` is stored, one after the other.
pub open spec fn stored<K, V>(entries: Seq<(K, V)>, more: Seq<(K, V)>) -> Seq<(K, V)>
    decreases more.len(),
{
    if more.len() == 0 {
        entries
    } else {
        stored(put(entries, more[0].0, more[0].1), more.drop_first())
    }
}

/// No entry behind the one at `i` has its key.
pub open spec fn is_last_of_its_key<K, V>(entries: Seq<(K, V)>, i: int) -> bool {
    forall|j: int| i < j < entries.len() ==> (#[trigger] entries[j]).0 != entries[i].0
}

/// `index_of_key` finds the first entry with the key, and only such a one.
pub proof fn lemma_index_of_key<K, V>(entries: Seq<(K, V)>, key: K)
    ensures
        0 <= index_of_key(entries, key) <= entries.len(),
        forall|j: int| 0 <= j < index_of_key(entries, key) ==> (#[trigger] entries[j]).0 != key,
        has_key(entries, key) ==> entries[index_of_key(entries, key)].0 == key,
    decreases entries.len(),
{
    if entries.len() == 0 || entries[0].0 == key {
    } else {
        let rest = entries.drop_first();
        lemma_index_of_key(rest, key);
        assert forall|j: int| 0 <= j < index_of_key(entries, key) implies (#[trigger] entries[j]).0
            != key by {
            if j > 0 {
                assert(entries[j] == rest[j - 1]);
            }
        }
        if has_key(entries, key) {
            assert(entries[index_of_key(entries, key)] == rest[index_of_key(rest, key)]);
        }
    }
}

/// Storing under a key that is there changes no key; storing under a new key
/// adds it at the end.
pub proof fn lemma_put_keys<K, V>(entries: Seq<(K, V)>, key: K, value: V)
    ensures
        has_key(entries, key) ==> keys(put(entries, key, value)) == keys(entries),
        !has_key(entries, key) ==> keys(put(entries, key, value)) == keys(entries).push(key),
{
    lemma_index_of_key(entries, key);
    if has_key(entries, key) {
        assert(keys(put(entries, key, value)) =~= keys(entries));
    } else {
        assert(keys(put(entries, key, value)) =~= keys(entries).push(key));
    }
}

/// Storing under a key notes the key.
pub proof fn lemma_put_notes_key<K, V>(entries: Seq<(K, V)>, key: K, value: V)
    ensures
        keys(put(entries, key, value)) == noted(keys(entries), key),
{
    lemma_index_of_key(entries, key);
    lemma_put_keys(entries, key, value);
    if has_key(entries, key) {
        assert(keys(entries)[index_of_key(entries, key)] == key);
    } else if keys(entries).contains(key) {
        let j = choose|j: int| 0 <= j < keys(entries).len() && keys(entries)[j] == key;
        assert(entries[j].0 == key);
    }
}

/// After storing, each value is the one just stored or one that was there.
pub proof fn lemma_put_values<K, V>(entries: Seq<(K, V)>, key: K, value: V, i: int)
    requires
        0 <= i < put(entries, key, value).len(),
    ensures
        put(entries, key, value)[i].1 == value || (i < entries.len() && put(entries, key, value)[i]
            == entries[i]),
{
    lemma_index_of_key(entries, key);
}

/// What was stored last under a key is what is found there; the other keys
/// keep their values.
pub proof fn lemma_put_value<K, V>(entries: Seq<(K, V)>, key: K, value: V, other: K)
    ensures
        value_of(put(entries, key, value), key) == Some(value),
        other != key ==> value_of(put(entries, key, value), other) == value_of(entries, other),
{
    lemma_index_of_put(entries, key, value, key);
    lemma_index_of_put(entries, key, value, other);
    lemma_index_of_key(entries, key);
    lemma_index_of_key(entries, other);
}

/// Storing moves no key: each key is found where it was, and a new one at the
/// end.
pub proof fn lemma_index_of_put<K, V>(entries: Seq<(K, V)>, key: K, value: V, other: K)
    ensures
        other == key || has_key(entries, other) ==> index_of_key(put(entries, key, value), other)
            == index_of_key(entries, other),
        other != key && !has_key(entries, other) ==> !has_key(put(entries, key, value), other),
    decreases entries.len(),
{
    lemma_index_of_key(entries, key);
    lemma_index_of_key(entries, other);
    let after = put(entries, key, value);
    if entries.len() == 0 {
        assert(after.drop_first().len() == 0);
        assert(index_of_key(after.drop_first(), other) == 0);
    } else {
        let rest = entries.drop_first();
        lemma_index_of_key(rest, key);
        lemma_index_of_key(rest, other);
        if entries[0].0 == key {
            assert(after[0].0 == key);
            assert(after.drop_first() =~= rest);
        } else {
            assert(after[0] == entries[0]);
            assert(after.drop_first() =~= put(rest, key, value));
            lemma_index_of_put(rest, key, value, other);
        }
    }
}

/// Storing keeps the keys distinct.
pub proof fn lemma_put_distinct<K, V>(entries: Seq<(K, V)>, key: K, value: V)
    requires
        distinct_keys(entries),
    ensures
        distinct_keys(put(entries, key, value)),
{
    lemma_index_of_key(entries, key);
    let after = put(entries, key, value);
    assert forall|i: int, j: int| 0 <= i < j < after.len() implies (#[trigger] after[i]).0 != (
    #[trigger] after[j]).0 by {
        if has_key(entries, key) {
            assert(after[i].0 == entries[i].0);
            assert(after[j].0 == entries[j].0);
        } else if j == entries.len() {
            assert(after[i] == entries[i]);
        } else {
            assert(after[i] == entries[i]);
            assert(after[j] == entries[j]);
        }
    }
}

/// Storing under other keys leaves a key as it is: there or not there, and
/// with its value.
pub proof fn lemma_stored_other_keys<K, V>(entries: Seq<(K, V)>, more: Seq<(K, V)>, key: K)
    requires
        forall|j: int| 0 <= j < more.len() ==> (#[trigger] more[j]).0 != key,
    ensures
        value_of(stored(entries, more), key) == value_of(entries, key),
    decreases more.len(),
{
    if more.len() > 0 {
        lemma_put_value(entries, more[0].0, more[0].1, key);
        let rest = more.drop_first();
        assert forall|j: int| 0 <= j < rest.len() implies (#[trigger] rest[j]).0 != key by {
            assert(rest[j] == more[j + 1]);
        }
        lemma_stored_other_keys(put(entries, more[0].0, more[0].1), rest, key);
    }
}

/// Of the entries stored under one key the last one decides: its value is
/// what is found under the key.
pub proof fn lemma_stored_last_wins<K, V>(entries: Seq<(K, V)>, more: Seq<(K, V)>, i: int)
    requires
        0 <= i < more.len(),
        is_last_of_its_key(more, i),
    ensures
        value_of(stored(entries, more), more[i].0) == Some(more[i].1),
    decreases more.len(),
{
    let rest = more.drop_first();
    let after = put(entries, more[0].0, more[0].1);
    if i == 0 {
        assert forall|j: int| 0 <= j < rest.len() implies (#[trigger] rest[j]).0 != more[0].0 by {
            assert(rest[j] == more[j + 1]);
        }
        lemma_stored_other_keys(after, rest, more[0].0);
        lemma_put_value(entries, more[0].0, more[0].1, more[0].0);
    } else {
        assert(rest[i - 1] == more[i]);
        assert forall|j: int| i - 1 < j < rest.len() implies (#[trigger] rest[j]).0 != rest[i
            - 1].0 by {
            assert(rest[j] == more[j + 1]);
        }
        lemma_stored_last_wins(after, rest, i - 1);
    }
}

/// Storing notes the keys in the order in which they come.
pub proof fn lemma_stored_keys<K, V>(entries: Seq<(K, V)>, more: Seq<(K, V)>)
    ensures
        keys(stored(entries, more)) == noted_all(keys(entries), keys(more)),
    decreases more.len(),
{
    if more.len() > 0 {
        lemma_put_notes_key(entries, more[0].0, more[0].1);
        lemma_stored_keys(put(entries, more[0].0, more[0].1), more.drop_first());
        assert(keys(more).drop_first() =~= keys(more.drop_first()));
    }
}

/// Entries of which no key is there yet, and none comes twice, are stored as
/// they come.
pub proof fn lemma_stored_new<K, V>(entries: Seq<(K, V)>, more: Seq<(K, V)>)
    requires
        (keys(entries) + keys(more)).no_duplicates(),
    ensures
        stored(entries, more) == entries + more,
    decreases more.len(),
{
    if more.len() == 0 {
        assert(entries + more =~= entries);
    } else {
        let all = keys(entries) + keys(more);
        lemma_index_of_key(entries, more[0].0);
        if has_key(entries, more[0].0) {
            let j = index_of_key(entries, more[0].0);
            assert(all[j] == all[entries.len() as int]);
        }
        let after = put(entries, more[0].0, more[0].1);
        assert(after == entries.push(more[0]));
        assert(keys(after) + keys(more.drop_first()) =~= all);
        assert(after + more.drop_first() =~= entries + more);
        lemma_stored_new(after, more.drop_first());
    }
}

} // verus!
