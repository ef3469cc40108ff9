//! Association lists with unique keys, kept in plain vectors of pairs.
//!
//! The reliability endpoint, the channels, the assembler and the server keep
//! their keyed state this way; these spec functions and lemmas give them a
//! common map-like view.
use vstd::prelude::*;

verus! {

/// True when some entry carries this key.
pub open spec fn assoc_has<K, V>(entries: Seq<(K, V)>, key: K) -> bool {
    exists|j: int| 0 <= j < entries.len() && (#[trigger] entries[j]).0 == key
}

/// The value of the first entry carrying this key.
pub open spec fn assoc_lookup<K, V>(entries: Seq<(K, V)>, key: K) -> Option<V>
    decreases entries.len(),
{
    if entries.len() == 0 {
        None
    } else if entries[0].0 == key {
        Some(entries[0].1)
    } else {
        assoc_lookup(entries.skip(1), key)
    }
}

/// No two entries share a key.
pub open spec fn assoc_unique<K, V>(entries: Seq<(K, V)>) -> bool {
    forall|i: int, j: int| 0 <= i < j < entries.len() ==> (#[trigger] entries[i]).0 != (
    #[trigger] entries[j]).0
}

/// A key is found exactly when some entry carries it.
pub proof fn lemma_lookup_some_iff_has<K, V>(entries: Seq<(K, V)>, key: K)
    ensures
        assoc_lookup(entries, key) is Some <==> assoc_has(entries, key),
    decreases entries.len(),
{
    if entries.len() > 0 {
        lemma_lookup_some_iff_has(entries.skip(1), key);
        if entries[0].0 == key {
        } else {
            if assoc_has(entries, key) {
                let j = choose|j: int|
                    0 <= j < entries.len() && (#[trigger] entries[j]).0 == key;
                assert(entries.skip(1)[j - 1] == entries[j]);
            }
            if assoc_has(entries.skip(1), key) {
                let j = choose|j: int|
                    0 <= j < entries.skip(1).len() && (#[trigger] entries.skip(1)[j]).0 == key;
                assert(entries[j + 1] == entries.skip(1)[j]);
            }
        }
    }
}

/// A successful lookup names the value of some entry.
pub proof fn lemma_lookup_index_of<K, V>(entries: Seq<(K, V)>, key: K)
    requires
        assoc_lookup(entries, key) is Some,
    ensures
        exists|j: int| 0 <= j < entries.len() && (#[trigger] entries[j]).0 == key && entries[j].1
            == assoc_lookup(entries, key).unwrap(),
    decreases entries.len(),
{
    if entries.len() > 0 {
        if entries[0].0 == key {
            assert(entries[0].0 == key && entries[0].1 == assoc_lookup(entries, key).unwrap());
        } else {
            lemma_lookup_index_of(entries.skip(1), key);
            let j = choose|j: int|
                0 <= j < entries.skip(1).len() && (#[trigger] entries.skip(1)[j]).0 == key
                    && entries.skip(1)[j].1 == assoc_lookup(entries.skip(1), key).unwrap();
            assert(entries[j + 1] == entries.skip(1)[j]);
        }
    }
}

/// With unique keys, looking up the key of the entry at `j` yields that
/// entry's value.
pub proof fn lemma_lookup_at_index<K, V>(entries: Seq<(K, V)>, j: int)
    requires
        assoc_unique(entries),
        0 <= j < entries.len(),
    ensures
        assoc_lookup(entries, entries[j].0) == Some(entries[j].1),
    decreases j,
{
    if j == 0 {
    } else {
        assert(entries[0].0 != entries[j].0);
        assert(entries.skip(1)[j - 1] == entries[j]);
        assert(assoc_unique(entries.skip(1))) by {
            assert(forall|a: int, b: int|
                0 <= a < b < entries.skip(1).len() ==> entries.skip(1)[a] == entries[a + 1]
                    && entries.skip(1)[b] == entries[b + 1]);
        }
        lemma_lookup_at_index(entries.skip(1), j - 1);
    }
}

/// Appending a fresh key leaves every other lookup unchanged and makes the
/// new key map to the new value.
pub proof fn lemma_lookup_push<K, V>(entries: Seq<(K, V)>, key: K, v: V)
    requires
        !assoc_has(entries, key),
    ensures
        assoc_unique(entries) ==> assoc_unique(entries.push((key, v))),
        assoc_lookup(entries.push((key, v)), key) == Some(v),
        forall|k2: K| k2 != key ==> assoc_lookup(entries.push((key, v)), k2) == assoc_lookup(
            entries,
            k2,
        ),
    decreases entries.len(),
{
    let pushed = entries.push((key, v));
    if entries.len() == 0 {
        assert(pushed[0] == (key, v));
        assert(pushed.skip(1) =~= Seq::<(K, V)>::empty());
        assert forall|k2: K| k2 != key implies assoc_lookup(pushed, k2) == assoc_lookup(
            entries,
            k2,
        ) by {
            assert(assoc_lookup(pushed, k2) == assoc_lookup(Seq::<(K, V)>::empty(), k2));
        }
    } else {
        assert(pushed[0] == entries[0]);
        assert(entries[0].0 != key);
        assert(pushed.skip(1) =~= entries.skip(1).push((key, v)));
        assert(!assoc_has(entries.skip(1), key)) by {
            if assoc_has(entries.skip(1), key) {
                let j = choose|j: int|
                    0 <= j < entries.skip(1).len() && (#[trigger] entries.skip(1)[j]).0 == key;
                assert(entries[j + 1] == entries.skip(1)[j]);
            }
        }
        lemma_lookup_push(entries.skip(1), key, v);
        assert forall|k2: K| k2 != key implies assoc_lookup(pushed, k2) == assoc_lookup(
            entries,
            k2,
        ) by {
            if entries[0].0 == k2 {
            } else {
                assert(assoc_lookup(pushed, k2) == assoc_lookup(pushed.skip(1), k2));
                assert(assoc_lookup(entries.skip(1).push((key, v)), k2) == assoc_lookup(
                    entries.skip(1),
                    k2,
                ));
                assert(assoc_lookup(entries, k2) == assoc_lookup(entries.skip(1), k2));
            }
        }
    }
    if assoc_unique(entries) {
        assert forall|i: int, j: int| 0 <= i < j < pushed.len() implies (#[trigger] pushed[i]).0
            != (#[trigger] pushed[j]).0 by {
            if j < entries.len() {
            } else {
                assert(pushed[j] == (key, v));
                assert(pushed[i] == entries[i]);
            }
        }
    }
}

/// Removing the entry at `idx` removes its key and leaves every other lookup
/// unchanged.
pub proof fn lemma_lookup_remove<K, V>(entries: Seq<(K, V)>, idx: int)
    requires
        assoc_unique(entries),
        0 <= idx < entries.len(),
    ensures
        assoc_unique(entries.remove(idx)),
        assoc_lookup(entries.remove(idx), entries[idx].0) is None,
        !assoc_has(entries.remove(idx), entries[idx].0),
        forall|k2: K| k2 != entries[idx].0 ==> assoc_lookup(entries.remove(idx), k2)
            == assoc_lookup(entries, k2),
    decreases idx,
{
    let removed = entries.remove(idx);
    lemma_lookup_some_iff_has(removed, entries[idx].0);
    if idx == 0 {
        assert(removed =~= entries.skip(1));
        assert(assoc_unique(removed)) by {
            assert(forall|a: int, b: int|
                0 <= a < b < removed.len() ==> removed[a] == entries[a + 1] && removed[b]
                    == entries[b + 1]);
        }
        lemma_lookup_some_iff_has(entries.skip(1), entries[0].0);
        assert(!assoc_has(entries.skip(1), entries[0].0)) by {
            if assoc_has(entries.skip(1), entries[0].0) {
                let j = choose|j: int|
                    0 <= j < entries.skip(1).len() && (#[trigger] entries.skip(1)[j]).0
                        == entries[0].0;
                assert(entries[j + 1] == entries.skip(1)[j]);
            }
        }
    } else {
        assert(removed[0] == entries[0]);
        assert(removed.skip(1) =~= entries.skip(1).remove(idx - 1));
        assert(assoc_unique(entries.skip(1))) by {
            assert(forall|a: int, b: int|
                0 <= a < b < entries.skip(1).len() ==> entries.skip(1)[a] == entries[a + 1]
                    && entries.skip(1)[b] == entries[b + 1]);
        }
        assert(entries.skip(1)[idx - 1] == entries[idx]);
        lemma_lookup_remove(entries.skip(1), idx - 1);
        assert(assoc_unique(removed)) by {
            assert(forall|a: int, b: int|
                0 <= a < b < removed.len() && a >= 1 ==> removed[a] == entries.skip(1).remove(
                    idx - 1,
                )[a - 1] && removed[b] == entries.skip(1).remove(idx - 1)[b - 1]);
            assert forall|b: int| 1 <= b < removed.len() implies removed[0].0 != (
            #[trigger] removed[b]).0 by {
                let orig = if b < idx {
                    b
                } else {
                    b + 1
                };
                assert(removed[b] == entries[orig]);
            }
        }
        assert(entries[idx].0 != entries[0].0);
        assert forall|k2: K| k2 != entries[idx].0 implies assoc_lookup(removed, k2)
            == assoc_lookup(entries, k2) by {
            if k2 != entries[0].0 {
                assert(assoc_lookup(removed, k2) == assoc_lookup(removed.skip(1), k2));
                assert(assoc_lookup(entries.skip(1).remove(idx - 1), k2) == assoc_lookup(
                    entries.skip(1),
                    k2,
                ));
                assert(assoc_lookup(entries, k2) == assoc_lookup(entries.skip(1), k2));
            }
        }
    }
}

/// Consuming the front of a suffix advances the suffix by one.
pub proof fn lemma_skip_front<V>(s: Seq<V>, k: int)
    requires
        0 <= k < s.len(),
    ensures
        s.skip(k)[0] == s[k],
        s.skip(k).remove(0) == s.skip(k + 1),
{
    assert(s.skip(k)[0] == s[k]);
    assert forall|i: int| 0 <= i < s.skip(k).remove(0).len() implies s.skip(k).remove(0)[i]
        == s.skip(k + 1)[i] by {
        assert(s.skip(k)[i + 1] == s[k + i + 1]);
        assert(s.skip(k + 1)[i] == s[k + 1 + i]);
    }
    assert(s.skip(k).remove(0) =~= s.skip(k + 1));
}

/// Finds the index of the first entry carrying `key`.
pub fn assoc_find<V>(entries: &Vec<(u16, V)>, key: u16) -> (r: Option<usize>)
    ensures
        match r {
            Some(i) => i < entries@.len() && entries@[i as int].0 == key,
            None => !assoc_has(entries@, key),
        },
{
    let mut i: usize = 0;
    let n = entries.len();
    while i < n
        invariant
            i <= n,
            n == entries@.len(),
            forall|j: int| 0 <= j < i ==> (#[trigger] entries@[j]).0 != key,
        decreases n - i,
    {
        if entries[i].0 == key {
            return Some(i);
        }
        i += 1;
    }
    None
}

/// Finds the index of the first entry carrying a 64-bit key.
pub fn assoc_find64<V>(entries: &Vec<(u64, V)>, key: u64) -> (r: Option<usize>)
    ensures
        match r {
            Some(i) => i < entries@.len() && entries@[i as int].0 == key,
            None => !assoc_has(entries@, key),
        },
{
    let mut i: usize = 0;
    let n = entries.len();
    while i < n
        invariant
            i <= n,
            n == entries@.len(),
            forall|j: int| 0 <= j < i ==> (#[trigger] entries@[j]).0 != key,
        decreases n - i,
    {
        if entries[i].0 == key {
            return Some(i);
        }
        i += 1;
    }
    None
}

/// Replacing the value at `idx`, keeping its key, changes only that key's
/// lookup.
pub proof fn lemma_lookup_update<K, V>(entries: Seq<(K, V)>, idx: int, v: V)
    requires
        assoc_unique(entries),
        0 <= idx < entries.len(),
    ensures
        assoc_unique(entries.update(idx, (entries[idx].0, v))),
        assoc_lookup(entries.update(idx, (entries[idx].0, v)), entries[idx].0) == Some(v),
        forall|k2: K| k2 != entries[idx].0 ==> assoc_lookup(
            entries.update(idx, (entries[idx].0, v)),
            k2,
        ) == assoc_lookup(entries, k2),
    decreases idx,
{
    let updated = entries.update(idx, (entries[idx].0, v));
    assert(assoc_unique(updated)) by {
        assert(forall|a: int|
            0 <= a < entries.len() ==> (#[trigger] updated[a]).0 == entries[a].0);
    }
    if idx == 0 {
        assert(updated[0] == (entries[0].0, v));
        assert(updated.skip(1) =~= entries.skip(1));
        assert forall|k2: K| k2 != entries[idx].0 implies assoc_lookup(updated, k2)
            == assoc_lookup(entries, k2) by {
            assert(assoc_lookup(updated, k2) == assoc_lookup(updated.skip(1), k2));
        }
    } else {
        assert(updated[0] == entries[0]);
        assert(entries[0].0 != entries[idx].0);
        assert(updated.skip(1) =~= entries.skip(1).update(idx - 1, (entries[idx].0, v)));
        assert(assoc_unique(entries.skip(1))) by {
            assert(forall|a: int, b: int|
                0 <= a < b < entries.skip(1).len() ==> entries.skip(1)[a] == entries[a + 1]
                    && entries.skip(1)[b] == entries[b + 1]);
        }
        assert(entries.skip(1)[idx - 1] == entries[idx]);
        lemma_lookup_update(entries.skip(1), idx - 1, v);
        assert forall|k2: K| k2 != entries[idx].0 implies assoc_lookup(updated, k2)
            == assoc_lookup(entries, k2) by {
            if k2 != entries[0].0 {
                assert(assoc_lookup(updated, k2) == assoc_lookup(updated.skip(1), k2));
                assert(assoc_lookup(entries.skip(1).update(idx - 1, (entries[idx].0, v)), k2)
                    == assoc_lookup(entries.skip(1), k2));
                assert(assoc_lookup(entries, k2) == assoc_lookup(entries.skip(1), k2));
            }
        }
    }
}

} // verus!
