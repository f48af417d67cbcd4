//! One buffer: an association list over the shared key and value arenas.
//!
//! The same key or value may live in both buffers at once, so a buffer never
//! owns its contents. Instead every key and value is stored once, in an arena
//! slot, and a buffer entry carries the two slot indices. The abstract
//! content of a buffer is the finite map from key views to values obtained by
//! reading the arenas through the entries.

use vstd::prelude::*;

use crate::deterministic::TrustedHashEq;

verus! {

/// One buffer entry: the arena slot of its key and of its value.
#[derive(Clone, Copy)]
pub struct Entry {
    pub kid: usize,
    pub vid: usize,
}

/// The entry's key slot is allocated and holds a key.
pub open spec fn entry_keyed<K: View>(e: Entry, keys: Seq<Option<K>>) -> bool {
    e.kid < keys.len() && keys[e.kid as int] is Some
}

/// The key view an entry denotes.
pub open spec fn ekey<K: View>(e: Entry, keys: Seq<Option<K>>) -> K::V {
    keys[e.kid as int].unwrap()@
}

/// The value an entry denotes.
pub open spec fn eval<V>(e: Entry, vals: Seq<Option<V>>) -> V {
    vals[e.vid as int].unwrap()
}

/// Well-formedness of a buffer apart from value liveness: all key slots are
/// live, slot indices are in bounds, and keys, key slots and value slots are
/// pairwise distinct.
pub open spec fn entries_keyed<K: View, V>(
    entries: Seq<Entry>,
    keys: Seq<Option<K>>,
    vals: Seq<Option<V>>,
) -> bool {
    &&& forall|i: int|
        0 <= i < entries.len() ==> entry_keyed(#[trigger] entries[i], keys) && entries[i].vid
            < vals.len()
    &&& forall|i: int, j: int|
        0 <= i < entries.len() && 0 <= j < entries.len() && i != j ==> ekey(
            #[trigger] entries[i],
            keys,
        ) != ekey(#[trigger] entries[j], keys)
    &&& forall|i: int, j: int|
        0 <= i < entries.len() && 0 <= j < entries.len() && i != j ==> (
        #[trigger] entries[i]).kid != (#[trigger] entries[j]).kid
    &&& forall|i: int, j: int|
        0 <= i < entries.len() && 0 <= j < entries.len() && i != j ==> (
        #[trigger] entries[i]).vid != (#[trigger] entries[j]).vid
}

/// Full well-formedness: additionally every value slot is live.
pub open spec fn entries_live<K: View, V>(
    entries: Seq<Entry>,
    keys: Seq<Option<K>>,
    vals: Seq<Option<V>>,
) -> bool {
    entries_keyed(entries, keys, vals) && forall|i: int|
        0 <= i < entries.len() ==> vals[(#[trigger] entries[i]).vid as int] is Some
}

/// The abstract content of a buffer: the map from key views to values.
pub open spec fn map_of<K: View, V>(
    entries: Seq<Entry>,
    keys: Seq<Option<K>>,
    vals: Seq<Option<V>>,
) -> Map<K::V, V>
    decreases entries.len(),
{
    if entries.len() == 0 {
        Map::empty()
    } else {
        map_of(entries.drop_last(), keys, vals).insert(
            ekey(entries.last(), keys),
            eval(entries.last(), vals),
        )
    }
}

/// Whether some entry denotes the given key view.
pub open spec fn has_key<K: View>(entries: Seq<Entry>, keys: Seq<Option<K>>, kv: K::V) -> bool {
    exists|i: int| 0 <= i < entries.len() && ekey(#[trigger] entries[i], keys) == kv
}

/// The entries' key views are exactly the domain of the abstract map.
pub proof fn lemma_map_of_dom<K: View, V>(
    entries: Seq<Entry>,
    keys: Seq<Option<K>>,
    vals: Seq<Option<V>>,
)
    ensures
        forall|kv: K::V| map_of(entries, keys, vals).dom().contains(kv) == has_key(
            entries,
            keys,
            kv,
        ),
        map_of(entries, keys, vals).dom().finite(),
    decreases entries.len(),
{
    if entries.len() == 0 {
    } else {
        lemma_map_of_dom::<K, V>(entries.drop_last(), keys, vals);
        assert forall|kv: K::V| map_of(entries, keys, vals).dom().contains(kv) == has_key(
            entries,
            keys,
            kv,
        ) by {
            let m = map_of(entries, keys, vals);
            let lastk = ekey(entries.last(), keys);
            if m.dom().contains(kv) {
                if kv == lastk {
                    assert(ekey(entries[entries.len() - 1], keys) == kv);
                    assert(has_key(entries, keys, kv));
                } else {
                    assert(map_of(entries.drop_last(), keys, vals).dom().contains(kv));
                    assert(has_key(entries.drop_last(), keys, kv));
                    let i = choose|i: int|
                        0 <= i < entries.drop_last().len() && ekey(
                            #[trigger] entries.drop_last()[i],
                            keys,
                        ) == kv;
                    assert(entries.drop_last()[i] == entries[i]);
                    assert(ekey(entries[i], keys) == kv);
                    assert(has_key(entries, keys, kv));
                }
            }
            if has_key(entries, keys, kv) {
                let i = choose|i: int|
                    0 <= i < entries.len() && ekey(#[trigger] entries[i], keys) == kv;
                if i < entries.len() - 1 {
                    assert(entries.drop_last()[i] == entries[i]);
                    assert(ekey(entries.drop_last()[i], keys) == kv);
                    assert(has_key(entries.drop_last(), keys, kv));
                    assert(map_of(entries.drop_last(), keys, vals).dom().contains(kv));
                    assert(m.dom().contains(kv));
                } else {
                    assert(kv == lastk);
                    assert(m.dom().contains(kv));
                }
            }
        }
    }
}

/// Each entry's key maps to that entry's value.
pub proof fn lemma_map_of_index<K: View, V>(
    entries: Seq<Entry>,
    keys: Seq<Option<K>>,
    vals: Seq<Option<V>>,
    i: int,
)
    requires
        entries_keyed(entries, keys, vals),
        0 <= i < entries.len(),
    ensures
        map_of(entries, keys, vals).dom().contains(ekey(entries[i], keys)),
        map_of(entries, keys, vals)[ekey(entries[i], keys)] == eval(entries[i], vals),
    decreases entries.len(),
{
    if i == entries.len() - 1 {
    } else {
        assert(entries_keyed(entries.drop_last(), keys, vals));
        lemma_map_of_index::<K, V>(entries.drop_last(), keys, vals, i);
        assert(ekey(entries[i], keys) != ekey(entries.last(), keys));
    }
}

/// A buffer with distinct keys denotes a map with one element per entry.
pub proof fn lemma_map_of_len<K: View, V>(
    entries: Seq<Entry>,
    keys: Seq<Option<K>>,
    vals: Seq<Option<V>>,
)
    requires
        entries_keyed(entries, keys, vals),
    ensures
        map_of(entries, keys, vals).dom().len() == entries.len(),
    decreases entries.len(),
{
    if entries.len() == 0 {
        assert(map_of(entries, keys, vals).dom() =~= Set::<K::V>::empty());
    } else {
        let sub = entries.drop_last();
        assert(entries_keyed(sub, keys, vals));
        lemma_map_of_len::<K, V>(sub, keys, vals);
        lemma_map_of_dom::<K, V>(sub, keys, vals);
        let k = ekey(entries.last(), keys);
        assert(!has_key(sub, keys, k)) by {
            if has_key(sub, keys, k) {
                let i = choose|i: int| 0 <= i < sub.len() && ekey(#[trigger] sub[i], keys) == k;
                assert(ekey(entries[i], keys) == ekey(entries[entries.len() - 1], keys));
            }
        }
        vstd::set::axiom_set_insert_len(map_of(sub, keys, vals).dom(), k);
        assert(map_of(entries, keys, vals).dom() =~= map_of(sub, keys, vals).dom().insert(k));
    }
}

/// Two buffers whose entries denote the same keys and values denote the same
/// map, whatever arenas each one reads.
pub proof fn lemma_map_of_congruent<K: View, V>(
    e1: Seq<Entry>,
    k1: Seq<Option<K>>,
    v1: Seq<Option<V>>,
    e2: Seq<Entry>,
    k2: Seq<Option<K>>,
    v2: Seq<Option<V>>,
)
    requires
        e1.len() == e2.len(),
        forall|i: int|
            0 <= i < e1.len() ==> ekey(#[trigger] e1[i], k1) == ekey(#[trigger] e2[i], k2) && eval(
                e1[i],
                v1,
            ) == eval(e2[i], v2),
    ensures
        map_of(e1, k1, v1) == map_of(e2, k2, v2),
    decreases e1.len(),
{
    if e1.len() > 0 {
        lemma_map_of_congruent(e1.drop_last(), k1, v1, e2.drop_last(), k2, v2);
    }
}

/// Appending an entry inserts its pair into the map.
pub proof fn lemma_map_of_push<K: View, V>(
    entries: Seq<Entry>,
    keys: Seq<Option<K>>,
    vals: Seq<Option<V>>,
    e: Entry,
)
    ensures
        map_of(entries.push(e), keys, vals) == map_of(entries, keys, vals).insert(
            ekey(e, keys),
            eval(e, vals),
        ),
{
    assert(entries.push(e).drop_last() =~= entries);
}

/// Updating the value slot of one entry updates that key's image.
pub proof fn lemma_map_of_update<K: View, V>(
    entries: Seq<Entry>,
    keys: Seq<Option<K>>,
    vals: Seq<Option<V>>,
    i: int,
    e: Entry,
)
    requires
        entries_keyed(entries, keys, vals),
        0 <= i < entries.len(),
        ekey(e, keys) == ekey(entries[i], keys),
        e.kid < keys.len() && keys[e.kid as int] is Some,
    ensures
        map_of(entries.update(i, e), keys, vals) == map_of(entries, keys, vals).insert(
            ekey(e, keys),
            eval(e, vals),
        ),
    decreases entries.len(),
{
    let up = entries.update(i, e);
    if i == entries.len() - 1 {
        assert(up.drop_last() =~= entries.drop_last());
        assert(up.last() == e);
        assert(map_of(up, keys, vals) =~= map_of(entries, keys, vals).insert(
            ekey(e, keys),
            eval(e, vals),
        ));
    } else {
        assert(up.drop_last() =~= entries.drop_last().update(i, e));
        assert(up.last() == entries.last());
        assert(entries_keyed(entries.drop_last(), keys, vals));
        lemma_map_of_update(entries.drop_last(), keys, vals, i, e);
        assert(ekey(e, keys) != ekey(entries.last(), keys)) by {
            assert(ekey(entries[i], keys) != ekey(entries[entries.len() - 1], keys));
        }
        assert(map_of(up, keys, vals) =~= map_of(entries, keys, vals).insert(
            ekey(e, keys),
            eval(e, vals),
        ));
    }
}

/// Removing an entry removes its key from the map.
pub proof fn lemma_map_of_remove<K: View, V>(
    entries: Seq<Entry>,
    keys: Seq<Option<K>>,
    vals: Seq<Option<V>>,
    i: int,
)
    requires
        entries_keyed(entries, keys, vals),
        0 <= i < entries.len(),
    ensures
        map_of(entries.remove(i), keys, vals) == map_of(entries, keys, vals).remove(
            ekey(entries[i], keys),
        ),
    decreases entries.len(),
{
    let rm = entries.remove(i);
    let k = ekey(entries[i], keys);
    if i == entries.len() - 1 {
        assert(rm =~= entries.drop_last());
        lemma_map_of_dom::<K, V>(entries.drop_last(), keys, vals);
        assert(!has_key(entries.drop_last(), keys, k)) by {
            if has_key(entries.drop_last(), keys, k) {
                let j = choose|j: int|
                    0 <= j < entries.drop_last().len() && ekey(
                        #[trigger] entries.drop_last()[j],
                        keys,
                    ) == k;
                assert(ekey(entries[j], keys) == ekey(entries[i], keys));
            }
        }
        assert(map_of(rm, keys, vals) =~= map_of(entries, keys, vals).remove(k));
    } else {
        assert(rm.drop_last() =~= entries.drop_last().remove(i));
        assert(rm.last() == entries.last());
        assert(entries_keyed(entries.drop_last(), keys, vals));
        lemma_map_of_remove(entries.drop_last(), keys, vals, i);
        assert(ekey(entries[i], keys) != ekey(entries[entries.len() - 1], keys));
        assert(map_of(rm, keys, vals) =~= map_of(entries, keys, vals).remove(k));
    }
}

/// Finds the entry whose key equals the given key, comparing through the key
/// arena with the trusted equality.
pub fn find_key<K: TrustedHashEq, V>(
    entries: &Vec<Entry>,
    keys: &Vec<Option<K>>,
    vals: &Vec<Option<V>>,
    key: &K,
) -> (r: Option<usize>)
    requires
        entries_keyed(entries@, keys@, vals@),
    ensures
        match r {
            Some(i) => i < entries@.len() && ekey(entries@[i as int], keys@) == key@,
            None => !has_key(entries@, keys@, key@),
        },
{
    let n = entries.len();
    let mut i: usize = 0;
    while i < n
        invariant
            n == entries@.len(),
            i <= n,
            entries_keyed(entries@, keys@, vals@),
            forall|j: int| 0 <= j < i ==> ekey(#[trigger] entries@[j], keys@) != key@,
        decreases n - i,
    {
        let e = entries[i];
        match &keys[e.kid] {
            Some(k) => {
                if k.th_eq(key) {
                    return Some(i);
                }
            },
            None => {
                proof {
                    assert(false);
                }
            },
        }
        i = i + 1;
    }
    None
}

/// Finds the entry whose key slot is `kid`.
pub fn find_kid(entries: &Vec<Entry>, kid: usize) -> (r: Option<usize>)
    ensures
        match r {
            Some(i) => i < entries@.len() && entries@[i as int].kid == kid && forall|j: int|
                0 <= j < i ==> (#[trigger] entries@[j]).kid != kid,
            None => forall|j: int| 0 <= j < entries@.len() ==> (#[trigger] entries@[j]).kid != kid,
        },
{
    let n = entries.len();
    let mut i: usize = 0;
    while i < n
        invariant
            n == entries@.len(),
            i <= n,
            forall|j: int| 0 <= j < i ==> (#[trigger] entries@[j]).kid != kid,
        decreases n - i,
    {
        if entries[i].kid == kid {
            return Some(i);
        }
        i = i + 1;
    }
    None
}

} // verus!
