//! Laws that relate several operations of the engine.
//!
//! Each law is stated over the spec functions the operations' own contracts
//! use, so it composes directly with those contracts: a caller who tracked a
//! chain of calls can apply the law to the states it saw.

use vstd::prelude::*;

use crate::engine::{FlashMap, ReadGuard};

verus! {

/// Law: snapshots are observed in publish order. A guard taken earlier and a
/// fresh guard taken later - after the history has only grown - observe
/// snapshots at non-decreasing positions of the later history, and the
/// earlier snapshot is still that entry of the later history.
pub proof fn lemma_snapshots_monotone<K: View, V>(
    m1: FlashMap<K, V>,
    m2: FlashMap<K, V>,
    g1: ReadGuard<K, V>,
    g2: ReadGuard<K, V>,
)
    requires
        m1.guard_wf(g1),
        m2.guard_wf(g2),
        m1.history().is_prefix_of(m2.history()),
        g2.epoch@ == m2.history().len() - 1,
    ensures
        g1.epoch@ <= g2.epoch@,
        m2.history()[g1.epoch@] == g1.snap@,
{
    assert(m2.history()[g1.epoch@] == m1.history()[g1.epoch@]);
}

/// Law: a published insert is visible to every later guard. If one state
/// came out of an insert of `(kv, v)`, the next out of a publish, and a
/// guard then observes the latest snapshot, the guard sees `v` under `kv`.
pub proof fn lemma_insert_publish_roundtrip<K: View, V>(
    m1: FlashMap<K, V>,
    m2: FlashMap<K, V>,
    m3: FlashMap<K, V>,
    g: ReadGuard<K, V>,
    kv: K::V,
    v: V,
)
    requires
        m2.writer_map() == m1.writer_map().insert(kv, v),
        m3.reader_map() == m2.writer_map(),
        g.snap@ == m3.reader_map(),
    ensures
        g.snap@.dom().contains(kv),
        g.snap@[kv] == v,
{
}

/// Law: a removal sticks. After removing `kv`, publishing, and bringing the
/// stale buffer up to date for the next session, the writer's buffer no
/// longer contains `kv` - so a second removal finds nothing.
pub proof fn lemma_remove_idempotent<K: View, V>(
    m1: FlashMap<K, V>,
    m2: FlashMap<K, V>,
    m3: FlashMap<K, V>,
    m4: FlashMap<K, V>,
    kv: K::V,
)
    requires
        m2.writer_map() == m1.writer_map().remove(kv),
        m3.reader_map() == m2.writer_map(),
        m4.writer_map() == m3.reader_map(),
    ensures
        !m4.writer_map().dom().contains(kv),
{
}

} // verus!
