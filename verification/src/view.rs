//! A scoped view of the map through a guard.
//!
//! A view wraps a guard token and offers the map operations that are legal
//! under that guard: read-only lookups for a read session, mutation for a
//! write session. Because the engine value itself carries the buffers, every
//! operation also takes the map; the guard decides which buffer it sees.

use vstd::prelude::*;

use crate::deterministic::TrustedHashEq;
use vstd::view::View as VstdView;
use crate::engine::{is_value_of, Evicted, FlashMap, Leaked, ReadGuard};

verus! {

/// The token of an open write session: mutation is legal while it exists.
pub struct WriteGuard;

/// A guard together with the operations it permits.
pub struct View<G> {
    /// The guard that scopes this view.
    pub guard: G,
}

impl<G> View<G> {
    /// Wraps a guard.
    pub fn new(guard: G) -> (r: View<G>)
        ensures
            r.guard == guard,
    {
        View { guard }
    }
}

impl<K: TrustedHashEq, V> View<ReadGuard<K, V>> {
    /// The snapshot this view observes.
    pub open spec fn snapshot(self) -> Map<K::V, V> {
        self.guard.snap@
    }

    /// Whether the observed snapshot is empty.
    pub fn is_empty(&self, map: &FlashMap<K, V>) -> (r: bool)
        requires
            map.wf(),
            map.guard_wf(self.guard),
        ensures
            r == (self.snapshot().dom().len() == 0),
    {
        map.is_empty(&self.guard)
    }

    /// The number of entries in the observed snapshot.
    pub fn len(&self, map: &FlashMap<K, V>) -> (r: usize)
        requires
            map.wf(),
            map.guard_wf(self.guard),
        ensures
            r as int == self.snapshot().dom().len(),
    {
        map.len(&self.guard)
    }

    /// Whether the observed snapshot contains the key.
    pub fn contains_key(&self, map: &FlashMap<K, V>, key: &K) -> (r: bool)
        requires
            map.wf(),
            map.guard_wf(self.guard),
        ensures
            r == self.snapshot().dom().contains(key@),
    {
        map.contains_key(&self.guard, key)
    }

    /// Looks the key up in the observed snapshot.
    pub fn get<'a>(&self, map: &'a FlashMap<K, V>, key: &K) -> (r: Option<&'a V>)
        requires
            map.wf(),
            map.guard_wf(self.guard),
        ensures
            match r {
                Some(v) => self.snapshot().dom().contains(key@) && *v == self.snapshot()[key@],
                None => !self.snapshot().dom().contains(key@),
            },
    {
        map.get(&self.guard, key)
    }

    /// All pairs of the observed snapshot, in arbitrary order, each key once.
    pub fn iter<'a>(&self, map: &'a FlashMap<K, V>) -> (r: Vec<(&'a K, &'a V)>)
        requires
            map.wf(),
            map.guard_wf(self.guard),
        ensures
            r@.len() == self.snapshot().dom().len(),
            forall|j: int|
                0 <= j < r@.len() ==> self.snapshot().dom().contains((#[trigger] r@[j]).0@)
                    && self.snapshot()[(r@[j]).0@] == *r@[j].1,
    {
        map.iter(&self.guard)
    }

    /// All keys of the observed snapshot, in arbitrary order, each once.
    pub fn keys<'a>(&self, map: &'a FlashMap<K, V>) -> (r: Vec<&'a K>)
        requires
            map.wf(),
            map.guard_wf(self.guard),
        ensures
            r@.len() == self.snapshot().dom().len(),
            forall|j: int| 0 <= j < r@.len() ==> self.snapshot().dom().contains((#[trigger] r@[j])@),
    {
        map.keys(&self.guard)
    }

    /// All values of the observed snapshot, in arbitrary order, one per key.
    pub fn values<'a>(&self, map: &'a FlashMap<K, V>) -> (r: Vec<&'a V>)
        requires
            map.wf(),
            map.guard_wf(self.guard),
        ensures
            r@.len() == self.snapshot().dom().len(),
            forall|j: int| 0 <= j < r@.len() ==> is_value_of(self.snapshot(), *(#[trigger] r@[j])),
    {
        map.values(&self.guard)
    }
}

impl View<WriteGuard> {
    /// Inserts a pair through the write session. See [`FlashMap::insert`].
    pub fn insert<K: TrustedHashEq, V>(&mut self, map: &mut FlashMap<K, V>, key: K, value: V) -> (r:
        Option<Evicted<V>>)
        requires
            old(map).wf(),
            old(map).is_writing(),
        ensures
            final(map).wf(),
            final(map).is_writing(),
            final(map).writer_map() == old(map).writer_map().insert(key@, value),
            final(map).reader_map() == old(map).reader_map(),
            (r is Some) == old(map).writer_map().dom().contains(key@),
            r matches Some(e) ==> final(map).evicted_wf(e) && e.val@ == old(map).writer_map()[key@],
    {
        map.insert(key, value)
    }

    /// Replaces the value of a present key. See [`FlashMap::replace`].
    pub fn replace<K: TrustedHashEq, V, F: Fn(&V) -> V>(
        &mut self,
        map: &mut FlashMap<K, V>,
        key: K,
        f: F,
    ) -> (r: Option<Evicted<V>>)
        requires
            old(map).wf(),
            old(map).is_writing(),
            old(map).writer_map().dom().contains(key@) ==> f.requires(
                (&old(map).writer_map()[key@],),
            ),
        ensures
            final(map).wf(),
            final(map).is_writing(),
            final(map).reader_map() == old(map).reader_map(),
            (r is Some) == old(map).writer_map().dom().contains(key@),
            r is None ==> final(map).writer_map() == old(map).writer_map(),
            r matches Some(e) ==> (exists|nv: V|
                f.ensures((&old(map).writer_map()[key@],), nv) && final(map).writer_map() == old(
                    map,
                ).writer_map().insert(key@, nv)) && final(map).evicted_wf(e) && e.val@ == old(
                map,
            ).writer_map()[key@],
    {
        map.replace(key, f)
    }

    /// Removes a key through the write session. See [`FlashMap::remove`].
    pub fn remove<K: TrustedHashEq, V>(&mut self, map: &mut FlashMap<K, V>, key: K) -> (r: Option<
        Evicted<V>,
    >)
        requires
            old(map).wf(),
            old(map).is_writing(),
        ensures
            final(map).wf(),
            final(map).is_writing(),
            final(map).writer_map() == old(map).writer_map().remove(key@),
            final(map).reader_map() == old(map).reader_map(),
            (r is Some) == old(map).writer_map().dom().contains(key@),
            r matches Some(e) ==> final(map).evicted_wf(e) && e.val@ == old(map).writer_map()[key@],
    {
        map.remove(key)
    }

    /// Hands a leaked value back for a deferred drop. See
    /// [`FlashMap::drop_lazily`].
    pub fn drop_lazily<K: vstd::view::View, V>(&self, map: &mut FlashMap<K, V>, l: Leaked<V>)
        requires
            old(map).wf(),
            old(map).is_writing(),
            old(map).leaked_wf(l),
        ensures
            final(map).wf(),
            final(map).is_writing(),
            final(map).leaked_set() == old(map).leaked_set().remove(l.vid as int),
            final(map).writer_map() == old(map).writer_map(),
            final(map).reader_map() == old(map).reader_map(),
    {
        map.drop_lazily(l)
    }

    /// Ends the write session, publishing its changes to new readers. See
    /// [`FlashMap::publish`].
    pub fn publish<K: vstd::view::View, V>(self, map: &mut FlashMap<K, V>)
        requires
            old(map).wf(),
            old(map).is_writing(),
        ensures
            final(map).wf(),
            !final(map).is_writing(),
            final(map).reader_map() == old(map).writer_map(),
            final(map).writer_map() == old(map).reader_map(),
            final(map).history() == old(map).history().push(old(map).writer_map()),
    {
        map.publish()
    }
}

} // verus!
