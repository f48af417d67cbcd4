//! A single-writer, multi-reader key-value map with snapshot reads.
//!
//! The map keeps two buffers. The writer mutates one of them privately and
//! publishes all pending changes at once by swapping the buffers' roles;
//! readers observe a consistent snapshot of the last published state. An
//! operation log records the writer's mutations so that the stale buffer can
//! be brought up to date before it is written again, and evicted values are
//! reclaimed only once no reader can still observe them.

pub mod buffer;
pub mod deterministic;
pub mod engine;
pub mod laws;
pub mod map_index;
pub mod oplog;
pub mod refcount;
pub mod residual;
pub mod slots;
pub mod view;

pub use deterministic::TrustedHashEq;
pub use engine::{Evicted, FlashMap, Leaked, ReadGuard, ReadHandle};
pub use map_index::MapIndex;
pub use refcount::{ReaderStatus, RefCount};
pub use view::{View, WriteGuard};

use vstd::prelude::*;

verus! {

/// A builder for a map: the initial buffer capacity and the writer's
/// identity. Distinct maps should be given distinct identities so that a
/// leaked value returned to the wrong map is detected.
pub struct Builder {
    /// The initial capacity of the arenas.
    pub capacity: usize,
    /// The identity the map's writer will carry.
    pub uid: u64,
}

impl Builder {
    /// A builder with zero capacity and the default identity.
    pub fn new() -> (r: Builder)
        ensures
            r.capacity == 0,
            r.uid == 0,
    {
        Builder { capacity: 0, uid: 0 }
    }

    /// Sets the initial capacity of the map.
    pub fn with_capacity(self, capacity: usize) -> (r: Builder)
        ensures
            r.capacity == capacity,
            r.uid == self.uid,
    {
        Builder { capacity, uid: self.uid }
    }

    /// Sets the identity the map's writer will carry.
    pub fn with_uid(self, uid: u64) -> (r: Builder)
        ensures
            r.capacity == self.capacity,
            r.uid == uid,
    {
        Builder { capacity: self.capacity, uid }
    }

    /// Consumes the builder and returns the map - which is the write handle
    /// - together with the first read handle.
    pub fn build<K: vstd::view::View, V>(self) -> (r: (FlashMap<K, V>, ReadHandle))
        ensures
            r.0.wf(),
            r.0.reader_map() == Map::<K::V, V>::empty(),
            r.0.writer_map() == Map::<K::V, V>::empty(),
            !r.0.is_writing(),
            r.0.residual_count() == 0,
            r.0.spec_uid() == self.uid,
            r.0.history() == seq![Map::<K::V, V>::empty()],
            r.0.leaked_set() == Set::<int>::empty(),
            r.0.reader_registered(r.1.key as int),
            r.0.reader_count(r.1.key as int) == 0,
            r.0.total_guards() == 0,
    {
        FlashMap::build_map(self.capacity, self.uid)
    }
}

impl Default for Builder {
    /// The same builder as [`Builder::new`].
    fn default() -> (r: Builder)
        ensures
            r.capacity == 0,
            r.uid == 0,
    {
        Builder::new()
    }
}

/// Creates a new, empty map with default settings.
pub fn new<K: vstd::view::View, V>() -> (r: (FlashMap<K, V>, ReadHandle))
    ensures
        r.0.wf(),
        r.0.reader_map() == Map::<K::V, V>::empty(),
        r.0.writer_map() == Map::<K::V, V>::empty(),
        !r.0.is_writing(),
        r.0.residual_count() == 0,
        r.0.history() == seq![Map::<K::V, V>::empty()],
        r.0.leaked_set() == Set::<int>::empty(),
        r.0.reader_registered(r.1.key as int),
        r.0.reader_count(r.1.key as int) == 0,
        r.0.total_guards() == 0,
{
    Builder::new().build()
}

/// Creates a new, empty map with the given initial capacity.
pub fn with_capacity<K: vstd::view::View, V>(capacity: usize) -> (r: (FlashMap<K, V>, ReadHandle))
    ensures
        r.0.wf(),
        r.0.reader_map() == Map::<K::V, V>::empty(),
        r.0.writer_map() == Map::<K::V, V>::empty(),
        !r.0.is_writing(),
        r.0.residual_count() == 0,
        r.0.history() == seq![Map::<K::V, V>::empty()],
        r.0.leaked_set() == Set::<int>::empty(),
        r.0.reader_registered(r.1.key as int),
        r.0.reader_count(r.1.key as int) == 0,
        r.0.total_guards() == 0,
{
    Builder::new().with_capacity(capacity).build()
}

} // verus!
