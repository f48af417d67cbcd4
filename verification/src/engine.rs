//! The engine: two buffers, the arenas, the operation log, the reader slots
//! and the residual counter, held together by one well-formedness invariant.
//!
//! The single writer owns the `FlashMap` value itself; readers are
//! registered in the slot slab and hold guards that pin one buffer. The
//! central invariant says that replaying the pending operation log over the
//! stale buffer reproduces the up-to-date buffer exactly, destroying only
//! slots that are live and unreferenced - which is what makes deferred
//! reclamation safe.

use vstd::prelude::*;

use crate::buffer::{entries_keyed, entries_live, has_key, map_of, Entry};
use crate::map_index::MapIndex;
use crate::oplog::{
    apply_log, apply_op, dropped_vid, evicted_vid, log_in_bounds, op_mentions_vid, payload_vid,
    Operation, RawOperation, SimState,
};
use crate::slots::{counts_sum, ReaderSlots};
use vstd::multiset::Multiset;

verus! {

broadcast use vstd::multiset::group_multiset_axioms;

/// Relies on num_cpus::get: the number of available processors, at least 1.
/// Used only to size the reader slab's initial allocation.
#[verifier::external_body]
pub(crate) fn cpu_count() -> (n: usize)
    ensures
        n >= 1,
{
    num_cpus::get()
}

/// The replay invariant, over the engine's components. See
/// [`FlashMap::sim_ok`].
pub open spec fn sim_ok_for<K: View, V>(
    log: Seq<Operation>,
    base: Seq<Entry>,
    target: Seq<Entry>,
    keys: Seq<Option<K>>,
    vals: Seq<Option<V>>,
    leaked: Set<int>,
) -> bool {
    match apply_log(log, SimState { entries: base, keys, vals }) {
        Some(stf) => {
            &&& stf.entries == target
            &&& entries_live(target, stf.keys, stf.vals)
            &&& forall|v: int|
                #[trigger] leaked.contains(v) ==> 0 <= v < stf.vals.len() && stf.vals[v] is Some
                    && (forall|i: int|
                    0 <= i < target.len() ==> (#[trigger] target[i]).vid != v)
        },
        None => false,
    }
}

/// The log's syntactic discipline, over the engine's components. See
/// [`FlashMap::log_discipline`].
pub open spec fn log_discipline_for(
    log: Seq<Operation>,
    target: Seq<Entry>,
    klen: int,
    vlen: int,
    leaked: Set<int>,
) -> bool {
    &&& log_in_bounds(log, klen, vlen)
    &&& forall|l: int, m: int|
        #![trigger log[l], log[m]]
        0 <= l < m < log.len() ==> (payload_vid(log[m]) matches Some(p) ==> (payload_vid(log[l])
            matches Some(q) ==> q < p) && (evicted_vid(log[l]) matches Some(q) ==> q < p) && (
        dropped_vid(log[l]) matches Some(q) ==> q < p))
    &&& forall|l: int, m: int|
        #![trigger log[l], log[m]]
        0 <= l < log.len() && 0 <= m < log.len() && l != m ==> (evicted_vid(log[l]) matches Some(
        a) ==> (evicted_vid(log[m]) matches Some(b) ==> a != b))
    &&& forall|l: int, m: int|
        #![trigger log[l], log[m]]
        0 <= l < log.len() && 0 <= m < log.len() ==> (dropped_vid(log[l]) matches Some(d) ==> (
        evicted_vid(log[m]) matches Some(t) ==> log[m].leaky || d != t))
    &&& forall|m: int, i: int|
        #![trigger log[m], target[i]]
        0 <= m < log.len() && 0 <= i < target.len() ==> (evicted_vid(log[m]) matches Some(t)
            ==> target[i].vid != t)
    &&& forall|m: int|
        0 <= m < log.len() ==> (evicted_vid(#[trigger] log[m]) matches Some(t) ==> log[m].leaky
            || !leaked.contains(t))
    &&& forall|l: int, i: int|
        #![trigger log[l], target[i]]
        0 <= l < log.len() && 0 <= i < target.len() ==> (dropped_vid(log[l]) matches Some(d)
            ==> target[i].vid != d)
}

/// The reader accounting, over the engine's components. See
/// [`FlashMap::readers_ok`].
pub open spec fn readers_ok_for(
    readers: ReaderSlots,
    gf: Multiset<int>,
    gs: Multiset<int>,
    residual: int,
    reader_side: MapIndex,
    writer_side: MapIndex,
) -> bool {
    &&& readers.all_wf()
    &&& readers.all_sides(reader_side)
    &&& forall|r: int|
        readers.occupied(r) ==> (#[trigger] readers.rc_at(r)).spec_count() as int == gf.count(r)
            + gs.count(r)
    &&& forall|r: int| #[trigger] gf.count(r) > 0 ==> readers.occupied(r)
    &&& forall|r: int| #[trigger] gs.count(r) > 0 ==> readers.occupied(r)
    &&& counts_sum(readers.view()) == gf.len() + gs.len()
    &&& counts_sum(readers.view()) <= i64::MAX
    &&& residual == (if writer_side is First {
        gf
    } else {
        gs
    }).len()
    &&& residual >= 0
}

/// Whether `v` occurs as a value in the map `m`.
pub open spec fn is_value_of<KV, V>(m: Map<KV, V>, v: V) -> bool {
    exists|kv: KV| m.dom().contains(kv) && m[kv] == v
}

/// A reader's registration: the key of its slot in the reader slab.
///
/// A handle is obtained from [`FlashMap::new_reader`] and given back to
/// [`FlashMap::release_refcount`] when the reader departs.
pub struct ReadHandle {
    /// The reader's stable slot key.
    pub key: usize,
}

/// One scoped read session: it pins one buffer, whose content is the
/// snapshot `snap`, published as entry `epoch` of the history.
pub struct ReadGuard<K: View, V> {
    /// The reader this guard belongs to.
    pub reader: usize,
    /// The buffer the guard pins.
    pub map_index: MapIndex,
    /// The snapshot the guard observes.
    pub snap: Ghost<Map<K::V, V>>,
    /// The publish that produced the snapshot.
    pub epoch: Ghost<int>,
}

/// A value displaced from the map by the current write guard. It stays
/// readable until the guard is dropped; leaking it extends its life.
pub struct Evicted<V> {
    /// The log entry that recorded the eviction.
    pub op_index: usize,
    /// The evicted value's arena slot.
    pub vid: usize,
    /// The identity of the map it came from.
    pub uid: u64,
    /// The evicted value itself.
    pub val: Ghost<V>,
}

/// A leaked value: evicted from the map and now owned by the user, who must
/// eventually reclaim it or hand it back for a deferred drop.
#[must_use]
pub struct Leaked<V> {
    /// The leaked value's arena slot.
    pub vid: usize,
    /// The identity of the map it came from.
    pub uid: u64,
    /// The leaked value itself.
    pub val: Ghost<V>,
}

impl<V> Leaked<V> {
    /// Dissolves the wrapper into the raw arena slot that owns the value;
    /// for advanced use after a manual synchronization.
    pub fn into_inner(leaked: Self) -> (r: usize)
        ensures
            r == leaked.vid,
    {
        leaked.vid
    }
}

/// The single-writer, multi-reader map. The value itself is the writer's
/// handle; readers are registered with [`FlashMap::new_reader`] and read
/// through guards.
pub struct FlashMap<K: View, V> {
    /// The key arena: every key lives here once, shared by both buffers.
    keys: Vec<Option<K>>,
    /// The value arena: every value lives here once, shared by both buffers.
    vals: Vec<Option<V>>,
    /// The first buffer.
    first: Vec<Entry>,
    /// The second buffer.
    second: Vec<Entry>,
    /// The side the writer currently mutates.
    writer_side: MapIndex,
    /// The pending operation log.
    log: Vec<Operation>,
    /// One packed counter word per registered reader.
    readers: ReaderSlots,
    /// The residual counter: guards still pinning the writer's side.
    residual: i64,
    /// Whether a write guard is active.
    writing: bool,
    /// This map's identity, checked when leaked values come back.
    uid: u64,
    /// The sequence of published snapshots.
    hist: Ghost<Seq<Map<K::V, V>>>,
    /// Readers of live guards pinning the first buffer.
    guards_first: Ghost<Multiset<int>>,
    /// Readers of live guards pinning the second buffer.
    guards_second: Ghost<Multiset<int>>,
    /// Value slots whose ownership has been leaked to the user.
    leaked: Ghost<Set<int>>,
}

impl<K: View, V> FlashMap<K, V> {
    /// The side the writer currently mutates.
    pub closed spec fn writer_index(self) -> MapIndex {
        self.writer_side
    }

    /// The side new read guards pin.
    pub open spec fn reader_index(self) -> MapIndex {
        self.writer_index().spec_other()
    }

    /// The entries of one buffer.
    pub closed spec fn side_entries(self, s: MapIndex) -> Seq<Entry> {
        match s {
            MapIndex::First => self.first@,
            MapIndex::Second => self.second@,
        }
    }

    /// The abstract content of one buffer.
    pub closed spec fn side_map(self, s: MapIndex) -> Map<K::V, V> {
        map_of(self.side_entries(s), self.keys@, self.vals@)
    }

    /// The writer's view: the buffer all mutations go to.
    pub open spec fn writer_map(self) -> Map<K::V, V> {
        self.side_map(self.writer_index())
    }

    /// The readers' view: the last published snapshot.
    pub open spec fn reader_map(self) -> Map<K::V, V> {
        self.side_map(self.reader_index())
    }

    /// Whether a write guard is active.
    pub closed spec fn is_writing(self) -> bool {
        self.writing
    }

    /// The residual counter's value.
    pub closed spec fn residual_count(self) -> int {
        self.residual as int
    }

    /// This map's identity.
    pub closed spec fn spec_uid(self) -> u64 {
        self.uid
    }

    /// All published snapshots, oldest first.
    pub closed spec fn history(self) -> Seq<Map<K::V, V>> {
        self.hist@
    }

    /// The readers of live guards pinning the given side, with multiplicity.
    pub closed spec fn guards_at(self, s: MapIndex) -> Multiset<int> {
        match s {
            MapIndex::First => self.guards_first@,
            MapIndex::Second => self.guards_second@,
        }
    }

    /// Whether `r` is a registered reader.
    pub closed spec fn reader_registered(self, r: int) -> bool {
        self.readers.occupied(r)
    }

    /// The number of live guards of reader `r`.
    pub closed spec fn reader_count(self, r: int) -> int {
        self.readers.rc_at(r).spec_count() as int
    }

    /// The number of live guards over all readers.
    pub closed spec fn total_guards(self) -> int {
        counts_sum(self.readers.view())
    }

    /// The value slots leaked to the user and not yet returned.
    pub closed spec fn leaked_set(self) -> Set<int> {
        self.leaked@
    }

    /// The size of the value arena.
    pub closed spec fn vals_len(self) -> int {
        self.vals@.len() as int
    }

    /// The content of one value arena slot.
    pub closed spec fn val_at(self, vid: int) -> Option<V> {
        self.vals@[vid]
    }

    /// The pending operation log.
    pub closed spec fn log_ops(self) -> Seq<Operation> {
        self.log@
    }

    /// The side the pending log replays from: the buffer that is one session
    /// behind.
    pub open spec fn base_index(self) -> MapIndex {
        if self.is_writing() {
            self.reader_index()
        } else {
            self.writer_index()
        }
    }

    /// The side the pending log replays to.
    pub open spec fn target_index(self) -> MapIndex {
        self.base_index().spec_other()
    }

    /// The replay of the pending log over the stale buffer.
    pub closed spec fn sim(self) -> Option<SimState<K, V>> {
        apply_log(
            self.log@,
            SimState { entries: self.side_entries(self.base_index()), keys: self.keys@, vals: self.vals@ },
        )
    }

    /// Both buffers are well-formed; the buffer readers observe is fully
    /// live, and so is the writer's buffer whenever anyone can reach it.
    pub closed spec fn buffers_wf(self) -> bool {
        &&& entries_live(self.side_entries(self.reader_index()), self.keys@, self.vals@)
        &&& entries_keyed(self.side_entries(self.writer_index()), self.keys@, self.vals@)
        &&& (self.is_writing() || self.residual_count() != 0) ==> entries_live(
            self.side_entries(self.writer_index()),
            self.keys@,
            self.vals@,
        )
    }

    /// The central replay invariant: the pending log carries the stale
    /// buffer exactly onto the up-to-date one, every slot it destroys is
    /// live when destroyed, the result is fully live, and leaked slots
    /// survive the replay without being referenced by it.
    pub closed spec fn sim_ok(self) -> bool {
        sim_ok_for(
            self.log@,
            self.side_entries(self.base_index()),
            self.side_entries(self.target_index()),
            self.keys@,
            self.vals@,
            self.leaked@,
        )
    }

    /// The syntactic discipline of the log: indices in bounds, planted slots
    /// fresher than every earlier mention, evicted slots pairwise distinct,
    /// never destroyed twice, and absent from the up-to-date buffer and the
    /// leaked set.
    pub closed spec fn log_discipline(self) -> bool {
        log_discipline_for(
            self.log@,
            self.side_entries(self.target_index()),
            self.keys@.len() as int,
            self.vals@.len() as int,
            self.leaked@,
        )
    }

    /// The reader accounting: every occupied counter word is well formed and
    /// carries the readers' common side bit; each reader's packed count is
    /// its number of live guards; the residual counter is exactly the number
    /// of guards pinning the writer's side.
    pub closed spec fn readers_ok(self) -> bool {
        readers_ok_for(
            self.readers,
            self.guards_first@,
            self.guards_second@,
            self.residual as int,
            self.reader_index(),
            self.writer_index(),
        )
    }

    /// The engine's whole invariant.
    pub open spec fn wf(self) -> bool {
        &&& self.buffers_wf()
        &&& self.sim_ok()
        &&& self.log_discipline()
        &&& self.readers_ok()
        &&& self.is_writing() ==> self.residual_count() == 0
        &&& self.history().len() >= 1
        &&& self.history().last() == self.reader_map()
    }

    /// Readers still observe the same snapshots, and may keep observing
    /// them: every valid guard on `a` is a valid guard on `b`.
    pub open spec fn guards_preserved(a: Self, b: Self) -> bool {
        forall|g: ReadGuard<K, V>| #[trigger] a.guard_wf(g) ==> b.guard_wf(g)
    }

    /// Every leaked value still held by the user remains valid.
    pub open spec fn leaked_preserved(a: Self, b: Self) -> bool {
        forall|l: Leaked<V>| #[trigger] a.leaked_wf(l) ==> b.leaked_wf(l)
    }

    /// Every evicted value still held by the user remains valid.
    pub open spec fn evicted_preserved(a: Self, b: Self) -> bool {
        forall|e: Evicted<V>| #[trigger] a.evicted_wf(e) ==> b.evicted_wf(e)
    }

    /// A valid read guard: its reader has a live guard pinning that side,
    /// and its snapshot is a published snapshot that the pinned buffer still
    /// shows.
    pub open spec fn guard_wf(self, g: ReadGuard<K, V>) -> bool {
        &&& self.guards_at(g.map_index).count(g.reader as int) >= 1
        &&& 0 <= g.epoch@ < self.history().len()
        &&& self.history()[g.epoch@] == g.snap@
        &&& self.side_map(g.map_index) == g.snap@
    }

    /// A valid leaked value: it came from this map, is recorded as leaked,
    /// and its slot still holds the value.
    pub open spec fn leaked_wf(self, l: Leaked<V>) -> bool {
        &&& l.uid == self.spec_uid()
        &&& self.leaked_set().contains(l.vid as int)
        &&& (l.vid as int) < self.vals_len()
        &&& self.val_at(l.vid as int) == Some(l.val@)
    }

    /// A valid evicted value: a write guard is active, the log entry it
    /// points at recorded its eviction and has not been leaked, and its slot
    /// still holds the value.
    pub open spec fn evicted_wf(self, e: Evicted<V>) -> bool {
        &&& self.is_writing()
        &&& e.uid == self.spec_uid()
        &&& (e.op_index as int) < self.log_ops().len()
        &&& evicted_vid(self.log_ops()[e.op_index as int]) == Some(e.vid as int)
        &&& !self.log_ops()[e.op_index as int].leaky
        &&& (e.vid as int) < self.vals_len()
        &&& self.val_at(e.vid as int) == Some(e.val@)
    }

    /// Builds an empty map and registers the first reader.
    pub fn build_map(capacity: usize, uid: u64) -> (r: (FlashMap<K, V>, ReadHandle))
        ensures
            r.0.wf(),
            r.0.reader_map() == Map::<K::V, V>::empty(),
            r.0.writer_map() == Map::<K::V, V>::empty(),
            !r.0.is_writing(),
            r.0.residual_count() == 0,
            r.0.spec_uid() == uid,
            r.0.history() == seq![Map::<K::V, V>::empty()],
            r.0.leaked_set() == Set::<int>::empty(),
            r.0.reader_registered(r.1.key as int),
            r.0.reader_count(r.1.key as int) == 0,
            r.0.total_guards() == 0,
            r.0.guards_at(MapIndex::First) == Multiset::<int>::empty(),
            r.0.guards_at(MapIndex::Second) == Multiset::<int>::empty(),
    {
        let slot_capacity = cpu_count();
        let ghost hseq: Seq<Map<K::V, V>> = seq![Map::<K::V, V>::empty()];
        let ghost no_guards: Multiset<int> = Multiset::empty();
        let ghost no_leaks: Set<int> = Set::empty();
        let mut map = FlashMap {
            keys: Vec::with_capacity(capacity),
            vals: Vec::with_capacity(capacity),
            first: Vec::new(),
            second: Vec::new(),
            writer_side: MapIndex::Second,
            log: Vec::new(),
            readers: ReaderSlots::new(slot_capacity),
            residual: 0,
            writing: false,
            uid,
            hist: Ghost(hseq),
            guards_first: Ghost(no_guards),
            guards_second: Ghost(no_guards),
            leaked: Ghost(no_leaks),
        };
        proof {
            assert(map.side_entries(MapIndex::First) =~= Seq::<Entry>::empty());
            assert(map.side_entries(MapIndex::Second) =~= Seq::<Entry>::empty());
            assert(map.side_map(MapIndex::First) =~= Map::<K::V, V>::empty());
            assert(map.side_map(MapIndex::Second) =~= Map::<K::V, V>::empty());
            assert(counts_sum(map.readers.view()) == 0);
        }
        let handle = map.new_reader();
        (map, handle)
    }

    /// Registers a new reader and hands back its handle. The reader's first
    /// guard will observe the latest published snapshot.
    pub fn new_reader(&mut self) -> (h: ReadHandle)
        requires
            old(self).wf(),
        ensures
            final(self).wf(),
            final(self).reader_registered(h.key as int),
            final(self).reader_count(h.key as int) == 0,
            !old(self).reader_registered(h.key as int),
            forall|r: int|
                r != h.key as int ==> #[trigger] final(self).reader_registered(r) == old(
                    self,
                ).reader_registered(r) && (old(self).reader_registered(r) ==> final(self).reader_count(r)
                    == old(self).reader_count(r)),
            final(self).side_map(MapIndex::First) == old(self).side_map(MapIndex::First),
            final(self).side_map(MapIndex::Second) == old(self).side_map(MapIndex::Second),
            final(self).writer_index() == old(self).writer_index(),
            final(self).is_writing() == old(self).is_writing(),
            final(self).residual_count() == old(self).residual_count(),
            final(self).history() == old(self).history(),
            final(self).spec_uid() == old(self).spec_uid(),
            final(self).total_guards() == old(self).total_guards(),
            final(self).guards_at(MapIndex::First) == old(self).guards_at(MapIndex::First),
            final(self).guards_at(MapIndex::Second) == old(self).guards_at(MapIndex::Second),
            final(self).leaked_set() == old(self).leaked_set(),
            Self::guards_preserved(*old(self), *final(self)),
            Self::leaked_preserved(*old(self), *final(self)),
            final(self).log_ops() == old(self).log_ops(),
            final(self).writer_map() == old(self).writer_map(),
            final(self).reader_map() == old(self).reader_map(),
    {
        let side = self.writer_side.other();
        let rc = crate::refcount::RefCount::new(side);
        let ghost before = self.readers.view();
        let key = self.readers.insert(rc);
        proof {
            if (key as int) < before.len() {
                crate::slots::lemma_counts_sum_update(before, key as int, Some(rc));
            } else {
                crate::slots::lemma_counts_sum_push(before, Some(rc));
            }
            assert(self.readers.total() == old(self).readers.total());
            assert forall|r: int| self.readers.occupied(r) implies (
            #[trigger] self.readers.rc_at(r)).wf() by {
                if r != key as int {
                    assert(old(self).readers.occupied(r));
                    assert(old(self).readers.rc_at(r) == self.readers.rc_at(r));
                }
            }
            assert forall|r: int| self.readers.occupied(r) implies (
            #[trigger] self.readers.rc_at(r)).spec_side() == self.reader_index() by {
                if r != key as int {
                    assert(old(self).readers.occupied(r));
                    assert(old(self).readers.rc_at(r) == self.readers.rc_at(r));
                }
            }
            assert forall|r: int| self.readers.occupied(r) implies (
            #[trigger] self.readers.rc_at(r)).spec_count() as int == self.guards_first@.count(r)
                + self.guards_second@.count(r) by {
                if r != key as int {
                    assert(old(self).readers.occupied(r));
                    assert((old(self).readers.rc_at(r)).spec_count() as int == old(
                        self,
                    ).guards_first@.count(r) + old(self).guards_second@.count(r));
                    assert(self.readers.rc_at(r) == old(self).readers.rc_at(r));
                } else {
                    assert(self.readers.rc_at(r).spec_count() == 0);
                    if old(self).guards_first@.count(r) > 0 {
                        assert(old(self).readers.occupied(r));
                    }
                    if old(self).guards_second@.count(r) > 0 {
                        assert(old(self).readers.occupied(r));
                    }
                }
            }
            assert forall|r: int| #[trigger] self.guards_first@.count(r)
                > 0 implies self.readers.occupied(r) by {
                assert(old(self).guards_first@.count(r) > 0);
                assert(old(self).readers.occupied(r));
                assert(r != key as int);
            }
            assert forall|r: int| #[trigger] self.guards_second@.count(r)
                > 0 implies self.readers.occupied(r) by {
                assert(old(self).guards_second@.count(r) > 0);
                assert(old(self).readers.occupied(r));
                assert(r != key as int);
            }

            assert(self.buffers_wf() == old(self).buffers_wf());
            assert(self.sim_ok() == old(self).sim_ok());
            assert(self.log_discipline() == old(self).log_discipline());
        }
        ReadHandle { key }
    }

    /// Whether all residual readers are gone: the writer's buffer may be
    /// reused exactly when this returns `true`. With no residual readers
    /// this is a plain load; it never registers the writer for a wake-up,
    /// so with nothing to wait for it has no effect at all.
    pub fn synchronize(&self) -> (done: bool)
        ensures
            done == (self.residual_count() == 0),
    {
        crate::residual::synchronize_done(self.residual)
    }

    /// Unregisters a departing reader and frees its slot. All of the
    /// reader's guards must have been released first.
    pub fn release_refcount(&mut self, h: ReadHandle)
        requires
            old(self).wf(),
            old(self).reader_registered(h.key as int),
            old(self).reader_count(h.key as int) == 0,
        ensures
            final(self).wf(),
            !final(self).reader_registered(h.key as int),
            forall|r: int|
                r != h.key as int ==> #[trigger] final(self).reader_registered(r) == old(
                    self,
                ).reader_registered(r) && (old(self).reader_registered(r) ==> final(self).reader_count(r)
                    == old(self).reader_count(r)),
            final(self).side_map(MapIndex::First) == old(self).side_map(MapIndex::First),
            final(self).side_map(MapIndex::Second) == old(self).side_map(MapIndex::Second),
            final(self).writer_index() == old(self).writer_index(),
            final(self).is_writing() == old(self).is_writing(),
            final(self).residual_count() == old(self).residual_count(),
            final(self).history() == old(self).history(),
            final(self).spec_uid() == old(self).spec_uid(),
            final(self).total_guards() == old(self).total_guards(),
            final(self).guards_at(MapIndex::First) == old(self).guards_at(MapIndex::First),
            final(self).guards_at(MapIndex::Second) == old(self).guards_at(MapIndex::Second),
            final(self).leaked_set() == old(self).leaked_set(),
            final(self).log_ops() == old(self).log_ops(),
            Self::guards_preserved(*old(self), *final(self)),
            Self::leaked_preserved(*old(self), *final(self)),
            Self::evicted_preserved(*old(self), *final(self)),
    {
        let ghost before = self.readers.view();
        self.readers.remove(h.key);
        proof {
            crate::slots::lemma_counts_sum_update(before, h.key as int, None);
            assert forall|r: int| self.readers.occupied(r) implies (
            #[trigger] self.readers.rc_at(r)).wf() by {
                assert(old(self).readers.occupied(r));
                assert(old(self).readers.rc_at(r) == self.readers.rc_at(r));
            }
            assert forall|r: int| self.readers.occupied(r) implies (
            #[trigger] self.readers.rc_at(r)).spec_side() == self.reader_index() by {
                assert(old(self).readers.occupied(r));
                assert(old(self).readers.rc_at(r) == self.readers.rc_at(r));
            }
            assert forall|r: int| self.readers.occupied(r) implies (
            #[trigger] self.readers.rc_at(r)).spec_count() as int == self.guards_first@.count(r)
                + self.guards_second@.count(r) by {
                assert(r != h.key as int);
                assert(old(self).readers.occupied(r));
                assert((old(self).readers.rc_at(r)).spec_count() as int == old(
                    self,
                ).guards_first@.count(r) + old(self).guards_second@.count(r));
                assert(self.readers.rc_at(r) == old(self).readers.rc_at(r));
            }
            assert forall|r: int| #[trigger] self.guards_first@.count(r)
                > 0 implies self.readers.occupied(r) by {
                assert(old(self).guards_first@.count(r) > 0);
                assert(old(self).readers.occupied(r));
                assert((old(self).readers.rc_at(r)).spec_count() as int == old(
                    self,
                ).guards_first@.count(r) + old(self).guards_second@.count(r));
                assert(r != h.key as int);
            }
            assert forall|r: int| #[trigger] self.guards_second@.count(r)
                > 0 implies self.readers.occupied(r) by {
                assert(old(self).guards_second@.count(r) > 0);
                assert(old(self).readers.occupied(r));
                assert((old(self).readers.rc_at(r)).spec_count() as int == old(
                    self,
                ).guards_first@.count(r) + old(self).guards_second@.count(r));
                assert(r != h.key as int);
            }
            assert(self.buffers_wf() == old(self).buffers_wf());
            assert(self.sim_ok() == old(self).sim_ok());
            assert(self.log_discipline() == old(self).log_discipline());
        }
    }

    /// Opens a read session: pins the buffer the reader's side bit points
    /// at, whose content is the latest published snapshot.
    pub fn guard(&mut self, h: &ReadHandle) -> (g: ReadGuard<K, V>)
        requires
            old(self).wf(),
            old(self).reader_registered(h.key as int),
            old(self).reader_count(h.key as int) < crate::refcount::COUNT_MASK as int,
            old(self).total_guards() < i64::MAX,
        ensures
            final(self).wf(),
            final(self).guard_wf(g),
            g.reader == h.key,
            g.map_index == old(self).reader_index(),
            g.snap@ == old(self).reader_map(),
            g.epoch@ == old(self).history().len() - 1,
            final(self).side_map(MapIndex::First) == old(self).side_map(MapIndex::First),
            final(self).side_map(MapIndex::Second) == old(self).side_map(MapIndex::Second),
            final(self).writer_index() == old(self).writer_index(),
            final(self).is_writing() == old(self).is_writing(),
            final(self).residual_count() == old(self).residual_count(),
            final(self).history() == old(self).history(),
            final(self).spec_uid() == old(self).spec_uid(),
            final(self).total_guards() == old(self).total_guards() + 1,
            final(self).guards_at(old(self).reader_index()) == old(self).guards_at(
                old(self).reader_index(),
            ).insert(h.key as int),
            final(self).guards_at(old(self).writer_index()) == old(self).guards_at(
                old(self).writer_index(),
            ),
            final(self).leaked_set() == old(self).leaked_set(),
            final(self).log_ops() == old(self).log_ops(),
            final(self).reader_registered(h.key as int),
            final(self).reader_count(h.key as int) == old(self).reader_count(h.key as int) + 1,
            forall|r: int|
                r != h.key as int ==> #[trigger] final(self).reader_registered(r) == old(
                    self,
                ).reader_registered(r) && (old(self).reader_registered(r) ==> final(self).reader_count(r)
                    == old(self).reader_count(r)),
            Self::guards_preserved(*old(self), *final(self)),
            Self::leaked_preserved(*old(self), *final(self)),
            Self::evicted_preserved(*old(self), *final(self)),
    {
        let ghost before = self.readers.view();
        let mut rc = self.readers.get(h.key);
        let side = rc.increment();
        self.readers.put(h.key, rc);
        proof {
            assert(side == old(self).reader_index());
            crate::slots::lemma_counts_sum_update(before, h.key as int, Some(rc));
            match side {
                MapIndex::First => {
                    self.guards_first@ = self.guards_first@.insert(h.key as int);
                },
                MapIndex::Second => {
                    self.guards_second@ = self.guards_second@.insert(h.key as int);
                },
            }
            assert forall|r: int| self.readers.occupied(r) implies (
            #[trigger] self.readers.rc_at(r)).wf() by {
                assert(old(self).readers.occupied(r));
                if r != h.key as int {
                    assert(old(self).readers.rc_at(r) == self.readers.rc_at(r));
                }
            }
            assert forall|r: int| self.readers.occupied(r) implies (
            #[trigger] self.readers.rc_at(r)).spec_side() == self.reader_index() by {
                assert(old(self).readers.occupied(r));
                if r != h.key as int {
                    assert(old(self).readers.rc_at(r) == self.readers.rc_at(r));
                }
            }
            assert forall|r: int| self.readers.occupied(r) implies (
            #[trigger] self.readers.rc_at(r)).spec_count() as int == self.guards_first@.count(r)
                + self.guards_second@.count(r) by {
                assert(old(self).readers.occupied(r));
                assert((old(self).readers.rc_at(r)).spec_count() as int == old(
                    self,
                ).guards_first@.count(r) + old(self).guards_second@.count(r));
                if r != h.key as int {
                    assert(self.readers.rc_at(r) == old(self).readers.rc_at(r));
                    assert(self.guards_first@.count(r) == old(self).guards_first@.count(r));
                    assert(self.guards_second@.count(r) == old(self).guards_second@.count(r));
                } else {
                    assert(self.readers.rc_at(r).spec_count() == old(self).readers.rc_at(
                        r,
                    ).spec_count() + 1);
                }
            }
            assert forall|r: int| #[trigger] self.guards_first@.count(r)
                > 0 implies self.readers.occupied(r) by {
                if r != h.key as int {
                    assert(self.guards_first@.count(r) == old(self).guards_first@.count(r));
                    assert(old(self).readers.occupied(r));
                }
            }
            assert forall|r: int| #[trigger] self.guards_second@.count(r)
                > 0 implies self.readers.occupied(r) by {
                if r != h.key as int {
                    assert(self.guards_second@.count(r) == old(self).guards_second@.count(r));
                    assert(old(self).readers.occupied(r));
                }
            }
            assert(self.buffers_wf() == old(self).buffers_wf());
            assert(self.sim_ok() == old(self).sim_ok());
            assert(self.log_discipline() == old(self).log_discipline());
            assert forall|g2: ReadGuard<K, V>| #[trigger] old(self).guard_wf(
                g2,
            ) implies self.guard_wf(g2) by {
                assert(self.guards_at(g2.map_index).count(g2.reader as int) >= old(
                    self,
                ).guards_at(g2.map_index).count(g2.reader as int));
            }
        }
        let g = ReadGuard {
            reader: h.key,
            map_index: side,
            snap: Ghost(self.reader_map()),
            epoch: Ghost(self.history().len() - 1),
        };
        g
    }

    /// Closes a read session. If a publish happened while the guard was
    /// alive, this guard was pinning the buffer the writer wants back, and
    /// the residual counter is decremented; the last such release is what
    /// lets the writer proceed.
    pub fn release_guard(&mut self, g: ReadGuard<K, V>) -> (status:
        crate::refcount::ReaderStatus)
        requires
            old(self).wf(),
            old(self).guard_wf(g),
        ensures
            final(self).wf(),
            status == (if g.map_index == old(self).writer_index() {
                crate::refcount::ReaderStatus::Residual
            } else {
                crate::refcount::ReaderStatus::Normal
            }),
            final(self).residual_count() == (if g.map_index == old(self).writer_index() {
                old(self).residual_count() - 1
            } else {
                old(self).residual_count()
            }),
            final(self).side_map(MapIndex::First) == old(self).side_map(MapIndex::First),
            final(self).side_map(MapIndex::Second) == old(self).side_map(MapIndex::Second),
            final(self).writer_index() == old(self).writer_index(),
            final(self).is_writing() == old(self).is_writing(),
            final(self).history() == old(self).history(),
            final(self).spec_uid() == old(self).spec_uid(),
            final(self).total_guards() == old(self).total_guards() - 1,
            final(self).guards_at(g.map_index) == old(self).guards_at(g.map_index).remove(
                g.reader as int,
            ),
            final(self).guards_at(g.map_index.spec_other()) == old(self).guards_at(
                g.map_index.spec_other(),
            ),
            final(self).leaked_set() == old(self).leaked_set(),
            final(self).log_ops() == old(self).log_ops(),
            final(self).reader_count(g.reader as int) == old(self).reader_count(g.reader as int)
                - 1,
            forall|r: int|
                r != g.reader as int ==> #[trigger] final(self).reader_registered(r) == old(
                    self,
                ).reader_registered(r) && (old(self).reader_registered(r) ==> final(self).reader_count(r)
                    == old(self).reader_count(r)),
            final(self).reader_registered(g.reader as int),
            forall|g2: ReadGuard<K, V>|
                #[trigger] old(self).guard_wf(g2) && !(g2.reader == g.reader && g2.map_index
                    == g.map_index) ==> final(self).guard_wf(g2),
            Self::leaked_preserved(*old(self), *final(self)),
            Self::evicted_preserved(*old(self), *final(self)),
    {
        proof {
            broadcast use vstd::multiset::axiom_count_le_len;

            assert(old(self).reader_registered(g.reader as int)) by {
                if g.map_index == old(self).writer_index() {
                    assert(old(self).guards_at(g.map_index).count(g.reader as int) > 0);
                } else {
                    assert(old(self).guards_at(g.map_index).count(g.reader as int) > 0);
                }
            }
            assert(old(self).reader_count(g.reader as int) >= 1);
        }
        let ghost before = self.readers.view();
        let mut rc = self.readers.get(g.reader);
        let side = rc.decrement();
        self.readers.put(g.reader, rc);
        let status = if side != g.map_index {
            proof {
                assert(g.map_index == old(self).writer_index());
                assert(old(self).guards_at(g.map_index).count(g.reader as int) >= 1);
                assert(old(self).residual_count() >= 1);
            }
            self.residual = self.residual - 1;
            crate::refcount::ReaderStatus::Residual
        } else {
            crate::refcount::ReaderStatus::Normal
        };
        proof {
            crate::slots::lemma_counts_sum_update(before, g.reader as int, Some(rc));
            match g.map_index {
                MapIndex::First => {
                    self.guards_first@ = self.guards_first@.remove(g.reader as int);
                },
                MapIndex::Second => {
                    self.guards_second@ = self.guards_second@.remove(g.reader as int);
                },
            }
            assert(old(self).guards_at(g.map_index).count(g.reader as int) >= 1);
            assert(vstd::multiset::Multiset::singleton(g.reader as int).subset_of(
                old(self).guards_at(g.map_index),
            ));
            vstd::multiset::axiom_len_sub(
                old(self).guards_at(g.map_index),
                vstd::multiset::Multiset::singleton(g.reader as int),
            );
            assert forall|r: int| self.readers.occupied(r) implies (
            #[trigger] self.readers.rc_at(r)).wf() by {
                assert(old(self).readers.occupied(r));
                if r != g.reader as int {
                    assert(old(self).readers.rc_at(r) == self.readers.rc_at(r));
                }
            }
            assert forall|r: int| self.readers.occupied(r) implies (
            #[trigger] self.readers.rc_at(r)).spec_side() == self.reader_index() by {
                assert(old(self).readers.occupied(r));
                if r != g.reader as int {
                    assert(old(self).readers.rc_at(r) == self.readers.rc_at(r));
                }
            }
            assert forall|r: int| self.readers.occupied(r) implies (
            #[trigger] self.readers.rc_at(r)).spec_count() as int == self.guards_first@.count(r)
                + self.guards_second@.count(r) by {
                assert(old(self).readers.occupied(r));
                assert((old(self).readers.rc_at(r)).spec_count() as int == old(
                    self,
                ).guards_first@.count(r) + old(self).guards_second@.count(r));
                if r != g.reader as int {
                    assert(self.readers.rc_at(r) == old(self).readers.rc_at(r));
                    assert(self.guards_first@.count(r) == old(self).guards_first@.count(r));
                    assert(self.guards_second@.count(r) == old(self).guards_second@.count(r));
                } else {
                    assert(self.readers.rc_at(r).spec_count() as int == old(self).readers.rc_at(
                        r,
                    ).spec_count() - 1);
                    assert(old(self).guards_at(g.map_index).count(r) >= 1);
                }
            }
            assert forall|r: int| #[trigger] self.guards_first@.count(r)
                > 0 implies self.readers.occupied(r) by {
                assert(old(self).guards_first@.count(r) > 0);
                assert(old(self).readers.occupied(r));
            }
            assert forall|r: int| #[trigger] self.guards_second@.count(r)
                > 0 implies self.readers.occupied(r) by {
                assert(old(self).guards_second@.count(r) > 0);
                assert(old(self).readers.occupied(r));
            }
            assert(self.buffers_wf()) by {
                if self.is_writing() || self.residual_count() != 0 {
                    assert(old(self).is_writing() || old(self).residual_count() != 0);
                }
            }
            assert(self.sim_ok() == old(self).sim_ok());
            assert(self.log_discipline() == old(self).log_discipline());
            assert forall|g2: ReadGuard<K, V>|
                #[trigger] old(self).guard_wf(g2) && !(g2.reader == g.reader && g2.map_index
                    == g.map_index) implies self.guard_wf(g2) by {
                assert(self.guards_at(g2.map_index).count(g2.reader as int) == old(
                    self,
                ).guards_at(g2.map_index).count(g2.reader as int));
            }
        }
        status
    }

    /// Publishes the write session: flips the writer's side, moves every
    /// reader to the freshly written buffer, and counts the guards that
    /// still pin the buffer the writer takes over - the residual readers
    /// that must drain before the next session.
    pub fn publish(&mut self)
        requires
            old(self).wf(),
            old(self).is_writing(),
        ensures
            final(self).wf(),
            !final(self).is_writing(),
            final(self).writer_index() == old(self).reader_index(),
            final(self).reader_map() == old(self).writer_map(),
            final(self).writer_map() == old(self).reader_map(),
            final(self).history() == old(self).history().push(old(self).writer_map()),
            final(self).residual_count() == old(self).total_guards(),
            final(self).side_map(MapIndex::First) == old(self).side_map(MapIndex::First),
            final(self).side_map(MapIndex::Second) == old(self).side_map(MapIndex::Second),
            final(self).spec_uid() == old(self).spec_uid(),
            final(self).total_guards() == old(self).total_guards(),
            final(self).guards_at(MapIndex::First) == old(self).guards_at(MapIndex::First),
            final(self).guards_at(MapIndex::Second) == old(self).guards_at(MapIndex::Second),
            final(self).leaked_set() == old(self).leaked_set(),
            final(self).log_ops() == old(self).log_ops(),
            forall|r: int|
                #[trigger] final(self).reader_registered(r) == old(self).reader_registered(r) && (
                old(self).reader_registered(r) ==> final(self).reader_count(r) == old(
                    self,
                ).reader_count(r)),
            Self::guards_preserved(*old(self), *final(self)),
            Self::leaked_preserved(*old(self), *final(self)),
    {
        self.writer_side = self.writer_side.other();
        let total = self.readers.swap_all();
        self.residual = total;
        self.writing = false;
        proof {
            self.hist@ = self.hist@.push(old(self).writer_map());
            assert forall|r: int| self.readers.occupied(r) implies (
            #[trigger] self.readers.rc_at(r)).spec_side() == self.reader_index() by {
                assert(old(self).readers.occupied(r));
                assert(old(self).readers.rc_at(r).spec_side() == old(self).reader_index());
            }
            assert forall|r: int| self.readers.occupied(r) implies (
            #[trigger] self.readers.rc_at(r)).spec_count() as int == self.guards_first@.count(r)
                + self.guards_second@.count(r) by {
                assert(old(self).readers.occupied(r));
                assert((old(self).readers.rc_at(r)).spec_count() as int == old(
                    self,
                ).guards_first@.count(r) + old(self).guards_second@.count(r));
                assert(self.readers.rc_at(r).spec_count() == old(self).readers.rc_at(
                    r,
                ).spec_count());
            }
            assert forall|r: int| #[trigger] self.guards_first@.count(r)
                > 0 implies self.readers.occupied(r) by {
                assert(old(self).guards_first@.count(r) > 0);
                assert(old(self).readers.occupied(r));
                assert(self.readers.rc_at(r).spec_count() == old(self).readers.rc_at(
                    r,
                ).spec_count());
            }
            assert forall|r: int| #[trigger] self.guards_second@.count(r)
                > 0 implies self.readers.occupied(r) by {
                assert(old(self).guards_second@.count(r) > 0);
                assert(old(self).readers.occupied(r));
                assert(self.readers.rc_at(r).spec_count() == old(self).readers.rc_at(
                    r,
                ).spec_count());
            }
            assert forall|r: int|
                #[trigger] self.readers.occupied(r) == old(self).readers.occupied(r) && (old(
                    self,
                ).readers.occupied(r) ==> self.readers.rc_at(r).spec_count() == old(
                    self,
                ).readers.rc_at(r).spec_count()) by {
                if old(self).readers.occupied(r) {
                    assert(self.readers.occupied(r) && self.readers.rc_at(r).spec_count() == old(
                        self,
                    ).readers.rc_at(r).spec_count());
                } else {
                    if 0 <= r < old(self).readers.view().len() {
                        assert(self.readers.view()[r] is None);
                    }
                }
            }
            assert(self.guards_at(old(self).writer_index()).len() == 0) by {
                assert(old(self).residual_count() == 0);
            }
            assert(self.residual as int == self.guards_at(self.writer_index()).len()) by {
                assert(total as int == old(self).total_guards());
                assert(old(self).total_guards() == self.guards_first@.len()
                    + self.guards_second@.len());
            }
            assert(self.side_entries(MapIndex::First) == old(self).side_entries(MapIndex::First));
            assert(self.side_entries(MapIndex::Second) == old(self).side_entries(
                MapIndex::Second,
            ));
            assert(self.base_index() == old(self).base_index());
            assert(self.target_index() == old(self).target_index());
            assert(self.sim_ok() == old(self).sim_ok());
            assert(self.log_discipline() == old(self).log_discipline());
            assert(self.buffers_wf()) by {
                assert(entries_live(
                    self.side_entries(self.reader_index()),
                    self.keys@,
                    self.vals@,
                ));
            }
            assert(self.history().last() == self.reader_map());
            assert forall|g2: ReadGuard<K, V>| #[trigger] old(self).guard_wf(
                g2,
            ) implies self.guard_wf(g2) by {
                assert(self.guards_at(g2.map_index).count(g2.reader as int) == old(
                    self,
                ).guards_at(g2.map_index).count(g2.reader as int));
                assert(self.side_map(g2.map_index) == old(self).side_map(g2.map_index));
                assert(self.history()[g2.epoch@] == old(self).history()[g2.epoch@]);
            }
        }
    }

    /// Leaks an evicted value: the replay will no longer destroy it, and the
    /// caller becomes responsible for reclaiming it or handing it back.
    pub fn leak(&mut self, e: Evicted<V>) -> (l: Leaked<V>)
        requires
            old(self).wf(),
            old(self).evicted_wf(e),
        ensures
            final(self).wf(),
            final(self).leaked_wf(l),
            l.vid == e.vid,
            l.uid == e.uid,
            l.val == e.val,
            final(self).leaked_set() == old(self).leaked_set().insert(e.vid as int),
            final(self).side_map(MapIndex::First) == old(self).side_map(MapIndex::First),
            final(self).side_map(MapIndex::Second) == old(self).side_map(MapIndex::Second),
            final(self).writer_index() == old(self).writer_index(),
            final(self).is_writing() == old(self).is_writing(),
            final(self).residual_count() == old(self).residual_count(),
            final(self).history() == old(self).history(),
            final(self).spec_uid() == old(self).spec_uid(),
            final(self).total_guards() == old(self).total_guards(),
            final(self).guards_at(MapIndex::First) == old(self).guards_at(MapIndex::First),
            final(self).guards_at(MapIndex::Second) == old(self).guards_at(MapIndex::Second),
            final(self).log_ops().len() == old(self).log_ops().len(),
            forall|r: int|
                #[trigger] final(self).reader_registered(r) == old(self).reader_registered(r) && (
                old(self).reader_registered(r) ==> final(self).reader_count(r) == old(
                    self,
                ).reader_count(r)),
            Self::guards_preserved(*old(self), *final(self)),
            Self::leaked_preserved(*old(self), *final(self)),
            forall|e2: Evicted<V>|
                #[trigger] old(self).evicted_wf(e2) && e2.op_index != e.op_index ==> final(self).evicted_wf(e2),
            final(self).writer_map() == old(self).writer_map(),
            final(self).reader_map() == old(self).reader_map(),
    {
        let ghost j = e.op_index as int;
        let ghost t = e.vid as int;
        let ghost oldlog = self.log@;
        let ghost base0 = SimState::<K, V> {
            entries: self.side_entries(self.base_index()),
            keys: self.keys@,
            vals: self.vals@,
        };
        let mut op = self.log[e.op_index];
        op.make_leaky();
        self.log[e.op_index] = op;
        proof {
            self.leaked@ = self.leaked@.insert(t);
            let target = self.side_entries(self.target_index());
            assert(self.log@ == oldlog.update(j, Operation { raw: oldlog[j].raw, leaky: true }));
            assert forall|l: int|
                j < l < oldlog.len() implies !op_mentions_vid(#[trigger] oldlog[l], t) by {
                assert(evicted_vid(oldlog[j]) matches Some(q) ==> (payload_vid(oldlog[l]) matches
                Some(p) ==> q < p));
            }
            assert(old(self).sim_ok());
            assert(apply_log(oldlog, base0) == old(self).sim());
            crate::oplog::lemma_apply_log_flip(oldlog, base0, j);
            crate::oplog::lemma_apply_log_monotone(oldlog, base0);
            let m = apply_log(oldlog, base0).unwrap();
            let m2 = apply_log(self.log@, base0).unwrap();
            assert(m2.entries == m.entries && m2.keys == m.keys);
            assert(m.vals.len() == base0.vals.len() && m2.vals.len() == m.vals.len());
            assert(old(self).side_entries(old(self).target_index()) == target);
            assert(entries_live(target, m.keys, m.vals));
            assert(forall|v: int|
                #[trigger] old(self).leaked@.contains(v) ==> 0 <= v < m.vals.len() && m.vals[v]
                    is Some && (forall|i: int|
                    0 <= i < target.len() ==> (#[trigger] target[i]).vid != v));
            assert(self.sim_ok()) by {
                assert(m.entries == target);
                assert(entries_live(target, m2.keys, m2.vals)) by {
                    assert forall|i: int|
                        0 <= i < target.len() implies m2.vals[(#[trigger] target[i]).vid as int]
                        is Some by {
                        assert(m.vals[target[i].vid as int] is Some);
                        if target[i].vid as int != t {
                            assert(m2.vals[target[i].vid as int] == m.vals[target[i].vid as int]);
                        } else {
                            assert(m2.vals[t] is Some);
                        }
                    }
                }
                assert forall|v: int| #[trigger] self.leaked@.contains(v) implies 0 <= v
                    < m2.vals.len() && m2.vals[v] is Some && (forall|i: int|
                    0 <= i < target.len() ==> (#[trigger] target[i]).vid != v) by {
                    if v != t {
                        assert(old(self).leaked@.contains(v));
                        assert(0 <= v < m.vals.len() && m.vals[v] is Some);
                        assert(m2.vals[v] == m.vals[v]);
                    } else {
                        assert(m2.vals[t] is Some);
                        assert forall|i: int|
                            0 <= i < target.len() implies (#[trigger] target[i]).vid != t by {
                            assert(evicted_vid(oldlog[j]) matches Some(q) ==> target[i].vid != q);
                        }
                    }
                }
            }
            assert(self.log_discipline()) by {
                assert(log_in_bounds(self.log@, self.keys@.len() as int, self.vals@.len() as int));
                assert forall|l: int, m0: int|
                    #![trigger self.log@[l], self.log@[m0]]
                    0 <= l < m0 < self.log@.len() implies (payload_vid(self.log@[m0]) matches Some(
                p) ==> (payload_vid(self.log@[l]) matches Some(q) ==> q < p) && (evicted_vid(
                    self.log@[l],
                ) matches Some(q) ==> q < p) && (dropped_vid(self.log@[l]) matches Some(q) ==> q
                    < p)) by {
                    assert(oldlog[l].raw == self.log@[l].raw && oldlog[m0].raw == self.log@[m0].raw);
                }
                assert forall|l: int, m0: int|
                    #![trigger self.log@[l], self.log@[m0]]
                    0 <= l < self.log@.len() && 0 <= m0 < self.log@.len() && l != m0 implies (
                evicted_vid(self.log@[l]) matches Some(a) ==> (evicted_vid(self.log@[m0]) matches
                Some(b) ==> a != b)) by {
                    assert(oldlog[l].raw == self.log@[l].raw && oldlog[m0].raw == self.log@[m0].raw);
                }
                assert forall|l: int, m0: int|
                    #![trigger self.log@[l], self.log@[m0]]
                    0 <= l < self.log@.len() && 0 <= m0 < self.log@.len() implies (dropped_vid(
                    self.log@[l],
                ) matches Some(d) ==> (evicted_vid(self.log@[m0]) matches Some(tt)
                    ==> self.log@[m0].leaky || d != tt)) by {
                    assert(oldlog[l].raw == self.log@[l].raw && oldlog[m0].raw == self.log@[m0].raw);
                    if m0 != j {
                        assert(self.log@[m0].leaky == oldlog[m0].leaky);
                    }
                }
                assert forall|m0: int, i: int|
                    #![trigger self.log@[m0], target[i]]
                    0 <= m0 < self.log@.len() && 0 <= i < target.len() implies (evicted_vid(
                    self.log@[m0],
                ) matches Some(tt) ==> target[i].vid != tt) by {
                    assert(oldlog[m0].raw == self.log@[m0].raw);
                }
                assert forall|m0: int|
                    0 <= m0 < self.log@.len() implies (evicted_vid(#[trigger] self.log@[m0])
                    matches Some(tt) ==> self.log@[m0].leaky || !self.leaked@.contains(tt)) by {
                    assert(oldlog[m0].raw == self.log@[m0].raw);
                    if m0 != j {
                        assert(self.log@[m0].leaky == oldlog[m0].leaky);
                        assert(evicted_vid(oldlog[m0]) matches Some(tt) ==> (evicted_vid(oldlog[j])
                        matches Some(q) ==> tt != q));
                    }
                }
                assert forall|l: int, i: int|
                    #![trigger self.log@[l], target[i]]
                    0 <= l < self.log@.len() && 0 <= i < target.len() implies (dropped_vid(
                    self.log@[l],
                ) matches Some(d) ==> target[i].vid != d) by {
                    assert(oldlog[l].raw == self.log@[l].raw);
                }
            }
            assert(self.buffers_wf());
            assert(self.readers_ok());
        }
        Leaked { vid: e.vid, uid: e.uid, val: e.val }
    }

    /// Takes a leaked value back and destroys it at the next replay, once no
    /// reader can still observe it.
    pub fn drop_lazily(&mut self, l: Leaked<V>)
        requires
            old(self).wf(),
            old(self).is_writing(),
            old(self).leaked_wf(l),
        ensures
            final(self).wf(),
            final(self).is_writing(),
            final(self).leaked_set() == old(self).leaked_set().remove(l.vid as int),
            final(self).side_map(MapIndex::First) == old(self).side_map(MapIndex::First),
            final(self).side_map(MapIndex::Second) == old(self).side_map(MapIndex::Second),
            final(self).writer_index() == old(self).writer_index(),
            final(self).residual_count() == old(self).residual_count(),
            final(self).history() == old(self).history(),
            final(self).spec_uid() == old(self).spec_uid(),
            final(self).total_guards() == old(self).total_guards(),
            final(self).guards_at(MapIndex::First) == old(self).guards_at(MapIndex::First),
            final(self).guards_at(MapIndex::Second) == old(self).guards_at(MapIndex::Second),
            forall|r: int|
                #[trigger] final(self).reader_registered(r) == old(self).reader_registered(r) && (
                old(self).reader_registered(r) ==> final(self).reader_count(r) == old(
                    self,
                ).reader_count(r)),
            Self::guards_preserved(*old(self), *final(self)),
            forall|l2: Leaked<V>|
                #[trigger] old(self).leaked_wf(l2) && l2.vid != l.vid ==> final(self).leaked_wf(
                    l2,
                ),
            Self::evicted_preserved(*old(self), *final(self)),
            final(self).writer_map() == old(self).writer_map(),
            final(self).reader_map() == old(self).reader_map(),
    {
        let ghost t = l.vid as int;
        let ghost oldlog = self.log@;
        let ghost base0 = SimState::<K, V> {
            entries: self.side_entries(self.base_index()),
            keys: self.keys@,
            vals: self.vals@,
        };
        let op = Operation::new(RawOperation::Drop { vid: l.vid });
        self.log.push(op);
        proof {
            self.leaked@ = self.leaked@.remove(t);
            let target = self.side_entries(self.target_index());
            crate::oplog::lemma_apply_log_snoc(oldlog, op, base0);
            let m = apply_log(oldlog, base0).unwrap();
            assert(apply_op(op, m) is Some) by {
                assert(m.vals[t] is Some);
                assert(forall|i: int|
                    0 <= i < m.entries.len() ==> (#[trigger] m.entries[i]).vid != l.vid);
            }
            let m2 = apply_log(self.log@, base0).unwrap();
            assert(m2.entries == m.entries && m2.keys == m.keys && m2.vals == m.vals.update(
                t,
                None,
            ));
            assert(self.sim_ok()) by {
                assert(entries_live(target, m2.keys, m2.vals)) by {
                    assert forall|i: int|
                        0 <= i < target.len() implies m2.vals[(#[trigger] target[i]).vid as int]
                        is Some by {
                        assert(target[i].vid != l.vid);
                    }
                }
                assert forall|v: int| #[trigger] self.leaked@.contains(v) implies 0 <= v
                    < m2.vals.len() && m2.vals[v] is Some && (forall|i: int|
                    0 <= i < target.len() ==> (#[trigger] target[i]).vid != v) by {
                    assert(old(self).leaked_set().contains(v));
                    assert(v != t);
                    assert(m2.vals[v] == m.vals[v]);
                }
            }
            assert(self.log_discipline()) by {
                let log2 = self.log@;
                assert(forall|l0: int|
                    0 <= l0 < oldlog.len() ==> log2[l0] == #[trigger] oldlog[l0]);
                assert(log2[oldlog.len() as int] == op);
                assert(payload_vid(op) is None && evicted_vid(op) is None && dropped_vid(op)
                    == Some(t));
                assert forall|l0: int, m0: int|
                    #![trigger log2[l0], log2[m0]]
                    0 <= l0 < log2.len() && 0 <= m0 < log2.len() implies (dropped_vid(log2[l0])
                    matches Some(d) ==> (evicted_vid(log2[m0]) matches Some(tt) ==> log2[m0].leaky
                        || d != tt)) by {
                    if l0 == oldlog.len() as int {
                        if m0 < oldlog.len() as int {
                            assert(evicted_vid(oldlog[m0]) matches Some(tt) ==> oldlog[m0].leaky
                                || !old(self).leaked_set().contains(tt));
                        }
                    }
                }
                assert forall|l0: int, i: int|
                    #![trigger log2[l0], target[i]]
                    0 <= l0 < log2.len() && 0 <= i < target.len() implies (dropped_vid(log2[l0])
                    matches Some(d) ==> target[i].vid != d) by {
                    if l0 == oldlog.len() as int {
                        assert(target[i].vid != l.vid);
                    }
                }
            }
            assert(self.buffers_wf());
            assert(self.readers_ok());
        }
    }

    /// Replays the pending log into the stale buffer, bringing the two
    /// buffers back into agreement and destroying the slots the log says to
    /// destroy. Only runs once no reader can observe the stale buffer.
    fn flush_operations(&mut self)
        requires
            old(self).wf(),
            !old(self).is_writing(),
            old(self).residual_count() == 0,
        ensures
            final(self).wf(),
            !final(self).is_writing(),
            final(self).residual_count() == 0,
            final(self).log_ops().len() == 0,
            final(self).writer_index() == old(self).writer_index(),
            final(self).reader_map() == old(self).reader_map(),
            final(self).writer_map() == old(self).reader_map(),
            final(self).side_entries(old(self).writer_index()) == final(self).side_entries(
                old(self).reader_index(),
            ),
            final(self).history() == old(self).history(),
            final(self).spec_uid() == old(self).spec_uid(),
            final(self).total_guards() == old(self).total_guards(),
            final(self).guards_at(MapIndex::First) == old(self).guards_at(MapIndex::First),
            final(self).guards_at(MapIndex::Second) == old(self).guards_at(MapIndex::Second),
            final(self).leaked_set() == old(self).leaked_set(),
            forall|r: int|
                #[trigger] final(self).reader_registered(r) == old(self).reader_registered(r) && (
                old(self).reader_registered(r) ==> final(self).reader_count(r) == old(
                    self,
                ).reader_count(r)),
            Self::guards_preserved(*old(self), *final(self)),
            Self::leaked_preserved(*old(self), *final(self)),
            forall|v: int|
                #[trigger] old(self).leaked_set().contains(v) ==> final(self).val_at(v) == old(
                    self,
                ).val_at(v),
    {
        let ghost base0 = SimState::<K, V> {
            entries: self.side_entries(self.base_index()),
            keys: self.keys@,
            vals: self.vals@,
        };
        proof {
            assert(old(self).sim_ok());
            assert(apply_log(self.log@, base0) == old(self).sim());
            crate::oplog::lemma_apply_log_monotone(self.log@, base0);
        }
        let ghost m = apply_log(self.log@, base0).unwrap();
        let ghost target = self.side_entries(self.target_index());
        match self.writer_side {
            MapIndex::First => {
                crate::oplog::run_log(&self.log, &mut self.first, &mut self.keys, &mut self.vals);
            },
            MapIndex::Second => {
                crate::oplog::run_log(&self.log, &mut self.second, &mut self.keys, &mut self.vals);
            },
        }
        self.log.clear();
        proof {
            assert(self.side_entries(old(self).writer_index()) == m.entries);
            assert(self.side_entries(old(self).reader_index()) == target);
            assert(m.entries == target);
            assert(self.keys@ == m.keys && self.vals@ == m.vals);
            assert(entries_live(target, m.keys, m.vals));
            // the reader-visible map is untouched: every slot it references
            // survived the replay with its old content
            assert(self.side_map(old(self).reader_index()) == old(self).side_map(
                old(self).reader_index(),
            )) by {
                assert forall|i: int| 0 <= i < target.len() implies crate::buffer::ekey(
                    #[trigger] target[i],
                    m.keys,
                ) == crate::buffer::ekey(target[i], base0.keys) && crate::buffer::eval(
                    target[i],
                    m.vals,
                ) == crate::buffer::eval(target[i], base0.vals) by {
                    assert(m.keys[target[i].kid as int] is Some);
                    assert(m.vals[target[i].vid as int] is Some);
                }
                crate::buffer::lemma_map_of_congruent(
                    target,
                    m.keys,
                    m.vals,
                    target,
                    base0.keys,
                    base0.vals,
                );
            }
            assert(self.sim_ok()) by {
                assert(self.log@.len() == 0);
                assert(self.sim() == Some(
                    SimState::<K, V> {
                        entries: self.side_entries(self.base_index()),
                        keys: self.keys@,
                        vals: self.vals@,
                    },
                ));
                assert(self.side_entries(self.base_index()) == m.entries);
                assert(self.side_entries(self.target_index()) == target);
            }
            assert(self.log_discipline());
            assert(self.buffers_wf());
            assert(self.readers_ok());
            assert(self.history().last() == self.reader_map());
            assert forall|g2: ReadGuard<K, V>| #[trigger] old(self).guard_wf(
                g2,
            ) implies self.guard_wf(g2) by {
                broadcast use vstd::multiset::axiom_count_le_len;

                if g2.map_index == old(self).writer_index() {
                    assert(old(self).guards_at(old(self).writer_index()).count(g2.reader as int)
                        >= 1);
                    assert(false);
                } else {
                    assert(self.side_map(g2.map_index) == old(self).side_map(g2.map_index));
                }
            }
            assert forall|l2: Leaked<V>| #[trigger] old(self).leaked_wf(l2) implies self.leaked_wf(
                l2,
            ) by {
                assert(old(self).leaked_set().contains(l2.vid as int));
                assert(m.vals[l2.vid as int] is Some);
                assert(m.vals[l2.vid as int] == base0.vals[l2.vid as int]);
            }
            assert forall|v: int| #[trigger] old(self).leaked_set().contains(
                v,
            ) implies self.val_at(v) == old(self).val_at(v) by {
                assert(m.vals[v] is Some);
                assert(m.vals[v] == base0.vals[v]);
            }
        }
    }

    /// Opens the write session: waits out the residual readers, replays the
    /// pending log into the now-private buffer, and exposes it for
    /// mutation. With residual readers still active the writer would have to
    /// park, which this sequential engine reports by returning `false` and
    /// leaving the map untouched; the caller retries once the readers are
    /// gone.
    pub fn write_guard(&mut self) -> (ok: bool)
        requires
            old(self).wf(),
            !old(self).is_writing(),
        ensures
            ok == (old(self).residual_count() == 0),
            !ok ==> *final(self) == *old(self),
            ok ==> final(self).wf(),
            ok ==> final(self).is_writing(),
            ok ==> final(self).log_ops().len() == 0,
            ok ==> final(self).residual_count() == 0,
            ok ==> final(self).writer_map() == old(self).reader_map(),
            ok ==> final(self).reader_map() == old(self).reader_map(),
            ok ==> final(self).writer_index() == old(self).writer_index(),
            ok ==> final(self).history() == old(self).history(),
            ok ==> final(self).spec_uid() == old(self).spec_uid(),
            ok ==> final(self).total_guards() == old(self).total_guards(),
            ok ==> final(self).guards_at(MapIndex::First) == old(self).guards_at(MapIndex::First),
            ok ==> final(self).guards_at(MapIndex::Second) == old(self).guards_at(
                MapIndex::Second,
            ),
            ok ==> final(self).leaked_set() == old(self).leaked_set(),
            ok ==> Self::guards_preserved(*old(self), *final(self)),
            ok ==> Self::leaked_preserved(*old(self), *final(self)),
            ok ==> forall|r: int|
                #[trigger] final(self).reader_registered(r) == old(self).reader_registered(r),
            ok ==> forall|r: int|
                old(self).reader_registered(r) ==> #[trigger] final(self).reader_count(r) == old(
                    self,
                ).reader_count(r),
    {
        if !self.synchronize() {
            return false;
        }
        self.flush_operations();
        let ghost mid = *self;
        self.writing = true;
        proof {
            assert(self.side_entries(self.base_index()) == mid.side_entries(mid.target_index()));
            assert(self.side_entries(self.target_index()) == mid.side_entries(mid.base_index()));
            assert(self.sim_ok()) by {
                assert(self.log@.len() == 0);
                assert(self.side_entries(self.base_index()) == self.side_entries(
                    self.target_index(),
                ));
                assert(mid.sim_ok());
                assert(mid.sim() == Some(
                    SimState::<K, V> {
                        entries: mid.side_entries(mid.base_index()),
                        keys: mid.keys@,
                        vals: mid.vals@,
                    },
                ));
            }
            assert(self.log_discipline());
            assert(self.buffers_wf());
            assert(self.readers_ok());
            assert forall|g2: ReadGuard<K, V>| #[trigger] old(self).guard_wf(
                g2,
            ) implies self.guard_wf(g2) by {
                assert(mid.guard_wf(g2));
                assert(self.guards_at(g2.map_index) == mid.guards_at(g2.map_index));
                assert(self.side_map(g2.map_index) == mid.side_map(g2.map_index));
                assert(self.history() == mid.history());
            }
            assert forall|l2: Leaked<V>| #[trigger] old(self).leaked_wf(l2) implies self.leaked_wf(
                l2,
            ) by {
                assert(mid.leaked_wf(l2));
                assert(self.leaked_set() == mid.leaked_set());
                assert(self.val_at(l2.vid as int) == mid.val_at(l2.vid as int));
            }
            assert forall|r: int|
                #[trigger] self.reader_registered(r) == old(self).reader_registered(r) by {
                assert(mid.reader_registered(r) == old(self).reader_registered(r));
                assert(self.reader_registered(r) == mid.reader_registered(r));
            }
            assert forall|r: int|
                old(self).reader_registered(r) implies #[trigger] self.reader_count(r) == old(
                    self,
                ).reader_count(r) by {
                assert(mid.reader_registered(r) == old(self).reader_registered(r));
                assert(mid.reader_count(r) == old(self).reader_count(r));
                assert(self.reader_count(r) == mid.reader_count(r));
            }
        }
        true
    }

    /// Law: between a successful synchronization and the next publish - that
    /// is, whenever a write session is open - the residual counter is zero:
    /// no reader guard pins the buffer the writer mutates.
    pub proof fn lemma_writing_residual_zero(self)
        requires
            self.wf(),
            self.is_writing(),
        ensures
            self.residual_count() == 0,
            self.guards_at(self.writer_index()).len() == 0,
    {
    }

    /// Law: while any guard pins the writer's buffer, the residual counter
    /// is positive - so no write session can open, nothing is replayed into
    /// that buffer, and nothing the guard can reach is destroyed.
    pub proof fn lemma_pinned_buffer_blocks_writer(self, g: ReadGuard<K, V>)
        requires
            self.wf(),
            self.guard_wf(g),
            g.map_index == self.writer_index(),
        ensures
            self.residual_count() >= 1,
    {
        broadcast use vstd::multiset::axiom_count_le_len;

        assert(self.guards_at(self.writer_index()).count(g.reader as int) >= 1);
    }

    /// Law: every read session observes a published snapshot, unchanged: the
    /// guard's view is exactly one entry of the history, and the buffer it
    /// pins still shows it.
    pub proof fn lemma_guard_observes_published(self, g: ReadGuard<K, V>)
        requires
            self.guard_wf(g),
        ensures
            0 <= g.epoch@ < self.history().len(),
            self.history()[g.epoch@] == g.snap@,
            self.side_map(g.map_index) == g.snap@,
    {
    }

    /// The buffer a valid guard pins is fully live and shows exactly the
    /// guard's snapshot.
    proof fn lemma_guard_side_live(self, g: ReadGuard<K, V>)
        requires
            self.wf(),
            self.guard_wf(g),
        ensures
            entries_live(self.side_entries(g.map_index), self.keys@, self.vals@),
            map_of(self.side_entries(g.map_index), self.keys@, self.vals@) == g.snap@,
    {
        broadcast use vstd::multiset::axiom_count_le_len;

        if g.map_index != self.reader_index() {
            assert(g.map_index == self.writer_index());
            assert(self.guards_at(self.writer_index()).count(g.reader as int) >= 1);
            assert(self.residual_count() >= 1);
        }
    }
}

impl<K: crate::deterministic::TrustedHashEq, V> FlashMap<K, V> {
    /// Inserts a pair into the map. If the key was already present the old
    /// value is displaced and handed back as an [`Evicted`]; it stays
    /// readable until the session ends, because readers may still observe
    /// it. The change becomes visible to readers at the next publish.
    pub fn insert(&mut self, key: K, value: V) -> (r: Option<Evicted<V>>)
        requires
            old(self).wf(),
            old(self).is_writing(),
        ensures
            final(self).wf(),
            final(self).is_writing(),
            final(self).writer_map() == old(self).writer_map().insert(key@, value),
            final(self).reader_map() == old(self).reader_map(),
            (r is Some) == old(self).writer_map().dom().contains(key@),
            r matches Some(e) ==> final(self).evicted_wf(e) && e.val@ == old(self).writer_map()[key@]
                && e.uid == old(self).spec_uid(),
            final(self).writer_index() == old(self).writer_index(),
            final(self).residual_count() == old(self).residual_count(),
            final(self).history() == old(self).history(),
            final(self).spec_uid() == old(self).spec_uid(),
            final(self).total_guards() == old(self).total_guards(),
            final(self).guards_at(MapIndex::First) == old(self).guards_at(MapIndex::First),
            final(self).guards_at(MapIndex::Second) == old(self).guards_at(MapIndex::Second),
            final(self).leaked_set() == old(self).leaked_set(),
            forall|r2: int|
                #[trigger] final(self).reader_registered(r2) == old(self).reader_registered(r2),
            forall|r2: int|
                old(self).reader_registered(r2) ==> #[trigger] final(self).reader_count(r2) == old(
                    self,
                ).reader_count(r2),
            Self::guards_preserved(*old(self), *final(self)),
            Self::leaked_preserved(*old(self), *final(self)),
            Self::evicted_preserved(*old(self), *final(self)),
    {
        let ghost base0 = SimState::<K, V> {
            entries: self.side_entries(self.base_index()),
            keys: self.keys@,
            vals: self.vals@,
        };
        let ghost went = self.side_entries(self.writer_index());
        let ghost oldlog = self.log@;
        proof {
            assert(old(self).sim_ok());
            assert(apply_log(oldlog, base0) == old(self).sim());
            crate::oplog::lemma_apply_log_monotone(oldlog, base0);
            assert(entries_live(went, self.keys@, self.vals@));
        }
        let ghost m = apply_log(oldlog, base0).unwrap();
        let found = match self.writer_side {
            MapIndex::First => crate::buffer::find_key(&self.first, &self.keys, &self.vals, &key),
            MapIndex::Second => crate::buffer::find_key(
                &self.second,
                &self.keys,
                &self.vals,
                &key,
            ),
        };
        proof {
            crate::buffer::lemma_map_of_dom::<K, V>(went, self.keys@, self.vals@);
        }
        match found {
            None => {
                let kid = self.keys.len();
                self.keys.push(Some(key));
                let vid = self.vals.len();
                self.vals.push(Some(value));
                match self.writer_side {
                    MapIndex::First => {
                        self.first.push(Entry { kid, vid });
                    },
                    MapIndex::Second => {
                        self.second.push(Entry { kid, vid });
                    },
                }
                let op = Operation::new(RawOperation::InsertUnique { kid, vid });
                self.log.push(op);
                proof {
                    self.lemma_insert_vacant_restores(
                        *old(self),
                        base0,
                        m,
                        went,
                        oldlog,
                        key,
                        value,
                        op,
                    );
                }
                None
            },
            Some(i) => {
                let e = match self.writer_side {
                    MapIndex::First => self.first[i],
                    MapIndex::Second => self.second[i],
                };
                let ghost old_value = self.vals@[e.vid as int].unwrap();
                proof {
                    crate::buffer::lemma_map_of_index(went, self.keys@, self.vals@, i as int);
                }
                let vid = self.vals.len();
                self.vals.push(Some(value));
                match self.writer_side {
                    MapIndex::First => {
                        self.first[i] = Entry { kid: e.kid, vid };
                    },
                    MapIndex::Second => {
                        self.second[i] = Entry { kid: e.kid, vid };
                    },
                }
                let op = Operation::new(
                    RawOperation::Replace { kid: e.kid, vid, evicted: e.vid },
                );
                self.log.push(op);
                let token = Evicted {
                    op_index: self.log.len() - 1,
                    vid: e.vid,
                    uid: self.uid,
                    val: Ghost(old_value),
                };
                proof {
                    self.lemma_insert_occupied_restores(
                        *old(self),
                        base0,
                        m,
                        went,
                        oldlog,
                        key,
                        value,
                        op,
                        i as int,
                        e,
                        token,
                    );
                }
                Some(token)
            },
        }
    }

    /// Looks a key up in the writer's own buffer: changes of the open
    /// session are visible here immediately, before any publish.
    pub fn write_get<'a>(&'a self, key: &K) -> (r: Option<&'a V>)
        requires
            self.wf(),
            self.is_writing(),
        ensures
            match r {
                Some(v) => self.writer_map().dom().contains(key@) && *v == self.writer_map()[key@],
                None => !self.writer_map().dom().contains(key@),
            },
    {
        let entries = match self.writer_side {
            MapIndex::First => &self.first,
            MapIndex::Second => &self.second,
        };
        let found = crate::buffer::find_key(entries, &self.keys, &self.vals, key);
        match found {
            Some(i) => {
                proof {
                    crate::buffer::lemma_map_of_index(entries@, self.keys@, self.vals@, i as int);
                }
                Some(self.vals[entries[i].vid].as_ref().unwrap())
            },
            None => {
                proof {
                    crate::buffer::lemma_map_of_dom::<K, V>(entries@, self.keys@, self.vals@);
                }
                None
            },
        }
    }

    /// Whether the writer's own buffer contains the key.
    pub fn write_contains_key(&self, key: &K) -> (r: bool)
        requires
            self.wf(),
            self.is_writing(),
        ensures
            r == self.writer_map().dom().contains(key@),
    {
        self.write_get(key).is_some()
    }

    /// The number of entries in the writer's own buffer.
    pub fn write_len(&self) -> (r: usize)
        requires
            self.wf(),
            self.is_writing(),
        ensures
            r as int == self.writer_map().dom().len(),
    {
        proof {
            crate::buffer::lemma_map_of_len(
                self.side_entries(self.writer_index()),
                self.keys@,
                self.vals@,
            );
        }
        let entries = match self.writer_side {
            MapIndex::First => &self.first,
            MapIndex::Second => &self.second,
        };
        entries.len()
    }

    /// Whether the writer's own buffer is empty.
    pub fn write_is_empty(&self) -> (r: bool)
        requires
            self.wf(),
            self.is_writing(),
        ensures
            r == (self.writer_map().dom().len() == 0),
    {
        self.write_len() == 0
    }

    /// Restores the invariant after inserting a fresh key: the new key and
    /// value went to the ends of the arenas, the writer's buffer gained one
    /// entry, and the log recorded the unique insertion.
    proof fn lemma_insert_vacant_restores(
        self,
        prev: Self,
        base0: SimState<K, V>,
        m: SimState<K, V>,
        went: Seq<Entry>,
        oldlog: Seq<Operation>,
        key: K,
        value: V,
        op: Operation,
    )
        requires
            prev.wf(),
            prev.is_writing(),
            prev.keys@.len() <= usize::MAX,
            prev.vals@.len() <= usize::MAX,
            base0 == (SimState::<K, V> {
                entries: prev.side_entries(prev.base_index()),
                keys: prev.keys@,
                vals: prev.vals@,
            }),
            oldlog == prev.log@,
            went == prev.side_entries(prev.writer_index()),
            apply_log(oldlog, base0) == Some(m),
            !has_key(went, prev.keys@, key@),
            self.keys@ == prev.keys@.push(Some(key)),
            self.vals@ == prev.vals@.push(Some(value)),
            self.side_entries(self.writer_index()) == went.push(
                Entry { kid: prev.keys@.len() as usize, vid: prev.vals@.len() as usize },
            ),
            self.side_entries(self.reader_index()) == prev.side_entries(prev.reader_index()),
            self.writer_side == prev.writer_side,
            self.writing == prev.writing,
            self.residual == prev.residual,
            self.readers == prev.readers,
            self.guards_first@ == prev.guards_first@,
            self.guards_second@ == prev.guards_second@,
            self.hist@ == prev.hist@,
            self.leaked@ == prev.leaked@,
            self.uid == prev.uid,
            self.log@ == oldlog.push(op),
            op == (Operation {
                raw: RawOperation::InsertUnique {
                    kid: prev.keys@.len() as usize,
                    vid: prev.vals@.len() as usize,
                },
                leaky: false,
            }),
        ensures
            self.wf(),
            self.writer_map() == prev.writer_map().insert(key@, value),
            self.reader_map() == prev.reader_map(),
            Self::guards_preserved(prev, self),
            Self::leaked_preserved(prev, self),
            Self::evicted_preserved(prev, self),
    {
        broadcast use vstd::multiset::axiom_count_le_len;

        let klen = prev.keys@.len() as int;
        let vlen = prev.vals@.len() as int;
        let kid = klen as usize;
        let vid = vlen as usize;
        let newe = Entry { kid, vid };
        crate::oplog::lemma_apply_log_monotone(oldlog, base0);
        assert(entries_live(went, prev.keys@, prev.vals@));
        assert(m.entries == went);
        assert(entries_live(went, m.keys, m.vals));
        // replaying the old log in the grown arenas
        assert(crate::oplog::entries_in_bounds(base0.entries, klen, vlen)) by {
            assert(entries_live(base0.entries, base0.keys, base0.vals));
        }
        assert(crate::oplog::log_in_bounds(oldlog, klen, vlen));
        assert(base0.keys.is_prefix_of(self.keys@));
        assert(base0.vals.is_prefix_of(self.vals@));
        crate::oplog::lemma_apply_log_grow(oldlog, base0, self.keys@, self.vals@);
        let big = SimState::<K, V> { entries: base0.entries, keys: self.keys@, vals: self.vals@ };
        let m2 = apply_log(oldlog, big).unwrap();
        assert(m2.entries == m.entries);
        assert(m2.keys == m.keys + self.keys@.skip(klen));
        assert(m2.vals == m.vals + self.vals@.skip(vlen));
        assert(m.keys.len() == klen && m.vals.len() == vlen);
        assert(self.keys@.skip(klen).len() == 1 && self.keys@.skip(klen)[0] == Some(key));
        assert(self.vals@.skip(vlen).len() == 1 && self.vals@.skip(vlen)[0] == Some(value));
        assert(m2.keys.len() == klen + 1 && m2.vals.len() == vlen + 1);
        assert(m2.keys[klen] == Some(key) && m2.vals[vlen] == Some(value));
        assert(forall|x: int| 0 <= x < klen ==> m2.keys[x] == m.keys[x]);
        assert(forall|x: int| 0 <= x < vlen ==> m2.vals[x] == m.vals[x]);
        // the new operation applies on top
        crate::oplog::lemma_apply_log_snoc(oldlog, op, big);
        assert(apply_op(op, m2) is Some) by {
            assert(m2.keys[kid as int] is Some);
            assert(!has_key(m2.entries, m2.keys, m2.keys[kid as int].unwrap()@)) by {
                assert forall|i: int|
                    0 <= i < went.len() implies crate::buffer::ekey(#[trigger] went[i], m2.keys)
                    == crate::buffer::ekey(went[i], prev.keys@) by {
                    assert(m.keys[went[i].kid as int] is Some);
                    assert(m.keys[went[i].kid as int] == prev.keys@[went[i].kid as int]);
                }
                if has_key(went, m2.keys, key@) {
                    let i = choose|i: int|
                        0 <= i < went.len() && crate::buffer::ekey(#[trigger] went[i], m2.keys)
                            == key@;
                    assert(crate::buffer::ekey(went[i], prev.keys@) == key@);
                }
            }
            assert(forall|i: int|
                0 <= i < m2.entries.len() ==> (#[trigger] m2.entries[i]).kid != kid
                    && m2.entries[i].vid != vid);
        }
        let m3 = apply_op(op, m2).unwrap();
        assert(apply_log(self.log@, big) == Some(m3));
        assert(m3.entries == went.push(newe));
        assert(m3.keys == m2.keys && m3.vals == m2.vals);
        let target = self.side_entries(self.target_index());
        assert(target == went.push(newe));
        assert(self.base_index() == prev.base_index());
        assert(self.sim() == Some(m3));
        // the invariant, clause by clause
        assert(self.sim_ok()) by {
            assert(entries_live(target, m3.keys, m3.vals)) by {
                assert forall|i: int|
                    0 <= i < target.len() implies crate::buffer::entry_keyed(
                    #[trigger] target[i],
                    m3.keys,
                ) && target[i].vid < m3.vals.len() && m3.vals[target[i].vid as int] is Some by {
                    if i < went.len() {
                        assert(target[i] == went[i]);
                        assert(m.keys[went[i].kid as int] is Some);
                        assert(m.vals[went[i].vid as int] is Some);
                    } else {
                        assert(target[i] == newe);
                    }
                }
                Self::lemma_keyed_push(
                    went,
                    newe,
                    m3.keys,
                    m3.vals,
                    prev.keys@,
                    prev.vals@,
                    key@,
                );
            }
            assert forall|v: int| #[trigger] self.leaked@.contains(v) implies 0 <= v
                < m3.vals.len() && m3.vals[v] is Some && (forall|i: int|
                0 <= i < target.len() ==> (#[trigger] target[i]).vid != v) by {
                assert(prev.leaked_set().contains(v));
                assert(0 <= v < m.vals.len() && m.vals[v] is Some);
                assert(m3.vals[v] == m.vals[v]);
                assert forall|i: int| 0 <= i < target.len() implies (#[trigger] target[i]).vid
                    != v by {
                    if i < went.len() {
                        assert(went[i].vid != v);
                    } else {
                        assert(target[i].vid == vid && v < vlen);
                    }
                }
            }
        }
        assert(self.log_discipline()) by {
            self.lemma_discipline_after_push(prev, oldlog, op, went, target);
        }
        assert(self.buffers_wf()) by {
            self.lemma_buffers_after_growth(prev, key, value);
            assert(entries_live(
                self.side_entries(self.writer_index()),
                self.keys@,
                self.vals@,
            )) by {
                assert forall|i: int|
                    0 <= i < target.len() implies crate::buffer::entry_keyed(
                    #[trigger] target[i],
                    self.keys@,
                ) && target[i].vid < self.vals@.len() && self.vals@[target[i].vid as int]
                    is Some by {
                    if i < went.len() {
                        assert(target[i] == went[i]);
                        assert(crate::buffer::entry_keyed(went[i], prev.keys@));
                        assert(prev.vals@[went[i].vid as int] is Some);
                    } else {
                        assert(target[i] == newe);
                    }
                }
                Self::lemma_keyed_push(
                    went,
                    newe,
                    self.keys@,
                    self.vals@,
                    prev.keys@,
                    prev.vals@,
                    key@,
                );
            }
        }
        assert(self.readers_ok());
        // the maps
        assert(self.reader_map() == prev.reader_map()) by {
            self.lemma_reader_map_after_growth(prev);
        }
        assert(self.writer_map() == prev.writer_map().insert(key@, value)) by {
            crate::buffer::lemma_map_of_push(went, self.keys@, self.vals@, newe);
            crate::buffer::lemma_map_of_congruent(
                went,
                self.keys@,
                self.vals@,
                went,
                prev.keys@,
                prev.vals@,
            );
            assert(crate::buffer::ekey(newe, self.keys@) == key@);
            assert(crate::buffer::eval(newe, self.vals@) == value);
        }
        assert(self.history().last() == self.reader_map());
        assert(Self::guards_preserved(prev, self)) by {
            self.lemma_guards_after_writer_change(prev);
        }
        assert forall|l2: Leaked<V>| #[trigger] prev.leaked_wf(l2) implies self.leaked_wf(l2) by {
            assert(self.vals@[l2.vid as int] == prev.vals@[l2.vid as int]);
        }
        assert forall|e2: Evicted<V>| #[trigger] prev.evicted_wf(e2) implies self.evicted_wf(
            e2,
        ) by {
            assert(self.log@[e2.op_index as int] == oldlog[e2.op_index as int]);
            assert(self.vals@[e2.vid as int] == prev.vals@[e2.vid as int]);
        }
    }

    /// A buffer with distinct keys stays well formed when a fresh entry with
    /// a new key is appended and the arenas only grew.
    proof fn lemma_keyed_push(
        went: Seq<Entry>,
        newe: Entry,
        keys2: Seq<Option<K>>,
        vals2: Seq<Option<V>>,
        keys1: Seq<Option<K>>,
        vals1: Seq<Option<V>>,
        kv: K::V,
    )
        requires
            entries_keyed(went, keys1, vals1),
            forall|i: int|
                0 <= i < went.len() ==> (#[trigger] went[i]).kid < keys2.len() && keys2[went[i].kid
                    as int] == keys1[went[i].kid as int] && went[i].vid < vals2.len(),
            !has_key(went, keys1, kv),
            newe.kid < keys2.len(),
            keys2[newe.kid as int] is Some,
            keys2[newe.kid as int].unwrap()@ == kv,
            newe.vid < vals2.len(),
            forall|i: int|
                0 <= i < went.len() ==> (#[trigger] went[i]).kid != newe.kid && went[i].vid
                    != newe.vid,
        ensures
            entries_keyed(went.push(newe), keys2, vals2),
    {
        let t = went.push(newe);
        assert forall|i: int|
            0 <= i < t.len() implies crate::buffer::entry_keyed(#[trigger] t[i], keys2) && t[i].vid
            < vals2.len() by {
            if i < went.len() {
                assert(t[i] == went[i]);
                assert(crate::buffer::entry_keyed(went[i], keys1));
            } else {
                assert(t[i] == newe);
            }
        }
        assert forall|i: int, j: int|
            0 <= i < t.len() && 0 <= j < t.len() && i != j implies crate::buffer::ekey(
            #[trigger] t[i],
            keys2,
        ) != crate::buffer::ekey(#[trigger] t[j], keys2) by {
            if i < went.len() && j < went.len() {
                assert(crate::buffer::ekey(went[i], keys2) == crate::buffer::ekey(
                    went[i],
                    keys1,
                ));
                assert(crate::buffer::ekey(went[j], keys2) == crate::buffer::ekey(
                    went[j],
                    keys1,
                ));
                assert(crate::buffer::ekey(went[i], keys1) != crate::buffer::ekey(
                    went[j],
                    keys1,
                ));
            } else {
                let o = if i < went.len() {
                    i
                } else {
                    j
                };
                assert(t[o] == went[o]);
                assert(crate::buffer::ekey(went[o], keys2) == crate::buffer::ekey(
                    went[o],
                    keys1,
                ));
                if crate::buffer::ekey(went[o], keys1) == kv {
                    assert(has_key(went, keys1, kv));
                }
            }
        }
        assert(forall|i: int, j: int|
            0 <= i < t.len() && 0 <= j < t.len() && i != j ==> (#[trigger] t[i]).kid != (
            #[trigger] t[j]).kid);
        assert(forall|i: int, j: int|
            0 <= i < t.len() && 0 <= j < t.len() && i != j ==> (#[trigger] t[i]).vid != (
            #[trigger] t[j]).vid);
    }

    /// Removes a key from the map. The displaced value is handed back as an
    /// [`Evicted`]; readers may still observe it until the removal is
    /// published and the last of them moves on.
    pub fn remove(&mut self, key: K) -> (r: Option<Evicted<V>>)
        requires
            old(self).wf(),
            old(self).is_writing(),
        ensures
            final(self).wf(),
            final(self).is_writing(),
            final(self).writer_map() == old(self).writer_map().remove(key@),
            final(self).reader_map() == old(self).reader_map(),
            (r is Some) == old(self).writer_map().dom().contains(key@),
            r matches Some(e) ==> final(self).evicted_wf(e) && e.val@ == old(self).writer_map()[key@]
                && e.uid == old(self).spec_uid(),
            final(self).writer_index() == old(self).writer_index(),
            final(self).residual_count() == old(self).residual_count(),
            final(self).history() == old(self).history(),
            final(self).spec_uid() == old(self).spec_uid(),
            final(self).total_guards() == old(self).total_guards(),
            final(self).guards_at(MapIndex::First) == old(self).guards_at(MapIndex::First),
            final(self).guards_at(MapIndex::Second) == old(self).guards_at(MapIndex::Second),
            final(self).leaked_set() == old(self).leaked_set(),
            forall|r2: int|
                #[trigger] final(self).reader_registered(r2) == old(self).reader_registered(r2),
            forall|r2: int|
                old(self).reader_registered(r2) ==> #[trigger] final(self).reader_count(r2) == old(
                    self,
                ).reader_count(r2),
            Self::guards_preserved(*old(self), *final(self)),
            Self::leaked_preserved(*old(self), *final(self)),
            Self::evicted_preserved(*old(self), *final(self)),
    {
        let ghost base0 = SimState::<K, V> {
            entries: self.side_entries(self.base_index()),
            keys: self.keys@,
            vals: self.vals@,
        };
        let ghost went = self.side_entries(self.writer_index());
        let ghost oldlog = self.log@;
        proof {
            assert(old(self).sim_ok());
            assert(apply_log(oldlog, base0) == old(self).sim());
            crate::oplog::lemma_apply_log_monotone(oldlog, base0);
            assert(entries_live(went, self.keys@, self.vals@));
        }
        let ghost m = apply_log(oldlog, base0).unwrap();
        let found = match self.writer_side {
            MapIndex::First => crate::buffer::find_key(&self.first, &self.keys, &self.vals, &key),
            MapIndex::Second => crate::buffer::find_key(
                &self.second,
                &self.keys,
                &self.vals,
                &key,
            ),
        };
        proof {
            crate::buffer::lemma_map_of_dom::<K, V>(went, self.keys@, self.vals@);
        }
        match found {
            None => {
                proof {
                    assert(!old(self).writer_map().dom().contains(key@));
                    assert(old(self).writer_map().remove(key@) =~= old(self).writer_map());
                }
                None
            },
            Some(i) => {
                let e = match self.writer_side {
                    MapIndex::First => self.first[i],
                    MapIndex::Second => self.second[i],
                };
                let ghost old_value = self.vals@[e.vid as int].unwrap();
                proof {
                    crate::buffer::lemma_map_of_index(went, self.keys@, self.vals@, i as int);
                }
                match self.writer_side {
                    MapIndex::First => {
                        self.first.remove(i);
                    },
                    MapIndex::Second => {
                        self.second.remove(i);
                    },
                }
                let op = Operation::new(RawOperation::Remove { kid: e.kid, evicted: e.vid });
                self.log.push(op);
                let token = Evicted {
                    op_index: self.log.len() - 1,
                    vid: e.vid,
                    uid: self.uid,
                    val: Ghost(old_value),
                };
                proof {
                    self.lemma_remove_restores(
                        *old(self),
                        base0,
                        m,
                        went,
                        oldlog,
                        key,
                        op,
                        i as int,
                        e,
                        token,
                    );
                }
                Some(token)
            },
        }
    }

    /// Replaces the value of a present key with a value computed from the
    /// current one. With the key absent nothing happens; otherwise the old
    /// value is displaced exactly as by an insert over a present key.
    pub fn replace<F: Fn(&V) -> V>(&mut self, key: K, f: F) -> (r: Option<Evicted<V>>)
        requires
            old(self).wf(),
            old(self).is_writing(),
            old(self).writer_map().dom().contains(key@) ==> f.requires(
                (&old(self).writer_map()[key@],),
            ),
        ensures
            final(self).wf(),
            final(self).is_writing(),
            final(self).reader_map() == old(self).reader_map(),
            (r is Some) == old(self).writer_map().dom().contains(key@),
            r is None ==> final(self).writer_map() == old(self).writer_map(),
            r matches Some(e) ==> (exists|nv: V|
                f.ensures((&old(self).writer_map()[key@],), nv) && final(self).writer_map() == old(
                    self,
                ).writer_map().insert(key@, nv)) && final(self).evicted_wf(e) && e.val@ == old(
                self,
            ).writer_map()[key@] && e.uid == old(self).spec_uid(),
            final(self).writer_index() == old(self).writer_index(),
            final(self).residual_count() == old(self).residual_count(),
            final(self).history() == old(self).history(),
            final(self).spec_uid() == old(self).spec_uid(),
            final(self).total_guards() == old(self).total_guards(),
            final(self).guards_at(MapIndex::First) == old(self).guards_at(MapIndex::First),
            final(self).guards_at(MapIndex::Second) == old(self).guards_at(MapIndex::Second),
            final(self).leaked_set() == old(self).leaked_set(),
            forall|r2: int|
                #[trigger] final(self).reader_registered(r2) == old(self).reader_registered(r2),
            forall|r2: int|
                old(self).reader_registered(r2) ==> #[trigger] final(self).reader_count(r2) == old(
                    self,
                ).reader_count(r2),
            Self::guards_preserved(*old(self), *final(self)),
            Self::leaked_preserved(*old(self), *final(self)),
            Self::evicted_preserved(*old(self), *final(self)),
    {
        let ghost base0 = SimState::<K, V> {
            entries: self.side_entries(self.base_index()),
            keys: self.keys@,
            vals: self.vals@,
        };
        let ghost went = self.side_entries(self.writer_index());
        let ghost oldlog = self.log@;
        proof {
            assert(old(self).sim_ok());
            assert(apply_log(oldlog, base0) == old(self).sim());
            crate::oplog::lemma_apply_log_monotone(oldlog, base0);
            assert(entries_live(went, self.keys@, self.vals@));
        }
        let ghost m = apply_log(oldlog, base0).unwrap();
        let found = match self.writer_side {
            MapIndex::First => crate::buffer::find_key(&self.first, &self.keys, &self.vals, &key),
            MapIndex::Second => crate::buffer::find_key(
                &self.second,
                &self.keys,
                &self.vals,
                &key,
            ),
        };
        proof {
            crate::buffer::lemma_map_of_dom::<K, V>(went, self.keys@, self.vals@);
        }
        match found {
            None => None,
            Some(i) => {
                let e = match self.writer_side {
                    MapIndex::First => self.first[i],
                    MapIndex::Second => self.second[i],
                };
                let ghost old_value = self.vals@[e.vid as int].unwrap();
                proof {
                    crate::buffer::lemma_map_of_index(went, self.keys@, self.vals@, i as int);
                }
                let current: &V = self.vals[e.vid].as_ref().unwrap();
                let value = f(current);
                let vid = self.vals.len();
                self.vals.push(Some(value));
                match self.writer_side {
                    MapIndex::First => {
                        self.first[i] = Entry { kid: e.kid, vid };
                    },
                    MapIndex::Second => {
                        self.second[i] = Entry { kid: e.kid, vid };
                    },
                }
                let op = Operation::new(
                    RawOperation::Replace { kid: e.kid, vid, evicted: e.vid },
                );
                self.log.push(op);
                let token = Evicted {
                    op_index: self.log.len() - 1,
                    vid: e.vid,
                    uid: self.uid,
                    val: Ghost(old_value),
                };
                proof {
                    self.lemma_insert_occupied_restores(
                        *old(self),
                        base0,
                        m,
                        went,
                        oldlog,
                        key,
                        value,
                        op,
                        i as int,
                        e,
                        token,
                    );
                }
                Some(token)
            },
        }
    }

    /// Reclaims a leaked value, giving its ownership back to the caller.
    /// The residual readers must have drained first - the blocking
    /// `synchronize` of the concurrent setting - and the pending log is
    /// replayed on the way, so that no buffer still references the slot.
    pub fn reclaim_one(&mut self, l: Leaked<V>) -> (v: V)
        requires
            old(self).wf(),
            !old(self).is_writing(),
            old(self).residual_count() == 0,
            old(self).leaked_wf(l),
        ensures
            final(self).wf(),
            v == l.val@,
            final(self).leaked_set() == old(self).leaked_set().remove(l.vid as int),
            final(self).reader_map() == old(self).reader_map(),
            final(self).writer_map() == old(self).reader_map(),
            !final(self).is_writing(),
            final(self).residual_count() == 0,
            final(self).history() == old(self).history(),
            final(self).spec_uid() == old(self).spec_uid(),
            final(self).total_guards() == old(self).total_guards(),
            final(self).guards_at(MapIndex::First) == old(self).guards_at(MapIndex::First),
            final(self).guards_at(MapIndex::Second) == old(self).guards_at(MapIndex::Second),
            final(self).log_ops().len() == 0,
            forall|r2: int|
                #[trigger] final(self).reader_registered(r2) == old(self).reader_registered(r2),
            forall|r2: int|
                old(self).reader_registered(r2) ==> #[trigger] final(self).reader_count(r2) == old(
                    self,
                ).reader_count(r2),
            Self::guards_preserved(*old(self), *final(self)),
            forall|l2: Leaked<V>|
                #[trigger] old(self).leaked_wf(l2) && l2.vid != l.vid ==> final(self).leaked_wf(
                    l2,
                ),
    {
        self.flush_operations();
        let ghost mid = *self;
        proof {
            assert(mid.leaked_wf(l));
            assert(mid.sim_ok());
            assert(mid.sim() == Some(
                SimState::<K, V> {
                    entries: mid.side_entries(mid.base_index()),
                    keys: mid.keys@,
                    vals: mid.vals@,
                },
            ));
            assert(forall|i: int|
                0 <= i < mid.side_entries(mid.target_index()).len() ==> (
                #[trigger] mid.side_entries(mid.target_index())[i]).vid != l.vid as int);
        }
        let slot = self.vals.remove(l.vid);
        self.vals.insert(l.vid, None);
        proof {
            self.leaked@ = self.leaked@.remove(l.vid as int);
            assert(self.vals@ =~= mid.vals@.update(l.vid as int, None));
            let rent = mid.side_entries(mid.reader_index());
            let went = mid.side_entries(mid.writer_index());
            assert(went == rent);
            assert(rent == mid.side_entries(mid.target_index()));
            assert(forall|i: int|
                0 <= i < rent.len() ==> (#[trigger] rent[i]).vid != l.vid as int);
            assert(self.side_entries(self.reader_index()) == rent);
            assert(self.side_entries(self.writer_index()) == went);
            assert(entries_live(rent, self.keys@, self.vals@)) by {
                assert(entries_live(rent, mid.keys@, mid.vals@));
                assert forall|i: int|
                    0 <= i < rent.len() implies self.vals@[(#[trigger] rent[i]).vid as int]
                    is Some by {
                    assert(rent[i].vid != l.vid as int);
                    assert(mid.vals@[rent[i].vid as int] is Some);
                }
                assert forall|i: int, j: int|
                    0 <= i < rent.len() && 0 <= j < rent.len() && i != j implies crate::buffer::ekey(
                    #[trigger] rent[i],
                    self.keys@,
                ) != crate::buffer::ekey(#[trigger] rent[j], self.keys@) by {
                    assert(crate::buffer::ekey(rent[i], mid.keys@) != crate::buffer::ekey(
                        rent[j],
                        mid.keys@,
                    ));
                }
            }
            assert(self.sim_ok()) by {
                assert(self.log@.len() == 0);
                assert(self.sim() == Some(
                    SimState::<K, V> {
                        entries: self.side_entries(self.base_index()),
                        keys: self.keys@,
                        vals: self.vals@,
                    },
                ));
                assert forall|v2: int| #[trigger] self.leaked@.contains(v2) implies 0 <= v2
                    < self.vals@.len() && self.vals@[v2] is Some && (forall|i: int|
                    0 <= i < rent.len() ==> (#[trigger] rent[i]).vid != v2) by {
                    assert(mid.leaked_set().contains(v2));
                    assert(v2 != l.vid as int);
                    assert(mid.vals@[v2] is Some);
                }
            }
            assert(self.log_discipline());
            assert(self.buffers_wf());
            assert(self.readers_ok());
            assert(self.reader_map() == mid.reader_map()) by {
                crate::buffer::lemma_map_of_congruent(
                    rent,
                    self.keys@,
                    self.vals@,
                    rent,
                    mid.keys@,
                    mid.vals@,
                );
            }
            assert(self.writer_map() == self.reader_map());
            assert(self.history().last() == self.reader_map());
            assert forall|g2: ReadGuard<K, V>| #[trigger] old(self).guard_wf(
                g2,
            ) implies self.guard_wf(g2) by {
                broadcast use vstd::multiset::axiom_count_le_len;

                assert(mid.guard_wf(g2));
                if g2.map_index == mid.writer_index() {
                    assert(mid.guards_at(mid.writer_index()).count(g2.reader as int) >= 1);
                    assert(false);
                } else {
                    assert(self.side_map(g2.map_index) == mid.side_map(g2.map_index));
                }
            }
            assert forall|l2: Leaked<V>|
                #[trigger] old(self).leaked_wf(l2) && l2.vid != l.vid implies self.leaked_wf(
                l2,
            ) by {
                assert(mid.leaked_wf(l2));
                assert(self.vals@[l2.vid as int] == mid.vals@[l2.vid as int]);
            }
            assert forall|r2: int|
                #[trigger] self.reader_registered(r2) == old(self).reader_registered(r2) by {
                assert(mid.reader_registered(r2) == old(self).reader_registered(r2));
                assert(self.reader_registered(r2) == mid.reader_registered(r2));
            }
            assert forall|r2: int|
                old(self).reader_registered(r2) implies #[trigger] self.reader_count(r2) == old(
                    self,
                ).reader_count(r2) by {
                assert(mid.reader_registered(r2) == old(self).reader_registered(r2));
                assert(mid.reader_count(r2) == old(self).reader_count(r2));
                assert(self.reader_count(r2) == mid.reader_count(r2));
            }
        }
        slot.unwrap()
    }

    /// Like [`FlashMap::reclaim_one`], but detects a leaked value that came
    /// from another map: it is given back untouched instead of being
    /// consumed, and the map is left unchanged.
    pub fn try_reclaim_one(&mut self, l: Leaked<V>) -> (r: Result<V, Leaked<V>>)
        requires
            old(self).wf(),
            !old(self).is_writing(),
            old(self).residual_count() == 0,
            l.uid == old(self).spec_uid() ==> old(self).leaked_wf(l),
        ensures
            (r is Err) == (l.uid != old(self).spec_uid()),
            r matches Err(l2) ==> l2 == l && *final(self) == *old(self),
            r matches Ok(v) ==> v == l.val@ && final(self).wf() && final(self).leaked_set() == old(
                self,
            ).leaked_set().remove(l.vid as int) && final(self).reader_map() == old(
                self,
            ).reader_map() && !final(self).is_writing() && final(self).residual_count() == 0
                && final(self).history() == old(self).history() && final(self).spec_uid() == old(
                self,
            ).spec_uid() && Self::guards_preserved(*old(self), *final(self)),
    {
        if l.uid != self.uid {
            return Err(l);
        }
        Ok(self.reclaim_one(l))
    }

    /// Reads an evicted value while its write session is still open.
    pub fn evicted_value<'a>(&'a self, e: &Evicted<V>) -> (r: &'a V)
        requires
            self.evicted_wf(*e),
        ensures
            *r == e.val@,
    {
        self.vals[e.vid].as_ref().unwrap()
    }

    /// Reads a leaked value; the slot stays live until the value is
    /// reclaimed or handed back.
    pub fn leaked_value<'a>(&'a self, l: &Leaked<V>) -> (r: &'a V)
        requires
            self.leaked_wf(*l),
        ensures
            *r == l.val@,
    {
        self.vals[l.vid].as_ref().unwrap()
    }

    /// Restores the invariant after a removal: the entry left the writer's
    /// buffer and the log recorded the removal together with the displaced
    /// slot.
    proof fn lemma_remove_restores(
        self,
        prev: Self,
        base0: SimState<K, V>,
        m: SimState<K, V>,
        went: Seq<Entry>,
        oldlog: Seq<Operation>,
        key: K,
        op: Operation,
        i: int,
        e: Entry,
        token: Evicted<V>,
    )
        requires
            prev.wf(),
            prev.is_writing(),
            prev.log@.len() < usize::MAX,
            base0 == (SimState::<K, V> {
                entries: prev.side_entries(prev.base_index()),
                keys: prev.keys@,
                vals: prev.vals@,
            }),
            oldlog == prev.log@,
            went == prev.side_entries(prev.writer_index()),
            apply_log(oldlog, base0) == Some(m),
            0 <= i < went.len(),
            e == went[i],
            crate::buffer::ekey(e, prev.keys@) == key@,
            self.keys@ == prev.keys@,
            self.vals@ == prev.vals@,
            self.side_entries(self.writer_index()) == went.remove(i),
            self.side_entries(self.reader_index()) == prev.side_entries(prev.reader_index()),
            self.writer_side == prev.writer_side,
            self.writing == prev.writing,
            self.residual == prev.residual,
            self.readers == prev.readers,
            self.guards_first@ == prev.guards_first@,
            self.guards_second@ == prev.guards_second@,
            self.hist@ == prev.hist@,
            self.leaked@ == prev.leaked@,
            self.uid == prev.uid,
            self.log@ == oldlog.push(op),
            op == (Operation {
                raw: RawOperation::Remove { kid: e.kid, evicted: e.vid },
                leaky: false,
            }),
            token == (Evicted::<V> {
                op_index: oldlog.len() as usize,
                vid: e.vid,
                uid: prev.uid,
                val: Ghost(prev.vals@[e.vid as int].unwrap()),
            }),
        ensures
            self.wf(),
            self.writer_map() == prev.writer_map().remove(key@),
            self.reader_map() == prev.reader_map(),
            self.evicted_wf(token),
            token.val@ == prev.writer_map()[key@],
            Self::guards_preserved(prev, self),
            Self::leaked_preserved(prev, self),
            Self::evicted_preserved(prev, self),
    {
        broadcast use vstd::multiset::axiom_count_le_len;

        let klen = prev.keys@.len() as int;
        let vlen = prev.vals@.len() as int;
        crate::oplog::lemma_apply_log_monotone(oldlog, base0);
        assert(entries_live(went, prev.keys@, prev.vals@));
        assert(m.entries == went);
        assert(entries_live(went, m.keys, m.vals));
        assert(m.keys.len() == klen && m.vals.len() == vlen);
        crate::oplog::lemma_apply_log_snoc(oldlog, op, base0);
        crate::oplog::lemma_kid_at(m.entries, e.kid as int);
        match crate::oplog::kid_at(m.entries, e.kid as int) {
            Some(a) => {
                if a != i {
                    assert(went[a].kid != went[i].kid);
                    assert(false);
                }
            },
            None => {
                assert(forall|j: int|
                    0 <= j < went.len() ==> (#[trigger] went[j]).kid != e.kid as int);
                assert(went[i].kid == e.kid);
                assert(false);
            },
        }
        assert(crate::oplog::kid_at(m.entries, e.kid as int) == Some(i));
        assert(crate::buffer::entry_keyed(went[i], prev.keys@));
        assert(e.vid < vlen && e.kid < klen);
        assert(m.keys[e.kid as int] is Some);
        assert(m.vals[e.vid as int] is Some) by {
            assert(m.vals[went[i].vid as int] is Some);
        }
        assert(apply_op(op, m) is Some) by {
            assert(m.entries[i].vid == e.vid);
        }
        let m3 = apply_op(op, m).unwrap();
        assert(apply_log(self.log@, base0) == Some(m3));
        assert(m3.entries == went.remove(i));
        assert(m3.keys == m.keys.update(e.kid as int, None));
        assert(m3.vals == m.vals.update(e.vid as int, None));
        let target = self.side_entries(self.target_index());
        assert(target == went.remove(i));
        assert(self.base_index() == prev.base_index());
        assert(self.sim() == Some(m3));
        assert(forall|j: int|
            0 <= j < target.len() ==> #[trigger] target[j] == (if j < i {
                went[j]
            } else {
                went[j + 1]
            }));
        assert(self.sim_ok()) by {
            assert(entries_live(target, m3.keys, m3.vals)) by {
                assert forall|j: int|
                    0 <= j < target.len() implies crate::buffer::entry_keyed(
                    #[trigger] target[j],
                    m3.keys,
                ) && target[j].vid < m3.vals.len() && m3.vals[target[j].vid as int] is Some by {
                    let j0 = if j < i {
                        j
                    } else {
                        j + 1
                    };
                    assert(target[j] == went[j0] && j0 != i);
                    assert(m.keys[went[j0].kid as int] is Some);
                    assert(m.vals[went[j0].vid as int] is Some);
                    assert(went[j0].kid != went[i].kid);
                    assert(went[j0].vid != went[i].vid);
                }
                assert forall|j: int, j2: int|
                    0 <= j < target.len() && 0 <= j2 < target.len() && j
                        != j2 implies crate::buffer::ekey(#[trigger] target[j], m3.keys)
                    != crate::buffer::ekey(#[trigger] target[j2], m3.keys) && (
                #[trigger] target[j]).kid != (#[trigger] target[j2]).kid && target[j].vid
                    != target[j2].vid by {
                    let j0 = if j < i {
                        j
                    } else {
                        j + 1
                    };
                    let j20 = if j2 < i {
                        j2
                    } else {
                        j2 + 1
                    };
                    assert(target[j] == went[j0] && target[j2] == went[j20] && j0 != j20);
                    assert(j0 != i && j20 != i);
                    assert(m.keys[went[j0].kid as int] == prev.keys@[went[j0].kid as int]);
                    assert(m.keys[went[j20].kid as int] == prev.keys@[went[j20].kid as int]);
                    assert(crate::buffer::ekey(went[j0], prev.keys@) != crate::buffer::ekey(
                        went[j20],
                        prev.keys@,
                    ));
                    assert(went[j0].kid != went[i].kid && went[j20].kid != went[i].kid);
                }
            }
            assert forall|v: int| #[trigger] self.leaked@.contains(v) implies 0 <= v
                < m3.vals.len() && m3.vals[v] is Some && (forall|j: int|
                0 <= j < target.len() ==> (#[trigger] target[j]).vid != v) by {
                assert(prev.leaked_set().contains(v));
                assert(0 <= v < m.vals.len() && m.vals[v] is Some);
                assert(v != e.vid) by {
                    assert(went[i].vid == e.vid);
                }
                assert(m3.vals[v] == m.vals[v]);
                assert forall|j: int| 0 <= j < target.len() implies (#[trigger] target[j]).vid
                    != v by {
                    let j0 = if j < i {
                        j
                    } else {
                        j + 1
                    };
                    assert(target[j] == went[j0]);
                    assert(went[j0].vid != v);
                }
            }
        }
        assert(self.log_discipline()) by {
            assert(crate::oplog::evicted_vid(op) == Some(e.vid as int));
            assert(exists|j: int| 0 <= j < went.len() && (#[trigger] went[j]).vid == e.vid) by {
                assert(went[i].vid == e.vid);
            }
            assert forall|i2: int|
                0 <= i2 < target.len() implies (#[trigger] target[i2]).vid >= prev.vals@.len() || (
            exists|j: int|
                0 <= j < went.len() && (#[trigger] went[j]).vid == target[i2].vid && (
                crate::oplog::evicted_vid(op) matches Some(t) ==> target[i2].vid != t)) by {
                let j0 = if i2 < i {
                    i2
                } else {
                    i2 + 1
                };
                assert(target[i2] == went[j0] && j0 != i);
                assert(went[j0].vid == target[i2].vid && went[j0].vid != went[i].vid);
            }
            self.lemma_discipline_after_push(prev, oldlog, op, went, target);
        }
        assert(self.buffers_wf()) by {
            assert(entries_live(
                self.side_entries(self.reader_index()),
                self.keys@,
                self.vals@,
            ));
            assert(entries_live(
                self.side_entries(self.writer_index()),
                self.keys@,
                self.vals@,
            )) by {
                assert forall|j: int|
                    0 <= j < target.len() implies crate::buffer::entry_keyed(
                    #[trigger] target[j],
                    self.keys@,
                ) && target[j].vid < self.vals@.len() && self.vals@[target[j].vid as int] is Some
                    && (forall|j2: int|
                    0 <= j2 < target.len() && j2 != j ==> crate::buffer::ekey(
                        #[trigger] target[j2],
                        self.keys@,
                    ) != crate::buffer::ekey(target[j], self.keys@) && target[j2].kid
                        != target[j].kid && target[j2].vid != target[j].vid) by {
                    let j0 = if j < i {
                        j
                    } else {
                        j + 1
                    };
                    assert(target[j] == went[j0]);
                    assert(crate::buffer::entry_keyed(went[j0], prev.keys@));
                    assert(prev.vals@[went[j0].vid as int] is Some);
                    assert forall|j2: int|
                        0 <= j2 < target.len() && j2 != j implies crate::buffer::ekey(
                        #[trigger] target[j2],
                        self.keys@,
                    ) != crate::buffer::ekey(target[j], self.keys@) && target[j2].kid
                        != target[j].kid && target[j2].vid != target[j].vid by {
                        let j20 = if j2 < i {
                            j2
                        } else {
                            j2 + 1
                        };
                        assert(target[j2] == went[j20] && j20 != j0);
                        assert(crate::buffer::ekey(went[j20], prev.keys@) != crate::buffer::ekey(
                            went[j0],
                            prev.keys@,
                        ));
                    }
                }
            }
        }
        assert(self.readers_ok());
        assert(self.reader_map() == prev.reader_map());
        assert(self.writer_map() == prev.writer_map().remove(key@)) by {
            crate::buffer::lemma_map_of_remove(went, prev.keys@, prev.vals@, i);
        }
        assert(self.history().last() == self.reader_map());
        assert(self.evicted_wf(token)) by {
            assert(self.log@[oldlog.len() as int] == op);
            assert(prev.vals@[e.vid as int] is Some);
        }
        assert(token.val@ == prev.writer_map()[key@]) by {
            crate::buffer::lemma_map_of_index(went, prev.keys@, prev.vals@, i);
        }
        assert(Self::guards_preserved(prev, self)) by {
            self.lemma_guards_after_writer_change(prev);
        }
        assert forall|l2: Leaked<V>| #[trigger] prev.leaked_wf(l2) implies self.leaked_wf(l2) by {
            assert(self.vals@[l2.vid as int] == prev.vals@[l2.vid as int]);
        }
        assert forall|e2: Evicted<V>| #[trigger] prev.evicted_wf(e2) implies self.evicted_wf(
            e2,
        ) by {
            assert(self.log@[e2.op_index as int] == oldlog[e2.op_index as int]);
        }
    }

    /// A buffer with distinct keys stays well formed when one entry's value
    /// slot is redirected to a fresh slot.
    proof fn lemma_keyed_update(
        went: Seq<Entry>,
        i: int,
        newe: Entry,
        keys2: Seq<Option<K>>,
        vals2: Seq<Option<V>>,
        keys1: Seq<Option<K>>,
        vals1: Seq<Option<V>>,
    )
        requires
            entries_keyed(went, keys1, vals1),
            0 <= i < went.len(),
            forall|j: int|
                0 <= j < went.len() ==> (#[trigger] went[j]).kid < keys2.len() && keys2[went[j].kid
                    as int] == keys1[went[j].kid as int] && went[j].vid < vals2.len(),
            newe.kid == went[i].kid,
            newe.vid < vals2.len(),
            forall|j: int| 0 <= j < went.len() ==> (#[trigger] went[j]).vid != newe.vid,
        ensures
            entries_keyed(went.update(i, newe), keys2, vals2),
    {
        let t = went.update(i, newe);
        assert forall|j: int|
            0 <= j < t.len() implies crate::buffer::entry_keyed(#[trigger] t[j], keys2) && t[j].vid
            < vals2.len() by {
            if j != i {
                assert(t[j] == went[j]);
                assert(crate::buffer::entry_keyed(went[j], keys1));
            } else {
                assert(t[j] == newe);
                assert(crate::buffer::entry_keyed(went[i], keys1));
            }
        }
        assert forall|j: int, j2: int|
            0 <= j < t.len() && 0 <= j2 < t.len() && j != j2 implies crate::buffer::ekey(
            #[trigger] t[j],
            keys2,
        ) != crate::buffer::ekey(#[trigger] t[j2], keys2) by {
            let a = if j == i {
                went[i]
            } else {
                went[j]
            };
            let b = if j2 == i {
                went[i]
            } else {
                went[j2]
            };
            assert(t[j].kid == a.kid && t[j2].kid == b.kid);
            assert(crate::buffer::ekey(t[j], keys2) == crate::buffer::ekey(a, keys1));
            assert(crate::buffer::ekey(t[j2], keys2) == crate::buffer::ekey(b, keys1));
            assert(crate::buffer::ekey(went[j], keys1) != crate::buffer::ekey(went[j2], keys1));
        }
        assert(forall|j: int, j2: int|
            0 <= j < t.len() && 0 <= j2 < t.len() && j != j2 ==> (#[trigger] t[j]).kid != (
            #[trigger] t[j2]).kid);
        assert forall|j: int, j2: int|
            0 <= j < t.len() && 0 <= j2 < t.len() && j != j2 implies (#[trigger] t[j]).vid != (
        #[trigger] t[j2]).vid by {
            if j != i && j2 != i {
                assert(went[j].vid != went[j2].vid);
            }
        }
    }

    /// Restores the invariant after inserting over a present key: the new
    /// value went to the end of the value arena, the entry was redirected to
    /// it, and the log recorded the replacement together with the displaced
    /// slot.
    proof fn lemma_insert_occupied_restores(
        self,
        prev: Self,
        base0: SimState<K, V>,
        m: SimState<K, V>,
        went: Seq<Entry>,
        oldlog: Seq<Operation>,
        key: K,
        value: V,
        op: Operation,
        i: int,
        e: Entry,
        token: Evicted<V>,
    )
        requires
            prev.wf(),
            prev.is_writing(),
            prev.vals@.len() <= usize::MAX,
            prev.log@.len() < usize::MAX,
            base0 == (SimState::<K, V> {
                entries: prev.side_entries(prev.base_index()),
                keys: prev.keys@,
                vals: prev.vals@,
            }),
            oldlog == prev.log@,
            went == prev.side_entries(prev.writer_index()),
            apply_log(oldlog, base0) == Some(m),
            0 <= i < went.len(),
            e == went[i],
            crate::buffer::ekey(e, prev.keys@) == key@,
            self.keys@ == prev.keys@,
            self.vals@ == prev.vals@.push(Some(value)),
            self.side_entries(self.writer_index()) == went.update(
                i,
                Entry { kid: e.kid, vid: prev.vals@.len() as usize },
            ),
            self.side_entries(self.reader_index()) == prev.side_entries(prev.reader_index()),
            self.writer_side == prev.writer_side,
            self.writing == prev.writing,
            self.residual == prev.residual,
            self.readers == prev.readers,
            self.guards_first@ == prev.guards_first@,
            self.guards_second@ == prev.guards_second@,
            self.hist@ == prev.hist@,
            self.leaked@ == prev.leaked@,
            self.uid == prev.uid,
            self.log@ == oldlog.push(op),
            op == (Operation {
                raw: RawOperation::Replace {
                    kid: e.kid,
                    vid: prev.vals@.len() as usize,
                    evicted: e.vid,
                },
                leaky: false,
            }),
            token == (Evicted::<V> {
                op_index: oldlog.len() as usize,
                vid: e.vid,
                uid: prev.uid,
                val: Ghost(prev.vals@[e.vid as int].unwrap()),
            }),
        ensures
            self.wf(),
            self.writer_map() == prev.writer_map().insert(key@, value),
            self.reader_map() == prev.reader_map(),
            self.evicted_wf(token),
            token.val@ == prev.writer_map()[key@],
            Self::guards_preserved(prev, self),
            Self::leaked_preserved(prev, self),
            Self::evicted_preserved(prev, self),
    {
        broadcast use vstd::multiset::axiom_count_le_len;

        let klen = prev.keys@.len() as int;
        let vlen = prev.vals@.len() as int;
        let vid = vlen as usize;
        let newe = Entry { kid: e.kid, vid };
        crate::oplog::lemma_apply_log_monotone(oldlog, base0);
        assert(entries_live(went, prev.keys@, prev.vals@));
        assert(m.entries == went);
        assert(entries_live(went, m.keys, m.vals));
        assert(crate::oplog::entries_in_bounds(base0.entries, klen, vlen)) by {
            assert(entries_live(base0.entries, base0.keys, base0.vals));
        }
        assert(crate::oplog::log_in_bounds(oldlog, klen, vlen));
        assert(base0.keys.is_prefix_of(self.keys@)) by {
            assert(self.keys@.take(klen) =~= base0.keys);
        }
        assert(base0.vals.is_prefix_of(self.vals@));
        crate::oplog::lemma_apply_log_grow(oldlog, base0, self.keys@, self.vals@);
        let big = SimState::<K, V> { entries: base0.entries, keys: self.keys@, vals: self.vals@ };
        let m2 = apply_log(oldlog, big).unwrap();
        assert(m2.entries == m.entries);
        assert(m2.keys == m.keys + self.keys@.skip(klen));
        assert(m2.keys =~= m.keys);
        assert(m2.vals == m.vals + self.vals@.skip(vlen));
        assert(m2.vals.len() == vlen + 1 && m2.vals[vlen] == Some(value));
        assert(forall|x: int| 0 <= x < vlen ==> m2.vals[x] == m.vals[x]);
        assert(m.vals.len() == vlen && m.keys.len() == klen);
        crate::oplog::lemma_apply_log_snoc(oldlog, op, big);
        crate::oplog::lemma_kid_at(m2.entries, e.kid as int);
        match crate::oplog::kid_at(m2.entries, e.kid as int) {
            Some(a) => {
                if a != i {
                    assert(went[a].kid != went[i].kid);
                    assert(false);
                }
            },
            None => {
                assert(forall|j: int|
                    0 <= j < went.len() ==> (#[trigger] went[j]).kid != e.kid as int);
                assert(went[i].kid == e.kid);
                assert(false);
            },
        }
        assert(crate::oplog::kid_at(m2.entries, e.kid as int) == Some(i));
        assert(e.vid < vlen) by {
            assert(crate::buffer::entry_keyed(went[i], prev.keys@));
            assert(went[i].vid < prev.vals@.len());
        }
        assert(m.vals[e.vid as int] is Some) by {
            assert(m.vals[went[i].vid as int] is Some);
        }
        assert(m2.vals[e.vid as int] == m.vals[e.vid as int]);
        assert(apply_op(op, m2) is Some) by {
            assert(m2.entries[i as int].vid == e.vid);
            assert(forall|j: int|
                0 <= j < m2.entries.len() ==> (#[trigger] m2.entries[j]).vid != vid);
        }
        let m3 = apply_op(op, m2).unwrap();
        assert(apply_log(self.log@, big) == Some(m3));
        assert(m3.entries == went.update(i, newe));
        assert(m3.keys == m2.keys);
        assert(m3.vals == m2.vals.update(e.vid as int, None));
        let target = self.side_entries(self.target_index());
        assert(target == went.update(i, newe));
        assert(self.base_index() == prev.base_index());
        assert(self.sim() == Some(m3));
        assert(self.sim_ok()) by {
            assert(entries_live(target, m3.keys, m3.vals)) by {
                assert forall|j: int|
                    0 <= j < target.len() implies crate::buffer::entry_keyed(
                    #[trigger] target[j],
                    m3.keys,
                ) && target[j].vid < m3.vals.len() && m3.vals[target[j].vid as int] is Some by {
                    if j != i {
                        assert(target[j] == went[j]);
                        assert(m.keys[went[j].kid as int] is Some);
                        assert(m.vals[went[j].vid as int] is Some);
                        assert(went[j].vid != e.vid);
                    } else {
                        assert(target[j] == newe);
                        assert(m.keys[e.kid as int] is Some);
                        assert(m3.vals[vlen] == Some(value));
                    }
                }
                Self::lemma_keyed_update(went, i, newe, m3.keys, m3.vals, prev.keys@, prev.vals@);
            }
            assert forall|v: int| #[trigger] self.leaked@.contains(v) implies 0 <= v
                < m3.vals.len() && m3.vals[v] is Some && (forall|j: int|
                0 <= j < target.len() ==> (#[trigger] target[j]).vid != v) by {
                assert(prev.leaked_set().contains(v));
                assert(0 <= v < m.vals.len() && m.vals[v] is Some);
                assert(v != e.vid) by {
                    assert(went[i].vid == e.vid);
                }
                assert(m3.vals[v] == m.vals[v]);
                assert forall|j: int| 0 <= j < target.len() implies (#[trigger] target[j]).vid
                    != v by {
                    if j != i {
                        assert(went[j].vid != v);
                    } else {
                        assert(target[j].vid == vid && v < vlen);
                    }
                }
            }
        }
        assert(self.log_discipline()) by {
            assert(crate::oplog::evicted_vid(op) == Some(e.vid as int));
            assert(exists|j: int| 0 <= j < went.len() && (#[trigger] went[j]).vid == e.vid) by {
                assert(went[i].vid == e.vid);
            }
            assert forall|i2: int|
                0 <= i2 < target.len() implies (#[trigger] target[i2]).vid >= prev.vals@.len() || (
            exists|j: int|
                0 <= j < went.len() && (#[trigger] went[j]).vid == target[i2].vid && (
                crate::oplog::evicted_vid(op) matches Some(t) ==> target[i2].vid != t)) by {
                if i2 != i {
                    assert(target[i2] == went[i2]);
                    assert(went[i2].vid == target[i2].vid && went[i2].vid != e.vid);
                } else {
                    assert(target[i2].vid == vid);
                }
            }
            self.lemma_discipline_after_push(prev, oldlog, op, went, target);
        }
        assert(self.buffers_wf()) by {
            self.lemma_buffers_after_growth(prev, key, value);
            assert(entries_live(
                self.side_entries(self.writer_index()),
                self.keys@,
                self.vals@,
            )) by {
                assert forall|j: int|
                    0 <= j < target.len() implies crate::buffer::entry_keyed(
                    #[trigger] target[j],
                    self.keys@,
                ) && target[j].vid < self.vals@.len() && self.vals@[target[j].vid as int]
                    is Some by {
                    if j != i {
                        assert(target[j] == went[j]);
                        assert(crate::buffer::entry_keyed(went[j], prev.keys@));
                        assert(prev.vals@[went[j].vid as int] is Some);
                    } else {
                        assert(target[j] == newe);
                        assert(crate::buffer::entry_keyed(went[i], prev.keys@));
                    }
                }
                Self::lemma_keyed_update(
                    went,
                    i,
                    newe,
                    self.keys@,
                    self.vals@,
                    prev.keys@,
                    prev.vals@,
                );
            }
        }
        assert(self.readers_ok());
        assert(self.reader_map() == prev.reader_map()) by {
            self.lemma_reader_map_after_growth(prev);
        }
        assert(entries_keyed(went, self.keys@, self.vals@)) by {
            assert forall|j: int|
                0 <= j < went.len() implies crate::buffer::entry_keyed(
                #[trigger] went[j],
                self.keys@,
            ) && went[j].vid < self.vals@.len() by {
                assert(crate::buffer::entry_keyed(went[j], prev.keys@));
            }
            assert forall|j: int, j2: int|
                0 <= j < went.len() && 0 <= j2 < went.len() && j != j2 implies crate::buffer::ekey(
                #[trigger] went[j],
                self.keys@,
            ) != crate::buffer::ekey(#[trigger] went[j2], self.keys@) by {
                assert(crate::buffer::ekey(went[j], prev.keys@) != crate::buffer::ekey(
                    went[j2],
                    prev.keys@,
                ));
            }
        }
        assert(self.writer_map() == prev.writer_map().insert(key@, value)) by {
            crate::buffer::lemma_map_of_update(went, self.keys@, self.vals@, i, newe);
            crate::buffer::lemma_map_of_congruent(
                went,
                self.keys@,
                self.vals@,
                went,
                prev.keys@,
                prev.vals@,
            );
            assert(crate::buffer::ekey(newe, self.keys@) == key@);
            assert(crate::buffer::eval(newe, self.vals@) == value);
        }
        assert(self.history().last() == self.reader_map());
        assert(self.evicted_wf(token)) by {
            assert(self.log@[oldlog.len() as int] == op);
            assert(prev.vals@[e.vid as int] is Some);
            assert(self.vals@[e.vid as int] == prev.vals@[e.vid as int]);
        }
        assert(token.val@ == prev.writer_map()[key@]) by {
            crate::buffer::lemma_map_of_index(went, prev.keys@, prev.vals@, i);
        }
        assert(Self::guards_preserved(prev, self)) by {
            self.lemma_guards_after_writer_change(prev);
        }
        assert forall|l2: Leaked<V>| #[trigger] prev.leaked_wf(l2) implies self.leaked_wf(l2) by {
            assert(self.vals@[l2.vid as int] == prev.vals@[l2.vid as int]);
        }
        assert forall|e2: Evicted<V>| #[trigger] prev.evicted_wf(e2) implies self.evicted_wf(
            e2,
        ) by {
            assert(self.log@[e2.op_index as int] == oldlog[e2.op_index as int]);
            assert(self.vals@[e2.vid as int] == prev.vals@[e2.vid as int]);
        }
    }

    /// After a writer-side change with no reader-side change, every old
    /// guard stays valid: no guard was pinning the writer's side.
    proof fn lemma_guards_after_writer_change(self, prev: Self)
        requires
            prev.wf(),
            prev.is_writing(),
            self.side_entries(self.reader_index()) == prev.side_entries(prev.reader_index()),
            self.writer_side == prev.writer_side,
            self.guards_first@ == prev.guards_first@,
            self.guards_second@ == prev.guards_second@,
            self.hist@ == prev.hist@,
            self.side_map(prev.reader_index()) == prev.side_map(prev.reader_index()),
        ensures
            Self::guards_preserved(prev, self),
    {
        broadcast use vstd::multiset::axiom_count_le_len;

        assert forall|g2: ReadGuard<K, V>| #[trigger] prev.guard_wf(g2) implies self.guard_wf(
            g2,
        ) by {
            if g2.map_index == prev.writer_index() {
                assert(prev.guards_at(prev.writer_index()).count(g2.reader as int) >= 1);
                assert(prev.residual_count() == 0);
                assert(false);
            } else {
                assert(g2.map_index == prev.reader_index());
                assert(self.guards_at(g2.map_index) == prev.guards_at(g2.map_index));
            }
        }
    }

    /// Growing the arenas leaves the readers' map untouched.
    proof fn lemma_reader_map_after_growth(self, prev: Self)
        requires
            prev.wf(),
            self.side_entries(self.reader_index()) == prev.side_entries(prev.reader_index()),
            self.writer_side == prev.writer_side,
            prev.keys@.is_prefix_of(self.keys@),
            prev.vals@.is_prefix_of(self.vals@),
        ensures
            self.reader_map() == prev.reader_map(),
            self.side_map(prev.reader_index()) == prev.side_map(prev.reader_index()),
    {
        let rent = prev.side_entries(prev.reader_index());
        assert(entries_live(rent, prev.keys@, prev.vals@));
        assert forall|i: int|
            0 <= i < rent.len() implies crate::buffer::ekey(#[trigger] rent[i], self.keys@)
            == crate::buffer::ekey(rent[i], prev.keys@) && crate::buffer::eval(
            rent[i],
            self.vals@,
        ) == crate::buffer::eval(rent[i], prev.vals@) by {
            assert(self.keys@[rent[i].kid as int] == prev.keys@[rent[i].kid as int]);
            assert(self.vals@[rent[i].vid as int] == prev.vals@[rent[i].vid as int]);
        }
        crate::buffer::lemma_map_of_congruent(
            rent,
            self.keys@,
            self.vals@,
            rent,
            prev.keys@,
            prev.vals@,
        );
    }

    /// Growing the arenas keeps the readers' buffer fully live.
    proof fn lemma_buffers_after_growth(self, prev: Self, key: K, value: V)
        requires
            prev.wf(),
            self.side_entries(self.reader_index()) == prev.side_entries(prev.reader_index()),
            self.writer_side == prev.writer_side,
            prev.keys@.is_prefix_of(self.keys@),
            prev.vals@.is_prefix_of(self.vals@),
        ensures
            entries_live(self.side_entries(self.reader_index()), self.keys@, self.vals@),
    {
        let rent = prev.side_entries(prev.reader_index());
        assert(entries_live(rent, prev.keys@, prev.vals@));
        assert forall|i: int|
            0 <= i < rent.len() implies crate::buffer::entry_keyed(#[trigger] rent[i], self.keys@)
            && rent[i].vid < self.vals@.len() && self.vals@[rent[i].vid as int] is Some by {
            assert(self.keys@[rent[i].kid as int] == prev.keys@[rent[i].kid as int]);
            assert(self.vals@[rent[i].vid as int] == prev.vals@[rent[i].vid as int]);
        }
        assert forall|i: int, j: int|
            0 <= i < rent.len() && 0 <= j < rent.len() && i != j implies crate::buffer::ekey(
            #[trigger] rent[i],
            self.keys@,
        ) != crate::buffer::ekey(#[trigger] rent[j], self.keys@) by {
            assert(self.keys@[rent[i].kid as int] == prev.keys@[rent[i].kid as int]);
            assert(self.keys@[rent[j].kid as int] == prev.keys@[rent[j].kid as int]);
            assert(crate::buffer::ekey(rent[i], prev.keys@) != crate::buffer::ekey(
                rent[j],
                prev.keys@,
            ));
        }
    }

    /// The discipline clauses survive pushing one fresh operation whose
    /// planted slots are at the old arena ends.
    proof fn lemma_discipline_after_push(
        self,
        prev: Self,
        oldlog: Seq<Operation>,
        op: Operation,
        went: Seq<Entry>,
        target: Seq<Entry>,
    )
        requires
            prev.wf(),
            prev.is_writing(),
            oldlog == prev.log@,
            went == prev.side_entries(prev.writer_index()),
            self.log@ == oldlog.push(op),
            self.leaked@ == prev.leaked@,
            target == self.side_entries(self.target_index()),
            self.writer_side == prev.writer_side,
            self.writing == prev.writing,
            self.keys@.len() >= prev.keys@.len(),
            self.vals@.len() >= prev.vals@.len(),
            crate::oplog::op_in_bounds(op, self.keys@.len() as int, self.vals@.len() as int),
            // the planted slots are fresh
            crate::oplog::payload_vid(op) matches Some(p) ==> p >= prev.vals@.len(),
            // the evicted slot, if any, was the displaced writer-buffer entry
            crate::oplog::evicted_vid(op) matches Some(t) ==> t < prev.vals@.len() && (exists|
                j: int,
            |
                0 <= j < went.len() && (#[trigger] went[j]).vid == t) && !op.leaky,
            crate::oplog::dropped_vid(op) is None,
            // how the writer's buffer changed: old entries either survive or
            // lost exactly the evicted slot; new entries are fresh
            forall|i: int|
                0 <= i < target.len() ==> (#[trigger] target[i]).vid >= prev.vals@.len() || (
                exists|j: int|
                    0 <= j < went.len() && (#[trigger] went[j]).vid == target[i].vid && (
                    crate::oplog::evicted_vid(op) matches Some(t) ==> target[i].vid != t)),
        ensures
            self.log_discipline(),
    {
        let log2 = self.log@;
        let n = oldlog.len() as int;
        assert(forall|l: int| 0 <= l < n ==> log2[l] == #[trigger] oldlog[l]);
        assert(log2[n] == op);
        assert(crate::oplog::log_in_bounds(
            log2,
            self.keys@.len() as int,
            self.vals@.len() as int,
        )) by {
            assert forall|l: int|
                0 <= l < log2.len() implies crate::oplog::op_in_bounds(
                #[trigger] log2[l],
                self.keys@.len() as int,
                self.vals@.len() as int,
            ) by {
                if l < n {
                    assert(crate::oplog::op_in_bounds(
                        oldlog[l],
                        prev.keys@.len() as int,
                        prev.vals@.len() as int,
                    ));
                }
            }
        }
        assert forall|l: int, m0: int|
            #![trigger log2[l], log2[m0]]
            0 <= l < m0 < log2.len() implies (payload_vid(log2[m0]) matches Some(p) ==> (
        payload_vid(log2[l]) matches Some(q) ==> q < p) && (evicted_vid(log2[l]) matches Some(q)
            ==> q < p) && (dropped_vid(log2[l]) matches Some(q) ==> q < p)) by {
            if m0 < n {
            } else {
                if payload_vid(op) is Some {
                    assert(crate::oplog::op_in_bounds(
                        oldlog[l],
                        prev.keys@.len() as int,
                        prev.vals@.len() as int,
                    ));
                }
            }
        }
        assert forall|l: int, m0: int|
            #![trigger log2[l], log2[m0]]
            0 <= l < log2.len() && 0 <= m0 < log2.len() && l != m0 implies (evicted_vid(log2[l])
            matches Some(a) ==> (evicted_vid(log2[m0]) matches Some(b) ==> a != b)) by {
            if l == n || m0 == n {
                if evicted_vid(op) is Some {
                    let t = evicted_vid(op).unwrap();
                    let other = if l == n {
                        m0
                    } else {
                        l
                    };
                    if other < n && evicted_vid(oldlog[other]) is Some {
                        let j = choose|j: int|
                            0 <= j < went.len() && (#[trigger] went[j]).vid == t;
                        assert(evicted_vid(oldlog[other]) matches Some(b) ==> went[j].vid != b);
                    }
                }
            }
        }
        assert forall|l: int, m0: int|
            #![trigger log2[l], log2[m0]]
            0 <= l < log2.len() && 0 <= m0 < log2.len() implies (dropped_vid(log2[l]) matches Some(
        d) ==> (evicted_vid(log2[m0]) matches Some(t) ==> log2[m0].leaky || d != t)) by {
            if l < n && m0 == n {
                if dropped_vid(oldlog[l]) is Some && evicted_vid(op) is Some {
                    let t = evicted_vid(op).unwrap();
                    let j = choose|j: int| 0 <= j < went.len() && (#[trigger] went[j]).vid == t;
                    assert(dropped_vid(oldlog[l]) matches Some(d) ==> went[j].vid != d);
                }
            }
        }
        assert forall|m0: int, i: int|
            #![trigger log2[m0], target[i]]
            0 <= m0 < log2.len() && 0 <= i < target.len() implies (evicted_vid(log2[m0]) matches
        Some(t) ==> target[i].vid != t) by {
            if evicted_vid(log2[m0]) is Some {
                let t = evicted_vid(log2[m0]).unwrap();
                if target[i].vid >= prev.vals@.len() {
                    if m0 < n {
                        assert(crate::oplog::op_in_bounds(
                            oldlog[m0],
                            prev.keys@.len() as int,
                            prev.vals@.len() as int,
                        ));
                    }
                } else {
                    let j = choose|j: int|
                        0 <= j < went.len() && (#[trigger] went[j]).vid == target[i].vid && (
                        crate::oplog::evicted_vid(op) matches Some(t2) ==> target[i].vid != t2);
                    if m0 < n {
                        assert(evicted_vid(oldlog[m0]) matches Some(t2) ==> went[j].vid != t2);
                    }
                }
            }
        }
        assert forall|m0: int|
            0 <= m0 < log2.len() implies (evicted_vid(#[trigger] log2[m0]) matches Some(t)
            ==> log2[m0].leaky || !self.leaked@.contains(t)) by {
            if m0 == n && evicted_vid(op) is Some && !op.leaky {
                let t = evicted_vid(op).unwrap();
                if self.leaked@.contains(t) {
                    assert(prev.leaked_set().contains(t));
                    let j = choose|j: int| 0 <= j < went.len() && (#[trigger] went[j]).vid == t;
                    assert(prev.sim_ok());
                    assert(false);
                }
            }
        }
        assert forall|l: int, i: int|
            #![trigger log2[l], target[i]]
            0 <= l < log2.len() && 0 <= i < target.len() implies (dropped_vid(log2[l]) matches
        Some(d) ==> target[i].vid != d) by {
            if l < n && dropped_vid(oldlog[l]) is Some {
                let d = dropped_vid(oldlog[l]).unwrap();
                if target[i].vid >= prev.vals@.len() {
                    assert(crate::oplog::op_in_bounds(
                        oldlog[l],
                        prev.keys@.len() as int,
                        prev.vals@.len() as int,
                    ));
                } else {
                    let j = choose|j: int|
                        0 <= j < went.len() && (#[trigger] went[j]).vid == target[i].vid && (
                        crate::oplog::evicted_vid(op) matches Some(t2) ==> target[i].vid != t2);
                    assert(dropped_vid(oldlog[l]) matches Some(d2) ==> went[j].vid != d2);
                }
            }
        }
    }

    /// Looks the key up in the guard's snapshot.
    pub fn get<'a>(&'a self, g: &ReadGuard<K, V>, key: &K) -> (r: Option<&'a V>)
        requires
            self.wf(),
            self.guard_wf(*g),
        ensures
            match r {
                Some(v) => g.snap@.dom().contains(key@) && *v == g.snap@[key@],
                None => !g.snap@.dom().contains(key@),
            },
    {
        proof {
            self.lemma_guard_side_live(*g);
        }
        let entries = match g.map_index {
            MapIndex::First => &self.first,
            MapIndex::Second => &self.second,
        };
        let found = crate::buffer::find_key(entries, &self.keys, &self.vals, key);
        match found {
            Some(i) => {
                proof {
                    crate::buffer::lemma_map_of_index(entries@, self.keys@, self.vals@, i as int);
                }
                let vid = entries[i].vid;
                Some(self.vals[vid].as_ref().unwrap())
            },
            None => {
                proof {
                    crate::buffer::lemma_map_of_dom::<K, V>(entries@, self.keys@, self.vals@);
                }
                None
            },
        }
    }

    /// Whether the guard's snapshot contains the key.
    pub fn contains_key(&self, g: &ReadGuard<K, V>, key: &K) -> (r: bool)
        requires
            self.wf(),
            self.guard_wf(*g),
        ensures
            r == g.snap@.dom().contains(key@),
    {
        self.get(g, key).is_some()
    }

    /// The number of entries in the guard's snapshot.
    pub fn len(&self, g: &ReadGuard<K, V>) -> (r: usize)
        requires
            self.wf(),
            self.guard_wf(*g),
        ensures
            r as int == g.snap@.dom().len(),
    {
        proof {
            self.lemma_guard_side_live(*g);
            crate::buffer::lemma_map_of_len(
                self.side_entries(g.map_index),
                self.keys@,
                self.vals@,
            );
        }
        let entries = match g.map_index {
            MapIndex::First => &self.first,
            MapIndex::Second => &self.second,
        };
        entries.len()
    }

    /// Whether the guard's snapshot is empty.
    pub fn is_empty(&self, g: &ReadGuard<K, V>) -> (r: bool)
        requires
            self.wf(),
            self.guard_wf(*g),
        ensures
            r == (g.snap@.dom().len() == 0),
    {
        self.len(g) == 0
    }

    /// All pairs of the guard's snapshot, in arbitrary order, each key once.
    pub fn iter<'a>(&'a self, g: &ReadGuard<K, V>) -> (r: Vec<(&'a K, &'a V)>)
        requires
            self.wf(),
            self.guard_wf(*g),
        ensures
            r@.len() == g.snap@.dom().len(),
            forall|j: int|
                0 <= j < r@.len() ==> g.snap@.dom().contains((#[trigger] r@[j]).0@) && g.snap@[(
                r@[j]).0@] == *r@[j].1,
            forall|j1: int, j2: int|
                0 <= j1 < r@.len() && 0 <= j2 < r@.len() && j1 != j2 ==> (#[trigger] r@[j1]).0@
                    != (#[trigger] r@[j2]).0@,
    {
        proof {
            self.lemma_guard_side_live(*g);
            crate::buffer::lemma_map_of_len(
                self.side_entries(g.map_index),
                self.keys@,
                self.vals@,
            );
        }
        let entries = match g.map_index {
            MapIndex::First => &self.first,
            MapIndex::Second => &self.second,
        };
        let ghost es = entries@;
        let n = entries.len();
        let mut out: Vec<(&'a K, &'a V)> = Vec::new();
        let mut i: usize = 0;
        while i < n
            invariant
                n == es.len(),
                i <= n,
                entries@ == es,
                entries_live(es, self.keys@, self.vals@),
                map_of(es, self.keys@, self.vals@) == g.snap@,
                out@.len() == i,
                forall|j: int|
                    0 <= j < i ==> (#[trigger] out@[j]).0@ == crate::buffer::ekey(
                        es[j],
                        self.keys@,
                    ) && *out@[j].1 == crate::buffer::eval(es[j], self.vals@),
            decreases n - i,
        {
            let e = entries[i];
            let k: &'a K = self.keys[e.kid].as_ref().unwrap();
            let v: &'a V = self.vals[e.vid].as_ref().unwrap();
            out.push((k, v));
            i = i + 1;
        }
        proof {
            assert forall|j: int| 0 <= j < out@.len() implies g.snap@.dom().contains(
                (#[trigger] out@[j]).0@,
            ) && g.snap@[(out@[j]).0@] == *out@[j].1 by {
                crate::buffer::lemma_map_of_index(es, self.keys@, self.vals@, j);
            }
        }
        out
    }

    /// All keys of the guard's snapshot, in arbitrary order, each once.
    pub fn keys<'a>(&'a self, g: &ReadGuard<K, V>) -> (r: Vec<&'a K>)
        requires
            self.wf(),
            self.guard_wf(*g),
        ensures
            r@.len() == g.snap@.dom().len(),
            forall|j: int| 0 <= j < r@.len() ==> g.snap@.dom().contains((#[trigger] r@[j])@),
            forall|j1: int, j2: int|
                0 <= j1 < r@.len() && 0 <= j2 < r@.len() && j1 != j2 ==> (#[trigger] r@[j1])@ != (
                #[trigger] r@[j2])@,
    {
        let pairs = self.iter(g);
        let ghost ps = pairs@;
        let n = pairs.len();
        let mut out: Vec<&'a K> = Vec::new();
        let mut i: usize = 0;
        while i < n
            invariant
                n == ps.len(),
                i <= n,
                pairs@ == ps,
                out@.len() == i,
                forall|j: int| 0 <= j < i ==> (#[trigger] out@[j]) == ps[j].0,
            decreases n - i,
        {
            let pair = pairs[i];
            out.push(pair.0);
            i = i + 1;
        }
        out
    }

    /// All values of the guard's snapshot, in arbitrary order, one per key.
    pub fn values<'a>(&'a self, g: &ReadGuard<K, V>) -> (r: Vec<&'a V>)
        requires
            self.wf(),
            self.guard_wf(*g),
        ensures
            r@.len() == g.snap@.dom().len(),
            forall|j: int| 0 <= j < r@.len() ==> is_value_of(g.snap@, *(#[trigger] r@[j])),
    {
        let pairs = self.iter(g);
        let ghost ps = pairs@;
        let n = pairs.len();
        let mut out: Vec<&'a V> = Vec::new();
        let mut i: usize = 0;
        while i < n
            invariant
                n == ps.len(),
                i <= n,
                pairs@ == ps,
                out@.len() == i,
                forall|j: int| 0 <= j < i ==> (#[trigger] out@[j]) == ps[j].1,
            decreases n - i,
        {
            let pair = pairs[i];
            out.push(pair.1);
            i = i + 1;
        }
        proof {
            assert forall|j: int| 0 <= j < out@.len() implies is_value_of(
                g.snap@,
                *(#[trigger] out@[j]),
            ) by {
                assert(g.snap@.dom().contains(ps[j].0@) && g.snap@[ps[j].0@] == *out@[j]);
            }
        }
        out
    }
}

} // verus!
