//! The slab of per-reader counter words.
//!
//! Each registered reader owns one slot, addressed by a stable key that the
//! reader keeps for its whole life. Freed slots are reused, so keys stay
//! small; the publish step walks every occupied slot.

use vstd::prelude::*;

use crate::map_index::MapIndex;
use crate::refcount::RefCount;

verus! {

/// The slab: a slot per registered reader.
pub struct ReaderSlots {
    slots: Vec<Option<RefCount>>,
}

/// The total number of live guards recorded across a sequence of slots.
pub open spec fn counts_sum(s: Seq<Option<RefCount>>) -> int
    decreases s.len(),
{
    if s.len() == 0 {
        0
    } else {
        counts_sum(s.drop_last()) + match s.last() {
            Some(rc) => rc.spec_count() as int,
            None => 0,
        }
    }
}

/// Changing one slot changes the sum by exactly the difference at that slot.
pub proof fn lemma_counts_sum_update(s: Seq<Option<RefCount>>, i: int, v: Option<RefCount>)
    requires
        0 <= i < s.len(),
    ensures
        counts_sum(s.update(i, v)) == counts_sum(s) - (match s[i] {
            Some(rc) => rc.spec_count() as int,
            None => 0,
        }) + (match v {
            Some(rc) => rc.spec_count() as int,
            None => 0,
        }),
    decreases s.len(),
{
    let s2 = s.update(i, v);
    if i == s.len() - 1 {
        assert(s2.drop_last() =~= s.drop_last());
    } else {
        assert(s2.drop_last() =~= s.drop_last().update(i, v));
        assert(s2.last() == s.last());
        lemma_counts_sum_update(s.drop_last(), i, v);
    }
}

/// Appending a slot adds its count to the sum.
pub proof fn lemma_counts_sum_push(s: Seq<Option<RefCount>>, v: Option<RefCount>)
    ensures
        counts_sum(s.push(v)) == counts_sum(s) + (match v {
            Some(rc) => rc.spec_count() as int,
            None => 0,
        }),
{
    assert(s.push(v).drop_last() =~= s);
}

/// The sum is never negative.
pub proof fn lemma_counts_sum_nonneg(s: Seq<Option<RefCount>>)
    ensures
        counts_sum(s) >= 0,
    decreases s.len(),
{
    if s.len() > 0 {
        lemma_counts_sum_nonneg(s.drop_last());
    }
}

impl ReaderSlots {
    /// The slots as a sequence.
    pub closed spec fn view(self) -> Seq<Option<RefCount>> {
        self.slots@
    }

    /// Whether `key` addresses an occupied slot.
    pub open spec fn occupied(self, key: int) -> bool {
        0 <= key < self.view().len() && self.view()[key] is Some
    }

    /// The counter word of an occupied slot.
    pub open spec fn rc_at(self, key: int) -> RefCount
        recommends
            self.occupied(key),
    {
        self.view()[key].unwrap()
    }

    /// Every occupied word has its overflow sentinel clear.
    pub open spec fn all_wf(self) -> bool {
        forall|i: int| self.occupied(i) ==> (#[trigger] self.rc_at(i)).wf()
    }

    /// Every occupied word carries the given side bit.
    pub open spec fn all_sides(self, side: MapIndex) -> bool {
        forall|i: int| self.occupied(i) ==> (#[trigger] self.rc_at(i)).spec_side() == side
    }

    /// The total number of live guards over all slots.
    pub open spec fn total(self) -> int {
        counts_sum(self.view())
    }

    /// An empty slab with room reserved for about one reader per processor.
    pub fn new(capacity: usize) -> (r: Self)
        ensures
            r.view().len() == 0,
    {
        ReaderSlots { slots: Vec::with_capacity(capacity) }
    }

    /// Puts a fresh counter word into a free slot and returns its key.
    pub fn insert(&mut self, rc: RefCount) -> (key: usize)
        ensures
            final(self).occupied(key as int),
            final(self).rc_at(key as int) == rc,
            key as int <= old(self).view().len(),
            (key as int) < old(self).view().len() ==> old(self).view()[key as int] is None
                && final(self).view() == old(self).view().update(key as int, Some(rc)),
            key as int == old(self).view().len() ==> final(self).view() == old(self).view().push(
                Some(rc),
            ),
    {
        let n = self.slots.len();
        let mut i: usize = 0;
        while i < n
            invariant
                n == self.slots.len(),
                i <= n,
                self.slots@ == old(self).view(),
                forall|j: int| 0 <= j < i ==> self.slots@[j] is Some,
            decreases n - i,
        {
            if self.slots[i].is_none() {
                self.slots[i] = Some(rc);
                return i;
            }
            i = i + 1;
        }
        self.slots.push(Some(rc));
        n
    }

    /// Frees the slot of a departing reader.
    pub fn remove(&mut self, key: usize)
        requires
            old(self).occupied(key as int),
        ensures
            final(self).view() == old(self).view().update(key as int, None),
    {
        self.slots[key] = None;
    }

    /// Reads the counter word of an occupied slot.
    pub fn get(&self, key: usize) -> (rc: RefCount)
        requires
            self.occupied(key as int),
        ensures
            rc == self.rc_at(key as int),
    {
        match &self.slots[key] {
            Some(rc) => *rc,
            None => {
                proof {
                    assert(false);
                }
                RefCount::new(MapIndex::First)
            },
        }
    }

    /// Writes back the counter word of an occupied slot.
    pub fn put(&mut self, key: usize, rc: RefCount)
        requires
            old(self).occupied(key as int),
        ensures
            final(self).view() == old(self).view().update(key as int, Some(rc)),
    {
        self.slots[key] = Some(rc);
    }

    /// The publish walk: flips the side bit of every occupied slot and adds up
    /// the counts that were packed beside them. The sum is the number of
    /// guards alive across all readers at the moment of the swap.
    pub fn swap_all(&mut self) -> (total: i64)
        requires
            old(self).all_wf(),
            old(self).total() <= i64::MAX,
        ensures
            final(self).all_wf(),
            final(self).view().len() == old(self).view().len(),
            total as int == old(self).total(),
            final(self).total() == old(self).total(),
            forall|i: int|
                old(self).occupied(i) ==> final(self).occupied(i) && (#[trigger] final(self).rc_at(
                    i,
                )).spec_side() == old(self).rc_at(i).spec_side().spec_other() && final(self).rc_at(
                    i,
                ).spec_count() == old(self).rc_at(i).spec_count(),
            forall|i: int|
                !old(self).occupied(i) && 0 <= i < old(self).view().len() ==> final(self).view()[i]
                    is None,
            forall|i: int|
                #![trigger final(self).occupied(i)]
                final(self).occupied(i) == old(self).occupied(i) && (old(self).occupied(i)
                    ==> final(self).rc_at(i).spec_count() == old(self).rc_at(i).spec_count()),
    {
        let n = self.slots.len();
        let ghost orig = self.slots@;
        proof {
            assert forall|j: int| 0 <= j < n && orig[j] is Some implies (
            #[trigger] orig[j]).unwrap().wf() by {
                assert(old(self).occupied(j));
                assert(old(self).rc_at(j).wf());
            }
            assert(orig.take(0) =~= Seq::<Option<RefCount>>::empty());
        }
        let mut total: i64 = 0;
        let mut i: usize = 0;
        while i < n
            invariant
                n == self.slots.len(),
                i <= n,
                orig.len() == n,
                counts_sum(orig) <= i64::MAX,
                forall|j: int| i <= j < n ==> self.slots@[j] == orig[j],
                forall|j: int|
                    0 <= j < i && orig[j] is Some ==> self.slots@[j] is Some && (
                    #[trigger] self.slots@[j]).unwrap().spec_side()
                        == orig[j].unwrap().spec_side().spec_other()
                        && self.slots@[j].unwrap().spec_count() == orig[j].unwrap().spec_count()
                        && self.slots@[j].unwrap().wf(),
                forall|j: int| 0 <= j < i && orig[j] is None ==> self.slots@[j] is None,
                total as int == counts_sum(orig.take(i as int)),
                forall|j: int| 0 <= j < n && orig[j] is Some ==> (#[trigger] orig[j]).unwrap().wf(),
            decreases n - i,
        {
            proof {
                assert(orig.take(i + 1) =~= orig.take(i as int).push(orig[i as int]));
                lemma_counts_sum_push(orig.take(i as int), orig[i as int]);
                lemma_counts_sum_take_le(orig, i + 1);
                lemma_counts_sum_nonneg(orig.take(i as int));
                assert(orig[i as int] == self.slots@[i as int]);
            }
            let slot = self.slots[i];
            match slot {
                Some(mut rc) => {
                    let c = rc.swap_maps();
                    proof {
                        assert(c == orig[i as int].unwrap().spec_count());
                        assert(total as int + c as int == counts_sum(orig.take(i + 1)));
                    }
                    total = total + c as i64;
                    self.slots[i] = Some(rc);
                },
                None => {},
            }
            i = i + 1;
        }
        proof {
            assert(orig.take(n as int) =~= orig);
            lemma_counts_sum_congruent(self.slots@, orig);
        }
        total
    }
}

/// A prefix of the slots never sums to more than the whole.
pub proof fn lemma_counts_sum_take_le(s: Seq<Option<RefCount>>, i: int)
    requires
        0 <= i <= s.len(),
    ensures
        counts_sum(s.take(i)) <= counts_sum(s),
    decreases s.len() - i,
{
    if i == s.len() {
        assert(s.take(i) =~= s);
    } else {
        lemma_counts_sum_take_le(s, i + 1);
        assert(s.take(i + 1).drop_last() =~= s.take(i));
    }
}

/// Two slot sequences whose per-slot counts agree have the same sum.
pub proof fn lemma_counts_sum_congruent(a: Seq<Option<RefCount>>, b: Seq<Option<RefCount>>)
    requires
        a.len() == b.len(),
        forall|j: int|
            0 <= j < a.len() ==> ((a[j] is Some) == (b[j] is Some)) && (a[j] is Some
                ==> (#[trigger] a[j]).unwrap().spec_count() == (#[trigger] b[j]).unwrap().spec_count()),
    ensures
        counts_sum(a) == counts_sum(b),
    decreases a.len(),
{
    if a.len() > 0 {
        lemma_counts_sum_congruent(a.drop_last(), b.drop_last());
    }
}

} // verus!
