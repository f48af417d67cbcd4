//! The writer's operation log and its replay semantics.
//!
//! Every mutation the writer performs on its private buffer is also appended
//! to the log. When the other buffer next becomes writable, the log is
//! replayed into it, so the two buffers converge; an entry whose evicted
//! value was leaked is marked `leaky` and the replay then skips destroying
//! that value. `apply_op` / `apply_log` give the replay its meaning as a
//! function on (entries, key arena, value arena) states; the engine's
//! central invariant is that replaying the pending log over the stale buffer
//! yields exactly the up-to-date buffer, with every destroyed slot live at
//! the moment it is destroyed - which is how dropping a key or value twice
//! is ruled out.

use vstd::prelude::*;

use crate::buffer::{ekey, has_key, Entry};

verus! {

/// One logged mutation. Arena slots are recorded by index: `kid` and `vid`
/// name the key and value planted by the mutation, `evicted` the value slot
/// the mutation displaced.
#[derive(Clone, Copy)]
pub enum RawOperation {
    /// A key that was absent was inserted.
    InsertUnique { kid: usize, vid: usize },
    /// The value of a present key was replaced.
    Replace { kid: usize, vid: usize, evicted: usize },
    /// A present key was removed together with its value.
    Remove { kid: usize, evicted: usize },
    /// A previously leaked value is to be destroyed at the next replay.
    Drop { vid: usize },
}

/// A logged mutation together with its `leaky` flag. While the flag is set
/// the replay must not destroy the evicted value: its ownership has moved to
/// the user.
#[derive(Clone, Copy)]
pub struct Operation {
    pub raw: RawOperation,
    pub leaky: bool,
}

impl Operation {
    /// A fresh log entry; nothing has been leaked from it.
    pub fn new(raw: RawOperation) -> (r: Self)
        ensures
            r.raw == raw,
            !r.leaky,
    {
        Operation { raw, leaky: false }
    }

    /// Marks the entry as leaked: the replay will skip destroying the value
    /// it evicted.
    pub fn make_leaky(&mut self)
        ensures
            final(self).raw == old(self).raw,
            final(self).leaky,
    {
        self.leaky = true;
    }
}

/// The value slot an operation plants into the buffer, if any.
pub open spec fn payload_vid(op: Operation) -> Option<int> {
    match op.raw {
        RawOperation::InsertUnique { vid, .. } => Some(vid as int),
        RawOperation::Replace { vid, .. } => Some(vid as int),
        RawOperation::Remove { .. } => None,
        RawOperation::Drop { .. } => None,
    }
}

/// The value slot an operation evicted, if any.
pub open spec fn evicted_vid(op: Operation) -> Option<int> {
    match op.raw {
        RawOperation::InsertUnique { .. } => None,
        RawOperation::Replace { evicted, .. } => Some(evicted as int),
        RawOperation::Remove { evicted, .. } => Some(evicted as int),
        RawOperation::Drop { .. } => None,
    }
}

/// The value slot a `Drop` operation destroys, if any.
pub open spec fn dropped_vid(op: Operation) -> Option<int> {
    match op.raw {
        RawOperation::Drop { vid } => Some(vid as int),
        _ => None,
    }
}

/// The key slot an operation names, if any.
pub open spec fn op_kid(op: Operation) -> Option<int> {
    match op.raw {
        RawOperation::InsertUnique { kid, .. } => Some(kid as int),
        RawOperation::Replace { kid, .. } => Some(kid as int),
        RawOperation::Remove { kid, .. } => Some(kid as int),
        RawOperation::Drop { .. } => None,
    }
}

/// Whether an operation mentions value slot `t` in any role.
pub open spec fn op_mentions_vid(op: Operation, t: int) -> bool {
    payload_vid(op) == Some(t) || evicted_vid(op) == Some(t) || dropped_vid(op) == Some(t)
}

/// All slot indices named by the operation lie below the given arena sizes.
pub open spec fn op_in_bounds(op: Operation, klen: int, vlen: int) -> bool {
    &&& (op_kid(op) matches Some(k) ==> k < klen)
    &&& (payload_vid(op) matches Some(v) ==> v < vlen)
    &&& (evicted_vid(op) matches Some(v) ==> v < vlen)
    &&& (dropped_vid(op) matches Some(v) ==> v < vlen)
}

/// All slot indices named anywhere in the log lie below the arena sizes.
pub open spec fn log_in_bounds(log: Seq<Operation>, klen: int, vlen: int) -> bool {
    forall|l: int| 0 <= l < log.len() ==> op_in_bounds(#[trigger] log[l], klen, vlen)
}

/// All slot indices named by the entries lie below the arena sizes.
pub open spec fn entries_in_bounds(entries: Seq<Entry>, klen: int, vlen: int) -> bool {
    forall|i: int|
        0 <= i < entries.len() ==> (#[trigger] entries[i]).kid < klen && entries[i].vid < vlen
}

/// A buffer-and-arenas state, as the replay transforms it.
pub ghost struct SimState<K, V> {
    pub entries: Seq<Entry>,
    pub keys: Seq<Option<K>>,
    pub vals: Seq<Option<V>>,
}

/// The index of the entry whose key slot is `kid`, if one exists.
pub open spec fn kid_at(entries: Seq<Entry>, kid: int) -> Option<int>
    decreases entries.len(),
{
    if entries.len() == 0 {
        None
    } else if entries[0].kid == kid {
        Some(0)
    } else {
        match kid_at(entries.drop_first(), kid) {
            Some(i) => Some(i + 1),
            None => None,
        }
    }
}

/// `kid_at` finds the first entry with the given key slot, or reports that
/// there is none.
pub proof fn lemma_kid_at(entries: Seq<Entry>, kid: int)
    ensures
        match kid_at(entries, kid) {
            Some(i) => 0 <= i < entries.len() && entries[i].kid == kid && forall|j: int|
                0 <= j < i ==> (#[trigger] entries[j]).kid != kid,
            None => forall|j: int|
                0 <= j < entries.len() ==> (#[trigger] entries[j]).kid != kid,
        },
    decreases entries.len(),
{
    if entries.len() > 0 && entries[0].kid != kid {
        lemma_kid_at(entries.drop_first(), kid);
        let rest = entries.drop_first();
        assert(forall|j: int| 0 <= j < rest.len() ==> rest[j] == entries[j + 1]);
        match kid_at(rest, kid) {
            Some(i) => {
                assert(kid_at(entries, kid) == Some(i + 1));
                assert forall|j: int| 0 <= j < i + 1 implies (#[trigger] entries[j]).kid
                    != kid by {
                    if j > 0 {
                        assert(rest[j - 1].kid != kid);
                    }
                }
            },
            None => {
                assert forall|j: int| 0 <= j < entries.len() implies (#[trigger] entries[j]).kid
                    != kid by {
                    if j > 0 {
                        assert(rest[j - 1].kid != kid);
                    }
                }
            },
        }
    }
}

/// The effect of one operation on a state, if it is applicable: the planted
/// slots must be allocated and unused, the named entry must be present with
/// exactly the recorded evicted slot, and any slot about to be destroyed
/// must still be live. Inapplicability is `None`.
pub open spec fn apply_op<K: View, V>(op: Operation, st: SimState<K, V>) -> Option<SimState<K, V>> {
    match op.raw {
        RawOperation::InsertUnique { kid, vid } => {
            if kid < st.keys.len() && st.keys[kid as int] is Some && vid < st.vals.len()
                && !has_key(st.entries, st.keys, st.keys[kid as int].unwrap()@) && (forall|i: int|
                0 <= i < st.entries.len() ==> (#[trigger] st.entries[i]).kid != kid
                    && st.entries[i].vid != vid) {
                Some(
                    SimState {
                        entries: st.entries.push(Entry { kid, vid }),
                        keys: st.keys,
                        vals: st.vals,
                    },
                )
            } else {
                None
            }
        },
        RawOperation::Replace { kid, vid, evicted } => {
            match kid_at(st.entries, kid as int) {
                Some(i) => {
                    if st.entries[i].vid == evicted && vid < st.vals.len() && evicted
                        < st.vals.len() && (forall|j: int|
                        0 <= j < st.entries.len() ==> (#[trigger] st.entries[j]).vid != vid) && (
                    op.leaky || st.vals[evicted as int] is Some) {
                        Some(
                            SimState {
                                entries: st.entries.update(i, Entry { kid, vid }),
                                keys: st.keys,
                                vals: if op.leaky {
                                    st.vals
                                } else {
                                    st.vals.update(evicted as int, None)
                                },
                            },
                        )
                    } else {
                        None
                    }
                },
                None => None,
            }
        },
        RawOperation::Remove { kid, evicted } => {
            match kid_at(st.entries, kid as int) {
                Some(i) => {
                    if st.entries[i].vid == evicted && kid < st.keys.len() && evicted
                        < st.vals.len() && st.keys[kid as int] is Some && (op.leaky
                        || st.vals[evicted as int] is Some) {
                        Some(
                            SimState {
                                entries: st.entries.remove(i),
                                keys: st.keys.update(kid as int, None),
                                vals: if op.leaky {
                                    st.vals
                                } else {
                                    st.vals.update(evicted as int, None)
                                },
                            },
                        )
                    } else {
                        None
                    }
                },
                None => None,
            }
        },
        RawOperation::Drop { vid } => {
            if vid < st.vals.len() && st.vals[vid as int] is Some && (forall|i: int|
                0 <= i < st.entries.len() ==> (#[trigger] st.entries[i]).vid != vid) {
                Some(
                    SimState {
                        entries: st.entries,
                        keys: st.keys,
                        vals: st.vals.update(vid as int, None),
                    },
                )
            } else {
                None
            }
        },
    }
}

/// Replaying a whole log, operation by operation; `None` as soon as one
/// operation is inapplicable.
pub open spec fn apply_log<K: View, V>(log: Seq<Operation>, st: SimState<K, V>) -> Option<
    SimState<K, V>,
>
    decreases log.len(),
{
    if log.len() == 0 {
        Some(st)
    } else {
        match apply_op(log[0], st) {
            Some(st2) => apply_log(log.drop_first(), st2),
            None => None,
        }
    }
}

/// Replaying `a + b` is replaying `a`, then `b`.
pub proof fn lemma_apply_log_concat<K: View, V>(a: Seq<Operation>, b: Seq<Operation>, st: SimState<
    K,
    V,
>)
    ensures
        apply_log(a + b, st) == (match apply_log(a, st) {
            Some(m) => apply_log(b, m),
            None => None,
        }),
    decreases a.len(),
{
    if a.len() == 0 {
        assert(a + b =~= b);
    } else {
        assert((a + b)[0] == a[0]);
        assert((a + b).drop_first() =~= a.drop_first() + b);
        match apply_op(a[0], st) {
            Some(st2) => {
                lemma_apply_log_concat(a.drop_first(), b, st2);
            },
            None => {},
        }
    }
}

/// Appending one operation to the log appends its effect to the replay.
pub proof fn lemma_apply_log_snoc<K: View, V>(log: Seq<Operation>, op: Operation, st: SimState<
    K,
    V,
>)
    ensures
        apply_log(log.push(op), st) == (match apply_log(log, st) {
            Some(m) => apply_op(op, m),
            None => None,
        }),
{
    assert(log.push(op) =~= log + seq![op]);
    lemma_apply_log_concat(log, seq![op], st);
    match apply_log(log, st) {
        Some(m) => {
            assert(seq![op].drop_first() =~= Seq::<Operation>::empty());
            assert(apply_log(seq![op], m) == (match apply_op(op, m) {
                Some(m2) => apply_log(Seq::<Operation>::empty(), m2),
                None => None::<SimState<K, V>>,
            }));
        },
        None => {},
    }
}

/// Growing the arenas does not disturb one operation's effect: the same
/// operation applies in the grown state and its result is the old result
/// with the same grown tails.
pub proof fn lemma_apply_op_grow<K: View, V>(
    op: Operation,
    st: SimState<K, V>,
    keys2: Seq<Option<K>>,
    vals2: Seq<Option<V>>,
)
    requires
        op_in_bounds(op, st.keys.len() as int, st.vals.len() as int),
        entries_in_bounds(st.entries, st.keys.len() as int, st.vals.len() as int),
        st.keys.is_prefix_of(keys2),
        st.vals.is_prefix_of(vals2),
        apply_op(op, st) is Some,
    ensures
        ({
            let m = apply_op(op, st).unwrap();
            let big = SimState { entries: st.entries, keys: keys2, vals: vals2 };
            apply_op(op, big) == Some(
                SimState {
                    entries: m.entries,
                    keys: m.keys + keys2.skip(st.keys.len() as int),
                    vals: m.vals + vals2.skip(st.vals.len() as int),
                },
            ) && entries_in_bounds(m.entries, st.keys.len() as int, st.vals.len() as int)
        }),
{
    let klen = st.keys.len() as int;
    let vlen = st.vals.len() as int;
    let m = apply_op(op, st).unwrap();
    let big = SimState { entries: st.entries, keys: keys2, vals: vals2 };
    assert(keys2.take(klen) =~= st.keys);
    assert(vals2.take(vlen) =~= st.vals);
    assert(forall|i: int| 0 <= i < klen ==> keys2[i] == st.keys[i]);
    assert(forall|i: int| 0 <= i < vlen ==> vals2[i] == st.vals[i]);
    assert forall|i: int| 0 <= i < st.entries.len() implies ekey(#[trigger] st.entries[i], keys2)
        == ekey(st.entries[i], st.keys) && (keys2[st.entries[i].kid as int] is Some == (
    st.keys[st.entries[i].kid as int] is Some)) by {
        assert(st.entries[i].kid < klen);
    }
    match op.raw {
        RawOperation::InsertUnique { kid, vid } => {
            assert forall|kv: K::V|
                has_key(st.entries, keys2, kv) == has_key(st.entries, st.keys, kv) by {
                if has_key(st.entries, keys2, kv) {
                    let i = choose|i: int|
                        0 <= i < st.entries.len() && ekey(#[trigger] st.entries[i], keys2) == kv;
                    assert(ekey(st.entries[i], st.keys) == kv);
                }
                if has_key(st.entries, st.keys, kv) {
                    let i = choose|i: int|
                        0 <= i < st.entries.len() && ekey(#[trigger] st.entries[i], st.keys) == kv;
                    assert(ekey(st.entries[i], keys2) == kv);
                }
            }
            assert(keys2[kid as int] == st.keys[kid as int]);
            assert(m.keys + keys2.skip(klen) =~= keys2);
            assert(m.vals + vals2.skip(vlen) =~= vals2);
        },
        RawOperation::Replace { kid, vid, evicted } => {
            let i = kid_at(st.entries, kid as int).unwrap();
            lemma_kid_at(st.entries, kid as int);
            assert(m.keys + keys2.skip(klen) =~= keys2);
            if op.leaky {
                assert(m.vals + vals2.skip(vlen) =~= vals2);
            } else {
                assert(vals2[evicted as int] == st.vals[evicted as int]);
                assert(m.vals + vals2.skip(vlen) =~= vals2.update(evicted as int, None));
            }
        },
        RawOperation::Remove { kid, evicted } => {
            let i = kid_at(st.entries, kid as int).unwrap();
            lemma_kid_at(st.entries, kid as int);
            assert(keys2[kid as int] == st.keys[kid as int]);
            assert(m.keys + keys2.skip(klen) =~= keys2.update(kid as int, None));
            if op.leaky {
                assert(m.vals + vals2.skip(vlen) =~= vals2);
            } else {
                assert(vals2[evicted as int] == st.vals[evicted as int]);
                assert(m.vals + vals2.skip(vlen) =~= vals2.update(evicted as int, None));
            }
        },
        RawOperation::Drop { vid } => {
            assert(vals2[vid as int] == st.vals[vid as int]);
            assert(m.keys + keys2.skip(klen) =~= keys2);
            assert(m.vals + vals2.skip(vlen) =~= vals2.update(vid as int, None));
        },
    }
}

/// Growing the arenas does not disturb the whole replay.
pub proof fn lemma_apply_log_grow<K: View, V>(
    log: Seq<Operation>,
    st: SimState<K, V>,
    keys2: Seq<Option<K>>,
    vals2: Seq<Option<V>>,
)
    requires
        log_in_bounds(log, st.keys.len() as int, st.vals.len() as int),
        entries_in_bounds(st.entries, st.keys.len() as int, st.vals.len() as int),
        st.keys.is_prefix_of(keys2),
        st.vals.is_prefix_of(vals2),
        apply_log(log, st) is Some,
    ensures
        ({
            let m = apply_log(log, st).unwrap();
            apply_log(log, SimState { entries: st.entries, keys: keys2, vals: vals2 }) == Some(
                SimState {
                    entries: m.entries,
                    keys: m.keys + keys2.skip(st.keys.len() as int),
                    vals: m.vals + vals2.skip(st.vals.len() as int),
                },
            )
        }),
    decreases log.len(),
{
    if log.len() == 0 {
        assert(st.keys + keys2.skip(st.keys.len() as int) =~= keys2);
        assert(st.vals + vals2.skip(st.vals.len() as int) =~= vals2);
    } else {
        let op = log[0];
        let st1 = apply_op(op, st).unwrap();
        lemma_apply_op_grow(op, st, keys2, vals2);
        assert(st1.keys.len() == st.keys.len() && st1.vals.len() == st.vals.len());
        assert(st1.keys.is_prefix_of(keys2.take(st.keys.len() as int)) ==> true);
        assert forall|i: int|
            0 <= i < st1.keys.len() implies st1.keys[i] == (st1.keys + keys2.skip(
            st.keys.len() as int,
        ))[i] by {}
        assert(st1.keys.is_prefix_of(st1.keys + keys2.skip(st.keys.len() as int)));
        assert(st1.vals.is_prefix_of(st1.vals + vals2.skip(st.vals.len() as int)));
        assert(entries_in_bounds(st1.entries, st1.keys.len() as int, st1.vals.len() as int)) by {
            match op.raw {
                RawOperation::InsertUnique { kid, vid } => {},
                RawOperation::Replace { kid, vid, evicted } => {
                    lemma_kid_at(st.entries, kid as int);
                },
                RawOperation::Remove { kid, evicted } => {
                    lemma_kid_at(st.entries, kid as int);
                },
                RawOperation::Drop { vid } => {},
            }
        }
        assert(log_in_bounds(log.drop_first(), st1.keys.len() as int, st1.vals.len() as int)) by {
            assert(forall|l: int|
                0 <= l < log.drop_first().len() ==> log.drop_first()[l] == log[l + 1]);
        }
        lemma_apply_log_grow(
            log.drop_first(),
            st1,
            st1.keys + keys2.skip(st.keys.len() as int),
            st1.vals + vals2.skip(st.vals.len() as int),
        );
        let mfin = apply_log(log.drop_first(), st1).unwrap();
        assert(mfin.keys + (st1.keys + keys2.skip(st.keys.len() as int)).skip(
            st1.keys.len() as int,
        ) =~= mfin.keys + keys2.skip(st.keys.len() as int));
        assert(mfin.vals + (st1.vals + vals2.skip(st.vals.len() as int)).skip(
            st1.vals.len() as int,
        ) =~= mfin.vals + vals2.skip(st.vals.len() as int));
    }
}

/// Two replays of the same log from states that differ only at value slot
/// `t`, which the log never mentions, stay in lock step: they succeed or
/// fail together, agree everywhere but at `t`, and neither touches `t`.
pub proof fn lemma_apply_log_untouched<K: View, V>(
    log: Seq<Operation>,
    a: SimState<K, V>,
    b: SimState<K, V>,
    t: int,
)
    requires
        a.entries == b.entries,
        a.keys == b.keys,
        a.vals.len() == b.vals.len(),
        forall|x: int| 0 <= x < a.vals.len() && x != t ==> a.vals[x] == b.vals[x],
        forall|l: int| 0 <= l < log.len() ==> !op_mentions_vid(#[trigger] log[l], t),
    ensures
        (apply_log(log, a) is Some) == (apply_log(log, b) is Some),
        apply_log(log, a) is Some ==> ({
            let ma = apply_log(log, a).unwrap();
            let mb = apply_log(log, b).unwrap();
            ma.entries == mb.entries && ma.keys == mb.keys && ma.vals.len() == mb.vals.len()
                && ma.vals.len() == a.vals.len() && (forall|x: int|
                0 <= x < ma.vals.len() && x != t ==> ma.vals[x] == mb.vals[x]) && (0 <= t
                < a.vals.len() ==> ma.vals[t] == a.vals[t] && mb.vals[t] == b.vals[t])
        }),
    decreases log.len(),
{
    if log.len() > 0 {
        let op = log[0];
        assert(!op_mentions_vid(op, t));
        let ra = apply_op(op, a);
        let rb = apply_op(op, b);
        match op.raw {
            RawOperation::InsertUnique { kid, vid } => {
                assert((ra is Some) == (rb is Some));
            },
            RawOperation::Replace { kid, vid, evicted } => {
                assert(evicted != t);
                assert((ra is Some) == (rb is Some));
            },
            RawOperation::Remove { kid, evicted } => {
                assert(evicted != t);
                assert((ra is Some) == (rb is Some));
            },
            RawOperation::Drop { vid } => {
                assert(vid != t);
                assert((ra is Some) == (rb is Some));
            },
        }
        if ra is Some {
            let sa = ra.unwrap();
            let sb = rb.unwrap();
            assert(sa.entries == sb.entries && sa.keys == sb.keys);
            assert(sa.vals.len() == sb.vals.len() && sa.vals.len() == a.vals.len());
            assert(forall|x: int| 0 <= x < sa.vals.len() && x != t ==> sa.vals[x] == sb.vals[x]);
            assert(0 <= t < a.vals.len() ==> sa.vals[t] == a.vals[t] && sb.vals[t] == b.vals[t]);
            assert(forall|l: int|
                0 <= l < log.drop_first().len() ==> log.drop_first()[l] == log[l + 1]);
            lemma_apply_log_untouched(log.drop_first(), sa, sb, t);
        }
    }
}

/// A replay never allocates, resurrects or rewrites arena slots: the arenas
/// keep their size, and every slot that is still live afterwards is
/// unchanged.
pub proof fn lemma_apply_log_monotone<K: View, V>(log: Seq<Operation>, st: SimState<K, V>)
    requires
        apply_log(log, st) is Some,
    ensures
        ({
            let m = apply_log(log, st).unwrap();
            m.keys.len() == st.keys.len() && m.vals.len() == st.vals.len() && (forall|x: int|
                0 <= x < m.keys.len() && m.keys[x] is Some ==> m.keys[x] == st.keys[x]) && (forall|
                x: int,
            |
                0 <= x < m.vals.len() && m.vals[x] is Some ==> m.vals[x] == st.vals[x])
        }),
    decreases log.len(),
{
    if log.len() > 0 {
        let st1 = apply_op(log[0], st).unwrap();
        assert(st1.keys.len() == st.keys.len() && st1.vals.len() == st.vals.len());
        assert(forall|x: int| 0 <= x < st1.keys.len() && st1.keys[x] is Some ==> st1.keys[x]
            == st.keys[x]);
        assert(forall|x: int| 0 <= x < st1.vals.len() && st1.vals[x] is Some ==> st1.vals[x]
            == st.vals[x]);
        lemma_apply_log_monotone(log.drop_first(), st1);
    }
}

/// Replaying a one-operation log is applying that operation.
pub proof fn lemma_apply_log_one<K: View, V>(op: Operation, st: SimState<K, V>)
    ensures
        apply_log(seq![op], st) == apply_op(op, st),
{
    assert(seq![op].drop_first() =~= Seq::<Operation>::empty());
    assert(seq![op][0] == op);
    match apply_op(op, st) {
        Some(s) => {
            assert(apply_log(seq![op].drop_first(), s) == Some(s));
        },
        None => {},
    }
}

/// Marking one evicting operation `leaky` preserves the whole replay: the
/// buffers and keys come out the same, and the only difference is that the
/// evicted slot `t` is left alive instead of destroyed. The log must not
/// mention `t` after that operation.
pub proof fn lemma_apply_log_flip<K: View, V>(log: Seq<Operation>, st: SimState<K, V>, j: int)
    requires
        0 <= j < log.len(),
        apply_log(log, st) is Some,
        !log[j].leaky,
        evicted_vid(log[j]) is Some,
        forall|l: int|
            j < l < log.len() ==> !op_mentions_vid(#[trigger] log[l], evicted_vid(log[j]).unwrap()),
    ensures
        ({
            let t = evicted_vid(log[j]).unwrap();
            let log2 = log.update(j, Operation { raw: log[j].raw, leaky: true });
            let m = apply_log(log, st).unwrap();
            apply_log(log2, st) is Some && ({
                let m2 = apply_log(log2, st).unwrap();
                m2.entries == m.entries && m2.keys == m.keys && m2.vals.len() == m.vals.len() && (
                forall|x: int| 0 <= x < m.vals.len() && x != t ==> m2.vals[x] == m.vals[x])
                    && m2.vals[t] is Some
            })
        }),
{
    let t = evicted_vid(log[j]).unwrap();
    let opb = Operation { raw: log[j].raw, leaky: true };
    let log2 = log.update(j, opb);
    assert(log2.take(j) =~= log.take(j));
    assert(log2.skip(j + 1) =~= log.skip(j + 1));
    assert(log2[j] == opb);
    lemma_apply_log_split(log, st, j);
    assert(apply_log(log.take(j), st) is Some);
    let mid = apply_log(log.take(j), st).unwrap();
    assert(apply_log(log.skip(j), mid) is Some);
    lemma_apply_log_split(log.skip(j), mid, 1);
    assert(log.skip(j).take(1) =~= seq![log[j]]);
    assert(log.skip(j).skip(1) =~= log.skip(j + 1));
    assert(log.skip(j)[0] == log[j]);
    lemma_apply_log_one(log[j], mid);
    assert(apply_op(log[j], mid) is Some);
    let sa = apply_op(log[j], mid).unwrap();
    assert(apply_log(log.skip(j), mid) == apply_log(log.skip(j + 1), sa));
    assert(apply_log(log, st) == apply_log(log.skip(j + 1), sa));
    // the flipped operation applies too, and keeps `t` alive
    let rb = apply_op(opb, mid);
    match log[j].raw {
        RawOperation::Replace { kid, vid, evicted } => {
            assert(mid.vals[t] is Some);
            assert(rb is Some);
        },
        RawOperation::Remove { kid, evicted } => {
            assert(mid.vals[t] is Some);
            assert(rb is Some);
        },
        _ => {
            assert(false);
        },
    }
    let sb = rb.unwrap();
    assert(sa.entries == sb.entries && sa.keys == sb.keys);
    assert(sa.vals.len() == sb.vals.len());
    assert(sa.vals == (if log[j].leaky {
        mid.vals
    } else {
        mid.vals.update(t, None)
    }));
    assert(forall|x: int| 0 <= x < sa.vals.len() && x != t ==> sa.vals[x] == sb.vals[x]);
    assert(sb.vals[t] is Some);
    assert(forall|l: int|
        0 <= l < log.skip(j + 1).len() ==> #[trigger] log.skip(j + 1)[l] == log[l + j + 1]);
    lemma_apply_log_untouched(log.skip(j + 1), sa, sb, t);
    lemma_apply_log_split(log2, st, j);
    assert(apply_log(log2.take(j), st) == Some(mid));
    lemma_apply_log_split(log2.skip(j), mid, 1);
    assert(log2.skip(j).take(1) =~= seq![opb]);
    assert(log2.skip(j).skip(1) =~= log.skip(j + 1));
    assert(log2.skip(j)[0] == opb);
    lemma_apply_log_one(opb, mid);
    assert(apply_log(log2.skip(j), mid) == apply_log(log.skip(j + 1), sb));
    assert(apply_log(log2, st) == apply_log(log.skip(j + 1), sb));
    assert(0 <= t < sa.vals.len());
}

/// Replays a whole log into a buffer and its arenas, destroying exactly the
/// slots the replay semantics destroys. The log must be applicable - which
/// the engine's invariant guarantees for the pending log over the stale
/// buffer.
pub fn run_log<K: View, V>(
    log: &Vec<Operation>,
    entries: &mut Vec<Entry>,
    keys: &mut Vec<Option<K>>,
    vals: &mut Vec<Option<V>>,
)
    requires
        apply_log(
            log@,
            SimState { entries: old(entries)@, keys: old(keys)@, vals: old(vals)@ },
        ) is Some,
    ensures
        ({
            let m = apply_log(
                log@,
                SimState { entries: old(entries)@, keys: old(keys)@, vals: old(vals)@ },
            ).unwrap();
            final(entries)@ == m.entries && final(keys)@ == m.keys && final(vals)@ == m.vals
        }),
{
    let ghost st0 = SimState::<K, V> {
        entries: old(entries)@,
        keys: old(keys)@,
        vals: old(vals)@,
    };
    let n = log.len();
    let mut i: usize = 0;
    while i < n
        invariant
            n == log@.len(),
            apply_log(log@, st0) is Some,
            i <= n,
            apply_log(log@.take(i as int), st0) == Some(
                SimState::<K, V> { entries: entries@, keys: keys@, vals: vals@ },
            ),
        decreases n - i,
    {
        let ghost cur = SimState::<K, V> { entries: entries@, keys: keys@, vals: vals@ };
        proof {
            lemma_apply_log_split(log@, st0, i as int);
            assert(apply_log(log@.skip(i as int), cur) is Some);
            lemma_apply_log_split(log@.skip(i as int), cur, 1);
            assert(log@.skip(i as int).take(1) =~= seq![log@[i as int]]);
            assert(log@.skip(i as int).skip(1) =~= log@.skip(i + 1));
            lemma_apply_log_one(log@[i as int], cur);
            assert(apply_op(log@[i as int], cur) is Some);
            assert(log@.take(i + 1) =~= log@.take(i as int).push(log@[i as int]));
            lemma_apply_log_snoc(log@.take(i as int), log@[i as int], st0);
        }
        let op = log[i];
        let ghost nxt = apply_op(op, cur).unwrap();
        match op.raw {
            RawOperation::InsertUnique { kid, vid } => {
                entries.push(Entry { kid, vid });
            },
            RawOperation::Replace { kid, vid, evicted } => {
                proof {
                    lemma_kid_at(cur.entries, kid as int);
                }
                match crate::buffer::find_kid(entries, kid) {
                    Some(idx) => {
                        proof {
                            let a = kid_at(cur.entries, kid as int).unwrap();
                            if a < idx as int {
                                assert(cur.entries[a].kid != kid);
                            }
                            if (idx as int) < a {
                                assert(cur.entries[idx as int].kid != kid as int);
                            }
                            assert(a == idx as int);
                        }
                        entries[idx] = Entry { kid, vid };
                        if !op.leaky {
                            vals[evicted] = None;
                        }
                    },
                    None => {
                        proof {
                            assert(false);
                        }
                    },
                }
            },
            RawOperation::Remove { kid, evicted } => {
                proof {
                    lemma_kid_at(cur.entries, kid as int);
                }
                match crate::buffer::find_kid(entries, kid) {
                    Some(idx) => {
                        proof {
                            let a = kid_at(cur.entries, kid as int).unwrap();
                            if a < idx as int {
                                assert(cur.entries[a].kid != kid);
                            }
                            if (idx as int) < a {
                                assert(cur.entries[idx as int].kid != kid as int);
                            }
                            assert(a == idx as int);
                        }
                        entries.remove(idx);
                        keys[kid] = None;
                        if !op.leaky {
                            vals[evicted] = None;
                        }
                    },
                    None => {
                        proof {
                            assert(false);
                        }
                    },
                }
            },
            RawOperation::Drop { vid } => {
                vals[vid] = None;
            },
        }
        proof {
            assert(entries@ == nxt.entries && keys@ == nxt.keys && vals@ == nxt.vals);
        }
        i = i + 1;
    }
    proof {
        assert(log@.take(n as int) =~= log@);
    }
}

/// Splitting the log at `j`: replay the prefix, then the suffix.
pub proof fn lemma_apply_log_split<K: View, V>(log: Seq<Operation>, st: SimState<K, V>, j: int)
    requires
        0 <= j <= log.len(),
    ensures
        apply_log(log, st) == (match apply_log(log.take(j), st) {
            Some(m) => apply_log(log.skip(j), m),
            None => None,
        }),
{
    assert(log =~= log.take(j) + log.skip(j));
    lemma_apply_log_concat(log.take(j), log.skip(j), st);
}

} // verus!
