//! The residual counter and its dual-purpose signed encoding.
//!
//! After a publish, `residual` counts the readers whose guards still pin the
//! buffer the writer wants back. The same word also encodes whether the
//! writer is parked waiting for them: a non-negative value is a plain count,
//! while a negative value means the writer is parked and the count is the
//! distance from `i64::MIN`. The transitions below are the verified step
//! functions of that protocol; the loop that actually parks a thread or
//! registers a waker is outside work and drives these steps from there.

use vstd::prelude::*;

verus! {

/// Whether the encoded word says the writer is parked.
pub open spec fn parked(r: i64) -> bool {
    r < 0
}

/// The count of outstanding residual readers encoded in the word.
pub open spec fn outstanding(r: i64) -> int {
    if r >= 0 {
        r as int
    } else {
        r - i64::MIN
    }
}

/// One residual reader leaves. Models the reader-side decrement of the
/// counter: the count drops by one, and exactly the reader that brings a
/// parked writer's count to zero is told to wake the writer, leaving the
/// plain-count state behind.
pub fn release_residual(r: i64) -> (res: (i64, bool))
    requires
        outstanding(r) > 0,
    ensures
        outstanding(res.0) == outstanding(r) - 1,
        res.1 == (parked(r) && outstanding(r) == 1),
        res.1 ==> res.0 == 0,
        parked(res.0) == (parked(r) && !res.1),
{
    if r == i64::MIN + 1 {
        (0, true)
    } else {
        (r - 1, false)
    }
}

/// The writer claims the parked state. Models the writer-side transition of
/// `synchronize`: with no residual readers it returns at once; otherwise the
/// word moves to the parked encoding with the same count and the writer must
/// wait.
pub fn synchronize_claim(r: i64) -> (res: (i64, bool))
    requires
        !parked(r),
    ensures
        !res.1 ==> r == 0 && res.0 == 0,
        res.1 ==> parked(res.0) && outstanding(res.0) == outstanding(r) && outstanding(r) > 0,
        res.1 == (r != 0),
{
    if r == 0 {
        (0, false)
    } else {
        (r + i64::MIN, true)
    }
}

/// The check a parked writer performs when it is woken: it may proceed
/// exactly when the word is back to zero.
pub fn synchronize_done(r: i64) -> (done: bool)
    ensures
        done == (r == 0),
{
    r == 0
}

/// One release step, at the spec level.
pub open spec fn release_step(r: i64) -> (i64, bool) {
    if r == i64::MIN + 1 {
        (0, true)
    } else {
        (((r - 1) as i64), false)
    }
}

/// `n` release steps in a row: the final word and how many of the steps asked
/// for a wake-up.
pub open spec fn run_releases(r: i64, n: nat) -> (i64, int)
    decreases n,
{
    if n == 0 {
        (r, 0)
    } else {
        let step = release_step(r);
        let rest = run_releases(step.0, (n - 1) as nat);
        (rest.0, rest.1 + if step.1 {
            1int
        } else {
            0int
        })
    }
}

/// Once the writer is parked behind `k` residual readers, the `k` releases
/// that follow wake it exactly once - on the last of them - and leave the
/// counter at zero.
pub proof fn lemma_unique_wakeup(r: i64)
    requires
        parked(r),
        outstanding(r) >= 1,
    ensures
        run_releases(r, outstanding(r) as nat) == (0i64, 1int),
    decreases outstanding(r),
{
    if outstanding(r) == 1 {
        assert(r == i64::MIN + 1);
        assert(release_step(r) == (0i64, true));
        assert(run_releases(0i64, 0) == (0i64, 0int));
        assert(run_releases(r, 1) == (0i64, 1int));
    } else {
        let step = release_step(r);
        assert(step.0 == r - 1 && !step.1);
        lemma_unique_wakeup(step.0);
    }
}

} // verus!
