//! The counting permit pool that bounds how many fetches run at once:
//! acquiring takes a permit only while some are free, releasing gives one
//! back, and the number held never exceeds the configured limit.

use vstd::prelude::*;

verus! {

/// A counting pool of fetch permits.
pub struct PermitPool {
    /// The configured concurrency limit.
    pub limit: usize,
    /// How many permits are held right now.
    pub in_flight: usize,
}

impl PermitPool {
    /// The pool's invariant: never more permits held than the limit.
    pub open spec fn wf(&self) -> bool {
        self.in_flight <= self.limit
    }

    /// A pool with `limit` free permits and none held.
    pub fn new(limit: usize) -> (r: PermitPool)
        ensures
            r.wf(),
            r.limit == limit,
            r.in_flight == 0,
    {
        PermitPool { limit, in_flight: 0 }
    }

    /// Takes one permit if any is free; reports whether one was taken.
    pub fn try_acquire(&mut self) -> (ok: bool)
        requires
            old(self).wf(),
        ensures
            final(self).wf(),
            final(self).limit == old(self).limit,
            ok == (old(self).in_flight < old(self).limit),
            ok ==> final(self).in_flight == old(self).in_flight + 1,
            !ok ==> final(self).in_flight == old(self).in_flight,
    {
        if self.in_flight < self.limit {
            self.in_flight = self.in_flight + 1;
            true
        } else {
            false
        }
    }

    /// Gives one held permit back; a permit is never leaked, so every
    /// completed fetch releases exactly once.
    pub fn release(&mut self)
        requires
            old(self).wf(),
            old(self).in_flight > 0,
        ensures
            final(self).wf(),
            final(self).limit == old(self).limit,
            final(self).in_flight == old(self).in_flight - 1,
    {
        self.in_flight = self.in_flight - 1;
    }
}

/// How many permits are held after a sequence of pool operations,
/// starting from none held: `true` is an acquire attempt (which takes a
/// permit only while fewer than `limit` are held), `false` a release
/// (which gives one back only while any is held).
pub open spec fn held_after(limit: nat, ops: Seq<bool>) -> nat
    decreases ops.len(),
{
    if ops.len() == 0 {
        0
    } else {
        let prev = held_after(limit, ops.drop_last());
        if ops.last() {
            if prev < limit {
                prev + 1
            } else {
                prev
            }
        } else {
            if prev > 0 {
                (prev - 1) as nat
            } else {
                prev
            }
        }
    }
}

/// With a limit of N, at no point are more than N permits held: however
/// acquire attempts and releases interleave, after every prefix of the
/// run the held count is at most the limit. Since a fetch runs only while
/// it holds a permit, at most N fetches run at any instant.
pub proof fn lemma_held_never_exceeds(limit: nat, ops: Seq<bool>)
    ensures
        held_after(limit, ops) <= limit,
    decreases ops.len(),
{
    if ops.len() > 0 {
        lemma_held_never_exceeds(limit, ops.drop_last());
    }
}

} // verus!
