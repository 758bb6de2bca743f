//! Round coordinator: the barrier arithmetic and the unanimous stop-vote
//! protocol that detects global termination.
//!
//! The counters here are the state a threaded runner would guard with a
//! mutex and wake through a condition variable; every transition is a pure
//! update with an exact contract, so the blocking wrapper adds nothing but
//! the waiting itself.

use vstd::prelude::*;

verus! {

/// Shared round state: total worker count, barrier progress, persistent
/// stop votes, and the cleanup handshake counter.
pub struct Coordinator {
    /// Number of cooperating workers, fixed for the run.
    pub num_workers: u64,
    /// Total `arrive` calls over all rounds so far.
    pub progress: u64,
    /// Stop votes currently standing.
    pub stop_votes: u64,
    /// Workers done with the cleanup handshake.
    pub cleanup: u64,
}

impl Coordinator {
    /// Fresh coordinator for `num_workers` workers.
    pub fn new(num_workers: u64) -> (r: Coordinator)
        requires
            num_workers >= 1,
        ensures
            r.num_workers == num_workers,
            r.progress == 0,
            r.stop_votes == 0,
            r.cleanup == 0,
    {
        Coordinator { num_workers, progress: 0, stop_votes: 0, cleanup: 0 }
    }

    /// A worker whose frontier was empty when the round began casts its
    /// persistent stop vote.
    pub fn cast_vote(&mut self)
        requires
            old(self).stop_votes < old(self).num_workers,
        ensures
            final(self).stop_votes == old(self).stop_votes + 1,
            final(self).num_workers == old(self).num_workers,
            final(self).progress == old(self).progress,
            final(self).cleanup == old(self).cleanup,
    {
        self.stop_votes = self.stop_votes + 1;
    }

    /// One worker reaches the round barrier. The caller that brings the
    /// progress counter to `(round + 1) * num_workers` is the last arriver
    /// of the round: it clears the stop votes unless all of them stand, in
    /// which case the surviving quorum signals unanimous termination.
    pub fn arrive(&mut self, round: u64) -> (last: bool)
        requires
            round < u64::MAX,
            (round + 1) * old(self).num_workers <= u64::MAX,
            old(self).progress < (round + 1) * old(self).num_workers,
        ensures
            final(self).progress == old(self).progress + 1,
            last == (final(self).progress == (round + 1) * old(self).num_workers),
            last && old(self).stop_votes != old(self).num_workers ==> final(self).stop_votes == 0,
            last && old(self).stop_votes == old(self).num_workers ==> final(self).stop_votes
                == old(self).stop_votes,
            !last ==> final(self).stop_votes == old(self).stop_votes,
            final(self).num_workers == old(self).num_workers,
            final(self).cleanup == old(self).cleanup,
    {
        self.progress = self.progress + 1;
        let target = (round + 1) * self.num_workers;
        if self.progress == target {
            if self.stop_votes != self.num_workers {
                self.stop_votes = 0;
            }
            true
        } else {
            false
        }
    }

    /// Whether the stop votes are unanimous: every worker had an empty
    /// frontier in the same round, so the search is globally finished.
    pub fn terminated(&self) -> (r: bool)
        ensures
            r == (self.stop_votes == self.num_workers),
    {
        self.stop_votes == self.num_workers
    }

    /// One worker finishes the cleanup handshake; the worker that brings
    /// the counter to the worker count performs the once-only finalization.
    pub fn cleanup_arrive(&mut self) -> (finalizer: bool)
        requires
            old(self).cleanup < old(self).num_workers,
        ensures
            final(self).cleanup == old(self).cleanup + 1,
            finalizer == (final(self).cleanup == final(self).num_workers),
            final(self).num_workers == old(self).num_workers,
            final(self).progress == old(self).progress,
            final(self).stop_votes == old(self).stop_votes,
    {
        self.cleanup = self.cleanup + 1;
        self.cleanup == self.num_workers
    }
}

/// Termination is sound: a round in which any worker still had work cannot
/// have been declared finished, because that worker's vote is missing from
/// the quorum.
pub proof fn lemma_no_early_termination(c: Coordinator, voters: nat)
    requires
        voters < c.num_workers,
        c.stop_votes <= voters,
    ensures
        c.stop_votes != c.num_workers,
{
}

} // verus!
