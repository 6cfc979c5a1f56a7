//! Counting finished chunks for a progress display.

use vstd::prelude::*;

verus! {

/// How many of a fixed number of chunks are done.
#[derive(Clone, Copy, Debug, PartialEq, Eq, Structural)]
pub struct Progress {
    /// The number of chunks in all.
    pub total: u64,
    /// The number of chunks done so far.
    pub completed: u64,
}

/// The state after one more chunk is done; a finished state stays as it is.
pub open spec fn step(p: Progress) -> Progress {
    if p.completed < p.total {
        Progress { total: p.total, completed: (p.completed + 1) as u64 }
    } else {
        p
    }
}

/// The state after `k` more chunks are done.
pub open spec fn steps(p: Progress, k: nat) -> Progress
    decreases k,
{
    if k == 0 {
        p
    } else {
        step(steps(p, (k - 1) as nat))
    }
}

impl Progress {
    /// No more chunks are counted as done than there are.
    pub open spec fn valid(&self) -> bool {
        self.completed <= self.total
    }

    /// A counter for `total` chunks, none of them done.
    pub fn new(total: u64) -> (p: Progress)
        ensures
            p == (Progress { total, completed: 0 }),
            p.valid(),
    {
        Progress { total, completed: 0 }
    }

    /// Counts one more chunk as done and returns the position to report.
    /// Where every chunk is done already, nothing changes and there is
    /// nothing to report.
    pub fn advance(&mut self) -> (position: Option<u64>)
        ensures
            *final(self) == step(*old(self)),
            old(self).valid() ==> final(self).valid(),
            old(self).completed < old(self).total ==> position == Some(
                (old(self).completed + 1) as u64,
            ),
            old(self).completed >= old(self).total ==> position.is_none(),
            position matches Some(pos) ==> pos == final(self).completed,
            position matches Some(pos) ==> pos <= final(self).total,
    {
        if self.completed < self.total {
            self.completed = self.completed + 1;
            Some(self.completed)
        } else {
            None
        }
    }

    /// Whether every chunk is done.
    pub fn is_finished(&self) -> (done: bool)
        ensures
            done == (self.completed == self.total),
    {
        self.completed == self.total
    }
}

/// After `k` more chunks the count has grown by `k`, up to the total: it
/// never falls and never passes the total.
pub proof fn lemma_steps(p: Progress, k: nat)
    requires
        p.valid(),
    ensures
        steps(p, k).total == p.total,
        steps(p, k).completed == if p.completed + k <= p.total {
            p.completed + k
        } else {
            p.total as int
        },
    decreases k,
{
    if k > 0 {
        lemma_steps(p, (k - 1) as nat);
    }
}

/// Once each of the `total` chunks has been counted, the position reported
/// last is `total`.
pub proof fn lemma_progress_completes(total: u64)
    ensures
        steps(Progress { total, completed: 0 }, total as nat).completed == total,
        forall|k: nat| (#[trigger] steps(Progress { total, completed: 0 }, k)).completed <= total,
{
    lemma_steps(Progress { total, completed: 0 }, total as nat);
    assert forall|k: nat| (#[trigger] steps(Progress { total, completed: 0 }, k)).completed
        <= total by {
        lemma_steps(Progress { total, completed: 0 }, k);
    }
}

} // verus!
