//! What the intake queue looks like, and why anything is stuck.
use vstd::prelude::*;
use std::time::Duration;

verus! {

/// A delta waiting in the intake queue.
#[derive(Debug, Clone)]
pub struct Pending {
    pub name: String,
    pub age: Option<Duration>,
    pub last_error: Option<String>,
}

/// A snapshot of the intake directory.
#[derive(Debug, Clone)]
pub struct Report {
    pub dir_exists: bool,
    pub pending: Vec<Pending>,
    pub failed: Vec<String>,
    pub done: usize,
}

/// The number of pending deltas among the first `n` that carry a recorded
/// error.
pub open spec fn stuck_count(p: Seq<Pending>, n: int) -> nat
    decreases n,
{
    if n <= 0 {
        0
    } else {
        stuck_count(p, n - 1) + if p[n - 1].last_error is Some { 1nat } else { 0nat }
    }
}

proof fn lemma_stuck_count_bound(p: Seq<Pending>, n: int)
    requires
        0 <= n,
    ensures
        stuck_count(p, n) <= n,
    decreases n,
{
    if n > 0 {
        lemma_stuck_count_bound(p, n - 1);
    }
}

impl Report {
    /// Pending deltas that have failed at least once (a recorded error beside
    /// them): retried forever, and now visible.
    pub fn stuck(&self) -> (r: usize)
        ensures
            r == stuck_count(self.pending@, self.pending@.len() as int),
    {
        let mut count: usize = 0;
        let mut i: usize = 0;
        while i < self.pending.len()
            invariant
                i <= self.pending@.len(),
                count == stuck_count(self.pending@, i as int),
            decreases self.pending.len() - i,
        {
            proof {
                lemma_stuck_count_bound(self.pending@, i + 1);
            }
            if self.pending[i].last_error.is_some() {
                count = count + 1;
            }
            i = i + 1;
        }
        count
    }
}

} // verus!
