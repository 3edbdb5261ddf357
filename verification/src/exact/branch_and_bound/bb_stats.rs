//! Counters of search effort.

use vstd::prelude::*;

verus! {

/// How much work a search has done. The counters stop at the largest value
/// they can hold.
#[derive(Clone, Copy, Debug, PartialEq, Eq, Structural)]
pub struct BBStats {
    /// The number of subproblems entered.
    pub nodes: u64,
    /// The number of vertices taken because of a self-loop.
    pub forced: u64,
    /// The number of branchings on a vertex.
    pub branchings: u64,
}

/// `value + by`, or the largest value if that is beyond it.
pub open spec fn bumped(value: u64, by: u64) -> u64 {
    if value + by > u64::MAX {
        u64::MAX
    } else {
        (value + by) as u64
    }
}

/// `value + by`, or the largest value if that is beyond it.
pub fn bump(value: u64, by: u64) -> (r: u64)
    ensures
        r == bumped(value, by),
{
    if value > u64::MAX - by {
        u64::MAX
    } else {
        value + by
    }
}

/// No counter of `after` is below its value in `before`.
pub open spec fn not_less(after: BBStats, before: BBStats) -> bool {
    after.nodes >= before.nodes && after.forced >= before.forced && after.branchings
        >= before.branchings
}

impl BBStats {
    /// All counters at zero.
    pub fn new() -> (r: Self)
        ensures
            r == (BBStats { nodes: 0, forced: 0, branchings: 0 }),
    {
        BBStats { nodes: 0, forced: 0, branchings: 0 }
    }

    /// Records that a subproblem was entered.
    pub fn count_node(&mut self)
        ensures
            *final(self) == (BBStats { nodes: bumped(old(self).nodes, 1), ..*old(self) }),
    {
        self.nodes = bump(self.nodes, 1);
    }

    /// Records that `by` vertices were taken because of their self-loops.
    pub fn count_forced(&mut self, by: u64)
        ensures
            *final(self) == (BBStats { forced: bumped(old(self).forced, by), ..*old(self) }),
    {
        self.forced = bump(self.forced, by);
    }

    /// Records a branching.
    pub fn count_branching(&mut self)
        ensures
            *final(self) == (BBStats { branchings: bumped(old(self).branchings, 1), ..*old(self) }),
    {
        self.branchings = bump(self.branchings, 1);
    }
}

} // verus!
