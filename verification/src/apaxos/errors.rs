use vstd::prelude::*;

use crate::Types;

verus! {

/// The errors of a run of a [`Proposer`](crate::apaxos::proposer::Proposer).
pub enum APError<T: Types> {
    /// Phase-1 ended before a read quorum granted it; `accepted` are the
    /// acceptors that did, in ascending order.
    ReadQuorumNotReached { accepted: Vec<u64> },
    /// Phase-2 ended before a write quorum accepted it; `accepted` are the
    /// acceptors that did, in ascending order.
    WriteQuorumNotReached { accepted: Vec<u64> },
    TimeRegression(TimeRegression<T::Time>),
}

/// Cannot update to an earlier time.
#[derive(Debug, Clone, Copy, PartialEq, Eq)]
pub struct TimeRegression<Tm> {
    /// The time that was attempted to be set
    pub attempted: Tm,
    /// The existing time that is later than the attempted time
    pub existing: Tm,
}

impl<Tm> TimeRegression<Tm> {
    pub fn new(attempted: Tm, existing: Tm) -> (r: Self)
        ensures
            r.attempted == attempted,
            r.existing == existing,
    {
        Self { attempted, existing }
    }
}

} // verus!
