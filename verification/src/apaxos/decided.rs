use vstd::prelude::*;

use crate::apaxos::branch::Branch;
use crate::apaxos::branch::HEAD_SET;

verus! {

/// A [`Branch`] with an event at its head time: what a proposer asks the
/// acceptors to accept in phase-2.
pub type Decided<T> = Branch<T, HEAD_SET>;

} // verus!
