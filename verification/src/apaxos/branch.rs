use vstd::prelude::*;

use crate::apaxos::history::can_add_at;
use crate::apaxos::history::events_with;
use crate::apaxos::history::History;
use crate::Types;

verus! {

/// Indicate the [`Branch`] includes an event has been set at the head
/// time.
pub const HEAD_SET: bool = true;

/// Indicate the [`Branch`] **may** not include an event at the head
/// time. Note that the head time is already in the internal history.
pub const HEAD_UNSET: bool = false;

/// Represents a single branch [`History`] that is reachable upto a designated
/// "head" time.
///
/// It represents a subset of the history that includes all time and events
/// **before or equal** a specific "time".
///
/// Unlike a [`History`], which may contain multiple maximal times due to
/// the partial ordering of events, [`Branch`] has a single, well-defined
/// "head time" that serves as the focal point of this historical view.
#[derive(Debug, Clone, Default)]
pub struct Branch<T: Types, const HEAD: bool> {
    head_time: T::Time,
    history: T::History,
}

impl<T: Types> Branch<T, HEAD_UNSET> {
    pub fn new(head_time: T::Time, history: T::History) -> (r: Self)
        ensures
            r.time() == head_time,
            r.history() == history,
    {
        Self { head_time, history }
    }

    /// Attempts to add an event at the head time.
    ///
    /// Returns `Ok` with all events of this one plus `event` at the
    /// head time. Returns `Err` with the same time and history, unchanged,
    /// if there is already an event at the head time.
    pub fn add_event(self, event: T::Event) -> (r: Result<Branch<T, HEAD_SET>, Branch<T, HEAD_SET>>)
        requires
            can_add_at(self.history(), self.time()),
        ensures
            r is Err <==> self.history().events().contains_key(self.time()),
            match r {
                Ok(d) => {
                    &&& d.time() == self.time()
                    &&& d.history().wf()
                    &&& d.history().events() == events_with::<T::Time, T::Event, T::History>(
                        self.history().events(),
                        self.time(),
                        event,
                    )
                },
                Err(d) => d.time() == self.time() && d.history() == self.history(),
            },
    {
        let Branch { head_time, mut history } = self;
        let t = head_time;
        if history.get(&t).is_some() {
            return Err(Branch::<T, HEAD_SET> { head_time, history });
        }
        let appended = history.append(t, event);
        proof {
            assert(appended is Ok);
        }
        Ok(Branch::<T, HEAD_SET> { head_time, history })
    }
}

impl<T: Types> Branch<T, HEAD_SET> {
    /// A branch whose head time has an event.
    pub fn new_decided(head_time: T::Time, history: T::History) -> (r: Self)
        ensures
            r.time() == head_time,
            r.history() == history,
    {
        Self { head_time, history }
    }
}

impl<T: Types, const HEAD: bool> Branch<T, HEAD> {
    /// The head time.
    pub closed spec fn time(&self) -> T::Time {
        self.head_time
    }

    /// The history of the branch.
    pub closed spec fn history(&self) -> T::History {
        self.history
    }

    /// Returns the head time of this branch.
    ///
    /// This time represents the **greatest** single time.
    /// All events in the view are causally prior to or equal this time.
    ///
    /// The head time is the **now**, new event can only be added at **now**,
    /// not at a time in the past.
    pub fn head_time(&self) -> (r: T::Time)
        ensures
            r == self.time(),
    {
        self.head_time
    }

    /// A copy of the branch.
    pub fn clone_branch(&self) -> (r: Self)
        requires
            self.history().wf(),
        ensures
            r.time() == self.time(),
            r.history().wf(),
            r.history().events() == self.history().events(),
    {
        Branch { head_time: self.head_time, history: self.history.clone_history() }
    }

    pub fn into_history(self) -> (r: T::History)
        ensures
            r == self.history(),
    {
        self.history
    }
}

} // verus!
