use vstd::prelude::*;

use crate::apaxos::history::can_add_at;
use crate::apaxos::history::events_with;
use crate::apaxos::history::History;
use crate::Types;

verus! {

/// Indicate the [`FocalHistory`] includes an event has been set at the current
/// time.
pub const WITH_CURRENT_EVENT: bool = true;

/// Indicate the [`FocalHistory`] **may** not include an event at the current
/// time. This is because the current time is already in the history.
pub const WITHOUT_CURRENT_EVENT: bool = false;

/// Represents a focused view of a [`History`] with a designated "current time".
///
/// It represents a subset of the history that includes all time and events
/// **before or equal** a specific "time".
///
/// Unlike a [`History`], which may contain multiple maximal times due to
/// the partial ordering of events, `FocalHistory` has a single, well-defined
/// "current time" that serves as the focal point of this historical view.
#[derive(Debug, Clone, Default)]
pub struct FocalHistory<T: Types, const EVENT: bool> {
    head_time: T::Time,
    history: T::History,
}

impl<T: Types> FocalHistory<T, WITHOUT_CURRENT_EVENT> {
    pub fn new(current_time: T::Time, history: T::History) -> (r: Self)
        ensures
            r.time() == current_time,
            r.history() == history,
    {
        Self { head_time: current_time, history }
    }

    /// Attempts to add an event at the current time.
    ///
    /// Returns `Ok` with all events of this one plus `event` at the
    /// current time. Returns `Err` with the same time and history, unchanged,
    /// if there is already an event at the current time.
    pub fn add_event(self, event: T::Event) -> (r: Result<FocalHistory<T, WITH_CURRENT_EVENT>, FocalHistory<T, WITH_CURRENT_EVENT>>)
        requires
            can_add_at(self.history(), self.time()),
        ensures
            r is Err <==> self.history().events().contains_key(self.time()),
            match r {
                Ok(d) => {
                    &&& d.time() == self.time()
                    &&& d.history().wf()
                    &&& d.history().events() == events_with::<T::Time, T::Event, T::History>(
                        self.history().events(),
                        self.time(),
                        event,
                    )
                },
                Err(d) => d.time() == self.time() && d.history() == self.history(),
            },
    {
        let FocalHistory { head_time, mut history } = self;
        let t = head_time;
        if history.get(&t).is_some() {
            return Err(FocalHistory::<T, WITH_CURRENT_EVENT> { head_time, history });
        }
        let appended = history.append(t, event);
        proof {
            assert(appended is Ok);
        }
        Ok(FocalHistory::<T, WITH_CURRENT_EVENT> { head_time, history })
    }
}

impl<T: Types, const EVENT: bool> FocalHistory<T, EVENT> {
    /// The current time.
    pub closed spec fn time(&self) -> T::Time {
        self.head_time
    }

    /// The history of the view.
    pub closed spec fn history(&self) -> T::History {
        self.history
    }

    /// Returns the "current" time of this snapshot view.
    ///
    /// This time represents the **greatest** single time.
    /// All events in the view are causally prior to or equal this time.
    ///
    /// Note: The current time does not necessarily have to be an actual event
    /// time present in this History. It can be any valid time that defines
    /// the causal "cut" for this snapshot view.
    pub fn head_time(&self) -> (r: T::Time)
        ensures
            r == self.time(),
    {
        self.head_time
    }

    pub fn into_history(self) -> (r: T::History)
        ensures
            r == self.history(),
    {
        self.history
    }
}

} // verus!
