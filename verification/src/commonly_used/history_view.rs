use vstd::prelude::*;

use crate::apaxos::decided::Decided;
use crate::apaxos::history::can_add_at;
use crate::apaxos::history::events_with;
use crate::apaxos::history::History;
use crate::Types;

verus! {

/// A snapshot view of a [`History`] up to a current time.
pub struct BasicView<T: Types> {
    current_time: T::Time,
    history: T::History,
}

impl<T: Types> BasicView<T> {
    /// The "current" time of the view.
    pub closed spec fn time(&self) -> T::Time {
        self.current_time
    }

    /// The history of the view.
    pub closed spec fn history(&self) -> T::History {
        self.history
    }

    pub fn new(current_time: T::Time, history: T::History) -> (r: Self)
        ensures
            r.time() == current_time,
            r.history() == history,
    {
        Self { current_time, history }
    }

    /// Returns the "current" time of this snapshot view.
    ///
    /// This time represents the **greatest** single time.
    /// All events in the snapshot are causally prior to or concurrent with this
    /// time.
    ///
    /// Note: The current time does not necessarily have to be an actual event
    /// time present in this History. It can be any valid time that defines
    /// the causal "cut" for this snapshot view.
    pub fn current_time(&self) -> (r: T::Time)
        ensures
            r == self.time(),
    {
        self.current_time
    }

    /// Attempts to add an event at the current time.
    ///
    /// Returns `Ok` with all events of this one plus `event` at the
    /// current time. Returns `Err` with the same time and history, unchanged,
    /// if there is already an event at the current time.
    pub fn append(self, event: T::Event) -> (r: Result<Decided<T>, Decided<T>>)
        requires
            can_add_at(self.history(), self.time()),
        ensures
            r is Err <==> self.history().events().contains_key(self.time()),
            match r {
                Ok(d) => {
                    &&& d.time() == self.time()
                    &&& d.history().wf()
                    &&& d.history().events() == events_with::<T::Time, T::Event, T::History>(
                        self.history().events(),
                        self.time(),
                        event,
                    )
                },
                Err(d) => d.time() == self.time() && d.history() == self.history(),
            },
    {
        let BasicView { current_time, mut history } = self;
        let t = current_time;
        if history.get(&t).is_some() {
            return Err(Decided::<T>::new_decided(current_time, history));
        }
        let appended = history.append(t, event);
        proof {
            assert(appended is Ok);
        }
        Ok(Decided::<T>::new_decided(current_time, history))
    }

    pub fn into_history(self) -> (r: T::History)
        ensures
            r == self.history(),
    {
        self.history
    }
}

} // verus!
