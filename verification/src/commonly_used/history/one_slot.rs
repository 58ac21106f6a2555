use vstd::prelude::*;

use crate::apaxos::ptime::Time;
use crate::Value;

verus! {

/// A history of at most one event.
#[derive(Clone, Debug)]
pub struct OneSlotHistory<Tm, E> {
    history: Option<(Tm, E)>,
}

/// The time and event pairs of a slot: its pair, if it holds one.
pub open spec fn slot_entries<Tm, E>(slot: Option<(Tm, E)>) -> Seq<(Tm, E)> {
    match slot {
        Some(p) => seq![p],
        None => Seq::empty(),
    }
}

/// The time and the event of a one-slot history are those of its one
/// maximal pair, and both are absent exactly when it has none.
pub proof fn law_one_slot_value_is_maximal<Tm, E>(slot: Option<(Tm, E)>)
    ensures
        (slot_entries(slot).len() == 0) == (slot is None),
        slot matches Some(p) ==> slot_entries(slot).len() == 1 && slot_entries(slot)[0] == p,
{
}

impl<Tm: Time, E: Value> OneSlotHistory<Tm, E> {
    /// The event and its time, if any.
    pub closed spec fn slot(&self) -> Option<(Tm, E)> {
        self.history
    }

    /// A history holding `history`.
    pub fn new(history: Option<(Tm, E)>) -> (r: Self)
        ensures
            r.slot() == history,
    {
        OneSlotHistory { history }
    }

    /// The time of the event, if any.
    pub fn value_time(&self) -> (r: Option<Tm>)
        ensures
            r == match self.slot() {
                Some((t, _e)) => Some(t),
                None => None::<Tm>,
            },
    {
        match &self.history {
            Some((t, _e)) => Some(*t),
            None => None,
        }
    }

    /// Return the maximal time and event pairs: the one the slot holds, if
    /// any.
    pub fn maximals(&self) -> (r: Vec<(Tm, E)>)
        ensures
            r@ == slot_entries(self.slot()),
    {
        let mut r: Vec<(Tm, E)> = Vec::new();
        match &self.history {
            Some((t, e)) => {
                r.push((*t, e.clone_value()));
                proof {
                    assert(r@ =~= seq![(*t, *e)]);
                }
            },
            None => {
                proof {
                    assert(r@ =~= Seq::<(Tm, E)>::empty());
                }
            },
        }
        r
    }

    /// The event, if any.
    pub fn value(&self) -> (r: Option<&E>)
        ensures
            match r {
                Some(e) => self.slot() matches Some((_t, v)) && *e == v,
                None => self.slot() is None,
            },
    {
        match &self.history {
            Some((_t, e)) => Some(e),
            None => None,
        }
    }
}

} // verus!
