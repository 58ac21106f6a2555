pub mod phase1;
pub mod phase2;

use vstd::prelude::*;

use crate::apaxos::greater_equal::GreaterEqual;

use crate::apaxos::errors::APError;
use crate::apaxos::history::none_later;
use crate::apaxos::history::can_add_at;
use crate::apaxos::history::events_with;
use crate::apaxos::history::History;
use crate::apaxos::history_view::HistoryView;
use crate::apaxos::id_set::ascending_ids;
use crate::apaxos::proposer::phase1::Phase1;
use crate::apaxos::proposer::phase2::Phase2;
use crate::apaxos::ptime::Time;
use crate::APaxos;
use crate::QuorumSet;
use crate::Transport;
use crate::Types;
use crate::Value;
use crate::ok_ids;
use crate::TransportStep;
use crate::lemma_ok_ids;
use crate::apaxos::history::reaches_time;
use crate::commonly_used::quorum_set::majority::law_majorities_intersect;
use crate::commonly_used::quorum_set::majority::Majority;

verus! {

/// The events that phase-1 collects, starting from `h0`, from the replies
/// `replies`: the history of each reply that grants is merged in, in the
/// order the replies came.
pub open spec fn merged_grants<T: Types>(
    h0: Map<T::Time, T::Event>,
    replies: Seq<(u64, Result<HistoryView<T>, T::Time>)>,
) -> Map<T::Time, T::Event>
    decreases replies.len(),
{
    if replies.len() == 0 {
        h0
    } else {
        let prev = merged_grants::<T>(h0, replies.drop_last());
        match replies.last().1 {
            Ok(view) => T::History::merge_spec(prev, view.history().events()),
            Err(_) => prev,
        }
    }
}

/// What phase-1 merges loses no height: when the history it starts from, or
/// that of a reply that grants, holds a time greater than or equal to `x`,
/// so does the merged history.
pub proof fn lemma_grants_keep_greater<T: Types>(
    h0: Map<T::Time, T::Event>,
    replies: Seq<(u64, Result<HistoryView<T>, T::Time>)>,
    x: T::Time,
)
    requires
        h0.dom().finite(),
        forall|i: int|
            0 <= i < replies.len() && (#[trigger] replies[i]).1 is Ok ==> replies[i].1->Ok_0.history().wf(),
    ensures
        merged_grants::<T>(h0, replies).dom().finite(),
        reaches_time(h0, x) ==> reaches_time(merged_grants::<T>(h0, replies), x),
        forall|i: int|
            0 <= i < replies.len() && (#[trigger] replies[i]).1 is Ok && reaches_time(
                replies[i].1->Ok_0.history().events(),
                x,
            ) ==> reaches_time(merged_grants::<T>(h0, replies), x),
    decreases replies.len(),
{
    if replies.len() > 0 {
        let rest = replies.drop_last();
        assert forall|i: int| 0 <= i < rest.len() implies #[trigger] rest[i] == replies[i] by {}
        lemma_grants_keep_greater::<T>(h0, rest, x);
        let prev = merged_grants::<T>(h0, rest);
        let last = replies.last();
        assert(last == replies[replies.len() - 1]);
        match last.1 {
            Ok(view) => {
                let ve = view.history().events();
                view.history().lemma_wf_finite();
                T::History::lemma_merge_within(prev, ve);
                let mg = T::History::merge_spec(prev, ve);
                assert(mg.dom().subset_of(prev.dom().union(ve.dom())));
                vstd::set_lib::lemma_set_subset_finite(prev.dom().union(ve.dom()), mg.dom());
                if reaches_time(prev, x) || reaches_time(ve, x) {
                    T::History::lemma_merge_keeps_greater(prev, ve, x);
                }
                assert forall|i: int|
                    0 <= i < replies.len() && (#[trigger] replies[i]).1 is Ok && reaches_time(
                        replies[i].1->Ok_0.history().events(),
                        x,
                    ) implies reaches_time(mg, x) by {
                    if i < rest.len() {
                        assert(rest[i] == replies[i]);
                    }
                }
            },
            Err(_) => {
                assert forall|i: int|
                    0 <= i < replies.len() && (#[trigger] replies[i]).1 is Ok && reaches_time(
                        replies[i].1->Ok_0.history().events(),
                        x,
                    ) implies reaches_time(prev, x) by {
                    assert(i < rest.len());
                    assert(rest[i] == replies[i]);
                }
            },
        }
    }
}

/// A phase-1 whose granting acceptors form a majority hears from every
/// majority: when every acceptor of a majority `w` that grants reports a
/// history that holds a time greater than or equal to `x`, the history that
/// phase-1 merges holds one too.
pub proof fn law_read_majority_sees_write_majority<T: Types>(
    q: Majority,
    h0: Map<T::Time, T::Event>,
    replies: Seq<(u64, Result<HistoryView<T>, T::Time>)>,
    w: Set<u64>,
    x: T::Time,
)
    requires
        q.read_quorum(ok_ids(replies)),
        q.write_quorum(w),
        h0.dom().finite(),
        forall|i: int|
            0 <= i < replies.len() && (#[trigger] replies[i]).1 is Ok ==> replies[i].1->Ok_0.history().wf(),
        forall|i: int|
            0 <= i < replies.len() && (#[trigger] replies[i]).1 is Ok && w.contains(replies[i].0)
                ==> reaches_time(replies[i].1->Ok_0.history().events(), x),
    ensures
        reaches_time(merged_grants::<T>(h0, replies), x),
{
    law_majorities_intersect(q.members(), w, ok_ids(replies));
    let k = choose|k: int|
        0 <= k < q.members().len() && w.contains(#[trigger] q.members()[k]) && ok_ids(
            replies,
        ).contains(q.members()[k]);
    let id = q.members()[k];
    lemma_ok_ids(replies, id);
    let i = choose|i: int| 0 <= i < replies.len() && #[trigger] replies[i].0 == id && replies[i].1 is Ok;
    lemma_grants_keep_greater::<T>(h0, replies, x);
    assert(replies[i].1 is Ok && w.contains(replies[i].0));
}

/// The events a proposer at time `t` asks phase-2 to commit, after the
/// phase-1 `replies`: what the replies that grant hold, merged, plus
/// `event` at `t`, unless they have an event there already.
pub open spec fn proposal<T: Types>(
    replies: Seq<(u64, Result<HistoryView<T>, T::Time>)>,
    t: T::Time,
    event: T::Event,
) -> Map<T::Time, T::Event> {
    events_with::<T::Time, T::Event, T::History>(merged_grants::<T>(Map::empty(), replies), t, event)
}

/// The steps of sending phase-1 requests at `t` to `ids`, in order.
pub open spec fn phase1_requests<T: Types>(ids: Seq<u64>, t: T::Time) -> Seq<TransportStep<T>> {
    ids.map_values(|id: u64| TransportStep::<T>::Phase1Request(id, t))
}

/// The steps of receiving the phase-1 `replies`, in order.
pub open spec fn phase1_replies<T: Types>(
    replies: Seq<(u64, Result<HistoryView<T>, T::Time>)>,
) -> Seq<TransportStep<T>> {
    replies.map_values(
        |r: (u64, Result<HistoryView<T>, T::Time>)| TransportStep::<T>::Phase1Reply(r.0, r.1),
    )
}

/// The steps of sending phase-2 requests, of a decided history with head
/// time `t` and events `events`, to `ids`, in order.
pub open spec fn phase2_requests<T: Types>(
    ids: Seq<u64>,
    t: T::Time,
    events: Map<T::Time, T::Event>,
) -> Seq<TransportStep<T>> {
    ids.map_values(|id: u64| TransportStep::<T>::Phase2Request(id, t, events))
}

/// The steps of receiving the phase-2 `replies`, in order.
pub open spec fn phase2_replies<T: Types>(replies: Seq<(u64, Result<(), T::Time>)>) -> Seq<
    TransportStep<T>,
> {
    replies.map_values(|r: (u64, Result<(), T::Time>)| TransportStep::<T>::Phase2Reply(r.0, r.1))
}

/// The `j`-th of the phase-1 `replies` grants, and after it the acceptors
/// that granted, with `ids0`, form a read quorum of `q`.
pub open spec fn read_reached<Q: QuorumSet, V, F>(
    q: Q,
    ids0: Set<u64>,
    replies: Seq<(u64, Result<V, F>)>,
    j: int,
) -> bool {
    &&& 1 <= j <= replies.len()
    &&& replies[j - 1].1 is Ok
    &&& q.read_quorum(ids0.union(ok_ids(replies.take(j))))
}

/// After the `j`-th of the phase-2 `replies`, the acceptors that accepted,
/// with `ids0`, form a write quorum of `q`.
pub open spec fn write_reached<Q: QuorumSet, V, F>(
    q: Q,
    ids0: Set<u64>,
    replies: Seq<(u64, Result<V, F>)>,
    j: int,
) -> bool {
    &&& 1 <= j <= replies.len()
    &&& q.write_quorum(ids0.union(ok_ids(replies.take(j))))
}

/// A read quorum is reached at the last of the `replies`, and not before.
pub open spec fn read_first_at_end<Q: QuorumSet, V, F>(
    q: Q,
    ids0: Set<u64>,
    replies: Seq<(u64, Result<V, F>)>,
) -> bool {
    &&& read_reached(q, ids0, replies, replies.len() as int)
    &&& forall|j: int| 1 <= j < replies.len() ==> !#[trigger] read_reached(q, ids0, replies, j)
}

/// A read quorum is reached after none of the `replies`.
pub open spec fn read_never<Q: QuorumSet, V, F>(
    q: Q,
    ids0: Set<u64>,
    replies: Seq<(u64, Result<V, F>)>,
) -> bool {
    forall|j: int| 1 <= j <= replies.len() ==> !#[trigger] read_reached(q, ids0, replies, j)
}

/// A write quorum is reached at the last of the `replies`, and not before.
pub open spec fn write_first_at_end<Q: QuorumSet, V, F>(
    q: Q,
    ids0: Set<u64>,
    replies: Seq<(u64, Result<V, F>)>,
) -> bool {
    &&& write_reached(q, ids0, replies, replies.len() as int)
    &&& forall|j: int| 1 <= j < replies.len() ==> !#[trigger] write_reached(q, ids0, replies, j)
}

/// A write quorum is reached after none of the `replies`.
pub open spec fn write_never<Q: QuorumSet, V, F>(
    q: Q,
    ids0: Set<u64>,
    replies: Seq<(u64, Result<V, F>)>,
) -> bool {
    forall|j: int| 1 <= j <= replies.len() ==> !#[trigger] write_reached(q, ids0, replies, j)
}

/// Whether a quorum is reached after one of the first `n` replies does not
/// depend on the replies after them.
pub proof fn lemma_reached_prefix<Q: QuorumSet, V, F>(
    q: Q,
    ids0: Set<u64>,
    replies: Seq<(u64, Result<V, F>)>,
    r: (u64, Result<V, F>),
)
    ensures
        forall|j: int|
            1 <= j <= replies.len() ==> #[trigger] read_reached(q, ids0, replies.push(r), j)
                == read_reached(q, ids0, replies, j),
        forall|j: int|
            1 <= j <= replies.len() ==> #[trigger] write_reached(q, ids0, replies.push(r), j)
                == write_reached(q, ids0, replies, j),
        replies.push(r).take(replies.len() + 1int) == replies.push(r),
        replies.push(r).drop_last() == replies,
{
    assert forall|j: int| 1 <= j <= replies.len() implies replies.push(r).take(j) == replies.take(j) by {
        assert(replies.push(r).take(j) =~= replies.take(j));
    }
    assert(replies.push(r).take(replies.len() + 1int) =~= replies.push(r));
    assert(replies.push(r).drop_last() =~= replies);
}

/// What a run of a proposer at time `t0` with `event` did to `before`,
/// leaving `after`, and what it returned (`r`): the requests it sent and the
/// replies it received, and the result that the replies decide.
pub open spec fn run_outcome<T: Types, Tr: Transport<T>>(
    before: APaxos<T, Tr>,
    after: APaxos<T, Tr>,
    t0: T::Time,
    event: T::Event,
    r: Result<T::History, APError<T>>,
) -> bool {
    let acceptors = before.acceptors@;
    let q = before.quorum_set;
    let t = t0;
    let p1 = after.transport.phase1_received().skip(
        before.transport.phase1_received().len() as int,
    );
    let p2 = after.transport.phase2_received().skip(
        before.transport.phase2_received().len() as int,
    );
    let decided = proposal::<T>(p1, t, event);
    let sent2 = before.transport.phase2_sent() + acceptors.map_values(
        |id: u64| (id, t, decided),
    );
    let steps1 = before.transport.steps() + phase1_requests::<T>(acceptors, t)
        + phase1_replies::<T>(p1);
    &&& before.transport.phase1_received().is_prefix_of(after.transport.phase1_received())
    &&& before.transport.phase2_received().is_prefix_of(after.transport.phase2_received())
    &&& after.transport.phase1_sent() == before.transport.phase1_sent() + acceptors.map_values(
        |id: u64| (id, t),
    )
    &&& p1.len() <= acceptors.len()
    &&& p2.len() <= acceptors.len()
    &&& (r is Ok || r matches Err(APError::WriteQuorumNotReached { .. }))
        ==> after.transport.steps() == steps1 + phase2_requests::<T>(
        acceptors,
        t,
        decided,
    ) + phase2_replies::<T>(p2)
    &&& r matches Err(APError::ReadQuorumNotReached { .. })
        ==> after.transport.steps() == steps1
    &&& match r {
        Ok(h) => {
            &&& read_first_at_end(q, Set::empty(), p1)
            &&& after.transport.phase2_sent() == sent2
            &&& write_first_at_end(q, Set::empty(), p2)
            &&& h.wf()
            &&& h.events() == decided
            &&& h.events().contains_key(t)
            &&& none_later(h.events(), t)
        },
        Err(APError::ReadQuorumNotReached { accepted }) => {
            &&& p1.len() == acceptors.len()
            &&& read_never(q, Set::empty(), p1)
            &&& ascending_ids(accepted@)
            &&& accepted@.to_set() == ok_ids(p1)
            &&& after.transport.phase2_sent()
                == before.transport.phase2_sent()
            &&& p2.len() == 0
        },
        Err(APError::WriteQuorumNotReached { accepted }) => {
            &&& read_first_at_end(q, Set::empty(), p1)
            &&& after.transport.phase2_sent() == sent2
            &&& p2.len() == acceptors.len()
            &&& write_never(q, Set::empty(), p2)
            &&& ascending_ids(accepted@)
            &&& accepted@.to_set() == ok_ids(p2)
        },
        Err(APError::TimeRegression(_)) => false,
    }
}

/// Proposer proposes a value and tries to commit it by getting it accepted by a
/// quorum of Acceptors. It does so by running Phase1 and Phase2.
pub struct Proposer<'a, T: Types, Tr: Transport<T>> {
    pub apaxos: &'a mut APaxos<T, Tr>,
    pub time: T::Time,
    pub event: T::Event,
}

impl<'a, T: Types, Tr: Transport<T>> Proposer<'a, T, Tr> {
    /// Create a proposer that tries to commit `event` at `time` to the
    /// distributed system.
    pub fn new(apaxos: &'a mut APaxos<T, Tr>, time: T::Time, event: T::Event) -> (r: Self)
        ensures
            *r.apaxos == *old(apaxos),
            *final(r.apaxos) == *final(apaxos),
            r.time == time,
            r.event == event,
    {
        Self { apaxos, time, event }
    }

    /// Runs phase-1 and then phase-2; returns the history that a write
    /// quorum accepted.
    ///
    /// Phase-1 sends a request at the proposer's time to every acceptor and
    /// merges the histories of the replies that grant it, until they come
    /// from a read quorum. The event is then added at the proposer's time,
    /// unless the merged history has one there already, and phase-2 sends
    /// the result to every acceptor, until a write quorum accepted it.
    pub fn run(&mut self) -> (r: Result<T::History, APError<T>>)
        requires
            old(self).apaxos.wf(),
            old(self).apaxos.transport.phase1_replies_at(old(self).time),
        ensures
            final(self).apaxos.wf(),
            final(self).apaxos.acceptors@ == old(self).apaxos.acceptors@,
            final(self).apaxos.quorum_set == old(self).apaxos.quorum_set,
            final(self).apaxos.transport.initial() == old(self).apaxos.transport.initial(),
            *final(final(self).apaxos) == *final(old(self).apaxos),
            forall|t2: T::Time|
                t2.ge_spec(&old(self).time) ==> #[trigger] final(self).apaxos.transport.phase1_replies_at(
                    t2,
                ),
            final(self).time == old(self).time,
            final(self).event == old(self).event,
            final(self).apaxos.transport.phase1_sent() == old(self).apaxos.transport.phase1_sent()
                + old(self).apaxos.acceptors@.map_values(|id: u64| (id, old(self).time)),
            old(self).apaxos.transport.phase1_received().is_prefix_of(
                final(self).apaxos.transport.phase1_received(),
            ),
            old(self).apaxos.transport.phase2_received().is_prefix_of(
                final(self).apaxos.transport.phase2_received(),
            ),
            run_outcome(*old(self).apaxos, *final(self).apaxos, old(self).time, old(self).event, r),
    {
        let ghost tr0 = self.apaxos.transport;
        let ghost acceptors = self.apaxos.acceptors@;
        let phase1 = self.new_phase1();
        proof {
            assert(phase1.granted@.to_set() =~= Set::<u64>::empty());
            assert forall|x: Set<u64>| Set::<u64>::empty().union(x) == x by {
                assert(Set::<u64>::empty().union(x) =~= x);
            }
        }
        let maybe_committed = match phase1.run(self.apaxos) {
            Ok(view) => view,
            Err(e) => {
                proof {
                    assert forall|t2: T::Time| t2.ge_spec(&self.time) implies #[trigger] self.apaxos.transport.phase1_replies_at(
                        t2,
                    ) by {
                        self.apaxos.transport.lemma_replies_at_later(self.time, t2);
                    }
                    assert(self.apaxos.transport.phase2_received().skip(
                        tr0.phase2_received().len() as int,
                    ) =~= Seq::<(u64, Result<(), T::Time>)>::empty());
                    assert(tr0.phase2_received().is_prefix_of(self.apaxos.transport.phase2_received())) by {
                        assert(tr0.phase2_received() =~= self.apaxos.transport.phase2_received().subrange(
                            0,
                            tr0.phase2_received().len() as int,
                        ));
                    }
                }
                return Err(e);
            },
        };
        let ghost tr1 = self.apaxos.transport;
        let ghost time = self.time;
        let ghost event = self.event;
        let phase2 = self.new_phase2(maybe_committed);
        let ghost decided = phase2.decided;
        proof {
            assert(phase2.accepted@.to_set() =~= Set::<u64>::empty());
        }
        let res = phase2.run(self.apaxos);
        proof {
            assert forall|t2: T::Time| t2.ge_spec(&time) implies #[trigger] self.apaxos.transport.phase1_replies_at(
                t2,
            ) by {
                self.apaxos.transport.lemma_replies_at_later(time, t2);
            }
            let p1 = tr1.phase1_received().skip(tr0.phase1_received().len() as int);
            assert(self.apaxos.transport.phase1_received() == tr1.phase1_received());
            assert(decided.history().events() == proposal::<T>(p1, time, event));
            assert(acceptors.map_values(
                |id: u64| (id, decided.time(), decided.history().events()),
            ) =~= acceptors.map_values(|id: u64| (id, time, proposal::<T>(p1, time, event))));
        }
        res
    }

    fn new_phase1(&self) -> (r: Phase1<T>)
        ensures
            r.time == self.time,
            r.granted@.len() == 0,
            ascending_ids(r.granted@),
            r.previously_accepted.wf(),
            r.previously_accepted.events() == Map::<T::Time, T::Event>::empty(),
            none_later(r.previously_accepted.events(), self.time),
    {
        Phase1 {
            time: self.time,
            granted: Vec::new(),
            previously_accepted: T::History::new_empty(),
        }
    }

    /// The phase-2 of a phase-1 result: the event is added at the proposer's
    /// time, unless there is one there already.
    fn new_phase2(&self, maybe_committed: HistoryView<T>) -> (r: Phase2<T>)
        requires
            maybe_committed.time() == self.time,
            can_add_at(maybe_committed.history(), self.time),
        ensures
            r.time == self.time,
            r.decided.time() == self.time,
            r.decided.history().wf(),
            r.decided.history().events().contains_key(self.time),
            r.decided.history().events() == events_with::<T::Time, T::Event, T::History>(
                maybe_committed.history().events(),
                self.time,
                self.event,
            ),
            none_later(maybe_committed.history().events(), self.time) ==> none_later(
                r.decided.history().events(),
                self.time,
            ),
            r.accepted@.len() == 0,
            ascending_ids(r.accepted@),
    {
        // If the current time already has an event, no new event is added.
        let decided = match maybe_committed.append(self.event.clone_value()) {
            Ok(decided) => {
                // new event is added
                decided
            },
            Err(old) => {
                // new event is not added.
                old
            },
        };
        proof {
            T::Time::lemma_reflexive(self.time);
        }
        Phase2 { time: self.time, decided, accepted: Vec::new() }
    }
}

} // verus!
