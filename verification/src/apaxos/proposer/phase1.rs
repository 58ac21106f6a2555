use vstd::prelude::*;

use crate::apaxos::errors::APError;
use crate::apaxos::history::none_later;
use crate::apaxos::history::can_add_at;
use crate::apaxos::history::lemma_merged_within;
use crate::apaxos::history::History;
use crate::apaxos::history_view::HistoryView;
use crate::apaxos::id_set::ascending_ids;
use crate::apaxos::id_set::insert_id;
use crate::reply_at;
use crate::ok_ids;
use crate::TransportStep;
use crate::apaxos::proposer::phase1_replies;
use crate::apaxos::proposer::phase1_requests;
use crate::apaxos::proposer::lemma_reached_prefix;
use crate::apaxos::proposer::merged_grants;
use crate::apaxos::proposer::read_first_at_end;
use crate::apaxos::proposer::read_never;
use crate::APaxos;
use crate::QuorumSet;
use crate::Transport;
use crate::Types;

verus! {

/// Phase-1 of a [`Proposer`](crate::apaxos::proposer::Proposer): set up its
/// time on a read quorum of acceptors and collect what they have accepted.
pub struct Phase1<T: Types> {
    /// The time of the proposer that runs phase-1.
    pub time: T::Time,

    /// The acceptors that granted the phase-1 request, ascending.
    pub granted: Vec<u64>,

    /// The value part that the acceptors have accepted.
    ///
    /// These value parts are proposed by smaller proposers.
    pub previously_accepted: T::History,
}

impl<T: Types> Phase1<T> {
    /// Sends the phase-1 request at the proposer's time to every acceptor,
    /// in ascending order of id, and then receives one reply per request,
    /// until the acceptors that granted it form a read quorum.
    ///
    /// The history of every reply that grants is merged into
    /// `previously_accepted`. Returns a view at the proposer's time of what
    /// was merged once a read quorum is reached; otherwise, after all
    /// replies, the acceptors that granted.
    pub fn run<Tr: Transport<T>>(self, apaxos: &mut APaxos<T, Tr>) -> (r: Result<
        HistoryView<T>,
        APError<T>,
    >)
        requires
            old(apaxos).wf(),
            old(apaxos).transport.phase1_replies_at(self.time),
            ascending_ids(self.granted@),
            self.previously_accepted.wf(),
            none_later(self.previously_accepted.events(), self.time),
        ensures
            final(apaxos).wf(),
            final(apaxos).acceptors@ == old(apaxos).acceptors@,
            final(apaxos).transport.initial() == old(apaxos).transport.initial(),
            final(apaxos).transport.phase1_replies_at(self.time),
            final(apaxos).quorum_set == old(apaxos).quorum_set,
            final(apaxos).transport.phase2_pending() == old(apaxos).transport.phase2_pending(),
            final(apaxos).transport.phase1_sent() == old(apaxos).transport.phase1_sent()
                + old(apaxos).acceptors@.map_values(|id: u64| (id, self.time)),
            old(apaxos).transport.phase1_received().is_prefix_of(
                final(apaxos).transport.phase1_received(),
            ),
            final(apaxos).transport.phase2_sent() == old(apaxos).transport.phase2_sent(),
            final(apaxos).transport.phase2_received() == old(apaxos).transport.phase2_received(),
            ({
                let replies = final(apaxos).transport.phase1_received().skip(
                    old(apaxos).transport.phase1_received().len() as int,
                );
                let q = old(apaxos).quorum_set;
                let ids0 = self.granted@.to_set();
                &&& replies.len() <= old(apaxos).acceptors@.len()
                &&& final(apaxos).transport.steps() == old(apaxos).transport.steps()
                    + phase1_requests::<T>(old(apaxos).acceptors@, self.time) + phase1_replies::<T>(
                    replies,
                )
                &&& match r {
                    Ok(view) => {
                        &&& read_first_at_end(q, ids0, replies)
                        &&& view.time() == self.time
                        &&& view.history().wf()
                        &&& view.history().events() == merged_grants::<T>(
                            self.previously_accepted.events(),
                            replies,
                        )
                        &&& none_later(view.history().events(), self.time)
                        &&& can_add_at(view.history(), self.time)
                    },
                    Err(APError::ReadQuorumNotReached { accepted }) => {
                        &&& replies.len() == old(apaxos).acceptors@.len()
                        &&& read_never(q, ids0, replies)
                        &&& ascending_ids(accepted@)
                        &&& accepted@.to_set() == ids0.union(ok_ids(replies))
                    },
                    Err(_) => false,
                }
            }),
    {
        let Phase1 { time, mut granted, mut previously_accepted } = self;
        let ghost acceptors = old(apaxos).acceptors@;
        let ghost quorum = old(apaxos).quorum_set;
        let ghost p2 = apaxos.transport.phase2_pending();
        let ghost p0 = apaxos.transport.phase1_pending();
        let ghost ids0 = granted@.to_set();
        let ghost h0 = previously_accepted.events();
        let ghost s0 = apaxos.transport.phase1_sent();
        let ghost r0 = apaxos.transport.phase1_received();
        let ghost q2 = apaxos.transport.phase2_sent();
        let ghost a2 = apaxos.transport.phase2_received();
        let ghost st0 = apaxos.transport.steps();
        let ghost i0 = apaxos.transport.initial();

        let mut sent: usize = 0;
        let n = apaxos.acceptors.len();
        while sent < n
            invariant
                0 <= sent <= n,
                n == acceptors.len(),
                apaxos.wf(),
                apaxos.acceptors@ == acceptors,
                apaxos.transport.initial() == i0,
                apaxos.quorum_set == quorum,
                apaxos.transport.phase1_pending() == p0 + sent,
                apaxos.transport.phase2_pending() == p2,
                apaxos.transport.phase1_replies_at(time),
                apaxos.transport.phase1_sent() == s0 + acceptors.take(sent as int).map_values(
                    |id: u64| (id, time),
                ),
                apaxos.transport.phase1_received() == r0,
                apaxos.transport.steps() == st0 + phase1_requests::<T>(acceptors.take(sent as int), time),
                apaxos.transport.phase2_sent() == q2,
                apaxos.transport.phase2_received() == a2,
            decreases n - sent,
        {
            let id = apaxos.acceptors[sent];
            apaxos.transport.send_phase1_request(id, time);
            proof {
                assert(acceptors.take(sent + 1).map_values(|id: u64| (id, time)) =~= acceptors.take(
                    sent as int,
                ).map_values(|id: u64| (id, time)).push((id, time)));
                assert(phase1_requests::<T>(acceptors.take(sent + 1), time) =~= phase1_requests::<T>(
                    acceptors.take(sent as int),
                    time,
                ).push(TransportStep::<T>::Phase1Request(id, time)));
            }
            sent += 1;
        }
        proof {
            assert(acceptors.take(n as int) =~= acceptors);
        }

        let mut received: usize = 0;
        let mut reached = false;
        let ghost mut replies: Seq<(u64, Result<HistoryView<T>, T::Time>)> = Seq::empty();
        proof {
            assert(r0 + replies =~= r0);
            assert(ids0.union(ok_ids(replies)) =~= ids0);
            assert(st0 + phase1_requests::<T>(acceptors, time) + phase1_replies::<T>(replies)
                =~= st0 + phase1_requests::<T>(acceptors, time));
        }
        while received < sent && !reached
            invariant
                0 <= received <= sent,
                sent == n,
                n == acceptors.len(),
                apaxos.wf(),
                apaxos.acceptors@ == acceptors,
                apaxos.transport.initial() == i0,
                apaxos.quorum_set == quorum,
                apaxos.transport.phase1_pending() == p0 + sent - received,
                apaxos.transport.phase2_pending() == p2,
                apaxos.transport.phase1_replies_at(time),
                apaxos.transport.phase1_sent() == s0 + acceptors.map_values(|id: u64| (id, time)),
                apaxos.transport.phase1_received() == r0 + replies,
                apaxos.transport.steps() == st0 + phase1_requests::<T>(acceptors, time)
                    + phase1_replies::<T>(replies),
                apaxos.transport.phase2_sent() == q2,
                apaxos.transport.phase2_received() == a2,
                replies.len() == received,
                ascending_ids(granted@),
                granted@.to_set() == ids0.union(ok_ids(replies)),
                previously_accepted.wf(),
                previously_accepted.events() == merged_grants::<T>(h0, replies),
                none_later(previously_accepted.events(), time),
                !reached ==> read_never(quorum, ids0, replies),
                reached ==> read_first_at_end(quorum, ids0, replies),
                reached ==> can_add_at(previously_accepted, time),
            decreases sent - received,
        {
            let (target, res) = apaxos.transport.recv_phase1_reply();
            received += 1;
            let ghost before = replies;
            proof {
                assert(reply_at(res, time));
                replies = replies.push((target, res));
                lemma_reached_prefix(quorum, ids0, before, (target, res));
                assert(r0 + before.push((target, res)) =~= (r0 + before).push((target, res)));
                assert(phase1_replies::<T>(replies) =~= phase1_replies::<T>(before).push(
                    TransportStep::<T>::Phase1Reply(target, res),
                ));
            }
            match res {
                Err(_) => {
                    // Phase-1 request is rejected.
                },
                Ok(view) => {
                    insert_id(&mut granted, target);
                    let h = view.into_history();
                    proof {
                        lemma_merged_within::<T::Time, T::Event, T::History>(
                            previously_accepted.events(),
                            h.events(),
                            time,
                        );
                        assert(ids0.union(ok_ids(replies)) =~= ids0.union(ok_ids(before)).insert(
                            target,
                        ));
                    }
                    previously_accepted.merge(h);

                    let is_read_quorum = apaxos.quorum_set.is_read_quorum(&granted);

                    if is_read_quorum {
                        proof {
                            assert(can_add_at(previously_accepted, time));
                        }
                        reached = true;
                    }
                },
            }
        }
        proof {
            assert(replies =~= (r0 + replies).skip(r0.len() as int));
            assert(r0.is_prefix_of(r0 + replies)) by {
                assert(r0 =~= (r0 + replies).subrange(0, r0.len() as int));
            }
        }

        if reached {
            let view = HistoryView::new(time, previously_accepted);
            return Ok(view);
        }
        Err(APError::ReadQuorumNotReached { accepted: granted })
    }
}

} // verus!
