use vstd::prelude::*;

use crate::apaxos::decided::Decided;
use crate::apaxos::errors::APError;
use crate::apaxos::history::History;
use crate::apaxos::id_set::ascending_ids;
use crate::apaxos::id_set::insert_id;
use crate::APaxos;
use crate::ok_ids;
use crate::TransportStep;
use crate::apaxos::proposer::phase2_replies;
use crate::apaxos::proposer::phase2_requests;
use crate::apaxos::proposer::lemma_reached_prefix;
use crate::apaxos::proposer::write_first_at_end;
use crate::apaxos::proposer::write_never;
use crate::QuorumSet;
use crate::Transport;
use crate::Types;

verus! {

/// Phase-2 of a [`Proposer`](crate::apaxos::proposer::Proposer): get the
/// decided history accepted by a write quorum of acceptors.
pub struct Phase2<T: Types> {
    /// The time of the proposer that runs phase-2.
    pub time: T::Time,

    /// The history to be accepted, with an event at its head time.
    pub decided: Decided<T>,

    /// The acceptors that accepted the phase-2 request, ascending.
    pub accepted: Vec<u64>,
}

impl<T: Types> Phase2<T> {
    /// Sends the decided history to every acceptor, in ascending order of
    /// id, and then receives one reply per request, until the acceptors that
    /// accepted it form a write quorum; then returns the decided history.
    /// Otherwise, after all replies, returns the acceptors that accepted.
    pub fn run<Tr: Transport<T>>(self, apaxos: &mut APaxos<T, Tr>) -> (r: Result<
        T::History,
        APError<T>,
    >)
        requires
            old(apaxos).wf(),
            self.decided.history().wf(),
            ascending_ids(self.accepted@),
        ensures
            final(apaxos).wf(),
            final(apaxos).acceptors@ == old(apaxos).acceptors@,
            final(apaxos).transport.initial() == old(apaxos).transport.initial(),
            final(apaxos).quorum_set == old(apaxos).quorum_set,
            final(apaxos).transport.phase1_pending() == old(apaxos).transport.phase1_pending(),
            forall|t: T::Time| #[trigger]
                old(apaxos).transport.phase1_replies_at(t)
                    ==> final(apaxos).transport.phase1_replies_at(t),
            final(apaxos).transport.phase1_sent() == old(apaxos).transport.phase1_sent(),
            final(apaxos).transport.phase1_received() == old(apaxos).transport.phase1_received(),
            final(apaxos).transport.phase2_sent() == old(apaxos).transport.phase2_sent()
                + old(apaxos).acceptors@.map_values(
                |id: u64| (id, self.decided.time(), self.decided.history().events()),
            ),
            old(apaxos).transport.phase2_received().is_prefix_of(
                final(apaxos).transport.phase2_received(),
            ),
            ({
                let replies = final(apaxos).transport.phase2_received().skip(
                    old(apaxos).transport.phase2_received().len() as int,
                );
                let q = old(apaxos).quorum_set;
                let ids0 = self.accepted@.to_set();
                &&& replies.len() <= old(apaxos).acceptors@.len()
                &&& final(apaxos).transport.steps() == old(apaxos).transport.steps()
                    + phase2_requests::<T>(
                    old(apaxos).acceptors@,
                    self.decided.time(),
                    self.decided.history().events(),
                ) + phase2_replies::<T>(replies)
                &&& match r {
                    Ok(h) => {
                        &&& write_first_at_end(q, ids0, replies)
                        &&& h == self.decided.history()
                    },
                    Err(APError::WriteQuorumNotReached { accepted }) => {
                        &&& replies.len() == old(apaxos).acceptors@.len()
                        &&& write_never(q, ids0, replies)
                        &&& ascending_ids(accepted@)
                        &&& accepted@.to_set() == ids0.union(ok_ids(replies))
                    },
                    Err(_) => false,
                }
            }),
    {
        let Phase2 { time, decided, mut accepted } = self;
        let ghost acceptors = old(apaxos).acceptors@;
        let ghost quorum = old(apaxos).quorum_set;
        let ghost p1 = apaxos.transport.phase1_pending();
        let ghost p0 = apaxos.transport.phase2_pending();
        let ghost t0 = apaxos.transport;
        let ghost ids0 = accepted@.to_set();
        let ghost entry = |id: u64| (id, decided.time(), decided.history().events());
        let ghost s1 = apaxos.transport.phase1_sent();
        let ghost r1 = apaxos.transport.phase1_received();
        let ghost s0 = apaxos.transport.phase2_sent();
        let ghost r0 = apaxos.transport.phase2_received();
        let ghost st0 = apaxos.transport.steps();
        let ghost i0 = apaxos.transport.initial();
        let ghost dt = decided.time();
        let ghost de = decided.history().events();

        let mut sent: usize = 0;
        let n = apaxos.acceptors.len();
        while sent < n
            invariant
                0 <= sent <= n,
                n == acceptors.len(),
                apaxos.wf(),
                apaxos.acceptors@ == acceptors,
                apaxos.transport.initial() == i0,
                apaxos.quorum_set == quorum,
                apaxos.transport.phase2_pending() == p0 + sent,
                apaxos.transport.phase1_pending() == p1,
                decided.history().wf(),
                forall|t: T::Time| #[trigger]
                    t0.phase1_replies_at(t) ==> apaxos.transport.phase1_replies_at(t),
                entry == (|id: u64| (id, decided.time(), decided.history().events())),
                apaxos.transport.phase1_sent() == s1,
                apaxos.transport.phase1_received() == r1,
                apaxos.transport.phase2_sent() == s0 + acceptors.take(sent as int).map_values(entry),
                dt == decided.time(),
                de == decided.history().events(),
                apaxos.transport.steps() == st0 + phase2_requests::<T>(
                    acceptors.take(sent as int),
                    dt,
                    de,
                ),
                apaxos.transport.phase2_received() == r0,
            decreases n - sent,
        {
            let id = apaxos.acceptors[sent];
            apaxos.transport.send_phase2_request(id, decided.clone_branch());
            proof {
                assert(acceptors.take(sent + 1).map_values(entry) =~= acceptors.take(
                    sent as int,
                ).map_values(entry).push(entry(id)));
                assert(phase2_requests::<T>(acceptors.take(sent + 1), dt, de) =~= phase2_requests::<
                    T,
                >(acceptors.take(sent as int), dt, de).push(
                    TransportStep::<T>::Phase2Request(id, dt, de),
                ));
            }
            sent += 1;
        }
        proof {
            assert(acceptors.take(n as int) =~= acceptors);
        }

        let mut received: usize = 0;
        let mut reached = false;
        let ghost mut replies: Seq<(u64, Result<(), T::Time>)> = Seq::empty();
        proof {
            assert(r0 + replies =~= r0);
            assert(ids0.union(ok_ids(replies)) =~= ids0);
            assert(st0 + phase2_requests::<T>(acceptors, dt, de) + phase2_replies::<T>(replies)
                =~= st0 + phase2_requests::<T>(acceptors, dt, de));
        }
        while received < sent && !reached
            invariant
                0 <= received <= sent,
                sent == n,
                n == acceptors.len(),
                apaxos.wf(),
                apaxos.acceptors@ == acceptors,
                apaxos.transport.initial() == i0,
                apaxos.quorum_set == quorum,
                apaxos.transport.phase2_pending() == p0 + sent - received,
                apaxos.transport.phase1_pending() == p1,
                decided.history().wf(),
                forall|t: T::Time| #[trigger]
                    t0.phase1_replies_at(t) ==> apaxos.transport.phase1_replies_at(t),
                apaxos.transport.phase1_sent() == s1,
                apaxos.transport.phase1_received() == r1,
                apaxos.transport.phase2_sent() == s0 + acceptors.map_values(entry),
                apaxos.transport.phase2_received() == r0 + replies,
                dt == decided.time(),
                de == decided.history().events(),
                apaxos.transport.steps() == st0 + phase2_requests::<T>(acceptors, dt, de)
                    + phase2_replies::<T>(replies),
                replies.len() == received,
                ascending_ids(accepted@),
                accepted@.to_set() == ids0.union(ok_ids(replies)),
                !reached ==> write_never(quorum, ids0, replies),
                reached ==> write_first_at_end(quorum, ids0, replies),
            decreases sent - received,
        {
            let (target, is_accepted) = apaxos.transport.recv_phase2_reply();
            received += 1;
            let ghost before = replies;
            proof {
                replies = replies.push((target, is_accepted));
                lemma_reached_prefix(quorum, ids0, before, (target, is_accepted));
                assert(r0 + before.push((target, is_accepted)) =~= (r0 + before).push(
                    (target, is_accepted),
                ));
                assert(phase2_replies::<T>(replies) =~= phase2_replies::<T>(before).push(
                    TransportStep::<T>::Phase2Reply(target, is_accepted),
                ));
            }
            if is_accepted.is_ok() {
                insert_id(&mut accepted, target);
                proof {
                    assert(ids0.union(ok_ids(replies)) =~= ids0.union(ok_ids(before)).insert(
                        target,
                    ));
                }
            }
            proof {
                if is_accepted is Err {
                    assert(ok_ids(replies) == ok_ids(before));
                }
                assert(accepted@.to_set() == ids0.union(ok_ids(replies.take(replies.len() as int))));
            }

            if apaxos.quorum_set.is_write_quorum(&accepted) {
                reached = true;
            }
        }
        proof {
            assert(replies =~= (r0 + replies).skip(r0.len() as int));
            assert(r0.is_prefix_of(r0 + replies)) by {
                assert(r0 =~= (r0 + replies).subrange(0, r0.len() as int));
            }
        }

        if reached {
            return Ok(decided.into_history());
        }

        Err(APError::WriteQuorumNotReached { accepted })
    }
}

} // verus!
