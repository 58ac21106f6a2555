pub mod apaxos;
pub mod commonly_used;
pub mod implementations;

use vstd::prelude::*;

use crate::apaxos::greater_equal::GreaterEqual;

use crate::apaxos::decided::Decided;
use crate::apaxos::history::none_later;
use crate::apaxos::history::History;
use crate::apaxos::history_view::HistoryView;
use crate::apaxos::id_set::ascending_ids;
use crate::apaxos::id_set::insert_id;
use crate::apaxos::ptime::Time;

verus! {

/// An event: the value to propose and to commit.
///
/// `clone_value` makes an equal copy.
pub trait Value: Sized + Clone + core::fmt::Debug {
    fn clone_value(&self) -> (r: Self)
        ensures
            r == *self,
    ;
}

/// Defines types that are used in the Abstract-Paxos algorithm.
pub trait Types: Sized + Clone + Default + core::fmt::Debug {
    /// Pseudo time used in a distributed consensus.
    ///
    /// Every distributed consensus algorithm has its own definition of time.
    /// - In Paxos, it is ballot number, which is `(round, proposer_id)`.
    /// - In Raft, it is `(term, Option<voted_for>)`.
    /// - In 2PC, it is mainly a vector of related data entry name.
    type Time: Time;

    /// The value to propose and to commit
    type Event: Value;

    type History: History<Self::Time, Self::Event>;

    /// Quorum set defines quorums for read and write.
    ///
    /// Read-quorum is used by phase-1, write-quorum is used by phase-2.
    /// In most cases, read-quorum and write-quorum are the same.
    type QuorumSet: QuorumSet;
}

/// Quorum set defines quorums for read and write, over acceptor ids.
pub trait QuorumSet: Sized {
    /// `acceptor_ids` form a read quorum.
    spec fn read_quorum(&self, acceptor_ids: Set<u64>) -> bool;

    /// `acceptor_ids` form a write quorum.
    spec fn write_quorum(&self, acceptor_ids: Set<u64>) -> bool;

    fn is_read_quorum(&self, acceptor_ids: &Vec<u64>) -> (r: bool)
        ensures
            r == self.read_quorum(acceptor_ids@.to_set()),
    ;

    fn is_write_quorum(&self, acceptor_ids: &Vec<u64>) -> (r: bool)
        ensures
            r == self.write_quorum(acceptor_ids@.to_set()),
    ;
}

/// A phase-1 reply view fits a request at time `t`: its history is
/// consistent and holds nothing later than `t`.
pub open spec fn view_at<T: Types>(v: HistoryView<T>, t: T::Time) -> bool {
    &&& v.history().wf()
    &&& none_later(v.history().events(), t)
}

/// A phase-1 reply that grants fits a request at time `t`.
pub open spec fn reply_at<T: Types>(r: Result<HistoryView<T>, T::Time>, t: T::Time) -> bool {
    match r {
        Ok(v) => view_at(v, t),
        Err(_) => true,
    }
}

/// The acceptors that answered `Ok` among `replies`.
pub open spec fn ok_ids<V, F>(replies: Seq<(u64, Result<V, F>)>) -> Set<u64>
    decreases replies.len(),
{
    if replies.len() == 0 {
        Set::empty()
    } else {
        let prev = ok_ids(replies.drop_last());
        match replies.last().1 {
            Ok(_) => prev.insert(replies.last().0),
            Err(_) => prev,
        }
    }
}

/// An acceptor is among those that answered `Ok` exactly when one of its
/// replies is `Ok`.
pub proof fn lemma_ok_ids<V, F>(replies: Seq<(u64, Result<V, F>)>, id: u64)
    ensures
        ok_ids(replies).contains(id) <==> exists|i: int|
            0 <= i < replies.len() && #[trigger] replies[i].0 == id && replies[i].1 is Ok,
    decreases replies.len(),
{
    if replies.len() > 0 {
        let rest = replies.drop_last();
        lemma_ok_ids(rest, id);
        if exists|i: int| 0 <= i < rest.len() && #[trigger] rest[i].0 == id && rest[i].1 is Ok {
            let i = choose|i: int| 0 <= i < rest.len() && #[trigger] rest[i].0 == id && rest[i].1 is Ok;
            assert(replies[i] == rest[i]);
        }
        if exists|i: int| 0 <= i < replies.len() && #[trigger] replies[i].0 == id && replies[i].1 is Ok {
            let i = choose|i: int|
                0 <= i < replies.len() && #[trigger] replies[i].0 == id && replies[i].1 is Ok;
            if i < rest.len() {
                assert(rest[i] == replies[i]);
            }
        }
    }
}

/// A request handed to a transport, or a reply it handed out.
pub enum TransportStep<T: Types> {
    /// A phase-1 request to an acceptor at a time.
    Phase1Request(u64, T::Time),
    /// A phase-1 reply of an acceptor.
    Phase1Reply(u64, Result<HistoryView<T>, T::Time>),
    /// A phase-2 request to an acceptor: the head time and the events of
    /// the decided history.
    Phase2Request(u64, T::Time, Map<T::Time, T::Event>),
    /// A phase-2 reply of an acceptor.
    Phase2Reply(u64, Result<(), T::Time>),
}

/// The network transport for sending and receiving messages.
///
/// Replies are received in some order after their requests were sent;
/// `phase1_pending` and `phase2_pending` count the replies not received
/// yet. The transport keeps, as ghost state, a log of the requests it was
/// handed and of the replies it handed out, oldest first.
pub trait Transport<T: Types>: Sized {
    /// The internal state is consistent.
    spec fn wf(&self) -> bool;

    /// Requests can be sent to acceptor `id`.
    spec fn reaches(&self, id: u64) -> bool;

    spec fn phase1_pending(&self) -> nat;

    spec fn phase2_pending(&self) -> nat;

    /// Every pending phase-1 reply that grants fits a request at time `t`
    /// (see [`view_at`]).
    spec fn phase1_replies_at(&self, t: T::Time) -> bool;

    /// Pending replies that fit a time fit every later time.
    proof fn lemma_replies_at_later(&self, t1: T::Time, t2: T::Time)
        requires
            self.phase1_replies_at(t1),
            t2.ge_spec(&t1),
        ensures
            self.phase1_replies_at(t2),
    ;

    /// The forbidden times and events of the acceptors it reaches, as the
    /// transport took them when it was made; it never changes.
    spec fn initial(&self) -> Map<u64, (Set<T::Time>, Map<T::Time, T::Event>)>;

    /// Every request sent and every reply received, in the order they
    /// happened.
    spec fn steps(&self) -> Seq<TransportStep<T>>;

    /// The phase-1 requests sent: the target and the time.
    spec fn phase1_sent(&self) -> Seq<(u64, T::Time)>;

    /// The phase-1 replies received: the acceptor and its answer.
    spec fn phase1_received(&self) -> Seq<(u64, Result<HistoryView<T>, T::Time>)>;

    /// The phase-2 requests sent: the target, and the head time and the
    /// events of the decided history.
    spec fn phase2_sent(&self) -> Seq<(u64, T::Time, Map<T::Time, T::Event>)>;

    /// The phase-2 replies received: the acceptor and its answer.
    spec fn phase2_received(&self) -> Seq<(u64, Result<(), T::Time>)>;

    fn send_phase1_request(&mut self, target: u64, t: T::Time)
        requires
            old(self).wf(),
            old(self).reaches(target),
            old(self).phase1_replies_at(t),
        ensures
            final(self).wf(),
            final(self).phase1_pending() == old(self).phase1_pending() + 1,
            final(self).phase2_pending() == old(self).phase2_pending(),
            final(self).phase1_replies_at(t),
            forall|id: u64| #[trigger] final(self).reaches(id) == old(self).reaches(id),
            final(self).phase1_sent() == old(self).phase1_sent().push((target, t)),
            final(self).initial() == old(self).initial(),
            final(self).steps() == old(self).steps().push(TransportStep::Phase1Request(target, t)),
            final(self).phase1_received() == old(self).phase1_received(),
            final(self).phase2_sent() == old(self).phase2_sent(),
            final(self).phase2_received() == old(self).phase2_received(),
    ;

    fn recv_phase1_reply(&mut self) -> (r: (u64, Result<HistoryView<T>, T::Time>))
        requires
            old(self).wf(),
            old(self).phase1_pending() > 0,
        ensures
            final(self).wf(),
            final(self).phase1_pending() == old(self).phase1_pending() - 1,
            final(self).phase2_pending() == old(self).phase2_pending(),
            forall|id: u64| #[trigger] final(self).reaches(id) == old(self).reaches(id),
            forall|t: T::Time| #[trigger]
                old(self).phase1_replies_at(t) ==> final(self).phase1_replies_at(t) && reply_at(
                    r.1,
                    t,
                ),
            final(self).phase1_sent() == old(self).phase1_sent(),
            final(self).phase1_received() == old(self).phase1_received().push(r),
            final(self).initial() == old(self).initial(),
            final(self).steps() == old(self).steps().push(TransportStep::Phase1Reply(r.0, r.1)),
            final(self).phase2_sent() == old(self).phase2_sent(),
            final(self).phase2_received() == old(self).phase2_received(),
    ;

    fn send_phase2_request(&mut self, target: u64, decided: Decided<T>)
        requires
            old(self).wf(),
            old(self).reaches(target),
            decided.history().wf(),
        ensures
            final(self).wf(),
            final(self).phase1_pending() == old(self).phase1_pending(),
            final(self).phase2_pending() == old(self).phase2_pending() + 1,
            forall|id: u64| #[trigger] final(self).reaches(id) == old(self).reaches(id),
            forall|t: T::Time| #[trigger]
                old(self).phase1_replies_at(t) ==> final(self).phase1_replies_at(t),
            final(self).phase1_sent() == old(self).phase1_sent(),
            final(self).phase1_received() == old(self).phase1_received(),
            final(self).phase2_sent() == old(self).phase2_sent().push(
                (target, decided.time(), decided.history().events()),
            ),
            final(self).initial() == old(self).initial(),
            final(self).steps() == old(self).steps().push(
                TransportStep::Phase2Request(target, decided.time(), decided.history().events()),
            ),
            final(self).phase2_received() == old(self).phase2_received(),
    ;

    fn recv_phase2_reply(&mut self) -> (r: (u64, Result<(), T::Time>))
        requires
            old(self).wf(),
            old(self).phase2_pending() > 0,
        ensures
            final(self).wf(),
            final(self).phase1_pending() == old(self).phase1_pending(),
            final(self).phase2_pending() == old(self).phase2_pending() - 1,
            forall|id: u64| #[trigger] final(self).reaches(id) == old(self).reaches(id),
            forall|t: T::Time| #[trigger]
                old(self).phase1_replies_at(t) ==> final(self).phase1_replies_at(t),
            final(self).phase1_sent() == old(self).phase1_sent(),
            final(self).phase1_received() == old(self).phase1_received(),
            final(self).phase2_sent() == old(self).phase2_sent(),
            final(self).phase2_received() == old(self).phase2_received().push(r),
            final(self).initial() == old(self).initial(),
            final(self).steps() == old(self).steps().push(TransportStep::Phase2Reply(r.0, r.1)),
    ;
}

/// Abstract Paxos
pub struct APaxos<T: Types, Tr: Transport<T>> {
    /// The acceptors, in ascending order of id. Acceptors store value or part
    /// of the value that is proposed by a
    /// [`Proposer`](crate::apaxos::proposer::Proposer).
    pub acceptors: Vec<u64>,

    /// Quorum set defines quorums for read and write.
    ///
    /// A value that is accepted by a quorum is considered committed.
    pub quorum_set: T::QuorumSet,

    /// Transport for sending and receiving messages.
    pub transport: Tr,
}

impl<T: Types, Tr: Transport<T>> APaxos<T, Tr> {
    /// The acceptor ids, ascending.
    pub open spec fn acceptor_ids(&self) -> Seq<u64> {
        self.acceptors@
    }

    pub open spec fn quorum(&self) -> T::QuorumSet {
        self.quorum_set
    }

    pub open spec fn network(&self) -> Tr {
        self.transport
    }

    /// The acceptor ids are ascending, the transport is consistent and
    /// reaches every acceptor.
    pub open spec fn wf(&self) -> bool {
        &&& ascending_ids(self.acceptor_ids())
        &&& self.network().wf()
        &&& forall|i: int|
            0 <= i < self.acceptor_ids().len() ==> #[trigger] self.network().reaches(
                self.acceptor_ids()[i],
            )
    }

    pub fn new(acceptors: Vec<u64>, quorum_set: T::QuorumSet, transport: Tr) -> (r: Self)
        ensures
            ascending_ids(r.acceptor_ids()),
            r.acceptor_ids().to_set() == acceptors@.to_set(),
            r.quorum() == quorum_set,
            r.network() == transport,
    {
        let mut ids: Vec<u64> = Vec::new();
        let mut i: usize = 0;
        proof {
            assert(ids@.to_set() =~= acceptors@.take(0).to_set());
        }
        while i < acceptors.len()
            invariant
                0 <= i <= acceptors@.len(),
                ascending_ids(ids@),
                ids@.to_set() == acceptors@.take(i as int).to_set(),
            decreases acceptors.len() - i,
        {
            insert_id(&mut ids, acceptors[i]);
            proof {
                assert(acceptors@.take(i + 1) =~= acceptors@.take(i as int).push(acceptors@[i as int]));
                vstd::seq::Seq::lemma_push_to_set_commute(acceptors@.take(i as int), acceptors@[i as int]);
            }
            i += 1;
        }
        proof {
            assert(acceptors@.take(acceptors@.len() as int) =~= acceptors@);
        }
        Self { acceptors: ids, quorum_set, transport }
    }
}

} // verus!
