//! Implement classic-paxos with abstract-paxos
//!
//! - `Time` in paxos is ballot-number, a monotonic incremental integer.
//! - `QuorumSet` is a simple `Majority`.
//! - Network `Transport` is implemented with direct function call to an
//!   `Acceptor`.
//! - To rebuild a **maybe committed** value, it just uses the one with max
//!   `v_ballot`.
use vstd::prelude::*;

use crate::apaxos::history::reaches_time;
use crate::apaxos::history::History;
use crate::apaxos::history_view::HistoryView;
use crate::apaxos::proposer::law_read_majority_sees_write_majority;
use crate::apaxos::proposer::merged_grants;
use crate::apaxos::errors::APError;
use crate::apaxos::proposer::phase1_replies;
use crate::apaxos::proposer::phase1_requests;
use crate::apaxos::proposer::phase2_replies;
use crate::apaxos::proposer::phase2_requests;
use crate::apaxos::proposer::proposal;
use crate::apaxos::proposer::read_reached;
use crate::apaxos::proposer::run_outcome;
use crate::apaxos::proposer::write_reached;
use crate::commonly_used::quorum_set::majority::count_in;
use crate::commonly_used::transport::all_fresh;
use crate::commonly_used::transport::law_fresh_round_all_ok;
use crate::commonly_used::transport::phase1_first;
use crate::commonly_used::transport::requests_at;
use crate::commonly_used::transport::DirectCall;
use crate::lemma_ok_ids;
use crate::APaxos;
use crate::Transport;
use crate::TransportStep;
use crate::apaxos::ptime::lemma_below_some_maximal;
use crate::apaxos::ptime::maximal_elements;
use crate::commonly_used::history::linear::LinearHistory;
use crate::commonly_used::history::linear::SINGLE_VALUE;
use crate::commonly_used::quorum_set::majority::Majority;
use crate::ok_ids;
use crate::view_at;
use crate::QuorumSet;
use crate::Types;

verus! {

/// Implement classic-paxos with abstract-paxos
#[derive(Debug, Clone, Default)]
pub struct Paxos {}

impl Types for Paxos {
    type Time = u64;

    type Event = String;

    type History = LinearHistory<u64, String, SINGLE_VALUE>;

    type QuorumSet = Majority;
}

/// Every event of `m` at a ballot greater than or equal to `b` is `v`.
pub open spec fn carries_from(m: Map<u64, String>, b: u64, v: String) -> bool {
    forall|u: u64| #[trigger] m.contains_key(u) && u >= b ==> m[u] == v
}

/// Merging the phase-1 replies of classic Paxos picks one of them: the
/// merged history is empty or that of a reply that grants.
pub proof fn lemma_grants_pick_one(replies: Seq<(u64, Result<HistoryView<Paxos>, u64>)>)
    ensures
        merged_grants::<Paxos>(Map::empty(), replies) == Map::<u64, String>::empty() || exists|
            i: int,
        |
            0 <= i < replies.len() && (#[trigger] replies[i]).1 is Ok && merged_grants::<Paxos>(
                Map::empty(),
                replies,
            ) == replies[i].1->Ok_0.history().events(),
    decreases replies.len(),
{
    if replies.len() > 0 {
        let rest = replies.drop_last();
        lemma_grants_pick_one(rest);
        if merged_grants::<Paxos>(Map::empty(), rest) != Map::<u64, String>::empty() {
            let i = choose|i: int|
                0 <= i < rest.len() && (#[trigger] rest[i]).1 is Ok && merged_grants::<Paxos>(
                    Map::empty(),
                    rest,
                ) == rest[i].1->Ok_0.history().events();
            assert(replies[i] == rest[i]);
        }
        assert(replies[replies.len() - 1] == replies.last());
    }
}

/// A value that a write majority accepted is what a later proposer
/// proposes: the one with the greatest ballot among the replies.
///
/// Phase-1 at ballot `b2` hears from a read majority. Every acceptor of a
/// write majority `w` that grants reports a history with a ballot at or
/// after `b1`, and every reply that grants holds `v` at each ballot from
/// `b1` on. Then the proposal at `b2` holds `v` at `b2`, whatever event the
/// proposer brought.
pub proof fn law_paxos_proposes_accepted_value(
    q: Majority,
    replies: Seq<(u64, Result<HistoryView<Paxos>, u64>)>,
    w: Set<u64>,
    b1: u64,
    b2: u64,
    v: String,
    event: String,
)
    requires
        q.read_quorum(ok_ids(replies)),
        q.write_quorum(w),
        b1 <= b2,
        forall|i: int|
            0 <= i < replies.len() && (#[trigger] replies[i]).1 is Ok ==> view_at(
                replies[i].1->Ok_0,
                b2,
            ),
        forall|i: int|
            0 <= i < replies.len() && (#[trigger] replies[i]).1 is Ok && w.contains(replies[i].0)
                ==> reaches_time(replies[i].1->Ok_0.history().events(), b1),
        forall|i: int|
            0 <= i < replies.len() && (#[trigger] replies[i]).1 is Ok ==> carries_from(
                replies[i].1->Ok_0.history().events(),
                b1,
                v,
            ),
    ensures
        proposal::<Paxos>(replies, b2, event).contains_key(b2),
        proposal::<Paxos>(replies, b2, event)[b2] == v,
{
    let m = merged_grants::<Paxos>(Map::empty(), replies);
    law_read_majority_sees_write_majority::<Paxos>(q, Map::empty(), replies, w, b1);
    lemma_grants_pick_one(replies);
    let u = choose|u: u64| #[trigger] m.dom().contains(u) && u >= b1;
    assert(m != Map::<u64, String>::empty()) by {
        assert(m.dom().contains(u));
    }
    let k = choose|i: int|
        0 <= i < replies.len() && (#[trigger] replies[i]).1 is Ok && m
            == replies[i].1->Ok_0.history().events();
    let view = replies[k].1->Ok_0;
    assert(view_at(view, b2));
    view.history().lemma_wf_finite();
    assert(carries_from(m, b1, v));
    if !m.contains_key(b2) {
        let d = m.dom();
        vstd::set_lib::lemma_len_subset(set![u], d);
        assert(set![u].len() == 1);
        lemma_below_some_maximal(d, u);
        let c = choose|t: u64| maximal_elements(d).contains(t);
        assert(d.contains(c));
        assert(c >= u);
        assert(LinearHistory::<u64, String, SINGLE_VALUE>::stored_event(m, b2, event) == m[c]);
    }
}

/// Merging replies that hold no event gives no event.
proof fn lemma_empty_grants(replies: Seq<(u64, Result<HistoryView<Paxos>, u64>)>)
    requires
        forall|k: int|
            0 <= k < replies.len() && (#[trigger] replies[k]).1 is Ok ==> replies[k].1->Ok_0.history().events()
                == Map::<u64, String>::empty(),
    ensures
        merged_grants::<Paxos>(Map::empty(), replies) == Map::<u64, String>::empty(),
    decreases replies.len(),
{
    if replies.len() > 0 {
        let rest = replies.drop_last();
        assert forall|k: int| 0 <= k < rest.len() && (#[trigger] rest[k]).1 is Ok implies rest[k].1->Ok_0.history().events()
            == Map::<u64, String>::empty() by {
            assert(rest[k] == replies[k]);
        }
        lemma_empty_grants(rest);
        assert(replies.last() == replies[replies.len() - 1]);
    }
}

/// When every member is among `ids`, all of them count.
proof fn lemma_count_all(members: Seq<u64>, ids: Set<u64>)
    requires
        forall|k: int| 0 <= k < members.len() ==> ids.contains(#[trigger] members[k]),
    ensures
        count_in(members, ids) == members.len(),
    decreases members.len(),
{
    if members.len() > 0 {
        let rest = members.drop_last();
        assert forall|k: int| 0 <= k < rest.len() implies ids.contains(#[trigger] rest[k]) by {
            assert(rest[k] == members[k]);
        }
        lemma_count_all(rest, ids);
        assert(ids.contains(members[members.len() - 1]));
    }
}

/// The replies from every member of a majority, all `Ok`, reach a quorum
/// at the last of them.
pub proof fn lemma_all_ok_reach<V, F>(q: Majority, replies: Seq<(u64, Result<V, F>)>)
    requires
        replies.len() == q.members().len(),
        replies.len() > 0,
        forall|k: int|
            0 <= k < replies.len() ==> (#[trigger] replies[k]).0 == q.members()[k] && replies[k].1 is Ok,
    ensures
        read_reached(q, Set::empty(), replies, replies.len() as int),
        write_reached(q, Set::empty(), replies, replies.len() as int),
{
    let ids = ok_ids(replies);
    assert forall|k: int| 0 <= k < q.members().len() implies ids.contains(#[trigger] q.members()[k]) by {
        lemma_ok_ids(replies, q.members()[k]);
        assert(replies[k].0 == q.members()[k] && replies[k].1 is Ok);
    }
    lemma_count_all(q.members(), ids);
    assert(replies.take(replies.len() as int) =~= replies);
    assert(Set::<u64>::empty().union(ids) =~= ids);
    assert(replies[replies.len() - 1].1 is Ok);
}

/// A proposer on a cluster of fresh acceptors reached directly commits its
/// event at its time.
///
/// `before` is a cluster whose acceptors have no forbidden time and no
/// event, whose transport has logged nothing, and whose majority quorum is
/// over its acceptors. A run of a proposer at `t` with `event` that left
/// `after` and returned `r` (see [`run_outcome`]) returned `Ok` with the one
/// event `event` at `t`.
pub proof fn law_fresh_cluster_commits(
    before: APaxos<Paxos, DirectCall<Paxos>>,
    after: APaxos<Paxos, DirectCall<Paxos>>,
    t: u64,
    event: String,
    r: Result<LinearHistory<u64, String, SINGLE_VALUE>, APError<Paxos>>,
)
    requires
        run_outcome(before, after, t, event, r),
        after.transport.wf(),
        after.transport.initial() == before.transport.initial(),
        all_fresh::<Paxos>(before.transport.initial()),
        before.acceptors@.len() > 0,
        before.quorum_set.members() == before.acceptors@,
        before.transport.steps().len() == 0,
        before.transport.phase1_sent().len() == 0,
        before.transport.phase1_received().len() == 0,
        before.transport.phase2_sent().len() == 0,
        before.transport.phase2_received().len() == 0,
    ensures
        r is Ok,
        r->Ok_0.events() == map![t => event],
{
    let ids = before.acceptors@;
    let n = ids.len();
    let q = before.quorum_set;
    let tr = after.transport;
    let p1 = tr.phase1_received();
    let p2 = tr.phase2_received();
    assert(p1.skip(0) =~= p1);
    assert(p2.skip(0) =~= p2);
    let decided = proposal::<Paxos>(p1, t, event);
    let reqs1 = phase1_requests::<Paxos>(ids, t);
    let reps1 = phase1_replies::<Paxos>(p1);
    let reqs2 = phase2_requests::<Paxos>(ids, t, decided);
    let reps2 = phase2_replies::<Paxos>(p2);
    let steps1 = before.transport.steps() + reqs1 + reps1;
    assert(before.transport.steps() + reqs1 =~= reqs1);
    let st = tr.steps();
    let full = !(r matches Err(APError::ReadQuorumNotReached { .. }));
    if full {
        assert(st == reqs1 + reps1 + reqs2 + reps2);
    } else {
        assert(st == reqs1 + reps1);
    }
    // every request is at `t`, and phase-1 requests come first
    assert forall|x: int| 0 <= x < st.len() implies match #[trigger] st[x] {
        TransportStep::Phase1Request(_, u) => u == t,
        TransportStep::Phase2Request(_, u, _) => u == t,
        _ => true,
    } && (st[x] is Phase1Request ==> x < n) && (st[x] is Phase2Request ==> x >= n + p1.len()) by {
        if x < n {
            assert(st[x] == reqs1[x]);
        } else if x < n + p1.len() {
            assert(st[x] == reps1[x - n]);
        } else if x < n + p1.len() + n {
            assert(st[x] == reqs2[x - n - p1.len()]);
        } else {
            assert(st[x] == reps2[x - n - p1.len() - n]);
        }
    }
    assert(requests_at(st, t));
    assert(phase1_first(st));
    law_fresh_round_all_ok(tr, t);
    assert(tr.phase1_sent() =~= ids.map_values(|id: u64| (id, t)));
    match r {
        Err(APError::ReadQuorumNotReached { .. }) => {
            lemma_all_ok_reach(q, p1);
            assert(false);
        },
        Err(APError::WriteQuorumNotReached { .. }) => {
            assert(tr.phase2_sent() =~= ids.map_values(|id: u64| (id, t, decided)));
            lemma_all_ok_reach(q, p2);
            assert(false);
        },
        Err(APError::TimeRegression(_)) => {},
        Ok(h) => {
            lemma_empty_grants(p1);
            let m = Map::<u64, String>::empty();
            assert(m.dom().len() == 0);
            assert(m.insert(t, event) =~= map![t => event]);
        },
    }
}

} // verus!
