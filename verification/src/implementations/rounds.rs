//! Rounds of classic Paxos on a cluster reached by direct calls.
use vstd::prelude::*;

use crate::apaxos::acceptor::committable;
use crate::apaxos::acceptor::forbid_smaller;
use crate::apaxos::errors::APError;
use crate::apaxos::history::events_at_or_below;
use crate::apaxos::history::events_with;
use crate::apaxos::history::History;
use crate::apaxos::history_view::HistoryView;
use crate::apaxos::id_set::ascending_ids;
use crate::apaxos::proposer::merged_grants;
use crate::apaxos::proposer::phase1_replies;
use crate::apaxos::proposer::phase1_requests;
use crate::apaxos::proposer::phase2_replies;
use crate::apaxos::proposer::phase2_requests;
use crate::apaxos::proposer::proposal;
use crate::apaxos::proposer::run_outcome;
use crate::commonly_used::history::linear::linear_merged;
use crate::apaxos::history::reaches_time;
use crate::apaxos::ptime::lemma_below_some_maximal;
use crate::apaxos::ptime::maximal_elements;
use crate::implementations::paxos::carries_from;
use crate::commonly_used::history::linear::LinearHistory;
use crate::commonly_used::history::linear::SINGLE_VALUE;
use crate::commonly_used::transport::after_phase1;
use crate::commonly_used::transport::after_phase2;
use crate::commonly_used::transport::law_direct_call_replies_fit;
use crate::commonly_used::transport::lemma_replay_concat;
use crate::commonly_used::transport::lemma_replay_phase1_round;
use crate::commonly_used::transport::lemma_replay_phase2_round;
use crate::commonly_used::transport::lemma_replay_replies;
use crate::commonly_used::transport::model_of;
use crate::commonly_used::transport::phase1_fits;
use crate::commonly_used::transport::phase2_fits;
use crate::commonly_used::transport::replay;
use crate::commonly_used::transport::DirectCall;
use crate::implementations::paxos::Paxos;
use crate::Transport;
use crate::implementations::paxos::lemma_all_ok_reach;
use crate::TransportStep;
use crate::commonly_used::quorum_set::majority::Majority;
use crate::commonly_used::quorum_set::majority::law_majorities_intersect;
use crate::QuorumSet;
use crate::apaxos::greater_equal::GreaterEqual;
use crate::ok_ids;
use crate::lemma_ok_ids;
use crate::implementations::paxos::lemma_grants_pick_one;
use crate::apaxos::acceptor::dominated_by;
use crate::apaxos::acceptor::lemma_forbid_smaller_dominates;

verus! {

/// No request among `steps` is at time `t`: a round at `t` uses a new
/// ballot.
pub open spec fn time_unused(steps: Seq<TransportStep<Paxos>>, t: u64) -> bool {
    forall|p: int|
        0 <= p < steps.len() ==> match #[trigger] steps[p] {
            TransportStep::Phase1Request(_, u) => u != t,
            TransportStep::Phase2Request(_, u, _) => u != t,
            _ => true,
        }
}

/// The acceptors `ids` that `tr` reaches, and no other, are all in state
/// `x` (forbidden times and events).
pub open spec fn uniform(
    tr: DirectCall<Paxos>,
    ids: Seq<u64>,
    x: (Set<u64>, Map<u64, String>),
) -> bool {
    &&& tr.wf()
    &&& model_of(tr.acceptor_map()).dom() == ids.to_set()
    &&& forall|i: int| 0 <= i < ids.len() ==> model_of(tr.acceptor_map())[#[trigger] ids[i]] == x
}

/// [`uniform`], with no reply waiting to be received: a round can start.
pub open spec fn settled(
    tr: DirectCall<Paxos>,
    ids: Seq<u64>,
    x: (Set<u64>, Map<u64, String>),
) -> bool {
    &&& uniform(tr, ids, x)
    &&& tr.phase1_queue().len() == 0
    &&& tr.phase2_queue().len() == 0
}

/// What a round at `t` with `event` asks to commit, when the acceptors are
/// in state `x` and grant it.
pub open spec fn round_decided(x: (Set<u64>, Map<u64, String>), t: u64, event: String) -> Map<
    u64,
    String,
> {
    events_with::<u64, String, LinearHistory<u64, String, SINGLE_VALUE>>(
        events_at_or_below(x.1, t),
        t,
        event,
    )
}

/// The state of the acceptors after a round at `t` with `event`, from state
/// `x`.
pub open spec fn round_state(x: (Set<u64>, Map<u64, String>), t: u64, event: String) -> (
    Set<u64>,
    Map<u64, String>,
) {
    if committable(x.0, t) {
        (forbid_smaller(x.0, t), linear_merged(x.1, round_decided(x, t, event)))
    } else {
        x
    }
}

/// Merging replies that all grant with one view gives that view.
proof fn lemma_same_grants(replies: Seq<(u64, Result<HistoryView<Paxos>, u64>)>, v: Map<u64, String>)
    requires
        replies.len() > 0,
        forall|k: int|
            0 <= k < replies.len() ==> (#[trigger] replies[k]).1 is Ok
                && replies[k].1->Ok_0.history().events() == v,
    ensures
        merged_grants::<Paxos>(Map::empty(), replies) == v,
    decreases replies.len(),
{
    let rest = replies.drop_last();
    assert(replies.last() == replies[replies.len() - 1]);
    if rest.len() == 0 {
        assert(merged_grants::<Paxos>(Map::empty(), rest) == Map::<u64, String>::empty());
    } else {
        assert forall|k: int| 0 <= k < rest.len() implies (#[trigger] rest[k]).1 is Ok
            && rest[k].1->Ok_0.history().events() == v by {
            assert(rest[k] == replies[k]);
        }
        lemma_same_grants(rest, v);
        assert forall|u: u64| #[trigger] v.dom().contains(u) implies !(forall|w: u64| #[trigger]
            v.dom().contains(w) ==> crate::apaxos::greater_equal::gt_spec(u, w)) by {
            assert(!crate::apaxos::greater_equal::gt_spec(u, u));
        }
    }
}

/// After the phase-1 requests at `t` to the acceptors `ids`, all in state
/// `x` after `s0`, and the replies `p1`, they are all in the state after
/// phase-1; after the phase-2 requests of `d` and the replies `p2` too, in
/// the state after phase-2.
proof fn lemma_round_states(
    init: Map<u64, (Set<u64>, Map<u64, String>)>,
    s0: Seq<TransportStep<Paxos>>,
    ids: Seq<u64>,
    t: u64,
    x: (Set<u64>, Map<u64, String>),
    p1: Seq<(u64, Result<HistoryView<Paxos>, u64>)>,
    d: Map<u64, String>,
    p2: Seq<(u64, Result<(), u64>)>,
)
    requires
        ascending_ids(ids),
        replay(init, s0).dom() == ids.to_set(),
        forall|i: int| 0 <= i < ids.len() ==> replay(init, s0)[#[trigger] ids[i]] == x,
    ensures
        ({
            let m = replay(init, s0 + phase1_requests::<Paxos>(ids, t) + phase1_replies::<Paxos>(p1));
            &&& m.dom() == ids.to_set()
            &&& forall|i: int| 0 <= i < ids.len() ==> m[#[trigger] ids[i]] == after_phase1::<Paxos>(x, t)
        }),
        ({
            let m = replay(
                init,
                s0 + phase1_requests::<Paxos>(ids, t) + phase1_replies::<Paxos>(p1)
                    + phase2_requests::<Paxos>(ids, t, d) + phase2_replies::<Paxos>(p2),
            );
            &&& m.dom() == ids.to_set()
            &&& forall|i: int|
                0 <= i < ids.len() ==> m[#[trigger] ids[i]] == after_phase2::<Paxos>(
                    after_phase1::<Paxos>(x, t),
                    t,
                    d,
                )
        }),
{
    let n = ids.len();
    let f1 = |id: u64| TransportStep::<Paxos>::Phase1Request(id, t);
    let f2 = |id: u64| TransportStep::<Paxos>::Phase2Request(id, t, d);
    let r1 = phase1_requests::<Paxos>(ids, t);
    let b1 = phase1_replies::<Paxos>(p1);
    let r2 = phase2_requests::<Paxos>(ids, t, d);
    let b2 = phase2_replies::<Paxos>(p2);
    let m0 = replay(init, s0);
    let x1 = after_phase1::<Paxos>(x, t);
    assert(ids.take(n as int) =~= ids);
    assert(r1 =~= ids.take(n as int).map_values(f1));
    assert(r2 =~= ids.take(n as int).map_values(f2));
    lemma_replay_phase1_round::<Paxos>(m0, ids, t, x, n as int);
    let m1 = replay(m0, r1);
    lemma_replay_phase2_round::<Paxos>(m1, ids, t, d, x1, n as int);
    assert forall|i: int| 0 <= i < b1.len() implies (#[trigger] b1[i]) is Phase1Reply
        || b1[i] is Phase2Reply by {}
    assert forall|i: int| 0 <= i < b2.len() implies (#[trigger] b2[i]) is Phase1Reply
        || b2[i] is Phase2Reply by {}
    lemma_replay_replies(m1, b1);
    let m2 = replay(m1, r2);
    lemma_replay_replies(m2, b2);
    lemma_replay_concat(init, s0, r1);
    lemma_replay_concat(init, s0 + r1, b1);
    lemma_replay_concat(init, s0 + r1 + b1, r2);
    lemma_replay_concat(init, s0 + r1 + b1 + r2, b2);
}

/// In a round's steps, the phase-1 request at a new time `t` to `ids[k]`
/// stands at position `k` after the earlier steps `s0`.
proof fn lemma_phase1_position(
    s0: Seq<TransportStep<Paxos>>,
    ids: Seq<u64>,
    t: u64,
    rest: Seq<TransportStep<Paxos>>,
    p: int,
    k: int,
)
    requires
        ascending_ids(ids),
        time_unused(s0, t),
        0 <= k < ids.len(),
        forall|i: int| 0 <= i < rest.len() ==> !((#[trigger] rest[i]) is Phase1Request),
        0 <= p < (s0 + phase1_requests::<Paxos>(ids, t) + rest).len(),
        (s0 + phase1_requests::<Paxos>(ids, t) + rest)[p] == TransportStep::<Paxos>::Phase1Request(
            ids[k],
            t,
        ),
    ensures
        (s0 + phase1_requests::<Paxos>(ids, t) + rest).take(p) == s0 + ids.take(k).map_values(
            |id: u64| TransportStep::<Paxos>::Phase1Request(id, t),
        ),
{
    let r1 = phase1_requests::<Paxos>(ids, t);
    let st = s0 + r1 + rest;
    if p < s0.len() {
        assert(st[p] == s0[p]);
    } else if p < s0.len() + ids.len() {
        let kk = p - s0.len();
        assert(st[p] == r1[kk]);
        if kk < k {
            assert(ids[kk] < ids[k]);
        } else if kk > k {
            assert(ids[k] < ids[kk]);
        }
        assert(st.take(p) =~= s0 + ids.take(k).map_values(
            |id: u64| TransportStep::<Paxos>::Phase1Request(id, t),
        ));
    } else {
        assert(st[p] == rest[p - s0.len() - ids.len()]);
    }
}

/// In a round's steps, the phase-2 request at a new time `t` to `ids[k]`
/// stands at position `k` after the steps `s0` and `mid` before it.
proof fn lemma_phase2_position(
    s0: Seq<TransportStep<Paxos>>,
    mid: Seq<TransportStep<Paxos>>,
    ids: Seq<u64>,
    t: u64,
    d: Map<u64, String>,
    rest: Seq<TransportStep<Paxos>>,
    p: int,
    k: int,
)
    requires
        ascending_ids(ids),
        time_unused(s0, t),
        0 <= k < ids.len(),
        forall|i: int| 0 <= i < mid.len() ==> !((#[trigger] mid[i]) is Phase2Request),
        forall|i: int| 0 <= i < rest.len() ==> !((#[trigger] rest[i]) is Phase2Request),
        0 <= p < (s0 + mid + phase2_requests::<Paxos>(ids, t, d) + rest).len(),
        (s0 + mid + phase2_requests::<Paxos>(ids, t, d) + rest)[p]
            == TransportStep::<Paxos>::Phase2Request(ids[k], t, d),
    ensures
        (s0 + mid + phase2_requests::<Paxos>(ids, t, d) + rest).take(p) == s0 + mid
            + ids.take(k).map_values(|id: u64| TransportStep::<Paxos>::Phase2Request(id, t, d)),
{
    let r2 = phase2_requests::<Paxos>(ids, t, d);
    let st = s0 + mid + r2 + rest;
    let o = s0.len() + mid.len();
    if p < s0.len() {
        assert(st[p] == s0[p]);
    } else if p < o {
        assert(st[p] == mid[p - s0.len()]);
    } else if p < o + ids.len() {
        let kk = p - o;
        assert(st[p] == r2[kk]);
        if kk < k {
            assert(ids[kk] < ids[k]);
        } else if kk > k {
            assert(ids[k] < ids[kk]);
        }
        assert(st.take(p) =~= s0 + mid + ids.take(k).map_values(
            |id: u64| TransportStep::<Paxos>::Phase2Request(id, t, d),
        ));
    } else {
        assert(st[p] == rest[p - o - ids.len()]);
    }
}

/// The phase-1 replies of a round from a [`settled`] cluster are from the
/// acceptors in ascending order, each what an acceptor in state `x` answers.
proof fn lemma_round_phase1_replies(
    before: crate::APaxos<Paxos, DirectCall<Paxos>>,
    after: crate::APaxos<Paxos, DirectCall<Paxos>>,
    t: u64,
    event: String,
    r: Result<LinearHistory<u64, String, SINGLE_VALUE>, APError<Paxos>>,
    x: (Set<u64>, Map<u64, String>),
)
    requires
        run_outcome(before, after, t, event, r),
        after.transport.wf(),
        after.transport.initial() == before.transport.initial(),
        settled(before.transport, before.acceptors@, x),
        ascending_ids(before.acceptors@),
        time_unused(before.transport.steps(), t),
    ensures
        ({
            let p1 = after.transport.phase1_received().skip(
                before.transport.phase1_received().len() as int,
            );
            forall|k: int|
                0 <= k < p1.len() ==> (#[trigger] p1[k]).0 == before.acceptors@[k] && phase1_fits::<
                    Paxos,
                >(x, t, p1[k].1)
        }),
{
    let ids = before.acceptors@;
    let tb = before.transport;
    let ta = after.transport;
    let init = tb.initial();
    let s0 = tb.steps();
    let p1 = ta.phase1_received().skip(tb.phase1_received().len() as int);
    let p2 = ta.phase2_received().skip(tb.phase2_received().len() as int);
    let d = proposal::<Paxos>(p1, t, event);
    let r1 = phase1_requests::<Paxos>(ids, t);
    let b1 = phase1_replies::<Paxos>(p1);
    let r2 = phase2_requests::<Paxos>(ids, t, d);
    let b2 = phase2_replies::<Paxos>(p2);
    let full = !(r matches Err(APError::ReadQuorumNotReached { .. }));
    let st = ta.steps();
    let rest = if full {
        b1 + r2 + b2
    } else {
        b1
    };
    assert(st =~= s0 + r1 + rest);
    assert forall|i: int| 0 <= i < rest.len() implies !((#[trigger] rest[i]) is Phase1Request) by {
        if full {
            if i < b1.len() {
                assert(rest[i] == b1[i]);
            } else if i < b1.len() + r2.len() {
                assert(rest[i] == r2[i - b1.len()]);
            } else {
                assert(rest[i] == b2[i - b1.len() - r2.len()]);
            }
        } else {
            assert(rest[i] == b1[i]);
        }
    }
    law_direct_call_replies_fit(tb);
    law_direct_call_replies_fit(ta);
    let g1 = ta.phase1_received() + ta.phase1_queue();
    let o1 = tb.phase1_received().len();
    assert(tb.phase1_received() + tb.phase1_queue() =~= tb.phase1_received());
    assert(ta.phase1_received() =~= tb.phase1_received() + p1) by {
        assert(tb.phase1_received() =~= ta.phase1_received().subrange(0, o1 as int));
    }
    let m0 = replay(init, s0);
    assert forall|k: int| 0 <= k < p1.len() implies (#[trigger] p1[k]).0 == ids[k] && phase1_fits::<
        Paxos,
    >(x, t, p1[k].1) by {
        let j = o1 + k;
        assert(g1[j] == p1[k]);
        assert(k < ids.len());
        assert(ta.phase1_sent()[j] == (ids[k], t));
        let p = choose|p: int|
            0 <= p < st.len() && #[trigger] st[p] == TransportStep::<Paxos>::Phase1Request(
                ids[k],
                t,
            ) && replay(init, st.take(p)).contains_key(ids[k]) && phase1_fits::<Paxos>(
                replay(init, st.take(p))[ids[k]],
                t,
                g1[j].1,
            );
        let pre = ids.take(k).map_values(|id: u64| TransportStep::<Paxos>::Phase1Request(id, t));
        lemma_phase1_position(s0, ids, t, rest, p, k);
        lemma_replay_concat(init, s0, pre);
        lemma_replay_phase1_round::<Paxos>(m0, ids, t, x, k);
    }
}

/// The phase-2 replies of a round from a [`settled`] cluster that reached
/// phase-2 are from the acceptors in ascending order, each what an acceptor
/// in the state after phase-1 answers.
proof fn lemma_round_phase2_replies(
    before: crate::APaxos<Paxos, DirectCall<Paxos>>,
    after: crate::APaxos<Paxos, DirectCall<Paxos>>,
    t: u64,
    event: String,
    r: Result<LinearHistory<u64, String, SINGLE_VALUE>, APError<Paxos>>,
    x: (Set<u64>, Map<u64, String>),
)
    requires
        run_outcome(before, after, t, event, r),
        after.transport.wf(),
        after.transport.initial() == before.transport.initial(),
        settled(before.transport, before.acceptors@, x),
        ascending_ids(before.acceptors@),
        time_unused(before.transport.steps(), t),
        !(r matches Err(APError::ReadQuorumNotReached { .. })),
    ensures
        ({
            let p2 = after.transport.phase2_received().skip(
                before.transport.phase2_received().len() as int,
            );
            forall|k: int|
                0 <= k < p2.len() ==> (#[trigger] p2[k]).0 == before.acceptors@[k] && phase2_fits::<
                    Paxos,
                >(after_phase1::<Paxos>(x, t), t, p2[k].1)
        }),
{
    let ids = before.acceptors@;
    let tb = before.transport;
    let ta = after.transport;
    let init = tb.initial();
    let s0 = tb.steps();
    let p1 = ta.phase1_received().skip(tb.phase1_received().len() as int);
    let p2 = ta.phase2_received().skip(tb.phase2_received().len() as int);
    let d = proposal::<Paxos>(p1, t, event);
    let r1 = phase1_requests::<Paxos>(ids, t);
    let b1 = phase1_replies::<Paxos>(p1);
    let r2 = phase2_requests::<Paxos>(ids, t, d);
    let b2 = phase2_replies::<Paxos>(p2);
    let st = ta.steps();
    let mid = r1 + b1;
    assert(st =~= s0 + mid + r2 + b2);
    assert forall|i: int| 0 <= i < mid.len() implies !((#[trigger] mid[i]) is Phase2Request) by {
        if i < r1.len() {
            assert(mid[i] == r1[i]);
        } else {
            assert(mid[i] == b1[i - r1.len()]);
        }
    }
    assert forall|i: int| 0 <= i < b2.len() implies !((#[trigger] b2[i]) is Phase2Request) by {}
    law_direct_call_replies_fit(tb);
    law_direct_call_replies_fit(ta);
    let g2 = ta.phase2_received() + ta.phase2_queue();
    let o2 = tb.phase2_received().len();
    assert(tb.phase2_received() + tb.phase2_queue() =~= tb.phase2_received());
    assert(ta.phase2_received() =~= tb.phase2_received() + p2) by {
        assert(tb.phase2_received() =~= ta.phase2_received().subrange(0, o2 as int));
    }
    lemma_round_states(init, s0, ids, t, x, p1, d, p2);
    assert(s0 + mid =~= s0 + r1 + b1);
    let m1 = replay(init, s0 + mid);
    let x1 = after_phase1::<Paxos>(x, t);
    assert forall|k: int| 0 <= k < p2.len() implies (#[trigger] p2[k]).0 == ids[k] && phase2_fits::<
        Paxos,
    >(x1, t, p2[k].1) by {
        let j = o2 + k;
        assert(g2[j] == p2[k]);
        assert(k < ids.len());
        assert(ta.phase2_sent()[j] == (ids[k], t, d));
        let p = choose|p: int|
            0 <= p < st.len() && #[trigger] st[p] == TransportStep::<Paxos>::Phase2Request(
                ids[k],
                t,
                d,
            ) && replay(init, st.take(p)).contains_key(ids[k]) && phase2_fits::<Paxos>(
                replay(init, st.take(p))[ids[k]],
                t,
                g2[j].1,
            );
        let pre = ids.take(k).map_values(|id: u64| TransportStep::<Paxos>::Phase2Request(id, t, d));
        lemma_phase2_position(s0, mid, ids, t, d, b2, p, k);
        assert(s0 + mid + pre =~= (s0 + mid) + pre);
        lemma_replay_concat(init, s0 + mid, pre);
        lemma_replay_phase2_round::<Paxos>(m1, ids, t, d, x1, k);
    }
}

/// A round adds requests at its own time only.
proof fn lemma_round_times(
    s0: Seq<TransportStep<Paxos>>,
    ids: Seq<u64>,
    t: u64,
    b1: Seq<TransportStep<Paxos>>,
    r2: Seq<TransportStep<Paxos>>,
    b2: Seq<TransportStep<Paxos>>,
    u: u64,
)
    requires
        u != t,
        time_unused(s0, u),
        forall|i: int| 0 <= i < b1.len() ==> (#[trigger] b1[i]) is Phase1Reply,
        forall|i: int| 0 <= i < b2.len() ==> (#[trigger] b2[i]) is Phase2Reply,
        forall|i: int|
            0 <= i < r2.len() ==> (#[trigger] r2[i]) is Phase2Request && r2[i]->Phase2Request_1 == t,
    ensures
        time_unused(s0 + phase1_requests::<Paxos>(ids, t) + b1, u),
        time_unused(s0 + phase1_requests::<Paxos>(ids, t) + b1 + r2 + b2, u),
{
    let r1 = phase1_requests::<Paxos>(ids, t);
    let a = s0 + r1 + b1;
    let c = a + r2 + b2;
    assert forall|p: int| 0 <= p < a.len() implies match #[trigger] a[p] {
        TransportStep::Phase1Request(_, v) => v != u,
        TransportStep::Phase2Request(_, v, _) => v != u,
        _ => true,
    } by {
        if p < s0.len() {
            assert(a[p] == s0[p]);
        } else if p < s0.len() + r1.len() {
            assert(a[p] == r1[p - s0.len()]);
        } else {
            assert(a[p] == b1[p - s0.len() - r1.len()]);
        }
    }
    assert forall|p: int| 0 <= p < c.len() implies match #[trigger] c[p] {
        TransportStep::Phase1Request(_, v) => v != u,
        TransportStep::Phase2Request(_, v, _) => v != u,
        _ => true,
    } by {
        if p < a.len() {
            assert(c[p] == a[p]);
        } else if p < a.len() + r2.len() {
            assert(c[p] == r2[p - a.len()]);
        } else {
            assert(c[p] == b2[p - a.len() - r2.len()]);
        }
    }
}

/// A round from a [`settled`] cluster: the acceptors end in one state,
/// [`round_state`], and the round commits [`round_decided`] exactly when
/// the acceptors could grant its time; otherwise no read quorum is reached.
#[verifier::rlimit(50)]
pub proof fn lemma_round(
    before: crate::APaxos<Paxos, DirectCall<Paxos>>,
    after: crate::APaxos<Paxos, DirectCall<Paxos>>,
    t: u64,
    event: String,
    r: Result<LinearHistory<u64, String, SINGLE_VALUE>, APError<Paxos>>,
    x: (Set<u64>, Map<u64, String>),
)
    requires
        run_outcome(before, after, t, event, r),
        after.transport.wf(),
        after.transport.initial() == before.transport.initial(),
        settled(before.transport, before.acceptors@, x),
        ascending_ids(before.acceptors@),
        before.acceptors@.len() > 0,
        before.quorum_set.members() == before.acceptors@,
        time_unused(before.transport.steps(), t),
    ensures
        uniform(after.transport, before.acceptors@, round_state(x, t, event)),
        committable(x.0, t) ==> r is Ok && r->Ok_0.events() == round_decided(x, t, event),
        !committable(x.0, t) ==> r matches Err(APError::ReadQuorumNotReached { .. }),
        forall|u: u64|
            u != t && time_unused(before.transport.steps(), u) ==> #[trigger] time_unused(
                after.transport.steps(),
                u,
            ),
{
    let ids = before.acceptors@;
    let n = ids.len();
    let q = before.quorum_set;
    let tb = before.transport;
    let ta = after.transport;
    let init = tb.initial();
    let s0 = tb.steps();
    let p1 = ta.phase1_received().skip(tb.phase1_received().len() as int);
    let p2 = ta.phase2_received().skip(tb.phase2_received().len() as int);
    let d = proposal::<Paxos>(p1, t, event);
    let r1 = phase1_requests::<Paxos>(ids, t);
    let b1 = phase1_replies::<Paxos>(p1);
    let r2 = phase2_requests::<Paxos>(ids, t, d);
    let b2 = phase2_replies::<Paxos>(p2);
    let full = !(r matches Err(APError::ReadQuorumNotReached { .. }));
    let st = ta.steps();
    let x1 = after_phase1::<Paxos>(x, t);
    law_direct_call_replies_fit(tb);
    law_direct_call_replies_fit(ta);
    lemma_round_phase1_replies(before, after, t, event, r, x);
    lemma_round_states(init, s0, ids, t, x, p1, d, p2);
    let v = events_at_or_below(x.1, t);
    if committable(x.0, t) {
        assert forall|k: int| 0 <= k < p1.len() implies (#[trigger] p1[k]).1 is Ok
            && p1[k].1->Ok_0.history().events() == v by {
            assert(phase1_fits::<Paxos>(x, t, p1[k].1));
        }
        if !full {
            assert(p1.len() == n);
            lemma_all_ok_reach(q, p1);
            assert(false);
        }
        lemma_round_phase2_replies(before, after, t, event, r, x);
        assert(committable(x1.0, t)) by {
            assert forall|f: u64| #[trigger] x1.0.contains(f) implies !crate::apaxos::greater_equal::gt_spec(
                f,
                t,
            ) by {
                if f != t {
                    assert(x.0.contains(f));
                }
            }
        }
        assert forall|k: int| 0 <= k < p2.len() implies (#[trigger] p2[k]).0 == ids[k] && p2[k].1 is Ok by {
            assert(phase2_fits::<Paxos>(x1, t, p2[k].1));
        }
        if r matches Err(APError::WriteQuorumNotReached { .. }) {
            assert(p2.len() == n);
            lemma_all_ok_reach(q, p2);
            assert(false);
        }
        assert(p1.len() >= 1);
        lemma_same_grants(p1, v);
        assert(st =~= s0 + r1 + b1 + r2 + b2);
    } else {
        assert forall|k: int| 0 <= k < p1.len() implies (#[trigger] p1[k]).1 is Err by {
            assert(phase1_fits::<Paxos>(x, t, p1[k].1));
        }
        if full {
            assert(p1.len() >= 1);
            assert(p1[p1.len() - 1].1 is Err);
            assert(false);
        }
        assert(st =~= s0 + r1 + b1);
    }
    assert forall|i: int| 0 <= i < b1.len() implies (#[trigger] b1[i]) is Phase1Reply by {}
    assert forall|i: int| 0 <= i < b2.len() implies (#[trigger] b2[i]) is Phase2Reply by {}
    assert forall|i: int| 0 <= i < r2.len() implies (#[trigger] r2[i]) is Phase2Request
        && r2[i]->Phase2Request_1 == t by {}
    assert forall|u: u64|
        u != t && time_unused(s0, u) implies #[trigger] time_unused(st, u) by {
        lemma_round_times(s0, ids, t, b1, r2, b2, u);
        if full {
            assert(st =~= s0 + r1 + b1 + r2 + b2);
        } else {
            assert(st =~= s0 + r1 + b1);
        }
    }
}

/// The state `x` holds finitely many events, each at or before one of its
/// forbidden times: an acceptor holds only what it promised a round for.
pub open spec fn sound(x: (Set<u64>, Map<u64, String>)) -> bool {
    &&& x.1.dom().finite()
    &&& forall|u: u64| #[trigger]
        x.1.contains_key(u) ==> exists|f: u64| #[trigger] x.0.contains(f) && f >= u
}

/// The state `x` holds `v` committed at `t1`: it is [`sound`], forbids a
/// time at or after `t1`, holds an event at or after `t1`, and every event
/// from `t1` on is `v`.
pub open spec fn committed(x: (Set<u64>, Map<u64, String>), t1: u64, v: String) -> bool {
    &&& sound(x)
    &&& exists|f: u64| #[trigger] x.0.contains(f) && f >= t1
    &&& reaches_time(x.1, t1)
    &&& carries_from(x.1, t1, v)
}

/// A round whose time a [`sound`] state grants: the view is the whole
/// history, the round asks to commit it with an event at `t`, and the
/// acceptors end with exactly that.
proof fn lemma_granted_round(x: (Set<u64>, Map<u64, String>), t: u64, event: String)
    requires
        sound(x),
        committable(x.0, t),
    ensures
        events_at_or_below(x.1, t) == x.1,
        round_decided(x, t, event).contains_key(t),
        forall|u: u64| #[trigger] round_decided(x, t, event).contains_key(u) ==> u <= t,
        forall|u: u64| #[trigger] x.1.contains_key(u) ==> round_decided(x, t, event).contains_key(u)
            && round_decided(x, t, event)[u] == x.1[u],
        forall|u: u64| #[trigger]
            round_decided(x, t, event).contains_key(u) ==> u == t || x.1.contains_key(u),
        round_state(x, t, event) == (forbid_smaller(x.0, t), round_decided(x, t, event)),
        sound(round_state(x, t, event)),
{
    let h = x.1;
    assert forall|u: u64| #[trigger] h.dom().contains(u) implies u <= t by {
        let f = choose|f: u64| #[trigger] x.0.contains(f) && f >= u;
        assert(!crate::apaxos::greater_equal::gt_spec(f, t));
    }
    assert(events_at_or_below(h, t) =~= h);
    let d = round_decided(x, t, event);
    assert forall|u: u64| #[trigger] h.dom().contains(u) implies !(forall|w: u64| #[trigger]
        d.dom().contains(w) ==> crate::apaxos::greater_equal::gt_spec(u, w)) by {
        assert(d.dom().contains(u));
    }
    assert(linear_merged(h, d) == d);
    let y = round_state(x, t, event);
    assert(forbid_smaller(x.0, t).contains(t));
    assert(d.dom() =~= h.dom().insert(t));
    assert forall|u: u64| #[trigger] y.1.contains_key(u) implies exists|f: u64| #[trigger]
        y.0.contains(f) && f >= u by {
        assert(y.0.contains(t));
    }
}

/// Granting a round keeps a state [`sound`].
pub proof fn law_round_keeps_sound(x: (Set<u64>, Map<u64, String>), t: u64, event: String)
    requires
        sound(x),
    ensures
        sound(round_state(x, t, event)),
{
    if committable(x.0, t) {
        lemma_granted_round(x, t, event);
    }
}

/// A round granted on a [`sound`] state commits what it decided: after it,
/// the acceptors hold the event at its time committed at that time.
pub proof fn law_round_commits(x: (Set<u64>, Map<u64, String>), t: u64, event: String)
    requires
        sound(x),
        committable(x.0, t),
    ensures
        committed(round_state(x, t, event), t, round_decided(x, t, event)[t]),
{
    lemma_granted_round(x, t, event);
    let d = round_decided(x, t, event);
    let y = round_state(x, t, event);
    assert(y.0.contains(t));
    assert(d.dom().contains(t));
}

/// A value committed at `t1` stays committed through any round, and a round
/// that its acceptors grant is at or after `t1` and asks to commit the same
/// value at its own time.
pub proof fn law_round_keeps_committed(
    x: (Set<u64>, Map<u64, String>),
    t1: u64,
    v: String,
    t: u64,
    event: String,
)
    requires
        committed(x, t1, v),
    ensures
        committed(round_state(x, t, event), t1, v),
        committable(x.0, t) ==> t >= t1 && round_decided(x, t, event)[t] == v,
{
    if committable(x.0, t) {
        lemma_granted_round(x, t, event);
        let h = x.1;
        let d = round_decided(x, t, event);
        let f0 = choose|f: u64| #[trigger] x.0.contains(f) && f >= t1;
        assert(!crate::apaxos::greater_equal::gt_spec(f0, t));
        assert(t >= t1);
        let u0 = choose|u: u64| #[trigger] h.dom().contains(u) && u >= t1;
        if h.contains_key(t) {
            assert(d[t] == h[t]);
        } else {
            let dom = h.dom();
            assert(dom.contains(u0));
            vstd::set_lib::lemma_len_subset(set![u0], dom);
            assert(set![u0].len() == 1);
            lemma_below_some_maximal(dom, u0);
            let c = choose|c: u64| maximal_elements(dom).contains(c);
            assert(dom.contains(c));
            assert(c >= u0);
            assert(d[t] == h[c]);
        }
        let y = round_state(x, t, event);
        assert(y.0.contains(t));
        assert(d.dom().contains(t));
        assert forall|u: u64| #[trigger] d.contains_key(u) && u >= t1 implies d[u] == v by {
            if u != t {
                assert(h.contains_key(u));
            }
        }
    }
}

/// A round from a [`settled`], [`sound`] cluster: the acceptors end in one
/// sound state, and a round that returns `Ok` has committed the event it
/// holds at its time.
pub proof fn law_round_result(
    before: crate::APaxos<Paxos, DirectCall<Paxos>>,
    after: crate::APaxos<Paxos, DirectCall<Paxos>>,
    t: u64,
    event: String,
    r: Result<LinearHistory<u64, String, SINGLE_VALUE>, APError<Paxos>>,
    x: (Set<u64>, Map<u64, String>),
)
    requires
        run_outcome(before, after, t, event, r),
        after.transport.wf(),
        after.transport.initial() == before.transport.initial(),
        settled(before.transport, before.acceptors@, x),
        sound(x),
        ascending_ids(before.acceptors@),
        before.acceptors@.len() > 0,
        before.quorum_set.members() == before.acceptors@,
        time_unused(before.transport.steps(), t),
    ensures
        uniform(after.transport, before.acceptors@, round_state(x, t, event)),
        sound(round_state(x, t, event)),
        r is Ok ==> r->Ok_0.events().contains_key(t) && committed(
            round_state(x, t, event),
            t,
            r->Ok_0.events()[t],
        ),
        forall|u: u64|
            u != t && time_unused(before.transport.steps(), u) ==> #[trigger] time_unused(
                after.transport.steps(),
                u,
            ),
{
    lemma_round(before, after, t, event, r, x);
    law_round_keeps_sound(x, t, event);
    if r is Ok {
        lemma_granted_round(x, t, event);
        law_round_commits(x, t, event);
    }
}

/// Paxos keeps a committed value: on a cluster whose acceptors hold `v`
/// committed at `t1`, every round keeps it committed, and a round that
/// returns `Ok` is at or after `t1` and holds `v` at its own time.
pub proof fn law_committed_value_kept(
    before: crate::APaxos<Paxos, DirectCall<Paxos>>,
    after: crate::APaxos<Paxos, DirectCall<Paxos>>,
    t: u64,
    event: String,
    r: Result<LinearHistory<u64, String, SINGLE_VALUE>, APError<Paxos>>,
    x: (Set<u64>, Map<u64, String>),
    t1: u64,
    v: String,
)
    requires
        run_outcome(before, after, t, event, r),
        after.transport.wf(),
        after.transport.initial() == before.transport.initial(),
        settled(before.transport, before.acceptors@, x),
        committed(x, t1, v),
        ascending_ids(before.acceptors@),
        before.acceptors@.len() > 0,
        before.quorum_set.members() == before.acceptors@,
        time_unused(before.transport.steps(), t),
    ensures
        uniform(after.transport, before.acceptors@, round_state(x, t, event)),
        committed(round_state(x, t, event), t1, v),
        r is Ok ==> t >= t1 && r->Ok_0.events().contains_key(t) && r->Ok_0.events()[t] == v,
        forall|u: u64|
            u != t && time_unused(before.transport.steps(), u) ==> #[trigger] time_unused(
                after.transport.steps(),
                u,
            ),
{
    lemma_round(before, after, t, event, r, x);
    law_round_keeps_committed(x, t1, v, t, event);
    if r is Ok {
        lemma_granted_round(x, t, event);
    }
}

/// A reply leaves every time as unused as it was.
pub proof fn law_reply_keeps_time_unused(
    steps: Seq<TransportStep<Paxos>>,
    s: TransportStep<Paxos>,
    u: u64,
)
    requires
        time_unused(steps, u),
        s is Phase1Reply || s is Phase2Reply,
    ensures
        time_unused(steps.push(s), u),
{
    assert forall|p: int| 0 <= p < steps.push(s).len() implies match #[trigger] steps.push(s)[p] {
        TransportStep::Phase1Request(_, w) => w != u,
        TransportStep::Phase2Request(_, w, _) => w != u,
        _ => true,
    } by {
        if p < steps.len() {
            assert(steps.push(s)[p] == steps[p]);
        }
    }
}


/// The phase-1 request `(id, u)` stands at position `p` of `steps`, and its
/// target, in the state that the steps before left it in, grants it.
pub open spec fn granted_at(
    init: Map<u64, (Set<u64>, Map<u64, String>)>,
    steps: Seq<TransportStep<Paxos>>,
    id: u64,
    u: u64,
    p: int,
) -> bool {
    &&& 0 <= p < steps.len()
    &&& steps[p] == TransportStep::<Paxos>::Phase1Request(id, u)
    &&& replay(init, steps.take(p)).contains_key(id)
    &&& committable(replay(init, steps.take(p))[id].0, u)
}

/// The history that the grant of the phase-1 request `(id, u)` at position
/// `p` of `steps` shows.
pub open spec fn granted_view(
    init: Map<u64, (Set<u64>, Map<u64, String>)>,
    steps: Seq<TransportStep<Paxos>>,
    id: u64,
    u: u64,
    p: int,
) -> Map<u64, String> {
    events_at_or_below(replay(init, steps.take(p))[id].1, u)
}

/// The history `h` agrees with `v` committed at `t1`: if it reaches `t1`,
/// every event of it from `t1` on is `v`.
pub open spec fn fits_commit(h: Map<u64, String>, t1: u64, v: String) -> bool {
    reaches_time(h, t1) ==> carries_from(h, t1, v)
}

/// Every time of `h` is at or below one of `forbidden`.
pub open spec fn covered_by(h: Map<u64, String>, forbidden: Set<u64>) -> bool {
    forall|u: u64| #[trigger]
        h.contains_key(u) ==> exists|f: u64| #[trigger] forbidden.contains(f) && f >= u
}

/// The targets of the phase-1 requests whose replies wait in `tr` and that
/// were granted with a history that falls short of `t1`.
pub open spec fn short_waiting(tr: DirectCall<Paxos>, t1: u64) -> Set<u64> {
    Set::new(
        |id: u64|
            exists|j: int, p: int|
                tr.phase1_received().len() <= j < tr.phase1_sent().len() && tr.phase1_sent()[j].0
                    == id && #[trigger] granted_at(
                    tr.initial(),
                    tr.steps(),
                    id,
                    tr.phase1_sent()[j].1,
                    p,
                ) && !reaches_time(
                    granted_view(tr.initial(), tr.steps(), id, tr.phase1_sent()[j].1, p),
                    t1,
                ),
    )
}

/// The phase-1 replies that wait in `tr` cannot undo `v` committed at `t1`:
/// every grant among them shows a finite history that agrees with the
/// commit and whose times `forbidden` covers, and the targets of those that
/// fall short of `t1` hold no read quorum of `q`.
pub open spec fn waiting_safe(
    tr: DirectCall<Paxos>,
    q: Majority,
    forbidden: Set<u64>,
    t1: u64,
    v: String,
) -> bool {
    &&& forall|j: int, p: int|
        tr.phase1_received().len() <= j < tr.phase1_sent().len() && #[trigger] granted_at(
            tr.initial(),
            tr.steps(),
            tr.phase1_sent()[j].0,
            tr.phase1_sent()[j].1,
            p,
        ) ==> {
            let h = granted_view(
                tr.initial(),
                tr.steps(),
                tr.phase1_sent()[j].0,
                tr.phase1_sent()[j].1,
                p,
            );
            &&& h.dom().finite()
            &&& fits_commit(h, t1, v)
            &&& covered_by(h, forbidden)
        }
    &&& forall|s: Set<u64>| s.subset_of(short_waiting(tr, t1)) ==> !#[trigger] q.read_quorum(s)
}

/// A cluster that keeps `v` committed at `t1`: its acceptors `ids` are all
/// in state `x`, which holds the commit, and the phase-1 replies that wait
/// in `tr`, whatever rounds they were sent for, cannot undo it.
pub open spec fn keeps_commit(
    tr: DirectCall<Paxos>,
    ids: Seq<u64>,
    x: (Set<u64>, Map<u64, String>),
    q: Majority,
    t1: u64,
    v: String,
) -> bool {
    &&& uniform(tr, ids, x)
    &&& committed(x, t1, v)
    &&& waiting_safe(tr, q, x.0, t1, v)
}

/// The state of acceptors in state `x` after a round at `t` that sent its
/// phase-2 requests with the events `d` if `full`, and only phase-1
/// requests otherwise.
pub open spec fn state_after(
    x: (Set<u64>, Map<u64, String>),
    t: u64,
    d: Map<u64, String>,
    full: bool,
) -> (Set<u64>, Map<u64, String>) {
    if full {
        after_phase2::<Paxos>(after_phase1::<Paxos>(x, t), t, d)
    } else {
        after_phase1::<Paxos>(x, t)
    }
}

/// A request logged in a consistent transport before a round at a new time
/// `t` is at another time.
proof fn lemma_sent_before(tr: DirectCall<Paxos>, t: u64, j: int)
    requires
        tr.wf(),
        time_unused(tr.steps(), t),
        0 <= j < tr.phase1_sent().len(),
    ensures
        tr.phase1_sent()[j].1 != t,
{
    law_direct_call_replies_fit(tr);
    let g = tr.phase1_received() + tr.phase1_queue();
    let sent = tr.phase1_sent();
    assert(g[j] == g[j]);
    let p = choose|p: int|
        0 <= p < tr.steps().len() && #[trigger] tr.steps()[p] == TransportStep::<Paxos>::Phase1Request(
            sent[j].0,
            sent[j].1,
        ) && replay(tr.initial(), tr.steps().take(p)).contains_key(sent[j].0) && phase1_fits::<
            Paxos,
        >(replay(tr.initial(), tr.steps().take(p))[sent[j].0], sent[j].1, g[j].1);
    assert(match tr.steps()[p] {
        TransportStep::Phase1Request(_, w) => w != t,
        TransportStep::Phase2Request(_, w, _) => w != t,
        _ => true,
    });
}

/// A phase-1 request at a time other than `t` in the steps of a round at
/// `t` after `s0` stands among `s0`.
proof fn lemma_old_position(
    s0: Seq<TransportStep<Paxos>>,
    ids: Seq<u64>,
    t: u64,
    rest: Seq<TransportStep<Paxos>>,
    p: int,
    id: u64,
    u: u64,
)
    requires
        u != t,
        forall|i: int| 0 <= i < rest.len() ==> !((#[trigger] rest[i]) is Phase1Request),
        0 <= p < (s0 + phase1_requests::<Paxos>(ids, t) + rest).len(),
        (s0 + phase1_requests::<Paxos>(ids, t) + rest)[p] == TransportStep::<Paxos>::Phase1Request(
            id,
            u,
        ),
    ensures
        p < s0.len(),
        s0[p] == TransportStep::<Paxos>::Phase1Request(id, u),
        (s0 + phase1_requests::<Paxos>(ids, t) + rest).take(p) == s0.take(p),
{
    let r1 = phase1_requests::<Paxos>(ids, t);
    let st = s0 + r1 + rest;
    if p >= s0.len() + r1.len() {
        assert(st[p] == rest[p - s0.len() - r1.len()]);
    } else if p >= s0.len() {
        assert(st[p] == r1[p - s0.len()]);
    }
    assert(st[p] == s0[p]);
    assert(st.take(p) =~= s0.take(p));
}

/// The steps of a round at `t` after `s0`: the phase-1 requests, then
/// steps among which is no phase-1 request.
proof fn lemma_round_steps(
    before: crate::APaxos<Paxos, DirectCall<Paxos>>,
    after: crate::APaxos<Paxos, DirectCall<Paxos>>,
    t: u64,
    event: String,
    r: Result<LinearHistory<u64, String, SINGLE_VALUE>, APError<Paxos>>,
) -> (rest: Seq<TransportStep<Paxos>>)
    requires
        run_outcome(before, after, t, event, r),
    ensures
        after.transport.steps() == before.transport.steps() + phase1_requests::<Paxos>(
            before.acceptors@,
            t,
        ) + rest,
        forall|i: int| 0 <= i < rest.len() ==> !((#[trigger] rest[i]) is Phase1Request),
{
    let ids = before.acceptors@;
    let tb = before.transport;
    let ta = after.transport;
    let p1 = ta.phase1_received().skip(tb.phase1_received().len() as int);
    let p2 = ta.phase2_received().skip(tb.phase2_received().len() as int);
    let d = proposal::<Paxos>(p1, t, event);
    let b1 = phase1_replies::<Paxos>(p1);
    let r2 = phase2_requests::<Paxos>(ids, t, d);
    let b2 = phase2_replies::<Paxos>(p2);
    let full = !(r matches Err(APError::ReadQuorumNotReached { .. }));
    let rest = if full {
        b1 + r2 + b2
    } else {
        b1
    };
    assert(ta.steps() =~= tb.steps() + phase1_requests::<Paxos>(ids, t) + rest);
    assert forall|i: int| 0 <= i < rest.len() implies !((#[trigger] rest[i]) is Phase1Request) by {
        if full {
            if i < b1.len() {
                assert(rest[i] == b1[i]);
            } else if i < b1.len() + r2.len() {
                assert(rest[i] == r2[i - b1.len()]);
            } else {
                assert(rest[i] == b2[i - b1.len() - r2.len()]);
            }
        } else {
            assert(rest[i] == b1[i]);
        }
    }
    rest
}

/// The `k`-th phase-1 reply that a round at a new time `t` received from a
/// cluster whose acceptors `ids` are all in state `x`: one that waited
/// before the round answers an earlier request, and shows, if it grants,
/// what that request's grant shows; one of the round's own is what
/// `ids[i]` in state `x` answers, for its position `i`.
proof fn lemma_received_reply(
    before: crate::APaxos<Paxos, DirectCall<Paxos>>,
    after: crate::APaxos<Paxos, DirectCall<Paxos>>,
    t: u64,
    event: String,
    r: Result<LinearHistory<u64, String, SINGLE_VALUE>, APError<Paxos>>,
    x: (Set<u64>, Map<u64, String>),
    k: int,
)
    requires
        run_outcome(before, after, t, event, r),
        after.transport.wf(),
        after.transport.initial() == before.transport.initial(),
        uniform(before.transport, before.acceptors@, x),
        ascending_ids(before.acceptors@),
        time_unused(before.transport.steps(), t),
        0 <= k < after.transport.phase1_received().len()
            - before.transport.phase1_received().len(),
    ensures
        ({
            let tb = before.transport;
            let p1 = after.transport.phase1_received().skip(tb.phase1_received().len() as int);
            let sb = tb.phase1_sent();
            let j = tb.phase1_received().len() + k;
            &&& j < sb.len() ==> {
                &&& p1[k].0 == sb[j].0
                &&& sb[j].1 != t
                &&& p1[k].1 is Ok ==> exists|p: int|
                    #[trigger] granted_at(tb.initial(), tb.steps(), sb[j].0, sb[j].1, p)
                        && p1[k].1->Ok_0.history().events() == granted_view(
                        tb.initial(),
                        tb.steps(),
                        sb[j].0,
                        sb[j].1,
                        p,
                    )
            }
            &&& j >= sb.len() ==> {
                &&& j - sb.len() < before.acceptors@.len()
                &&& p1[k].0 == before.acceptors@[j - sb.len()]
                &&& phase1_fits::<Paxos>(x, t, p1[k].1)
            }
        }),
{
    let ids = before.acceptors@;
    let tb = before.transport;
    let ta = after.transport;
    let init = tb.initial();
    let s0 = tb.steps();
    let rb = tb.phase1_received().len();
    let sb = tb.phase1_sent();
    let p1 = ta.phase1_received().skip(rb as int);
    let j = rb + k;
    let rest = lemma_round_steps(before, after, t, event, r);
    let st = ta.steps();
    law_direct_call_replies_fit(tb);
    law_direct_call_replies_fit(ta);
    let g1 = ta.phase1_received() + ta.phase1_queue();
    assert(ta.phase1_received() =~= tb.phase1_received() + p1) by {
        assert(tb.phase1_received() =~= ta.phase1_received().subrange(0, rb as int));
    }
    assert(g1[j] == p1[k]);
    let sa = ta.phase1_sent();
    assert(g1[j] == g1[j]);
    let p = choose|p: int|
        0 <= p < st.len() && #[trigger] st[p] == TransportStep::<Paxos>::Phase1Request(
            sa[j].0,
            sa[j].1,
        ) && replay(init, st.take(p)).contains_key(sa[j].0) && phase1_fits::<Paxos>(
            replay(init, st.take(p))[sa[j].0],
            sa[j].1,
            g1[j].1,
        );
    if j < sb.len() {
        assert(sa[j] == sb[j]);
        lemma_sent_before(tb, t, j);
        lemma_old_position(s0, ids, t, rest, p, sb[j].0, sb[j].1);
        if p1[k].1 is Ok {
            assert(granted_at(init, s0, sb[j].0, sb[j].1, p));
        }
    } else {
        let i = j - sb.len();
        assert(sa[j] == (ids[i], t));
        lemma_phase1_position(s0, ids, t, rest, p, i);
        let pre = ids.take(i).map_values(|id: u64| TransportStep::<Paxos>::Phase1Request(id, t));
        lemma_replay_concat(init, s0, pre);
        lemma_replay_phase1_round::<Paxos>(replay(init, s0), ids, t, x, i);
    }
}

/// Merging phase-1 replies whose grants agree with `v` committed at `t1`
/// gives a history that agrees with it, and one that reaches `t1` when a
/// grant does.
proof fn lemma_merged_fits_commit(
    replies: Seq<(u64, Result<HistoryView<Paxos>, u64>)>,
    t1: u64,
    v: String,
)
    requires
        forall|k: int|
            0 <= k < replies.len() && (#[trigger] replies[k]).1 is Ok ==> fits_commit(
                replies[k].1->Ok_0.history().events(),
                t1,
                v,
            ),
    ensures
        fits_commit(merged_grants::<Paxos>(Map::empty(), replies), t1, v),
        (exists|k: int|
            0 <= k < replies.len() && (#[trigger] replies[k]).1 is Ok && reaches_time(
                replies[k].1->Ok_0.history().events(),
                t1,
            )) ==> reaches_time(merged_grants::<Paxos>(Map::empty(), replies), t1),
    decreases replies.len(),
{
    if replies.len() == 0 {
        assert(fits_commit(Map::<u64, String>::empty(), t1, v));
    } else {
        let rest = replies.drop_last();
        let n = replies.len() - 1;
        assert(replies.last() == replies[n]);
        assert forall|k: int|
            0 <= k < rest.len() && (#[trigger] rest[k]).1 is Ok implies fits_commit(
            rest[k].1->Ok_0.history().events(),
            t1,
            v,
        ) by {
            assert(rest[k] == replies[k]);
        }
        lemma_merged_fits_commit(rest, t1, v);
        let prev = merged_grants::<Paxos>(Map::empty(), rest);
        if replies[n].1 is Ok {
            let b = replies[n].1->Ok_0.history().events();
            let m = merged_grants::<Paxos>(Map::empty(), replies);
            assert(m == linear_merged(prev, b));
            if exists|k: int|
                0 <= k < replies.len() && (#[trigger] replies[k]).1 is Ok && reaches_time(
                    replies[k].1->Ok_0.history().events(),
                    t1,
                ) {
                let k = choose|k: int|
                    0 <= k < replies.len() && (#[trigger] replies[k]).1 is Ok && reaches_time(
                        replies[k].1->Ok_0.history().events(),
                        t1,
                    );
                if k < n {
                    assert(rest[k] == replies[k]);
                    let w0 = choose|w: u64| #[trigger] prev.dom().contains(w) && w >= t1;
                    if m == b {
                        if !(exists|w: u64| #[trigger] b.dom().contains(w) && w >= t1) {
                            assert(forall|w: u64| #[trigger]
                                b.dom().contains(w) ==> crate::apaxos::greater_equal::gt_spec(w0, w));
                        }
                    }
                } else {
                    let w1 = choose|w: u64| #[trigger] b.dom().contains(w) && w >= t1;
                    if m == prev && m != b {
                        let u = choose|u: u64| #[trigger] prev.dom().contains(u) && forall|w: u64| #[trigger]
                            b.dom().contains(w) ==> crate::apaxos::greater_equal::gt_spec(u, w);
                        assert(crate::apaxos::greater_equal::gt_spec(u, w1));
                    }
                }
            }
        } else {
            if exists|k: int|
                0 <= k < replies.len() && (#[trigger] replies[k]).1 is Ok && reaches_time(
                    replies[k].1->Ok_0.history().events(),
                    t1,
                ) {
                let k = choose|k: int|
                    0 <= k < replies.len() && (#[trigger] replies[k]).1 is Ok && reaches_time(
                        replies[k].1->Ok_0.history().events(),
                        t1,
                    );
                assert(rest[k] == replies[k]);
            }
        }
    }
}

/// What a round at `t` at or after `t1` asks to commit, from a finite
/// history that reaches `t1` and agrees with `v` committed there: it holds
/// `v` at `t`, and still agrees with the commit.
proof fn lemma_decided_keeps(m: Map<u64, String>, t: u64, event: String, t1: u64, v: String)
    requires
        m.dom().finite(),
        reaches_time(m, t1),
        fits_commit(m, t1, v),
        t >= t1,
    ensures
        ({
            let d = events_with::<u64, String, LinearHistory<u64, String, SINGLE_VALUE>>(m, t, event);
            &&& d.contains_key(t)
            &&& d[t] == v
            &&& d.dom().finite()
            &&& reaches_time(d, t1)
            &&& fits_commit(d, t1, v)
            &&& forall|u: u64| #[trigger] d.contains_key(u) ==> u == t || m.contains_key(u)
        }),
{
    let d = events_with::<u64, String, LinearHistory<u64, String, SINGLE_VALUE>>(m, t, event);
    let dom = m.dom();
    let u0 = choose|u: u64| #[trigger] dom.contains(u) && u >= t1;
    if !m.contains_key(t) {
        vstd::set_lib::lemma_len_subset(set![u0], dom);
        assert(set![u0].len() == 1);
        lemma_below_some_maximal(dom, u0);
        let c = choose|c: u64| maximal_elements(dom).contains(c);
        assert(dom.contains(c));
        assert(c >= u0);
        assert(d[t] == m[c]);
    }
}

/// Covered times stay covered by forbidden times that dominate.
proof fn lemma_covered_dominated(h: Map<u64, String>, f1: Set<u64>, f2: Set<u64>)
    requires
        covered_by(h, f1),
        dominated_by(f1, f2),
    ensures
        covered_by(h, f2),
{
    assert forall|u: u64| #[trigger] h.contains_key(u) implies exists|f: u64| #[trigger]
        f2.contains(f) && f >= u by {
        let f = choose|f: u64| #[trigger] f1.contains(f) && f >= u;
        let g = choose|g: u64| #[trigger] f2.contains(g) && g.ge_spec(&f);
        assert(g >= f);
    }
}

/// Acceptors in a state that holds `v` committed at `t1` grant a round at
/// `t` only at or after `t1`, and then show their whole history.
proof fn lemma_fresh_view(x: (Set<u64>, Map<u64, String>), t: u64, t1: u64, v: String)
    requires
        committed(x, t1, v),
        committable(x.0, t),
    ensures
        t >= t1,
        events_at_or_below(x.1, t) == x.1,
{
    let f0 = choose|f: u64| #[trigger] x.0.contains(f) && f >= t1;
    assert(!crate::apaxos::greater_equal::gt_spec(f0, t));
    assert forall|u: u64| #[trigger] x.1.dom().contains(u) implies t.ge_spec(&u) by {
        let f = choose|f: u64| #[trigger] x.0.contains(f) && f >= u;
        assert(!crate::apaxos::greater_equal::gt_spec(f, t));
    }
    assert(events_at_or_below(x.1, t) =~= x.1);
}

/// The forbidden times after a round dominate those before it, and hold
/// the round's time when it was granted.
proof fn lemma_state_after_forbidden(
    x: (Set<u64>, Map<u64, String>),
    t: u64,
    d: Map<u64, String>,
    full: bool,
)
    ensures
        dominated_by(x.0, state_after(x, t, d, full).0),
        committable(x.0, t) ==> state_after(x, t, d, full).0 == forbid_smaller(x.0, t),
{
    let y = state_after(x, t, d, full);
    if committable(x.0, t) {
        lemma_forbid_smaller_dominates(x.0, t);
        let x1 = after_phase1::<Paxos>(x, t);
        if full {
            if committable(x1.0, t) {
                assert(y.0 == x1.0);
            }
        }
    } else {
        assert(y == x);
        assert forall|f: u64| #[trigger] x.0.contains(f) implies exists|g: u64| #[trigger]
            x.0.contains(g) && g.ge_spec(&f) by {
            assert(f.ge_spec(&f));
        }
    }
}

/// The phase-1 replies that a round at a new time `t` received from a
/// cluster that keeps `v` committed at `t1`: every grant among them shows a
/// finite history that agrees with the commit and whose times the
/// forbidden times before the round cover; and when those that granted
/// form a read quorum, one of them reaches `t1`.
proof fn lemma_received_grants(
    before: crate::APaxos<Paxos, DirectCall<Paxos>>,
    after: crate::APaxos<Paxos, DirectCall<Paxos>>,
    t: u64,
    event: String,
    r: Result<LinearHistory<u64, String, SINGLE_VALUE>, APError<Paxos>>,
    x: (Set<u64>, Map<u64, String>),
    t1: u64,
    v: String,
)
    requires
        run_outcome(before, after, t, event, r),
        after.transport.wf(),
        after.transport.initial() == before.transport.initial(),
        keeps_commit(before.transport, before.acceptors@, x, before.quorum_set, t1, v),
        ascending_ids(before.acceptors@),
        time_unused(before.transport.steps(), t),
    ensures
        ({
            let p1 = after.transport.phase1_received().skip(
                before.transport.phase1_received().len() as int,
            );
            &&& forall|k: int|
                0 <= k < p1.len() && (#[trigger] p1[k]).1 is Ok ==> {
                    let h = p1[k].1->Ok_0.history().events();
                    &&& h.dom().finite()
                    &&& fits_commit(h, t1, v)
                    &&& covered_by(h, x.0)
                }
            &&& before.quorum_set.read_quorum(ok_ids(p1)) ==> exists|k: int|
                0 <= k < p1.len() && (#[trigger] p1[k]).1 is Ok && reaches_time(
                    p1[k].1->Ok_0.history().events(),
                    t1,
                )
        }),
{
    let tb = before.transport;
    let ta = after.transport;
    let init = tb.initial();
    let s0 = tb.steps();
    let rb = tb.phase1_received().len();
    let sb = tb.phase1_sent();
    let p1 = ta.phase1_received().skip(rb as int);
    let ids = before.acceptors@;
    assert(ta.phase1_received().len() - rb == p1.len());
    assert forall|k: int| 0 <= k < p1.len() && (#[trigger] p1[k]).1 is Ok implies {
        let h = p1[k].1->Ok_0.history().events();
        &&& h.dom().finite()
        &&& fits_commit(h, t1, v)
        &&& covered_by(h, x.0)
    } by {
        lemma_received_reply(before, after, t, event, r, x, k);
        let j = rb + k;
        if j < sb.len() {
            let p = choose|p: int|
                #[trigger] granted_at(init, s0, sb[j].0, sb[j].1, p)
                    && p1[k].1->Ok_0.history().events() == granted_view(init, s0, sb[j].0, sb[j].1, p);
            assert(granted_at(init, s0, sb[j].0, sb[j].1, p));
        } else {
            lemma_fresh_view(x, t, t1, v);
        }
    }
    if before.quorum_set.read_quorum(ok_ids(p1)) {
        if !exists|k: int|
            0 <= k < p1.len() && (#[trigger] p1[k]).1 is Ok && reaches_time(
                p1[k].1->Ok_0.history().events(),
                t1,
            ) {
            assert forall|id: u64| #[trigger] ok_ids(p1).contains(id) implies short_waiting(
                tb,
                t1,
            ).contains(id) by {
                lemma_ok_ids(p1, id);
                let k = choose|k: int| 0 <= k < p1.len() && #[trigger] p1[k].0 == id && p1[k].1 is Ok;
                lemma_received_reply(before, after, t, event, r, x, k);
                let j = rb + k;
                if j < sb.len() {
                    let p = choose|p: int|
                        #[trigger] granted_at(init, s0, sb[j].0, sb[j].1, p)
                            && p1[k].1->Ok_0.history().events() == granted_view(
                            init,
                            s0,
                            sb[j].0,
                            sb[j].1,
                            p,
                        );
                    assert(granted_at(init, s0, id, sb[j].1, p));
                } else {
                    lemma_fresh_view(x, t, t1, v);
                    assert(reaches_time(p1[k].1->Ok_0.history().events(), t1));
                }
            }
            assert(ok_ids(p1).subset_of(short_waiting(tb, t1)));
        }
    }
}

/// After a round at a new time `t` on a cluster that keeps `v` committed
/// at `t1`, the phase-1 replies that wait still cannot undo it, for
/// acceptors whose forbidden times `f` dominate those before and hold `t`
/// when the round was granted.
proof fn lemma_waiting_after(
    before: crate::APaxos<Paxos, DirectCall<Paxos>>,
    after: crate::APaxos<Paxos, DirectCall<Paxos>>,
    t: u64,
    event: String,
    r: Result<LinearHistory<u64, String, SINGLE_VALUE>, APError<Paxos>>,
    x: (Set<u64>, Map<u64, String>),
    t1: u64,
    v: String,
    f: Set<u64>,
)
    requires
        run_outcome(before, after, t, event, r),
        after.transport.wf(),
        after.transport.initial() == before.transport.initial(),
        keeps_commit(before.transport, before.acceptors@, x, before.quorum_set, t1, v),
        ascending_ids(before.acceptors@),
        time_unused(before.transport.steps(), t),
        dominated_by(x.0, f),
        committable(x.0, t) ==> f.contains(t),
    ensures
        waiting_safe(after.transport, before.quorum_set, f, t1, v),
{
    let ids = before.acceptors@;
    let q = before.quorum_set;
    let tb = before.transport;
    let ta = after.transport;
    let init = tb.initial();
    let s0 = tb.steps();
    let st = ta.steps();
    let rb = tb.phase1_received().len();
    let ra = ta.phase1_received().len();
    let sb = tb.phase1_sent();
    let sa = ta.phase1_sent();
    let rest = lemma_round_steps(before, after, t, event, r);
    law_direct_call_replies_fit(tb);
    assert(ra >= rb) by {
        assert(tb.phase1_received().is_prefix_of(ta.phase1_received()));
    }
    assert forall|j: int, p: int|
        ra <= j < sa.len() && #[trigger] granted_at(init, st, sa[j].0, sa[j].1, p) implies {
        let h = granted_view(init, st, sa[j].0, sa[j].1, p);
        &&& h.dom().finite()
        &&& fits_commit(h, t1, v)
        &&& covered_by(h, f)
    } by {
        if j < sb.len() {
            assert(sa[j] == sb[j]);
            lemma_sent_before(tb, t, j);
            lemma_old_position(s0, ids, t, rest, p, sb[j].0, sb[j].1);
            assert(granted_at(init, s0, sb[j].0, sb[j].1, p));
            let h = granted_view(init, s0, sb[j].0, sb[j].1, p);
            lemma_covered_dominated(h, x.0, f);
        } else {
            let i = j - sb.len();
            assert(sa[j] == (ids[i], t));
            lemma_phase1_position(s0, ids, t, rest, p, i);
            let pre = ids.take(i).map_values(|id: u64| TransportStep::<Paxos>::Phase1Request(id, t));
            lemma_replay_concat(init, s0, pre);
            lemma_replay_phase1_round::<Paxos>(replay(init, s0), ids, t, x, i);
            lemma_fresh_view(x, t, t1, v);
            assert forall|u: u64| #[trigger] x.1.contains_key(u) implies exists|g: u64| #[trigger]
                f.contains(g) && g >= u by {
                assert(events_at_or_below(x.1, t).contains_key(u));
                assert(t.ge_spec(&u));
            }
        }
    }
    assert forall|id: u64| #[trigger] short_waiting(ta, t1).contains(id) implies short_waiting(
        tb,
        t1,
    ).contains(id) by {
        let (j, p) = choose|j: int, p: int|
            ra <= j < sa.len() && sa[j].0 == id && #[trigger] granted_at(init, st, id, sa[j].1, p)
                && !reaches_time(granted_view(init, st, id, sa[j].1, p), t1);
        if j < sb.len() {
            assert(sa[j] == sb[j]);
            lemma_sent_before(tb, t, j);
            lemma_old_position(s0, ids, t, rest, p, sb[j].0, sb[j].1);
            assert(granted_at(init, s0, id, sb[j].1, p));
        } else {
            let i = j - sb.len();
            assert(sa[j] == (ids[i], t));
            lemma_phase1_position(s0, ids, t, rest, p, i);
            let pre = ids.take(i).map_values(|id: u64| TransportStep::<Paxos>::Phase1Request(id, t));
            lemma_replay_concat(init, s0, pre);
            lemma_replay_phase1_round::<Paxos>(replay(init, s0), ids, t, x, i);
            lemma_fresh_view(x, t, t1, v);
            assert(false);
        }
    }
    assert forall|s: Set<u64>| s.subset_of(short_waiting(ta, t1)) implies !#[trigger] q.read_quorum(s) by {
        assert(s.subset_of(short_waiting(tb, t1)));
    }
}

/// Paxos keeps a committed value, whatever replies of earlier rounds still
/// wait: on a cluster that keeps `v` committed at `t1` ([`keeps_commit`]),
/// a round at a new time leaves it keeping the commit, its acceptors in the
/// state that its requests left them in, and a round that returns `Ok` at
/// or after `t1` holds `v` at its own time.
#[verifier::rlimit(50)]
pub proof fn law_waiting_round_keeps_commit(
    before: crate::APaxos<Paxos, DirectCall<Paxos>>,
    after: crate::APaxos<Paxos, DirectCall<Paxos>>,
    t: u64,
    event: String,
    r: Result<LinearHistory<u64, String, SINGLE_VALUE>, APError<Paxos>>,
    x: (Set<u64>, Map<u64, String>),
    t1: u64,
    v: String,
)
    requires
        run_outcome(before, after, t, event, r),
        after.transport.wf(),
        after.transport.initial() == before.transport.initial(),
        keeps_commit(before.transport, before.acceptors@, x, before.quorum_set, t1, v),
        ascending_ids(before.acceptors@),
        time_unused(before.transport.steps(), t),
    ensures
        ({
            let p1 = after.transport.phase1_received().skip(
                before.transport.phase1_received().len() as int,
            );
            let full = !(r matches Err(APError::ReadQuorumNotReached { .. }));
            keeps_commit(
                after.transport,
                before.acceptors@,
                state_after(x, t, proposal::<Paxos>(p1, t, event), full),
                before.quorum_set,
                t1,
                v,
            )
        }),
        r is Ok && t >= t1 ==> r->Ok_0.events().contains_key(t) && r->Ok_0.events()[t] == v,
        forall|u: u64|
            u != t && time_unused(before.transport.steps(), u) ==> #[trigger] time_unused(
                after.transport.steps(),
                u,
            ),
{
    let ids = before.acceptors@;
    let q = before.quorum_set;
    let tb = before.transport;
    let ta = after.transport;
    let init = tb.initial();
    let s0 = tb.steps();
    let p1 = ta.phase1_received().skip(tb.phase1_received().len() as int);
    let p2 = ta.phase2_received().skip(tb.phase2_received().len() as int);
    let d = proposal::<Paxos>(p1, t, event);
    let m = merged_grants::<Paxos>(Map::empty(), p1);
    let r1 = phase1_requests::<Paxos>(ids, t);
    let b1 = phase1_replies::<Paxos>(p1);
    let r2 = phase2_requests::<Paxos>(ids, t, d);
    let b2 = phase2_replies::<Paxos>(p2);
    let full = !(r matches Err(APError::ReadQuorumNotReached { .. }));
    let st = ta.steps();
    let y = state_after(x, t, d, full);
    law_direct_call_replies_fit(tb);
    law_direct_call_replies_fit(ta);
    lemma_round_states(init, s0, ids, t, x, p1, d, p2);
    if full {
        assert(r is Ok || r matches Err(APError::WriteQuorumNotReached { .. }));
        assert(st =~= s0 + r1 + b1 + r2 + b2);
        assert(ok_ids(p1) == Set::<u64>::empty().union(ok_ids(p1.take(p1.len() as int)))) by {
            assert(p1.take(p1.len() as int) =~= p1);
            assert(ok_ids(p1) =~= Set::<u64>::empty().union(ok_ids(p1)));
        }
    } else {
        assert(st =~= s0 + r1 + b1);
    }
    lemma_received_grants(before, after, t, event, r, x, t1, v);
    lemma_merged_fits_commit(p1, t1, v);
    lemma_grants_pick_one(p1);
    if full && t >= t1 {
        assert(reaches_time(m, t1));
        if m != Map::<u64, String>::empty() {
            let k = choose|k: int|
                0 <= k < p1.len() && (#[trigger] p1[k]).1 is Ok && m == p1[k].1->Ok_0.history().events();
        }
        lemma_decided_keeps(m, t, event, t1, v);
    }
    // The acceptors end committed.
    lemma_state_after_forbidden(x, t, d, full);
    if committable(x.0, t) {
        lemma_fresh_view(x, t, t1, v);
        let x1 = after_phase1::<Paxos>(x, t);
        assert(forbid_smaller(x.0, t).contains(t));
        assert forall|u: u64| #[trigger] x.1.contains_key(u) implies u <= t by {
            assert(events_at_or_below(x.1, t).contains_key(u));
        }
        if full {
            assert(committable(x1.0, t)) by {
                assert forall|g: u64| #[trigger] x1.0.contains(g) implies !crate::apaxos::greater_equal::gt_spec(
                    g,
                    t,
                ) by {
                    if g != t {
                        assert(x.0.contains(g));
                    }
                }
            }
            let k = choose|k: int|
                0 <= k < p1.len() && (#[trigger] p1[k]).1 is Ok && m == p1[k].1->Ok_0.history().events();
            let mk = p1[k].1->Ok_0.history().events();
            assert forall|u: u64| #[trigger] m.contains_key(u) implies u <= t by {
                let g = choose|g: u64| #[trigger] x.0.contains(g) && g >= u;
                assert(!crate::apaxos::greater_equal::gt_spec(g, t));
            }
            assert(y.1 == linear_merged(x.1, d));
            assert forall|u: u64| #[trigger] y.1.contains_key(u) implies exists|g: u64| #[trigger]
                y.0.contains(g) && g >= u by {
                assert(y.0.contains(t));
            }
        } else {
            assert(y == x1);
            assert forall|u: u64| #[trigger] y.1.contains_key(u) implies exists|g: u64| #[trigger]
                y.0.contains(g) && g >= u by {
                assert(y.0.contains(t));
            }
        }
        assert(y.0.contains(t));
    } else {
        assert(y == x);
    }
    lemma_waiting_after(before, after, t, event, r, x, t1, v, y.0);
    assert forall|u: u64|
        u != t && time_unused(s0, u) implies #[trigger] time_unused(st, u) by {
        assert forall|i: int| 0 <= i < b1.len() implies (#[trigger] b1[i]) is Phase1Reply by {}
        assert forall|i: int| 0 <= i < b2.len() implies (#[trigger] b2[i]) is Phase2Reply by {}
        assert forall|i: int| 0 <= i < r2.len() implies (#[trigger] r2[i]) is Phase2Request
            && r2[i]->Phase2Request_1 == t by {}
        lemma_round_times(s0, ids, t, b1, r2, b2, u);
    }
}

/// A round that returns `Ok` on a [`settled`], [`sound`] cluster makes it
/// keep what it committed: the value at the round's time, committed at
/// that time, whatever phase-1 replies of the round are left waiting.
pub proof fn law_settled_round_starts_keeping(
    before: crate::APaxos<Paxos, DirectCall<Paxos>>,
    after: crate::APaxos<Paxos, DirectCall<Paxos>>,
    t: u64,
    event: String,
    r: Result<LinearHistory<u64, String, SINGLE_VALUE>, APError<Paxos>>,
    x: (Set<u64>, Map<u64, String>),
)
    requires
        run_outcome(before, after, t, event, r),
        after.transport.wf(),
        after.transport.initial() == before.transport.initial(),
        settled(before.transport, before.acceptors@, x),
        sound(x),
        ascending_ids(before.acceptors@),
        before.acceptors@.len() > 0,
        before.quorum_set.members() == before.acceptors@,
        time_unused(before.transport.steps(), t),
        r is Ok,
    ensures
        r->Ok_0.events().contains_key(t),
        keeps_commit(
            after.transport,
            before.acceptors@,
            round_state(x, t, event),
            before.quorum_set,
            t,
            r->Ok_0.events()[t],
        ),
{
    let ids = before.acceptors@;
    let q = before.quorum_set;
    let tb = before.transport;
    let ta = after.transport;
    let init = tb.initial();
    let s0 = tb.steps();
    let st = ta.steps();
    let rb = tb.phase1_received().len();
    let ra = ta.phase1_received().len();
    let sb = tb.phase1_sent();
    let sa = ta.phase1_sent();
    let p1 = ta.phase1_received().skip(rb as int);
    lemma_round(before, after, t, event, r, x);
    law_round_result(before, after, t, event, r, x);
    lemma_granted_round(x, t, event);
    law_round_commits(x, t, event);
    lemma_round_phase1_replies(before, after, t, event, r, x);
    let y = round_state(x, t, event);
    let d = round_decided(x, t, event);
    let v = d[t];
    let rest = lemma_round_steps(before, after, t, event, r);
    law_direct_call_replies_fit(tb);
    assert(tb.phase1_received() + tb.phase1_queue() =~= tb.phase1_received());
    assert(ta.phase1_received() =~= tb.phase1_received() + p1) by {
        assert(tb.phase1_received() =~= ta.phase1_received().subrange(0, rb as int));
    }
    assert(y.0.contains(t));
    assert forall|j: int, p: int|
        ra <= j < sa.len() && #[trigger] granted_at(init, st, sa[j].0, sa[j].1, p) implies {
        let h = granted_view(init, st, sa[j].0, sa[j].1, p);
        &&& h.dom().finite()
        &&& fits_commit(h, t, v)
        &&& covered_by(h, y.0)
    } by {
        let i = j - sb.len();
        assert(sa[j] == (ids[i], t));
        lemma_phase1_position(s0, ids, t, rest, p, i);
        let pre = ids.take(i).map_values(|id: u64| TransportStep::<Paxos>::Phase1Request(id, t));
        lemma_replay_concat(init, s0, pre);
        lemma_replay_phase1_round::<Paxos>(replay(init, s0), ids, t, x, i);
        assert forall|u: u64| #[trigger] x.1.contains_key(u) implies exists|g: u64| #[trigger]
            y.0.contains(g) && g >= u by {
            assert(events_at_or_below(x.1, t).contains_key(u));
            assert(t.ge_spec(&u));
        }
        assert forall|u: u64| #[trigger] x.1.contains_key(u) && u >= t implies x.1[u] == v by {
            assert(events_at_or_below(x.1, t).contains_key(u));
            assert(t.ge_spec(&u));
            assert(d[u] == x.1[u]);
        }
    }
    assert(ok_ids(p1) == Set::<u64>::empty().union(ok_ids(p1.take(p1.len() as int)))) by {
        assert(p1.take(p1.len() as int) =~= p1);
        assert(ok_ids(p1) =~= Set::<u64>::empty().union(ok_ids(p1)));
    }
    assert forall|s: Set<u64>| s.subset_of(short_waiting(ta, t)) implies !#[trigger] q.read_quorum(s) by {
        if q.read_quorum(s) {
            law_majorities_intersect(ids, s, ok_ids(p1));
            let c = choose|c: int| 0 <= c < ids.len() && s.contains(#[trigger] ids[c]) && ok_ids(p1).contains(ids[c]);
            let id = ids[c];
            assert(short_waiting(ta, t).contains(id));
            let (j, p) = choose|j: int, p: int|
                ra <= j < sa.len() && sa[j].0 == id && #[trigger] granted_at(init, st, id, sa[j].1, p)
                    && !reaches_time(granted_view(init, st, id, sa[j].1, p), t);
            let i = j - sb.len();
            assert(sa[j] == (ids[i], t));
            lemma_ok_ids(p1, id);
            let k = choose|k: int| 0 <= k < p1.len() && #[trigger] p1[k].0 == id && p1[k].1 is Ok;
            assert(ids[k] == ids[i]);
            assert(k < i);
            assert(false);
        }
    }
}

/// A later proposer keeps what the first one committed on a cluster of
/// fresh acceptors, though the first round's replies that it did not
/// receive still wait.
///
/// `b0` is a cluster whose transport reaches exactly its acceptors, all
/// with no forbidden time and no event, and has logged nothing, with a
/// majority quorum over its acceptors. A proposer at `t1` with `e1` ran on
/// it (`r1`, leaving `b1`), then one at a later `t2` with `e2` (`r2`,
/// leaving `b2`). The first committed `e1` at `t1`; the second, if it
/// returned `Ok`, holds `e1` at `t2`.
pub proof fn law_later_proposer_keeps_first_commit(
    b0: crate::APaxos<Paxos, DirectCall<Paxos>>,
    b1: crate::APaxos<Paxos, DirectCall<Paxos>>,
    b2: crate::APaxos<Paxos, DirectCall<Paxos>>,
    t1: u64,
    e1: String,
    r1: Result<LinearHistory<u64, String, SINGLE_VALUE>, APError<Paxos>>,
    t2: u64,
    e2: String,
    r2: Result<LinearHistory<u64, String, SINGLE_VALUE>, APError<Paxos>>,
)
    requires
        b0.wf(),
        crate::commonly_used::transport::all_fresh::<Paxos>(b0.transport.initial()),
        b0.transport.initial().dom() == b0.acceptors@.to_set(),
        b0.acceptors@.len() > 0,
        b0.quorum_set.members() == b0.acceptors@,
        b0.transport.steps().len() == 0,
        b0.transport.phase1_sent().len() == 0,
        b0.transport.phase1_received().len() == 0,
        b0.transport.phase2_sent().len() == 0,
        b0.transport.phase2_received().len() == 0,
        run_outcome(b0, b1, t1, e1, r1),
        b1.transport.wf(),
        b1.transport.initial() == b0.transport.initial(),
        b1.acceptors@ == b0.acceptors@,
        b1.quorum_set == b0.quorum_set,
        run_outcome(b1, b2, t2, e2, r2),
        b2.transport.wf(),
        b2.transport.initial() == b1.transport.initial(),
        t2 > t1,
    ensures
        r1 is Ok,
        r1->Ok_0.events() == map![t1 => e1],
        r2 is Ok ==> r2->Ok_0.events().contains_key(t2) && r2->Ok_0.events()[t2] == e1,
{
    let ids = b0.acceptors@;
    let tr = b0.transport;
    let x0 = (Set::<u64>::empty(), Map::<u64, String>::empty());
    crate::implementations::paxos::law_fresh_cluster_commits(b0, b1, t1, e1, r1);
    law_direct_call_replies_fit(tr);
    assert(tr.steps() =~= Seq::<TransportStep<Paxos>>::empty());
    assert(model_of(tr.acceptor_map()) == tr.initial());
    assert(tr.phase1_queue().len() == 0);
    assert(tr.phase2_queue().len() == 0);
    assert forall|i: int| 0 <= i < ids.len() implies model_of(tr.acceptor_map())[#[trigger] ids[i]] == x0 by {
        assert(ids.to_set().contains(ids[i]));
    }
    assert(settled(tr, ids, x0));
    assert(sound(x0));
    assert(time_unused(tr.steps(), t1));
    assert(time_unused(tr.steps(), t2));
    lemma_round(b0, b1, t1, e1, r1, x0);
    law_settled_round_starts_keeping(b0, b1, t1, e1, r1, x0);
    assert(r1->Ok_0.events()[t1] == e1);
    law_waiting_round_keeps_commit(b1, b2, t2, e2, r2, round_state(x0, t1, e1), t1, e1);
}

} // verus!
