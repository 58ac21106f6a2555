use std::collections::BTreeMap;
use std::collections::VecDeque;

use vstd::prelude::*;

use crate::apaxos::greater_equal::GreaterEqual;

use crate::apaxos::acceptor::committable;
use crate::apaxos::acceptor::forbid_smaller;
use crate::apaxos::acceptor::Acceptor;
use crate::apaxos::greater_equal::gt_spec;
use crate::apaxos::decided::Decided;
use crate::apaxos::history::events_at_or_below;
use crate::apaxos::history::History;
use crate::apaxos::history::lemma_at_or_below_none_later;
use crate::apaxos::history::lemma_below_none_later;
use crate::apaxos::history_view::HistoryView;
use crate::reply_at;
use crate::Transport;
use crate::TransportStep;
use crate::Types;
use crate::apaxos::ptime::Time;

verus! {

broadcast use vstd::laws_cmp::group_laws_cmp;

/// Simulate network transport by delegate RPC to local function calls.
///
/// A request is handled by the target acceptor at once; its reply waits in
/// a queue until it is received, in the order the requests were sent.
pub struct DirectCall<T: Types> {
    acceptors: BTreeMap<u64, Acceptor<T>>,
    p1_replies: VecDeque<(u64, Result<HistoryView<T>, T::Time>)>,
    p2_replies: VecDeque<(u64, Result<(), T::Time>)>,
    p1_sent: Ghost<Seq<(u64, T::Time)>>,
    p1_received: Ghost<Seq<(u64, Result<HistoryView<T>, T::Time>)>>,
    p2_sent: Ghost<Seq<(u64, T::Time, Map<T::Time, T::Event>)>>,
    p2_received: Ghost<Seq<(u64, Result<(), T::Time>)>>,
    all_steps: Ghost<Seq<TransportStep<T>>>,
    initial: Ghost<Map<u64, (Set<T::Time>, Map<T::Time, T::Event>)>>,
}

/// The forbidden times and the events of each acceptor of `m`.
pub open spec fn model_of<T: Types>(m: Map<u64, Acceptor<T>>) -> Map<
    u64,
    (Set<T::Time>, Map<T::Time, T::Event>),
> {
    m.map_values(|a: Acceptor<T>| (a.forbidden(), a.history.events()))
}

/// The forbidden times and events of the acceptors `m` after a request
/// `step` is handled; a reply changes nothing.
pub open spec fn apply_step<T: Types>(
    m: Map<u64, (Set<T::Time>, Map<T::Time, T::Event>)>,
    step: TransportStep<T>,
) -> Map<u64, (Set<T::Time>, Map<T::Time, T::Event>)> {
    match step {
        TransportStep::Phase1Request(id, t) => {
            if m.contains_key(id) && committable(m[id].0, t) {
                m.insert(id, (forbid_smaller(m[id].0, t), m[id].1))
            } else {
                m
            }
        },
        TransportStep::Phase2Request(id, t, events) => {
            if m.contains_key(id) && committable(m[id].0, t) {
                m.insert(id, (m[id].0, T::History::merge_spec(m[id].1, events)))
            } else {
                m
            }
        },
        _ => m,
    }
}

/// The forbidden times and events of acceptors that started as `init` and
/// handled the requests among `steps`, in order.
pub open spec fn replay<T: Types>(
    init: Map<u64, (Set<T::Time>, Map<T::Time, T::Event>)>,
    steps: Seq<TransportStep<T>>,
) -> Map<u64, (Set<T::Time>, Map<T::Time, T::Event>)>
    decreases steps.len(),
{
    if steps.len() == 0 {
        init
    } else {
        apply_step(replay(init, steps.drop_last()), steps.last())
    }
}

/// `reply` is what an acceptor with forbidden times and events `st` answers
/// a phase-1 request at `t`.
pub open spec fn phase1_fits<T: Types>(
    st: (Set<T::Time>, Map<T::Time, T::Event>),
    t: T::Time,
    reply: Result<HistoryView<T>, T::Time>,
) -> bool {
    &&& (reply is Ok) == committable(st.0, t)
    &&& match reply {
        Ok(view) => view.history().events() == events_at_or_below(st.1, t),
        Err(f) => st.0.contains(f) && gt_spec(f, t),
    }
}

/// `reply` is what an acceptor with forbidden times and events `st` answers
/// a phase-2 request with head time `t`.
pub open spec fn phase2_fits<T: Types>(
    st: (Set<T::Time>, Map<T::Time, T::Event>),
    t: T::Time,
    reply: Result<(), T::Time>,
) -> bool {
    &&& (reply is Ok) == committable(st.0, t)
    &&& match reply {
        Ok(()) => true,
        Err(f) => st.0.contains(f) && gt_spec(f, t),
    }
}

/// Every phase-1 reply of `replies` answers the request of `sent` at its
/// position: it is from the target, and is what the target answered in
/// the state that the steps before the request left it in.
pub open spec fn phase1_log_fits<T: Types>(
    init: Map<u64, (Set<T::Time>, Map<T::Time, T::Event>)>,
    steps: Seq<TransportStep<T>>,
    replies: Seq<(u64, Result<HistoryView<T>, T::Time>)>,
    sent: Seq<(u64, T::Time)>,
) -> bool {
    &&& replies.len() == sent.len()
    &&& forall|k: int|
        0 <= k < replies.len() ==> (#[trigger] replies[k]).0 == sent[k].0 && exists|p: int|
            0 <= p < steps.len() && #[trigger] steps[p] == TransportStep::<T>::Phase1Request(
                sent[k].0,
                sent[k].1,
            ) && replay(init, steps.take(p)).contains_key(sent[k].0) && phase1_fits::<T>(
                replay(init, steps.take(p))[sent[k].0],
                sent[k].1,
                replies[k].1,
            )
}

/// Every phase-2 reply of `replies` answers the request of `sent` at its
/// position, as [`phase1_log_fits`] says of phase-1.
pub open spec fn phase2_log_fits<T: Types>(
    init: Map<u64, (Set<T::Time>, Map<T::Time, T::Event>)>,
    steps: Seq<TransportStep<T>>,
    replies: Seq<(u64, Result<(), T::Time>)>,
    sent: Seq<(u64, T::Time, Map<T::Time, T::Event>)>,
) -> bool {
    &&& replies.len() == sent.len()
    &&& forall|k: int|
        0 <= k < replies.len() ==> (#[trigger] replies[k]).0 == sent[k].0 && exists|p: int|
            0 <= p < steps.len() && #[trigger] steps[p] == TransportStep::<T>::Phase2Request(
                sent[k].0,
                sent[k].1,
                sent[k].2,
            ) && replay(init, steps.take(p)).contains_key(sent[k].0) && phase2_fits::<T>(
                replay(init, steps.take(p))[sent[k].0],
                sent[k].1,
                replies[k].1,
            )
}

/// A new step keeps the replies logged so far fitting.
proof fn lemma_log_fits_push<T: Types>(
    init: Map<u64, (Set<T::Time>, Map<T::Time, T::Event>)>,
    steps: Seq<TransportStep<T>>,
    x: TransportStep<T>,
    r1: Seq<(u64, Result<HistoryView<T>, T::Time>)>,
    s1: Seq<(u64, T::Time)>,
    r2: Seq<(u64, Result<(), T::Time>)>,
    s2: Seq<(u64, T::Time, Map<T::Time, T::Event>)>,
)
    requires
        phase1_log_fits(init, steps, r1, s1),
        phase2_log_fits(init, steps, r2, s2),
    ensures
        phase1_log_fits(init, steps.push(x), r1, s1),
        phase2_log_fits(init, steps.push(x), r2, s2),
        replay(init, steps.push(x)) == apply_step(replay(init, steps), x),
{
    let s = steps.push(x);
    assert(s.drop_last() =~= steps);
    assert forall|k: int| #![trigger r1[k]] 0 <= k < r1.len() implies exists|p: int|
        0 <= p < s.len() && #[trigger] s[p] == TransportStep::<T>::Phase1Request(s1[k].0, s1[k].1)
            && replay(init, s.take(p)).contains_key(s1[k].0) && phase1_fits::<T>(
            replay(init, s.take(p))[s1[k].0],
            s1[k].1,
            r1[k].1,
        ) by {
        assert(r1[k].0 == s1[k].0);
        let p = choose|p: int|
            0 <= p < steps.len() && #[trigger] steps[p] == TransportStep::<T>::Phase1Request(
                s1[k].0,
                s1[k].1,
            ) && replay(init, steps.take(p)).contains_key(s1[k].0) && phase1_fits::<T>(
                replay(init, steps.take(p))[s1[k].0],
                s1[k].1,
                r1[k].1,
            );
        lemma_push_keeps(steps, x, p);
    }
    assert forall|k: int| #![trigger r2[k]] 0 <= k < r2.len() implies exists|p: int|
        0 <= p < s.len() && #[trigger] s[p] == TransportStep::<T>::Phase2Request(
            s2[k].0,
            s2[k].1,
            s2[k].2,
        ) && replay(init, s.take(p)).contains_key(s2[k].0) && phase2_fits::<T>(
            replay(init, s.take(p))[s2[k].0],
            s2[k].1,
            r2[k].1,
        ) by {
        assert(r2[k].0 == s2[k].0);
        let p = choose|p: int|
            0 <= p < steps.len() && #[trigger] steps[p] == TransportStep::<T>::Phase2Request(
                s2[k].0,
                s2[k].1,
                s2[k].2,
            ) && replay(init, steps.take(p)).contains_key(s2[k].0) && phase2_fits::<T>(
                replay(init, steps.take(p))[s2[k].0],
                s2[k].1,
                r2[k].1,
            );
        lemma_push_keeps(steps, x, p);
    }
}

/// A phase-1 request and its reply extend the log of fitting replies.
proof fn lemma_phase1_log_extend<T: Types>(
    init: Map<u64, (Set<T::Time>, Map<T::Time, T::Event>)>,
    steps: Seq<TransportStep<T>>,
    r1: Seq<(u64, Result<HistoryView<T>, T::Time>)>,
    s1: Seq<(u64, T::Time)>,
    id: u64,
    t: T::Time,
    reply: Result<HistoryView<T>, T::Time>,
)
    requires
        phase1_log_fits(init, steps.push(TransportStep::<T>::Phase1Request(id, t)), r1, s1),
        replay(init, steps).contains_key(id),
        phase1_fits::<T>(replay(init, steps)[id], t, reply),
    ensures
        phase1_log_fits(
            init,
            steps.push(TransportStep::<T>::Phase1Request(id, t)),
            r1.push((id, reply)),
            s1.push((id, t)),
        ),
{
    let s = steps.push(TransportStep::<T>::Phase1Request(id, t));
    let r = r1.push((id, reply));
    let ss = s1.push((id, t));
    assert(s.take(steps.len() as int) =~= steps);
    assert forall|k: int| #![trigger r[k]] 0 <= k < r.len() implies r[k].0 == ss[k].0 && exists|p: int|
        0 <= p < s.len() && #[trigger] s[p] == TransportStep::<T>::Phase1Request(ss[k].0, ss[k].1)
            && replay(init, s.take(p)).contains_key(ss[k].0) && phase1_fits::<T>(
            replay(init, s.take(p))[ss[k].0],
            ss[k].1,
            r[k].1,
        ) by {
        if k < r1.len() {
            assert(r[k] == r1[k] && ss[k] == s1[k]);
            assert(r1[k].0 == s1[k].0);
        } else {
            assert(s[steps.len() as int] == TransportStep::<T>::Phase1Request(id, t));
        }
    }
}

/// A phase-2 request and its reply extend the log of fitting replies.
proof fn lemma_phase2_log_extend<T: Types>(
    init: Map<u64, (Set<T::Time>, Map<T::Time, T::Event>)>,
    steps: Seq<TransportStep<T>>,
    r2: Seq<(u64, Result<(), T::Time>)>,
    s2: Seq<(u64, T::Time, Map<T::Time, T::Event>)>,
    id: u64,
    t: T::Time,
    events: Map<T::Time, T::Event>,
    reply: Result<(), T::Time>,
)
    requires
        phase2_log_fits(init, steps.push(TransportStep::<T>::Phase2Request(id, t, events)), r2, s2),
        replay(init, steps).contains_key(id),
        phase2_fits::<T>(replay(init, steps)[id], t, reply),
    ensures
        phase2_log_fits(
            init,
            steps.push(TransportStep::<T>::Phase2Request(id, t, events)),
            r2.push((id, reply)),
            s2.push((id, t, events)),
        ),
{
    let s = steps.push(TransportStep::<T>::Phase2Request(id, t, events));
    let r = r2.push((id, reply));
    let ss = s2.push((id, t, events));
    assert(s.take(steps.len() as int) =~= steps);
    assert forall|k: int| #![trigger r[k]] 0 <= k < r.len() implies r[k].0 == ss[k].0 && exists|p: int|
        0 <= p < s.len() && #[trigger] s[p] == TransportStep::<T>::Phase2Request(
            ss[k].0,
            ss[k].1,
            ss[k].2,
        ) && replay(init, s.take(p)).contains_key(ss[k].0) && phase2_fits::<T>(
            replay(init, s.take(p))[ss[k].0],
            ss[k].1,
            r[k].1,
        ) by {
        if k < r2.len() {
            assert(r[k] == r2[k] && ss[k] == s2[k]);
            assert(r2[k].0 == s2[k].0);
        } else {
            assert(s[steps.len() as int] == TransportStep::<T>::Phase2Request(id, t, events));
        }
    }
}

/// Replacing an acceptor replaces its forbidden times and events.
proof fn lemma_model_insert<T: Types>(m: Map<u64, Acceptor<T>>, id: u64, a: Acceptor<T>)
    ensures
        model_of(m.insert(id, a)) == model_of(m).insert(id, (a.forbidden(), a.history.events())),
{
    assert(model_of(m.insert(id, a)) =~= model_of(m).insert(id, (a.forbidden(), a.history.events())));
}

/// The acceptors of a consistent direct-call transport are what handling
/// the logged requests made of them, and every reply, received or queued,
/// is what its target answered to the request at its position, in the
/// state the requests before it left the target in.
pub proof fn law_direct_call_replies_fit<T: Types>(tr: DirectCall<T>)
    requires
        tr.wf(),
    ensures
        model_of(tr.acceptor_map()) == replay(tr.initial(), tr.steps()),
        phase1_log_fits(
            tr.initial(),
            tr.steps(),
            tr.phase1_received() + tr.phase1_queue(),
            tr.phase1_sent(),
        ),
        phase2_log_fits(
            tr.initial(),
            tr.steps(),
            tr.phase2_received() + tr.phase2_queue(),
            tr.phase2_sent(),
        ),
{
}

/// The forbidden times and events `x` of an acceptor after it handled a
/// phase-1 request at `t`.
pub open spec fn after_phase1<T: Types>(x: (Set<T::Time>, Map<T::Time, T::Event>), t: T::Time) -> (
    Set<T::Time>,
    Map<T::Time, T::Event>,
) {
    if committable(x.0, t) {
        (forbid_smaller(x.0, t), x.1)
    } else {
        x
    }
}

/// The forbidden times and events `x` of an acceptor after it handled a
/// phase-2 request with head time `t` and events `events`.
pub open spec fn after_phase2<T: Types>(
    x: (Set<T::Time>, Map<T::Time, T::Event>),
    t: T::Time,
    events: Map<T::Time, T::Event>,
) -> (Set<T::Time>, Map<T::Time, T::Event>) {
    if committable(x.0, t) {
        (x.0, T::History::merge_spec(x.1, events))
    } else {
        x
    }
}

/// Handling the requests of `a` and then those of `b` is handling those of
/// `a + b`.
pub proof fn lemma_replay_concat<T: Types>(
    init: Map<u64, (Set<T::Time>, Map<T::Time, T::Event>)>,
    a: Seq<TransportStep<T>>,
    b: Seq<TransportStep<T>>,
)
    ensures
        replay(init, a + b) == replay(replay(init, a), b),
    decreases b.len(),
{
    if b.len() == 0 {
        assert(a + b =~= a);
    } else {
        lemma_replay_concat(init, a, b.drop_last());
        assert((a + b).drop_last() =~= a + b.drop_last());
        assert((a + b).last() == b.last());
    }
}

/// Replies change no acceptor.
pub proof fn lemma_replay_replies<T: Types>(
    m: Map<u64, (Set<T::Time>, Map<T::Time, T::Event>)>,
    b: Seq<TransportStep<T>>,
)
    requires
        forall|i: int|
            0 <= i < b.len() ==> (#[trigger] b[i]) is Phase1Reply || b[i] is Phase2Reply,
    ensures
        replay(m, b) == m,
    decreases b.len(),
{
    if b.len() > 0 {
        assert forall|i: int| 0 <= i < b.drop_last().len() implies (#[trigger] b.drop_last()[i]) is Phase1Reply
            || b.drop_last()[i] is Phase2Reply by {
            assert(b.drop_last()[i] == b[i]);
        }
        lemma_replay_replies(m, b.drop_last());
        assert(b.last() == b[b.len() - 1]);
    }
}

/// The acceptors `ids`, all in state `x`, after the phase-1 requests at `t`
/// to the first `k` of them: those are in the state after the request, the
/// others still in `x`.
pub proof fn lemma_replay_phase1_round<T: Types>(
    m: Map<u64, (Set<T::Time>, Map<T::Time, T::Event>)>,
    ids: Seq<u64>,
    t: T::Time,
    x: (Set<T::Time>, Map<T::Time, T::Event>),
    k: int,
)
    requires
        0 <= k <= ids.len(),
        forall|i: int, j: int| 0 <= i < j < ids.len() ==> ids[i] < ids[j],
        m.dom() == ids.to_set(),
        forall|i: int| 0 <= i < ids.len() ==> m[#[trigger] ids[i]] == x,
    ensures
        replay(m, ids.take(k).map_values(|id: u64| TransportStep::<T>::Phase1Request(id, t))).dom()
            == ids.to_set(),
        forall|i: int|
            0 <= i < ids.len() ==> replay(
                m,
                ids.take(k).map_values(|id: u64| TransportStep::<T>::Phase1Request(id, t)),
            )[#[trigger] ids[i]] == if i < k {
                after_phase1::<T>(x, t)
            } else {
                x
            },
    decreases k,
{
    let f = |id: u64| TransportStep::<T>::Phase1Request(id, t);
    if k == 0 {
        assert(ids.take(0).map_values(f) =~= Seq::<TransportStep<T>>::empty());
    } else {
        lemma_replay_phase1_round::<T>(m, ids, t, x, k - 1);
        let s = ids.take(k).map_values(f);
        assert(s.drop_last() =~= ids.take(k - 1).map_values(f));
        assert(s.last() == TransportStep::<T>::Phase1Request(ids[k - 1], t));
        let prev = replay(m, ids.take(k - 1).map_values(f));
        assert(ids.to_set().contains(ids[k - 1]));
        assert(prev[ids[k - 1]] == x);
        assert(replay(m, s).dom() =~= ids.to_set());
        assert forall|i: int| 0 <= i < ids.len() implies replay(m, s)[#[trigger] ids[i]] == if i < k {
            after_phase1::<T>(x, t)
        } else {
            x
        } by {
            if i != k - 1 {
                assert(ids[i] != ids[k - 1]);
            }
        }
    }
}

/// The acceptors `ids`, all in state `x`, after the phase-2 requests with
/// head time `t` and events `events` to the first `k` of them.
pub proof fn lemma_replay_phase2_round<T: Types>(
    m: Map<u64, (Set<T::Time>, Map<T::Time, T::Event>)>,
    ids: Seq<u64>,
    t: T::Time,
    events: Map<T::Time, T::Event>,
    x: (Set<T::Time>, Map<T::Time, T::Event>),
    k: int,
)
    requires
        0 <= k <= ids.len(),
        forall|i: int, j: int| 0 <= i < j < ids.len() ==> ids[i] < ids[j],
        m.dom() == ids.to_set(),
        forall|i: int| 0 <= i < ids.len() ==> m[#[trigger] ids[i]] == x,
    ensures
        replay(
            m,
            ids.take(k).map_values(|id: u64| TransportStep::<T>::Phase2Request(id, t, events)),
        ).dom() == ids.to_set(),
        forall|i: int|
            0 <= i < ids.len() ==> replay(
                m,
                ids.take(k).map_values(|id: u64| TransportStep::<T>::Phase2Request(id, t, events)),
            )[#[trigger] ids[i]] == if i < k {
                after_phase2::<T>(x, t, events)
            } else {
                x
            },
    decreases k,
{
    let f = |id: u64| TransportStep::<T>::Phase2Request(id, t, events);
    if k == 0 {
        assert(ids.take(0).map_values(f) =~= Seq::<TransportStep<T>>::empty());
    } else {
        lemma_replay_phase2_round::<T>(m, ids, t, events, x, k - 1);
        let s = ids.take(k).map_values(f);
        assert(s.drop_last() =~= ids.take(k - 1).map_values(f));
        assert(s.last() == TransportStep::<T>::Phase2Request(ids[k - 1], t, events));
        let prev = replay(m, ids.take(k - 1).map_values(f));
        assert(ids.to_set().contains(ids[k - 1]));
        assert(prev[ids[k - 1]] == x);
        assert(replay(m, s).dom() =~= ids.to_set());
        assert forall|i: int| 0 <= i < ids.len() implies replay(m, s)[#[trigger] ids[i]] == if i < k {
            after_phase2::<T>(x, t, events)
        } else {
            x
        } by {
            if i != k - 1 {
                assert(ids[i] != ids[k - 1]);
            }
        }
    }
}

/// Every acceptor of `init` has no forbidden time and no event.
pub open spec fn all_fresh<T: Types>(init: Map<u64, (Set<T::Time>, Map<T::Time, T::Event>)>) -> bool {
    forall|id: u64| #[trigger]
        init.contains_key(id) ==> init[id].0 == Set::<T::Time>::empty() && init[id].1 == Map::<
            T::Time,
            T::Event,
        >::empty()
}

/// Every request among `steps` is at time `t` (for phase-2, its head
/// time).
pub open spec fn requests_at<T: Types>(steps: Seq<TransportStep<T>>, t: T::Time) -> bool {
    forall|q: int|
        0 <= q < steps.len() ==> match #[trigger] steps[q] {
            TransportStep::Phase1Request(_, u) => u == t,
            TransportStep::Phase2Request(_, u, _) => u == t,
            _ => true,
        }
}

/// No phase-2 request among `steps` comes before a phase-1 request.
pub open spec fn phase1_first<T: Types>(steps: Seq<TransportStep<T>>) -> bool {
    forall|a: int, b: int|
        0 <= a < steps.len() && 0 <= b < steps.len() && (#[trigger] steps[a]) is Phase2Request && (
        #[trigger] steps[b]) is Phase1Request ==> b < a
}

/// Fresh acceptors asked at `t` only forbid nothing but `t`, and hold no
/// event while they have been sent no phase-2 request.
proof fn lemma_replay_one_time<T: Types>(
    init: Map<u64, (Set<T::Time>, Map<T::Time, T::Event>)>,
    steps: Seq<TransportStep<T>>,
    t: T::Time,
)
    requires
        all_fresh::<T>(init),
        requests_at(steps, t),
    ensures
        replay(init, steps).dom() == init.dom(),
        forall|id: u64| #[trigger]
            replay(init, steps).contains_key(id) ==> replay(init, steps)[id].0.subset_of(set![t]),
        (forall|q: int| 0 <= q < steps.len() ==> !((#[trigger] steps[q]) is Phase2Request))
            ==> forall|id: u64| #[trigger]
            replay(init, steps).contains_key(id) ==> replay(init, steps)[id].1 == Map::<
                T::Time,
                T::Event,
            >::empty(),
    decreases steps.len(),
{
    if steps.len() > 0 {
        let prev = steps.drop_last();
        assert forall|q: int| 0 <= q < prev.len() implies match #[trigger] prev[q] {
            TransportStep::Phase1Request(_, u) => u == t,
            TransportStep::Phase2Request(_, u, _) => u == t,
            _ => true,
        } by {
            assert(prev[q] == steps[q]);
        }
        lemma_replay_one_time(init, prev, t);
        let m = replay(init, prev);
        let x = steps.last();
        assert(x == steps[steps.len() - 1]);
        if forall|q: int| 0 <= q < steps.len() ==> !((#[trigger] steps[q]) is Phase2Request) {
            assert forall|q: int| 0 <= q < prev.len() implies !((#[trigger] prev[q]) is Phase2Request) by {
                assert(prev[q] == steps[q]);
            }
        }
        match x {
            TransportStep::Phase1Request(id, u) => {
                if m.contains_key(id) && committable(m[id].0, u) {
                    let f = forbid_smaller(m[id].0, u);
                    assert(f.subset_of(set![t])) by {
                        assert forall|z: T::Time| f.contains(z) implies set![t].contains(z) by {
                            if z != u {
                                assert(m[id].0.contains(z));
                            }
                        }
                    }
                    assert(replay(init, steps).dom() =~= init.dom());
                }
            },
            TransportStep::Phase2Request(id, u, d) => {
                if m.contains_key(id) && committable(m[id].0, u) {
                    assert(replay(init, steps).dom() =~= init.dom());
                }
            },
            _ => {},
        }
    }
}

/// A cluster of fresh acceptors reached directly, asked at one time `t`
/// only and first with phase-1, grants and accepts everything: every reply
/// received is `Ok` and from the target of the request at its position,
/// and every phase-1 reply holds no event.
pub proof fn law_fresh_round_all_ok<T: Types>(tr: DirectCall<T>, t: T::Time)
    requires
        tr.wf(),
        all_fresh::<T>(tr.initial()),
        requests_at(tr.steps(), t),
        phase1_first(tr.steps()),
    ensures
        forall|k: int|
            0 <= k < tr.phase1_received().len() ==> (#[trigger] tr.phase1_received()[k]).0
                == tr.phase1_sent()[k].0 && tr.phase1_received()[k].1 is Ok
                && tr.phase1_received()[k].1->Ok_0.history().events() == Map::<
                T::Time,
                T::Event,
            >::empty(),
        forall|k: int|
            0 <= k < tr.phase2_received().len() ==> (#[trigger] tr.phase2_received()[k]).0
                == tr.phase2_sent()[k].0 && tr.phase2_received()[k].1 is Ok,
{
    let init = tr.initial@;
    let steps = tr.all_steps@;
    let g1 = tr.p1_received@ + tr.p1_replies@;
    let g2 = tr.p2_received@ + tr.p2_replies@;
    assert forall|k: int| 0 <= k < tr.phase1_received().len() implies (#[trigger] tr.phase1_received()[k]).0
        == tr.phase1_sent()[k].0 && tr.phase1_received()[k].1 is Ok
        && tr.phase1_received()[k].1->Ok_0.history().events() == Map::<T::Time, T::Event>::empty() by {
        assert(g1[k] == tr.p1_received@[k]);
        let id = tr.p1_sent@[k].0;
        let u = tr.p1_sent@[k].1;
        let p = choose|p: int|
            0 <= p < steps.len() && #[trigger] steps[p] == TransportStep::<T>::Phase1Request(id, u)
                && replay(init, steps.take(p)).contains_key(id) && phase1_fits::<T>(
                replay(init, steps.take(p))[id],
                u,
                g1[k].1,
            );
        assert(u == t);
        let pre = steps.take(p);
        assert forall|q: int| 0 <= q < pre.len() implies match #[trigger] pre[q] {
            TransportStep::Phase1Request(_, v) => v == t,
            TransportStep::Phase2Request(_, v, _) => v == t,
            _ => true,
        } by {
            assert(pre[q] == steps[q]);
        }
        assert forall|q: int| 0 <= q < pre.len() implies !((#[trigger] pre[q]) is Phase2Request) by {
            assert(pre[q] == steps[q]);
        }
        lemma_replay_one_time(init, pre, t);
        let st = replay(init, pre)[id];
        assert(!(exists|f: T::Time| #[trigger] st.0.contains(f) && gt_spec(f, t)));
        assert(events_at_or_below(st.1, t) =~= Map::<T::Time, T::Event>::empty());
    }
    assert forall|k: int| 0 <= k < tr.phase2_received().len() implies (#[trigger] tr.phase2_received()[k]).0
        == tr.phase2_sent()[k].0 && tr.phase2_received()[k].1 is Ok by {
        assert(g2[k] == tr.p2_received@[k]);
        let id = tr.p2_sent@[k].0;
        let u = tr.p2_sent@[k].1;
        let d = tr.p2_sent@[k].2;
        let p = choose|p: int|
            0 <= p < steps.len() && #[trigger] steps[p] == TransportStep::<T>::Phase2Request(
                id,
                u,
                d,
            ) && replay(init, steps.take(p)).contains_key(id) && phase2_fits::<T>(
                replay(init, steps.take(p))[id],
                u,
                g2[k].1,
            );
        assert(u == t);
        let pre = steps.take(p);
        assert forall|q: int| 0 <= q < pre.len() implies match #[trigger] pre[q] {
            TransportStep::Phase1Request(_, v) => v == t,
            TransportStep::Phase2Request(_, v, _) => v == t,
            _ => true,
        } by {
            assert(pre[q] == steps[q]);
        }
        lemma_replay_one_time(init, pre, t);
        let st = replay(init, pre)[id];
        assert(!(exists|f: T::Time| #[trigger] st.0.contains(f) && gt_spec(f, t)));
    }
}

/// Pushing a step keeps the steps before it.
proof fn lemma_push_keeps<A>(s: Seq<A>, x: A, p: int)
    requires
        0 <= p < s.len(),
    ensures
        s.push(x)[p] == s[p],
        s.push(x).take(p) == s.take(p),
{
    assert(s.push(x).take(p) =~= s.take(p));
}

/// Every acceptor of `m` is consistent.
pub open spec fn acceptors_wf<T: Types>(m: Map<u64, Acceptor<T>>) -> bool {
    forall|id: u64| #[trigger] m.contains_key(id) ==> m[id].wf()
}

/// Acceptor `a` became `b` by handling a phase-1 request at `t` with
/// `reply`.
pub open spec fn phase1_handled<T: Types>(
    a: Acceptor<T>,
    b: Acceptor<T>,
    t: T::Time,
    reply: Result<HistoryView<T>, T::Time>,
) -> bool {
    &&& b.wf()
    &&& b.history == a.history
    &&& (reply is Ok) == committable(a.forbidden(), t)
    &&& match reply {
        Ok(view) => {
            &&& b.forbidden() == forbid_smaller(a.forbidden(), t)
            &&& view.time() == t
            &&& view.history().events() == events_at_or_below(a.history.events(), t)
        },
        Err(f) => {
            &&& b.forbidden_commit_time == a.forbidden_commit_time
            &&& a.forbidden().contains(f)
            &&& gt_spec(f, t)
        },
    }
}

/// Acceptor `a` became `b` by handling a phase-2 request of `decided` with
/// `reply`.
pub open spec fn phase2_handled<T: Types>(
    a: Acceptor<T>,
    b: Acceptor<T>,
    decided: Decided<T>,
    reply: Result<(), T::Time>,
) -> bool {
    &&& b.wf()
    &&& b.forbidden_commit_time == a.forbidden_commit_time
    &&& (reply is Ok) == committable(a.forbidden(), decided.time())
    &&& match reply {
        Ok(()) => b.history.events() == T::History::merge_spec(a.history.events(),
            decided.history().events(),
        ),
        Err(f) => {
            &&& b.history == a.history
            &&& a.forbidden().contains(f)
            &&& gt_spec(f, decided.time())
        },
    }
}

impl<T: Types> DirectCall<T> {
    /// The acceptors, by id.
    pub closed spec fn acceptor_map(&self) -> Map<u64, Acceptor<T>> {
        self.acceptors@
    }

    /// The acceptors are what handling the requests logged so far made of
    /// them, and every reply, received or queued, is what its target
    /// answered to the request it was sent at that point.
    pub closed spec fn log_consistent(&self) -> bool {
        let g1 = self.p1_received@ + self.p1_replies@;
        let g2 = self.p2_received@ + self.p2_replies@;
        let steps = self.all_steps@;
        &&& model_of(self.acceptors@) == replay(self.initial@, steps)
        &&& g1.len() == self.p1_sent@.len()
        &&& g2.len() == self.p2_sent@.len()
        &&& phase1_log_fits(self.initial@, steps, g1, self.p1_sent@)
        &&& phase2_log_fits(self.initial@, steps, g2, self.p2_sent@)
    }

    /// How many phase-1 and phase-2 replies wait to be received.
    pub fn pending_replies(&self) -> (r: (usize, usize))
        ensures
            r.0 == self.phase1_queue().len(),
            r.1 == self.phase2_queue().len(),
    {
        (self.p1_replies.len(), self.p2_replies.len())
    }

    /// The phase-1 replies not received yet, oldest first.
    pub closed spec fn phase1_queue(&self) -> Seq<(u64, Result<HistoryView<T>, T::Time>)> {
        self.p1_replies@
    }

    /// The phase-2 replies not received yet, oldest first.
    pub closed spec fn phase2_queue(&self) -> Seq<(u64, Result<(), T::Time>)> {
        self.p2_replies@
    }

    pub fn new(acceptors: BTreeMap<u64, Acceptor<T>>) -> (r: Self)
        requires
            acceptors_wf(acceptors@),
        ensures
            r.acceptor_map() == acceptors@,
            r.phase1_queue().len() == 0,
            r.phase2_queue().len() == 0,
            r.wf(),
            r.phase1_sent().len() == 0,
            r.phase1_received().len() == 0,
            r.phase2_sent().len() == 0,
            r.phase2_received().len() == 0,
            r.steps().len() == 0,
            r.initial() == model_of(acceptors@),
    {
        Self {
            acceptors,
            p1_replies: VecDeque::new(),
            p2_replies: VecDeque::new(),
            p1_sent: Ghost(Seq::empty()),
            p1_received: Ghost(Seq::empty()),
            p2_sent: Ghost(Seq::empty()),
            p2_received: Ghost(Seq::empty()),
            all_steps: Ghost(Seq::empty()),
            initial: Ghost(model_of(acceptors@)),
        }
    }
}

impl<T: Types> Transport<T> for DirectCall<T> {
    open spec fn wf(&self) -> bool {
        &&& acceptors_wf(self.acceptor_map())
        &&& self.log_consistent()
    }

    open spec fn reaches(&self, id: u64) -> bool {
        self.acceptor_map().contains_key(id)
    }

    open spec fn phase1_pending(&self) -> nat {
        self.phase1_queue().len()
    }

    open spec fn phase2_pending(&self) -> nat {
        self.phase2_queue().len()
    }

    open spec fn phase1_replies_at(&self, t: T::Time) -> bool {
        forall|i: int|
            0 <= i < self.phase1_queue().len() ==> reply_at(
                (#[trigger] self.phase1_queue()[i]).1,
                t,
            )
    }

    proof fn lemma_replies_at_later(&self, t1: T::Time, t2: T::Time) {
        assert forall|i: int| 0 <= i < self.phase1_queue().len() implies reply_at(
            (#[trigger] self.phase1_queue()[i]).1,
            t2,
        ) by {
            assert(reply_at(self.phase1_queue()[i].1, t1));
            if self.phase1_queue()[i].1 is Ok {
                let ev = self.phase1_queue()[i].1->Ok_0.history().events();
                lemma_below_none_later(ev, t1, t2);
            }
        }
    }

    closed spec fn initial(&self) -> Map<u64, (Set<T::Time>, Map<T::Time, T::Event>)> {
        self.initial@
    }

    closed spec fn steps(&self) -> Seq<TransportStep<T>> {
        self.all_steps@
    }

    closed spec fn phase1_sent(&self) -> Seq<(u64, T::Time)> {
        self.p1_sent@
    }

    closed spec fn phase1_received(&self) -> Seq<(u64, Result<HistoryView<T>, T::Time>)> {
        self.p1_received@
    }

    closed spec fn phase2_sent(&self) -> Seq<(u64, T::Time, Map<T::Time, T::Event>)> {
        self.p2_sent@
    }

    closed spec fn phase2_received(&self) -> Seq<(u64, Result<(), T::Time>)> {
        self.p2_received@
    }

    /// The target acceptor handles the request; its reply is queued.
    fn send_phase1_request(&mut self, target: u64, t: T::Time)
        ensures
            final(self).acceptor_map().dom() == old(self).acceptor_map().dom(),
            forall|id: u64|
                #![trigger final(self).acceptor_map()[id]]
                id != target && old(self).acceptor_map().contains_key(id)
                    ==> final(self).acceptor_map()[id] == old(self).acceptor_map()[id],
            final(self).phase2_queue() == old(self).phase2_queue(),
            final(self).phase1_queue().drop_last() == old(self).phase1_queue(),
            final(self).phase1_queue().last().0 == target,
            phase1_handled(
                old(self).acceptor_map()[target],
                final(self).acceptor_map()[target],
                t,
                final(self).phase1_queue().last().1,
            ),
    {
        let mut acceptor = self.acceptors.remove(&target).unwrap();
        let reply = acceptor.handle_phase1_request(t);
        proof {
            if reply is Ok {
                let v = reply->Ok_0;
                assert(events_at_or_below(v.history().events(), t) =~= v.history().events());
                lemma_at_or_below_none_later(old(self).acceptors@[target].history.events(), t);
            }
        }
        let ghost b = acceptor;
        let ghost st = self.all_steps@;
        let ghost m0 = model_of(old(self).acceptors@);
        proof {
            lemma_log_fits_push(
                self.initial@,
                st,
                TransportStep::<T>::Phase1Request(target, t),
                self.p1_received@ + self.p1_replies@,
                self.p1_sent@,
                self.p2_received@ + self.p2_replies@,
                self.p2_sent@,
            );
            assert(model_of(old(self).acceptors@).contains_key(target));
            lemma_phase1_log_extend(
                self.initial@,
                st,
                self.p1_received@ + self.p1_replies@,
                self.p1_sent@,
                target,
                t,
                reply,
            );
        }
        self.acceptors.insert(target, acceptor);
        let ghost q = self.p1_replies@;
        self.p1_replies.push_back((target, reply));
        self.p1_sent = Ghost(self.p1_sent@.push((target, t)));
        self.all_steps = Ghost(self.all_steps@.push(TransportStep::Phase1Request(target, t)));
        proof {
            assert forall|i: int| 0 <= i < self.p1_replies@.len() implies reply_at(
                (#[trigger] self.p1_replies@[i]).1,
                t,
            ) by {
                if i < q.len() {
                    assert(self.p1_replies@[i] == q[i]);
                    assert(reply_at(old(self).phase1_queue()[i].1, t));
                } else {
                    assert(self.p1_replies@[i] == (target, reply));
                }
            }
            assert(self.acceptors@.dom() =~= old(self).acceptors@.dom());
            assert(self.acceptors@ =~= old(self).acceptors@.insert(target, b));
            lemma_model_insert(old(self).acceptors@, target, b);
            let a = old(self).acceptors@[target];
            if !committable(a.forbidden(), t) {
                assert(m0.insert(target, (b.forbidden(), b.history.events())) =~= m0);
            }
            assert(self.p1_received@ + self.p1_replies@ =~= (old(self).p1_received@
                + old(self).p1_replies@).push((target, reply)));
        }
    }

    /// Receives the oldest phase-1 reply.
    fn recv_phase1_reply(&mut self) -> (r: (u64, Result<HistoryView<T>, T::Time>))
        ensures
            r == old(self).phase1_queue()[0],
            final(self).phase1_queue() == old(self).phase1_queue().drop_first(),
            final(self).phase2_queue() == old(self).phase2_queue(),
            final(self).acceptor_map() == old(self).acceptor_map(),
    {
        let ghost q = self.p1_replies@;
        let r = self.p1_replies.pop_front().unwrap();
        proof {
            lemma_log_fits_push(
                self.initial@,
                self.all_steps@,
                TransportStep::<T>::Phase1Reply(r.0, r.1),
                self.p1_received@ + q,
                self.p1_sent@,
                self.p2_received@ + self.p2_replies@,
                self.p2_sent@,
            );
            assert(self.p1_received@.push(r) + self.p1_replies@ =~= self.p1_received@ + q);
        }
        self.p1_received = Ghost(self.p1_received@.push(r));
        self.all_steps = Ghost(self.all_steps@.push(TransportStep::Phase1Reply(r.0, r.1)));
        proof {
            assert forall|t: T::Time| #[trigger] old(self).phase1_replies_at(t) implies self.phase1_replies_at(
                t,
            ) && reply_at(r.1, t) by {
                assert(q[0] == r);
                assert forall|i: int| 0 <= i < self.p1_replies@.len() implies reply_at(
                    (#[trigger] self.p1_replies@[i]).1,
                    t,
                ) by {
                    assert(self.p1_replies@[i] == q[i + 1]);
                }
            }
        }
        r
    }

    /// The target acceptor handles the request; its reply is queued.
    fn send_phase2_request(&mut self, target: u64, decided: Decided<T>)
        ensures
            final(self).acceptor_map().dom() == old(self).acceptor_map().dom(),
            forall|id: u64|
                #![trigger final(self).acceptor_map()[id]]
                id != target && old(self).acceptor_map().contains_key(id)
                    ==> final(self).acceptor_map()[id] == old(self).acceptor_map()[id],
            final(self).phase1_queue() == old(self).phase1_queue(),
            final(self).phase2_queue().drop_last() == old(self).phase2_queue(),
            final(self).phase2_queue().last().0 == target,
            phase2_handled(
                old(self).acceptor_map()[target],
                final(self).acceptor_map()[target],
                decided,
                final(self).phase2_queue().last().1,
            ),
    {
        let ghost entry = (target, decided.time(), decided.history().events());
        let mut acceptor = self.acceptors.remove(&target).unwrap();
        let reply = acceptor.handle_phase2_request(decided);
        let ghost b = acceptor;
        let ghost st = self.all_steps@;
        let ghost m0 = model_of(old(self).acceptors@);
        proof {
            lemma_log_fits_push(
                self.initial@,
                st,
                TransportStep::<T>::Phase2Request(entry.0, entry.1, entry.2),
                self.p1_received@ + self.p1_replies@,
                self.p1_sent@,
                self.p2_received@ + self.p2_replies@,
                self.p2_sent@,
            );
            assert(model_of(old(self).acceptors@).contains_key(target));
            lemma_phase2_log_extend(
                self.initial@,
                st,
                self.p2_received@ + self.p2_replies@,
                self.p2_sent@,
                target,
                entry.1,
                entry.2,
                reply,
            );
        }
        self.acceptors.insert(target, acceptor);
        self.p2_replies.push_back((target, reply));
        self.p2_sent = Ghost(self.p2_sent@.push(entry));
        self.all_steps = Ghost(
            self.all_steps@.push(TransportStep::Phase2Request(entry.0, entry.1, entry.2)),
        );
        proof {
            assert(self.acceptors@.dom() =~= old(self).acceptors@.dom());
            assert(self.acceptors@ =~= old(self).acceptors@.insert(target, b));
            lemma_model_insert(old(self).acceptors@, target, b);
            let a = old(self).acceptors@[target];
            if !committable(a.forbidden(), entry.1) {
                assert(m0.insert(target, (b.forbidden(), b.history.events())) =~= m0);
            }
            assert(self.p2_received@ + self.p2_replies@ =~= (old(self).p2_received@
                + old(self).p2_replies@).push((target, reply)));
        }
    }

    /// Receives the oldest phase-2 reply.
    fn recv_phase2_reply(&mut self) -> (r: (u64, Result<(), T::Time>))
        ensures
            r == old(self).phase2_queue()[0],
            final(self).phase2_queue() == old(self).phase2_queue().drop_first(),
            final(self).phase1_queue() == old(self).phase1_queue(),
            final(self).acceptor_map() == old(self).acceptor_map(),
    {
        let ghost q2 = self.p2_replies@;
        let r = self.p2_replies.pop_front().unwrap();
        proof {
            lemma_log_fits_push(
                self.initial@,
                self.all_steps@,
                TransportStep::<T>::Phase2Reply(r.0, r.1),
                self.p1_received@ + self.p1_replies@,
                self.p1_sent@,
                self.p2_received@ + q2,
                self.p2_sent@,
            );
            assert(self.p2_received@.push(r) + self.p2_replies@ =~= self.p2_received@ + q2);
        }
        self.p2_received = Ghost(self.p2_received@.push(r));
        self.all_steps = Ghost(self.all_steps@.push(TransportStep::Phase2Reply(r.0, r.1)));
        proof {
            assert(self.p1_replies@ == old(self).p1_replies@);
            assert forall|t: T::Time| #[trigger]
                old(self).phase1_replies_at(t) implies self.phase1_replies_at(t) by {
                assert forall|i: int| 0 <= i < self.p1_replies@.len() implies reply_at(
                    (#[trigger] self.p1_replies@[i]).1,
                    t,
                ) by {
                    assert(reply_at(old(self).phase1_queue()[i].1, t));
                }
            }
        }
        r
    }
}

} // verus!
