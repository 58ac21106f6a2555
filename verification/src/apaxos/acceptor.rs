use vstd::prelude::*;

use crate::apaxos::decided::Decided;
use crate::apaxos::greater_equal::gt_spec;
use crate::apaxos::greater_equal::GreaterEqual;
use crate::apaxos::history::can_add_at;
use crate::apaxos::history::events_at_or_below;
use crate::apaxos::history::History;
use crate::apaxos::history_view::history_view;
use crate::apaxos::history_view::HistoryView;
use crate::apaxos::ptime::time_lt;
use crate::apaxos::ptime::Time;
use crate::Types;

verus! {

broadcast use vstd::seq_lib::group_seq_properties;

/// An acceptor stores the history that proposers write to it, and the times
/// it has promised not to let anything earlier commit at.
#[derive(Clone, Debug)]
pub struct Acceptor<T: Types> {
    /// A Time that is smaller than any one of these time
    /// is not allow to commit.
    ///
    /// No time occurs twice.
    pub forbidden_commit_time: Vec<T::Time>,

    pub history: T::History,
}

/// It is allowed to commit at `time` under the forbidden times `forbidden`:
/// none of them is greater than `time`.
pub open spec fn committable<Tm: Time>(forbidden: Set<Tm>, time: Tm) -> bool {
    !(exists|t: Tm| #[trigger] forbidden.contains(t) && gt_spec(t, time))
}

/// The forbidden times after forbidding the times smaller than `time`: `time`
/// is added and every time smaller than it is dropped.
pub open spec fn forbid_smaller<Tm: Time>(forbidden: Set<Tm>, time: Tm) -> Set<Tm> {
    forbidden.filter(|t: Tm| !time_lt(t, time)).insert(time)
}

/// Every time of `f1` is less than or equal to a time of `f2`.
pub open spec fn dominated_by<Tm: GreaterEqual>(f1: Set<Tm>, f2: Set<Tm>) -> bool {
    forall|x: Tm| #[trigger] f1.contains(x) ==> exists|y: Tm| #[trigger] f2.contains(y) && y.ge_spec(&x)
}

/// Forbidding the times smaller than `t` keeps a time greater than or equal
/// to every time forbidden before.
pub proof fn lemma_forbid_smaller_dominates<Tm: Time>(forbidden: Set<Tm>, t: Tm)
    ensures
        dominated_by(forbidden, forbid_smaller(forbidden, t)),
{
    let f2 = forbid_smaller(forbidden, t);
    assert forall|x: Tm| #[trigger] forbidden.contains(x) implies exists|y: Tm| #[trigger]
        f2.contains(y) && y.ge_spec(&x) by {
        if time_lt(x, t) {
            assert(f2.contains(t));
        } else {
            Tm::lemma_reflexive(x);
            assert(f2.contains(x));
        }
    }
}

/// Every set of times dominates itself.
pub proof fn lemma_dominated_by_self<Tm: Time>(f: Set<Tm>)
    ensures
        dominated_by(f, f),
{
    assert forall|x: Tm| #[trigger] f.contains(x) implies exists|y: Tm| #[trigger] f.contains(y)
        && y.ge_spec(&x) by {
        Tm::lemma_reflexive(x);
    }
}

impl<T: Types> Acceptor<T> {
    /// The forbidden times, as a set.
    pub open spec fn forbidden(&self) -> Set<T::Time> {
        self.forbidden_commit_time@.to_set()
    }

    /// The history is consistent and no forbidden time occurs twice.
    pub open spec fn wf(&self) -> bool {
        &&& self.history.wf()
        &&& self.forbidden_commit_time@.no_duplicates()
    }

    /// An acceptor with no forbidden time and an empty history.
    pub fn new() -> (r: Self)
        ensures
            r.wf(),
            r.forbidden() == Set::<T::Time>::empty(),
            r.history.events() == Map::<T::Time, T::Event>::empty(),
    {
        let r = Acceptor { forbidden_commit_time: Vec::new(), history: T::History::new_empty() };
        proof {
            assert(r.forbidden() =~= Set::<T::Time>::empty());
        }
        r
    }

    /// Handle the phase-1 request from a
    /// [`Proposer`](crate::apaxos::proposer::Proposer), i.e., set up a new
    /// [`Time`] point.
    ///
    /// Returns a history view for appending new event if it is allowed to
    /// commit. Otherwise, returns the [`Time`] that disables this proposal,
    /// and nothing changes.
    pub fn handle_phase1_request(&mut self, commit_time: T::Time) -> (r: Result<
        HistoryView<T>,
        T::Time,
    >)
        requires
            old(self).wf(),
        ensures
            final(self).wf(),
            final(self).history == old(self).history,
            dominated_by(old(self).forbidden(), final(self).forbidden()),
            r is Ok <==> committable(old(self).forbidden(), commit_time),
            match r {
                Ok(view) => {
                    &&& final(self).forbidden() == forbid_smaller(old(self).forbidden(), commit_time)
                    &&& view.time() == commit_time
                    &&& view.history().wf()
                    &&& view.history().events() == events_at_or_below(
                        old(self).history.events(),
                        commit_time,
                    )
                    &&& can_add_at(view.history(), commit_time)
                },
                Err(t) => {
                    &&& old(self).forbidden().contains(t)
                    &&& gt_spec(t, commit_time)
                    &&& final(self).forbidden_commit_time == old(self).forbidden_commit_time
                },
            },
    {
        match self.check_committable(&commit_time) {
            Err(t) => {
                proof {
                    lemma_dominated_by_self(self.forbidden());
                }
                return Err(t);
            },
            Ok(()) => {},
        }

        self.forbid_smaller_commit_time(commit_time);
        proof {
            lemma_forbid_smaller_dominates(old(self).forbidden(), commit_time);
        }

        Ok(history_view(&self.history, commit_time))
    }

    /// Handle the phase-2 request: merge the decided history into this
    /// acceptor's, if it is allowed to commit at its head time. Otherwise,
    /// returns the [`Time`] that disables it, and nothing changes.
    pub fn handle_phase2_request(&mut self, decided: Decided<T>) -> (r: Result<(), T::Time>)
        requires
            old(self).wf(),
            decided.history().wf(),
        ensures
            final(self).wf(),
            final(self).forbidden_commit_time == old(self).forbidden_commit_time,
            dominated_by(old(self).forbidden(), final(self).forbidden()),
            r is Ok <==> committable(old(self).forbidden(), decided.time()),
            match r {
                Ok(()) => final(self).history.events() == T::History::merge_spec(old(self).history.events(),
                    decided.history().events(),
                ),
                Err(t) => {
                    &&& old(self).forbidden().contains(t)
                    &&& gt_spec(t, decided.time())
                    &&& final(self).history == old(self).history
                },
            },
    {
        proof {
            lemma_dominated_by_self(self.forbidden());
        }
        let new_written_time = decided.head_time();
        match self.check_committable(&new_written_time) {
            Err(t) => {
                return Err(t);
            },
            Ok(()) => {},
        }

        self.history.merge(decided.into_history());

        Ok(())
    }

    /// Forbids committing at any time smaller than `time`.
    pub fn forbid_smaller_commit_time(&mut self, time: T::Time)
        requires
            old(self).wf(),
        ensures
            final(self).wf(),
            final(self).history == old(self).history,
            final(self).forbidden() == forbid_smaller(old(self).forbidden(), time),
    {
        let mut kept: Vec<T::Time> = Vec::new();
        let mut i: usize = 0;
        while i < self.forbidden_commit_time.len()
            invariant
                0 <= i <= self.forbidden_commit_time@.len(),
                self.forbidden_commit_time@.no_duplicates(),
                kept@.no_duplicates(),
                !kept@.contains(time),
                forall|x: T::Time| #[trigger]
                    kept@.contains(x) <==> self.forbidden_commit_time@.take(i as int).contains(x)
                        && !time_lt(x, time) && x != time,
            decreases self.forbidden_commit_time.len() - i,
        {
            let t = self.forbidden_commit_time[i];
            proof {
                assert(self.forbidden_commit_time@.take(i + 1) =~= self.forbidden_commit_time@.take(
                    i as int,
                ).push(t));
                assert(!self.forbidden_commit_time@.take(i as int).contains(t));
            }
            if !time.is_gt(&t) && !t.equals(&time) {
                proof {
                    assert(!kept@.contains(t));
                }
                kept.push(t);
            }
            i += 1;
        }
        proof {
            assert(self.forbidden_commit_time@.take(self.forbidden_commit_time@.len() as int)
                =~= self.forbidden_commit_time@);
        }
        let ghost before = kept@;
        kept.push(time);
        proof {
            assert forall|x: T::Time| kept@.to_set().contains(x) <==> forbid_smaller(
                old(self).forbidden(),
                time,
            ).contains(x) by {
                if x != time && forbid_smaller(old(self).forbidden(), time).contains(x) {
                    assert(old(self).forbidden_commit_time@.contains(x));
                    assert(before.contains(x));
                }
            }
            assert(kept@.to_set() =~= forbid_smaller(old(self).forbidden(), time));
        }
        self.forbidden_commit_time = kept;
    }

    /// Check it is allowed to commit at the specified time: no forbidden
    /// time is greater than it. Otherwise returns a forbidden time that is
    /// greater.
    pub fn check_committable(&self, time: &T::Time) -> (r: Result<(), T::Time>)
        ensures
            r is Ok <==> committable(self.forbidden(), *time),
            r matches Err(t) ==> self.forbidden().contains(t) && gt_spec(t, *time),
    {
        let mut i: usize = 0;
        while i < self.forbidden_commit_time.len()
            invariant
                0 <= i <= self.forbidden_commit_time@.len(),
                forall|j: int|
                    0 <= j < i ==> !gt_spec(#[trigger] self.forbidden_commit_time@[j], *time),
            decreases self.forbidden_commit_time.len() - i,
        {
            let t = self.forbidden_commit_time[i];
            if t.is_gt(time) {
                proof {
                    assert(self.forbidden_commit_time@.contains(t));
                    assert(self.forbidden().contains(t));
                }
                return Err(t);
            }
            i += 1;
        }
        proof {
            assert forall|t: T::Time| #[trigger] self.forbidden().contains(t) implies !gt_spec(
                t,
                *time,
            ) by {
                let k = choose|k: int|
                    0 <= k < self.forbidden_commit_time@.len() && self.forbidden_commit_time@[k]
                        == t;
            }
        }
        Ok(())
    }
}

impl<T: Types> Default for Acceptor<T> {
    fn default() -> (r: Self)
        ensures
            r.wf(),
            r.forbidden() == Set::<T::Time>::empty(),
            r.history.events() == Map::<T::Time, T::Event>::empty(),
    {
        Acceptor::new()
    }
}

/// Once an acceptor has granted phase-1 at `t`, it rejects every later
/// phase-2 request whose head time is smaller than `t`: the forbidden times
/// after phase-1 at `t` leave no time below `t` committable.
pub proof fn law_phase1_forbids_smaller<Tm: Time>(forbidden: Set<Tm>, t: Tm, s: Tm)
    requires
        time_lt(s, t),
    ensures
        !committable(forbid_smaller(forbidden, t), s),
{
    assert(forbid_smaller(forbidden, t).contains(t));
}

/// A time that an acceptor refuses to commit at stays refused: the forbidden
/// times only grow in the order of [`dominated_by`] (see the contracts of
/// [`Acceptor::handle_phase1_request`] and
/// [`Acceptor::handle_phase2_request`]), and a time that is not committable
/// under some forbidden times is not committable under times that dominate
/// them.
pub proof fn law_never_undercut<Tm: Time>(f1: Set<Tm>, f2: Set<Tm>, s: Tm)
    requires
        dominated_by(f1, f2),
        !committable(f1, s),
    ensures
        !committable(f2, s),
{
    let x = choose|x: Tm| #[trigger] f1.contains(x) && gt_spec(x, s);
    let y = choose|y: Tm| #[trigger] f2.contains(y) && y.ge_spec(&x);
    Tm::lemma_transitive(y, x, s);
    if y == s {
        Tm::lemma_antisymmetric(x, s);
    }
    assert(f2.contains(y) && gt_spec(y, s));
}

/// A granted time is never undercut, over any sequence of requests: let
/// `fs` be the forbidden times of an acceptor after each request it
/// handles, in order (each handler keeps the new ones [`dominated_by`]-above
/// the old ones), the first of them holding a time `t1` it granted. Then a
/// time `s` smaller than `t1` is not committable in any of them.
pub proof fn law_granted_never_undercut<Tm: Time>(fs: Seq<Set<Tm>>, t1: Tm, s: Tm)
    requires
        fs.len() > 0,
        fs[0].contains(t1),
        time_lt(s, t1),
        forall|i: int| 0 <= i < fs.len() - 1 ==> dominated_by(#[trigger] fs[i], fs[i + 1]),
    ensures
        forall|i: int| 0 <= i < fs.len() ==> !committable(#[trigger] fs[i], s),
    decreases fs.len(),
{
    if fs.len() == 1 {
        assert(fs[0].contains(t1) && gt_spec(t1, s));
    } else {
        let prefix = fs.drop_last();
        assert forall|i: int| 0 <= i < prefix.len() - 1 implies dominated_by(
            #[trigger] prefix[i],
            prefix[i + 1],
        ) by {
            assert(prefix[i] == fs[i] && prefix[i + 1] == fs[i + 1]);
        }
        law_granted_never_undercut(prefix, t1, s);
        let n = fs.len() - 1;
        assert(prefix[n - 1] == fs[n - 1]);
        assert(dominated_by(fs[n - 1], fs[n]));
        law_never_undercut(fs[n - 1], fs[n], s);
        assert forall|i: int| 0 <= i < fs.len() implies !committable(#[trigger] fs[i], s) by {
            if i < n {
                assert(prefix[i] == fs[i]);
            }
        }
    }
}

/// Domination is transitive: over any sequence of requests, the forbidden
/// times at the end dominate those of every earlier state.
pub proof fn law_dominated_transitive<Tm: Time>(f1: Set<Tm>, f2: Set<Tm>, f3: Set<Tm>)
    requires
        dominated_by(f1, f2),
        dominated_by(f2, f3),
    ensures
        dominated_by(f1, f3),
{
    assert forall|x: Tm| #[trigger] f1.contains(x) implies exists|z: Tm| #[trigger] f3.contains(z)
        && z.ge_spec(&x) by {
        let y = choose|y: Tm| #[trigger] f2.contains(y) && y.ge_spec(&x);
        let z = choose|z: Tm| #[trigger] f3.contains(z) && z.ge_spec(&y);
        Tm::lemma_transitive(z, y, x);
    }
}

/// A time that was committable stays committable after forbidding times
/// smaller than a time it is greater than or equal to.
pub proof fn law_forbid_keeps_greater_committable<Tm: Time>(forbidden: Set<Tm>, t: Tm, s: Tm)
    requires
        committable(forbidden, s),
        s.ge_spec(&t),
    ensures
        committable(forbid_smaller(forbidden, t), s),
{
    if !committable(forbid_smaller(forbidden, t), s) {
        let x = choose|x: Tm| #[trigger] forbid_smaller(forbidden, t).contains(x) && gt_spec(x, s);
        if x == t {
            Tm::lemma_antisymmetric(s, t);
        } else {
            assert(forbidden.contains(x));
        }
    }
}

} // verus!
