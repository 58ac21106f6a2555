use vstd::prelude::*;

use crate::apaxos::errors::TimeRegression;
use crate::apaxos::greater_equal::gt_spec;
use crate::apaxos::greater_equal::GreaterEqual;
use crate::apaxos::ptime::at_or_below;
use crate::apaxos::ptime::lemma_below_some_maximal;
use crate::apaxos::ptime::maximal_elements;
use crate::apaxos::ptime::time_lt;
use crate::apaxos::ptime::Time;
use crate::Value;

verus! {

/// The times of a sequence of `(time, event)` pairs.
pub open spec fn times_of<Tm, E>(s: Seq<(Tm, E)>) -> Seq<Tm> {
    s.map_values(|p: (Tm, E)| p.0)
}

/// The times of `s` that are less than or equal to some time in `keep`.
pub open spec fn below_any<Tm: GreaterEqual>(s: Set<Tm>, keep: Set<Tm>) -> Set<Tm> {
    s.filter(|t: Tm| exists|k: Tm| #[trigger] keep.contains(k) && k.ge_spec(&t))
}

/// The maximal times of `a` that no time of `b` is greater than.
pub open spec fn kept_of_first<Tm: GreaterEqual, E>(a: Map<Tm, E>, b: Map<Tm, E>) -> Set<Tm> {
    maximal_elements(a.dom()).filter(
        |m: Tm| !(exists|u: Tm| #[trigger] b.dom().contains(u) && gt_spec(u, m)),
    )
}

/// The maximal times of `b` that no time of `a` is greater than.
pub open spec fn kept_of_second<Tm: GreaterEqual, E>(a: Map<Tm, E>, b: Map<Tm, E>) -> Set<Tm> {
    maximal_elements(b.dom()).filter(|o: Tm| !(exists|u: Tm| #[trigger] a.dom().contains(u) && gt_spec(u, o)))
}

/// The events of merging history `b` into history `a`, where branches are
/// united.
///
/// A maximal branch of either side is dropped when the other side has a
/// greater time. What is left of both is united; on a time that both keep,
/// `b`'s event is taken.
pub open spec fn merged_events<Tm: GreaterEqual, E>(a: Map<Tm, E>, b: Map<Tm, E>) -> Map<
    Tm,
    E,
> {
    a.restrict(below_any(a.dom(), kept_of_first(a, b))).union_prefer_right(
        b.restrict(below_any(b.dom(), kept_of_second(a, b))),
    )
}

/// The events that the merge step `dm` puts together from `acc` and the
/// branches of `h` below each of the times `ms`, in order, except the
/// branches below a time than which `other` holds a greater one.
pub open spec fn fold_branches<Tm: GreaterEqual, E>(
    dm: spec_fn(Map<Tm, E>, Map<Tm, E>) -> Map<Tm, E>,
    acc: Map<Tm, E>,
    h: Map<Tm, E>,
    ms: Seq<Tm>,
    other: Map<Tm, E>,
) -> Map<Tm, E>
    decreases ms.len(),
{
    if ms.len() == 0 {
        acc
    } else {
        let prev = fold_branches(dm, acc, h, ms.drop_last(), other);
        if exists|u: Tm| #[trigger] other.dom().contains(u) && gt_spec(u, ms.last()) {
            prev
        } else {
            dm(prev, events_at_or_below(h, ms.last()))
        }
    }
}

/// What merging `b` into `a` puts together with the merge step `dm` when
/// the maximal times of `a` are visited in the order `ma` and then those of
/// `b` in the order `mb`: the branches of `a` that `b` holds nothing greater
/// than, then those of `b` that `a` holds nothing greater than.
pub open spec fn merged_by_branches<Tm: GreaterEqual, E>(
    dm: spec_fn(Map<Tm, E>, Map<Tm, E>) -> Map<Tm, E>,
    a: Map<Tm, E>,
    b: Map<Tm, E>,
    ma: Seq<Tm>,
    mb: Seq<Tm>,
) -> Map<Tm, E> {
    fold_branches(dm, fold_branches(dm, Map::empty(), a, ma, b), b, mb, a)
}

/// The events of `m` at or before `t`.
pub open spec fn events_at_or_below<Tm: GreaterEqual, E>(m: Map<Tm, E>, t: Tm) -> Map<Tm, E> {
    m.restrict(at_or_below(m.dom(), t))
}

/// `m` holds a time greater than or equal to `x`.
pub open spec fn reaches_time<Tm: GreaterEqual, E>(m: Map<Tm, E>, x: Tm) -> bool {
    exists|u: Tm| #[trigger] m.dom().contains(u) && u.ge_spec(&x)
}

/// No time of `m` is later than `t`: each is less than or equal to `t`, or
/// not ordered with it.
pub open spec fn none_later<Tm: GreaterEqual, E>(m: Map<Tm, E>, t: Tm) -> bool {
    forall|u: Tm| #[trigger] m.dom().contains(u) ==> !time_lt(t, u)
}

/// The events at or before `t` hold nothing later than `t`, nor later than
/// any time `t2` after `t`.
pub proof fn lemma_below_none_later<Tm: Time, E>(m: Map<Tm, E>, t: Tm, t2: Tm)
    requires
        none_later(m, t),
        t2.ge_spec(&t),
    ensures
        none_later(events_at_or_below(m, t), t),
        none_later(m, t2),
{
    assert forall|u: Tm| #[trigger] events_at_or_below(m, t).dom().contains(u) implies !time_lt(t, u) by {
        if time_lt(t, u) {
            Tm::lemma_antisymmetric(u, t);
        }
    }
    assert forall|u: Tm| #[trigger] m.dom().contains(u) implies !time_lt(t2, u) by {
        if time_lt(t2, u) {
            Tm::lemma_transitive(u, t2, t);
            if u == t {
                Tm::lemma_antisymmetric(t, t2);
            }
            assert(time_lt(t, u));
        }
    }
}

/// The events at or before `t` hold nothing later than `t`.
pub proof fn lemma_at_or_below_none_later<Tm: Time, E>(m: Map<Tm, E>, t: Tm)
    ensures
        none_later(events_at_or_below(m, t), t),
{
    assert forall|u: Tm| #[trigger] events_at_or_below(m, t).dom().contains(u) implies !time_lt(t, u) by {
        if time_lt(t, u) {
            Tm::lemma_antisymmetric(u, t);
        }
    }
}

/// Merging two histories with nothing later than `t` gives one with
/// nothing later than `t`.
pub proof fn lemma_merged_within<Tm: Time, E: Value, H: History<Tm, E>>(a: Map<Tm, E>, b: Map<Tm, E>, t: Tm)
    requires
        none_later(a, t),
        none_later(b, t),
    ensures
        none_later(H::merge_spec(a, b), t),
{
    H::lemma_merge_within(a, b);
}

/// The events `m` of a history of kind `H` after an event is added at time
/// `t`, unless one is there already.
pub open spec fn events_with<Tm: Time, E: Value, H: History<Tm, E>>(m: Map<Tm, E>, t: Tm, event: E) -> Map<
    Tm,
    E,
> {
    if m.contains_key(t) {
        m
    } else {
        m.insert(t, H::stored_event(m, t, event))
    }
}

/// An event can be added to `h` at `t`: `t` already has one, or no time of
/// `h` is greater than `t`.
pub open spec fn can_add_at<Tm: Time, E: Value, H: History<Tm, E>>(h: H, t: Tm) -> bool {
    &&& h.wf()
    &&& (h.events().contains_key(t) || forall|u: Tm| #[trigger]
        h.events().dom().contains(u) ==> !time_lt(t, u))
}

/// After keeping only the events at or before `t`, an event can be added at
/// `t`.
pub proof fn lemma_can_add_below<Tm: Time, E: Value, H: History<Tm, E>>(h: H, t: Tm)
    requires
        h.wf(),
        h.events() == events_at_or_below(h.events(), t),
    ensures
        can_add_at(h, t),
{
    assert forall|u: Tm| #[trigger] h.events().dom().contains(u) implies !time_lt(t, u) by {
        assert(t.ge_spec(&u));
        if time_lt(t, u) {
            Tm::lemma_antisymmetric(t, u);
        }
    }
}

/// A [`History`] contains [`Time`] and event pairs in a partially ordered set.
///
/// [`History`] is used by an [`Acceptor`](crate::apaxos::acceptor::Acceptor)
/// to store the [`Time`] and event pairs.
/// It represents the causal history of events in a distributed system.
///
/// `events` is the content of a history: which event happened at which
/// time.
pub trait History<Tm: Time, E: Value>: Sized + Clone + core::fmt::Debug + Default {
    /// Which event happened at which time.
    spec fn events(&self) -> Map<Tm, E>;

    /// The internal state is consistent.
    spec fn wf(&self) -> bool;

    /// The event that [`do_append`](Self::do_append) stores in a history
    /// with events `events` when it is asked to append `event` at `time`.
    spec fn stored_event(events: Map<Tm, E>, time: Tm, event: E) -> E;

    /// The events after [`do_merge`](Self::do_merge) merges `b` into `a`.
    spec fn do_merge_spec(a: Map<Tm, E>, b: Map<Tm, E>) -> Map<Tm, E>;

    /// The events after [`merge`](Self::merge) merges `b` into `a`.
    spec fn merge_spec(a: Map<Tm, E>, b: Map<Tm, E>) -> Map<Tm, E>;

    /// A merge holds no time that neither side holds.
    proof fn lemma_merge_within(a: Map<Tm, E>, b: Map<Tm, E>)
        ensures
            forall|u: Tm| #[trigger]
                Self::merge_spec(a, b).dom().contains(u) ==> a.dom().contains(u) || b.dom().contains(
                    u,
                ),
    ;

    /// A merge loses no height: when either side holds a time greater than
    /// or equal to `x`, so does the merge.
    proof fn lemma_merge_keeps_greater(a: Map<Tm, E>, b: Map<Tm, E>, x: Tm)
        requires
            a.dom().finite(),
            b.dom().finite(),
            reaches_time(a, x) || reaches_time(b, x),
        ensures
            reaches_time(Self::merge_spec(a, b), x),
    ;

    /// Merging a history with an equal copy changes nothing.
    proof fn lemma_merge_with_itself(a: Map<Tm, E>)
        requires
            a.dom().finite(),
        ensures
            Self::merge_spec(a, a) == a,
    ;

    /// Merging an empty history into a history, or a history into an empty
    /// one, gives that history.
    proof fn lemma_merge_with_empty(a: Map<Tm, E>)
        requires
            a.dom().finite(),
        ensures
            Self::merge_spec(a, Map::empty()) == a,
            Self::merge_spec(Map::empty(), a) == a,
    ;

    proof fn lemma_wf_finite(&self)
        requires
            self.wf(),
        ensures
            self.events().dom().finite(),
    ;

    /// An empty history.
    fn new_empty() -> (r: Self)
        ensures
            r.wf(),
            r.events() == Map::<Tm, E>::empty(),
    ;

    /// A copy of the history.
    fn clone_history(&self) -> (r: Self)
        requires
            self.wf(),
        ensures
            r.wf(),
            r.events() == self.events(),
    ;

    /// Stores an event at `time`: the one that `stored_event` names, in
    /// place of what was there.
    fn do_append(&mut self, time: Tm, event: E)
        requires
            old(self).wf(),
        ensures
            final(self).wf(),
            final(self).events() == old(self).events().insert(
                time,
                Self::stored_event(old(self).events(), time, event),
            ),
    ;

    /// Returns the event at `time`.
    fn get(&self, time: &Tm) -> (r: Option<&E>)
        requires
            self.wf(),
        ensures
            match r {
                Some(e) => self.events().contains_key(*time) && self.events()[*time] == *e,
                None => !self.events().contains_key(*time),
            },
    ;

    /// Return a new instance in which every [`Time`] is less than or equal
    /// to the given `time`.
    fn lower_bounds(&self, time: Tm) -> (r: Self)
        requires
            self.wf(),
        ensures
            r.wf(),
            r.events() == events_at_or_below(self.events(), time),
    ;

    /// Return the maximal [`Time`] and event pairs in the history.
    ///
    /// `maximal` is defined as:
    /// g in P is a maximal element:
    /// if there is no element a in P such that a > g
    ///
    /// All `maximal` have no order between them.
    fn maximals(&self) -> (r: Vec<(Tm, E)>)
        requires
            self.wf(),
        ensures
            times_of(r@).to_set() == maximal_elements(self.events().dom()),
            times_of(r@).no_duplicates(),
            forall|i: int|
                0 <= i < r@.len() ==> self.events().contains_key(#[trigger] r@[i].0)
                    && self.events()[r@[i].0] == r@[i].1,
    ;

    /// Merges the events of `other` into `self`, in the way that the kind of
    /// history defines (`do_merge_spec`).
    fn do_merge(&mut self, other: Self)
        requires
            old(self).wf(),
            other.wf(),
        ensures
            final(self).wf(),
            final(self).events() == Self::do_merge_spec(old(self).events(), other.events()),
    ;

    /// `merge_spec` is what [`merge`](Self::merge) puts together from the
    /// kept branches by [`do_merge`](Self::do_merge), whatever the order in
    /// which the maximal times of each side are visited.
    proof fn lemma_merge_by_branches(a: Map<Tm, E>, b: Map<Tm, E>, ma: Seq<Tm>, mb: Seq<Tm>)
        requires
            a.dom().finite(),
            b.dom().finite(),
            ma.to_set() == maximal_elements(a.dom()),
            ma.no_duplicates(),
            mb.to_set() == maximal_elements(b.dom()),
            mb.no_duplicates(),
        ensures
            Self::merge_spec(a, b) == merged_by_branches(
                |x: Map<Tm, E>, y: Map<Tm, E>| Self::do_merge_spec(x, y),
                a,
                b,
                ma,
                mb,
            ),
    ;

    /// Merge two [`History`]
    ///
    /// If two maximal times are ordered, the smaller one is removed, because
    /// a reader only chooses the greater branch: the branch below each
    /// maximal time of either side is kept unless the other side has a
    /// greater time, and what is kept is put together by
    /// [`do_merge`](Self::do_merge), those of `self` first.
    fn merge(&mut self, other: Self)
        requires
            old(self).wf(),
            other.wf(),
        ensures
            final(self).wf(),
            final(self).events() == Self::merge_spec(old(self).events(), other.events()),
    {
        let ghost a = self.events();
        let ghost b = other.events();
        let mut res = Self::new_empty();
        let my_maxs = self.maximal_times();
        let mut i: usize = 0;
        while i < my_maxs.len()
            invariant
                0 <= i <= my_maxs@.len(),
                res.wf(),
                self.wf(),
                other.wf(),
                a == self.events(),
                b == other.events(),
                res.events() == fold_branches(
                    |x: Map<Tm, E>, y: Map<Tm, E>| Self::do_merge_spec(x, y),
                    Map::empty(),
                    a,
                    my_maxs@.take(i as int),
                    b,
                ),
            decreases my_maxs.len() - i,
        {
            let m = my_maxs[i];
            proof {
                assert(my_maxs@.take(i + 1).drop_last() =~= my_maxs@.take(i as int));
                assert(my_maxs@.take(i + 1).last() == m);
            }
            if !other.greater_than(m) {
                let lb = self.lower_bounds(m);
                res.do_merge(lb);
            }
            i += 1;
        }
        let ghost first = res.events();
        let other_maxs = other.maximal_times();
        let mut j: usize = 0;
        while j < other_maxs.len()
            invariant
                0 <= j <= other_maxs@.len(),
                res.wf(),
                self.wf(),
                other.wf(),
                a == self.events(),
                b == other.events(),
                res.events() == fold_branches(
                    |x: Map<Tm, E>, y: Map<Tm, E>| Self::do_merge_spec(x, y),
                    first,
                    b,
                    other_maxs@.take(j as int),
                    a,
                ),
            decreases other_maxs.len() - j,
        {
            let o = other_maxs[j];
            proof {
                assert(other_maxs@.take(j + 1).drop_last() =~= other_maxs@.take(j as int));
                assert(other_maxs@.take(j + 1).last() == o);
            }
            if !self.greater_than(o) {
                let lb = other.lower_bounds(o);
                res.do_merge(lb);
            }
            j += 1;
        }
        proof {
            assert(my_maxs@.take(my_maxs@.len() as int) =~= my_maxs@);
            assert(other_maxs@.take(other_maxs@.len() as int) =~= other_maxs@);
            self.lemma_wf_finite();
            other.lemma_wf_finite();
            Self::lemma_merge_by_branches(a, b, my_maxs@, other_maxs@);
        }
        *self = res;
    }

    /// The maximal times of the history.
    fn maximal_times(&self) -> (r: Vec<Tm>)
        requires
            self.wf(),
        ensures
            r@.to_set() == maximal_elements(self.events().dom()),
            r@.no_duplicates(),
    {
        let maxs = self.maximals();
        let mut res: Vec<Tm> = Vec::new();
        let mut i: usize = 0;
        while i < maxs.len()
            invariant
                0 <= i <= maxs@.len(),
                res@ == times_of(maxs@).take(i as int),
            decreases maxs.len() - i,
        {
            res.push(maxs[i].0);
            proof {
                assert(times_of(maxs@).take(i + 1) =~= times_of(maxs@).take(i as int).push(
                    maxs@[i as int].0,
                ));
            }
            i += 1;
        }
        proof {
            assert(times_of(maxs@).take(maxs@.len() as int) =~= times_of(maxs@));
        }
        res
    }

    /// Returns a maximal time of the history that is greater than or equal to
    /// `t`, or, when `strict`, greater than `t`; `None` if it holds no such time.
    fn maximal_above(&self, t: Tm, strict: bool) -> (r: Option<Tm>)
        requires
            self.wf(),
        ensures
            match r {
                Some(m) => maximal_elements(self.events().dom()).contains(m) && above(m, t, strict),
                None => !exists|u: Tm| #[trigger] self.events().dom().contains(u) && above(u, t, strict),
            },
    {
        let maxs = self.maximal_times();
        let ghost dom = self.events().dom();
        let mut i: usize = 0;
        while i < maxs.len()
            invariant
                0 <= i <= maxs@.len(),
                maxs@.to_set() == maximal_elements(dom),
                dom == self.events().dom(),
                forall|j: int| 0 <= j < i ==> !above(#[trigger] maxs@[j], t, strict),
            decreases maxs.len() - i,
        {
            let m = maxs[i];
            let found = if strict {
                m.is_gt(&t)
            } else {
                m.greater_equal(&t)
            };
            if found {
                proof {
                    assert(maxs@.to_set().contains(maxs@[i as int]));
                }
                return Some(m);
            }
            i += 1;
        }
        proof {
            self.lemma_wf_finite();
            if exists|u: Tm| #[trigger] dom.contains(u) && above(u, t, strict) {
                let u = choose|u: Tm| #[trigger] dom.contains(u) && above(u, t, strict);
                lemma_below_some_maximal(dom, u);
                let m = choose|m: Tm| #[trigger] maximal_elements(dom).contains(m) && m.ge_spec(&u);
                Tm::lemma_transitive(m, u, t);
                if strict && m == t {
                    Tm::lemma_antisymmetric(u, t);
                }
                assert(maxs@.to_set().contains(m));
                let j = choose|j: int| 0 <= j < maxs@.len() && maxs@[j] == m;
                assert(!above(maxs@[j], t, strict));
            }
        }
        None
    }

    /// Check if a [`History`] is greater or equal to a given time.
    ///
    /// In other word, if there is a [`Time`] in this history that is greater or
    /// equal the given time.
    fn greater_equal(&self, t: Tm) -> (r: bool)
        requires
            self.wf(),
        ensures
            r == exists|u: Tm| #[trigger] self.events().dom().contains(u) && u.ge_spec(&t),
    {
        self.maximal_above(t, false).is_some()
    }

    /// Check if there is a [`Time`] in this history that is greater than
    /// the given time.
    fn greater_than(&self, t: Tm) -> (r: bool)
        requires
            self.wf(),
        ensures
            r == exists|u: Tm| #[trigger] self.events().dom().contains(u) && gt_spec(u, t),
    {
        self.maximal_above(t, true).is_some()
    }

    /// Append a new event at a specific [`Time`] in the history.
    ///
    /// The [`Time`] must not be smaller than any of the
    /// [`maximal_times()`](Self::maximal_times); otherwise the history is
    /// left unchanged and a [`TimeRegression`] names a greater maximal time.
    fn append(&mut self, time: Tm, event: E) -> (r: Result<(), TimeRegression<Tm>>)
        requires
            old(self).wf(),
        ensures
            final(self).wf(),
            r is Ok <==> !(exists|u: Tm| #[trigger]
                old(self).events().dom().contains(u) && time_lt(time, u)),
            match r {
                Ok(()) => final(self).events() == old(self).events().insert(
                    time,
                    Self::stored_event(old(self).events(), time, event),
                ),
                Err(e) => {
                    &&& e.attempted == time
                    &&& maximal_elements(old(self).events().dom()).contains(e.existing)
                    &&& time_lt(time, e.existing)
                    &&& *final(self) == *old(self)
                },
            },
    {
        match self.maximal_above(time, true) {
            Some(max_time) => Err(TimeRegression::new(time, max_time)),
            None => {
                self.do_append(time, event);
                Ok(())
            },
        }
    }
}

/// `u >= t`, or `u > t` when `strict`.
pub open spec fn above<Tm: GreaterEqual>(u: Tm, t: Tm, strict: bool) -> bool {
    u.ge_spec(&t) && (strict ==> u != t)
}

/// Merging a consistent history of any kind with an equal copy gives the
/// same history.
pub proof fn law_merge_copy_unchanged<Tm: Time, E: Value, H: History<Tm, E>>(h: H)
    requires
        h.wf(),
    ensures
        H::merge_spec(h.events(), h.events()) == h.events(),
{
    h.lemma_wf_finite();
    H::lemma_merge_with_itself(h.events());
}

/// Merging an empty history into a consistent history of any kind, or the
/// history into an empty one, gives the history.
pub proof fn law_merge_empty_unchanged<Tm: Time, E: Value, H: History<Tm, E>>(h: H)
    requires
        h.wf(),
    ensures
        H::merge_spec(h.events(), Map::empty()) == h.events(),
        H::merge_spec(Map::empty(), h.events()) == h.events(),
{
    h.lemma_wf_finite();
    H::lemma_merge_with_empty(h.events());
}

/// Merging a history with itself gives the same history ([`merged_events`]).
pub proof fn law_merge_idempotent<Tm: Time, E>(a: Map<Tm, E>)
    requires
        a.dom().finite(),
    ensures
        merged_events(a, a) == a,
{
    let d = a.dom();
    assert(kept_of_first(a, a) =~= maximal_elements(d));
    assert(kept_of_second(a, a) =~= maximal_elements(d));
    assert forall|t: Tm| #[trigger] d.contains(t) implies below_any(d, maximal_elements(d)).contains(t) by {
        lemma_below_some_maximal(d, t);
    }
    assert(below_any(d, maximal_elements(d)) =~= d);
    assert(merged_events(a, a) =~= a);
}

/// Merging an empty history into a history, or a history into an empty
/// one, gives that history ([`merged_events`]).
pub proof fn law_merge_with_empty<Tm: Time, E>(a: Map<Tm, E>)
    requires
        a.dom().finite(),
    ensures
        merged_events(a, Map::<Tm, E>::empty()) == a,
        merged_events(Map::<Tm, E>::empty(), a) == a,
{
    let d = a.dom();
    let e = Map::<Tm, E>::empty();
    assert forall|t: Tm| #[trigger] d.contains(t) implies below_any(d, maximal_elements(d)).contains(t) by {
        lemma_below_some_maximal(d, t);
    }
    assert(below_any(d, maximal_elements(d)) =~= d);
    assert(kept_of_first(a, e) =~= maximal_elements(d));
    assert(kept_of_second(a, e) =~= Set::<Tm>::empty());
    assert(below_any(d, Set::<Tm>::empty()) =~= Set::<Tm>::empty());
    assert(below_any(e.dom(), Set::<Tm>::empty()) =~= Set::<Tm>::empty());
    assert(merged_events(a, e) =~= a);
    assert(maximal_elements(e.dom()) =~= Set::<Tm>::empty());
    assert(kept_of_first(e, a) =~= Set::<Tm>::empty());
    assert(kept_of_second(e, a) =~= maximal_elements(d));
    assert(merged_events(e, a) =~= a);
}

/// A branch whose greatest time is `t` is never lost in a merge
/// ([`merged_events`]): the merged history holds a time that is greater than
/// or equal to `t`.
pub proof fn law_merge_keeps_head<Tm: Time, E>(a: Map<Tm, E>, b: Map<Tm, E>, t: Tm)
    requires
        a.dom().finite(),
        b.dom().contains(t),
        none_later(b, t),
    ensures
        exists|u: Tm| #[trigger] merged_events(a, b).dom().contains(u) && u.ge_spec(&t),
{
    let m = merged_events(a, b);
    Tm::lemma_reflexive(t);
    assert(maximal_elements(b.dom()).contains(t)) by {
        assert forall|u: Tm| #[trigger] b.dom().contains(u) implies !gt_spec(u, t) by {
            if gt_spec(u, t) {
                Tm::lemma_antisymmetric(u, t);
            }
        }
    }
    if exists|u: Tm| #[trigger] a.dom().contains(u) && u.ge_spec(&t) {
        let u = choose|u: Tm| #[trigger] a.dom().contains(u) && u.ge_spec(&t);
        lemma_below_some_maximal(a.dom(), u);
        let x = choose|x: Tm| #[trigger] maximal_elements(a.dom()).contains(x) && x.ge_spec(&u);
        Tm::lemma_transitive(x, u, t);
        assert forall|y: Tm| #[trigger] b.dom().contains(y) implies !gt_spec(y, x) by {
            if gt_spec(y, x) {
                Tm::lemma_transitive(y, x, t);
                if y == t {
                    Tm::lemma_antisymmetric(t, x);
                }
                assert(time_lt(t, y));
            }
        }
        assert(kept_of_first(a, b).contains(x));
        Tm::lemma_reflexive(x);
        assert(below_any(a.dom(), kept_of_first(a, b)).contains(x));
        assert(m.dom().contains(x));
    } else {
        assert(kept_of_second(a, b).contains(t));
        assert(below_any(b.dom(), kept_of_second(a, b)).contains(t));
        assert(m.dom().contains(t));
    }
}

/// A view at time `t1` of a view at a later time `t2` is the view at `t1`.
pub proof fn law_view_of_view<Tm: Time, E>(m: Map<Tm, E>, t1: Tm, t2: Tm)
    requires
        t2.ge_spec(&t1),
    ensures
        events_at_or_below(events_at_or_below(m, t2), t1) == events_at_or_below(m, t1),
{
    assert forall|u: Tm| #[trigger] m.dom().contains(u) && t1.ge_spec(&u) implies t2.ge_spec(&u) by {
        Tm::lemma_transitive(t2, t1, u);
    }
    assert(events_at_or_below(events_at_or_below(m, t2), t1) =~= events_at_or_below(m, t1));
}

} // verus!
