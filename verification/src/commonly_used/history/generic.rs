use vstd::prelude::*;

use crate::apaxos::greater_equal::gt_spec;
use crate::apaxos::greater_equal::GreaterEqual;
use crate::apaxos::greater_equal_map::as_map;
use crate::apaxos::greater_equal_map::insert_spec;
use crate::apaxos::greater_equal_map::keys_unique;
use crate::apaxos::greater_equal_map::lemma_as_map_finite;
use crate::apaxos::greater_equal_map::lemma_as_map_insert;
use crate::apaxos::greater_equal_map::lemma_as_map_merge;
use crate::apaxos::greater_equal_map::lemma_lookup_as_map;
use crate::apaxos::greater_equal_map::GreaterEqualMap;
use crate::apaxos::history::below_any;
use crate::apaxos::history::events_at_or_below;
use crate::apaxos::history::kept_of_first;
use crate::apaxos::history::kept_of_second;
use crate::apaxos::history::law_merge_idempotent;
use crate::apaxos::history::law_merge_with_empty;
use crate::apaxos::history::merged_events;
use crate::apaxos::history::reaches_time;
use crate::apaxos::ptime::lemma_below_some_maximal;
use crate::apaxos::history::times_of;
use crate::apaxos::history::History;
use crate::apaxos::history::fold_branches;
use crate::apaxos::ptime::at_or_below;
use crate::apaxos::ptime::lemma_maximal_elements_insert;
use crate::apaxos::ptime::maximal_elements;
use crate::apaxos::ptime::Time;
use crate::Value;

verus! {

broadcast use {vstd::seq_lib::group_seq_properties, vstd::seq::Seq::lemma_push_to_set_commute};

/// A [`History`] of a partially ordered [`Time`]: it keeps every event and
/// the set of maximal times.
#[derive(Clone, Debug)]
pub struct GenericHistory<Tm, E> {
    maximals: Vec<Tm>,
    time_events: GreaterEqualMap<Tm, E>,
}

/// The keys of a prefix of unique-keyed entries, as a map, gain one entry.
proof fn lemma_take_push<K, V>(s: Seq<(K, V)>, i: int)
    requires
        keys_unique(s),
        0 <= i < s.len(),
    ensures
        keys_unique(s.take(i)),
        keys_unique(s.take(i + 1)),
        as_map(s.take(i + 1)) == as_map(s.take(i)).insert(s[i].0, s[i].1),
        !as_map(s.take(i)).contains_key(s[i].0),
{
    let t = s.take(i);
    assert(keys_unique(t));
    assert(keys_unique(s.take(i + 1)));
    assert(!as_map(t).contains_key(s[i].0)) by {
        if as_map(t).contains_key(s[i].0) {
            let j = choose|j: int| 0 <= j < t.len() && t[j].0 == s[i].0;
            assert(s[j].0 == s[i].0);
        }
    }
    assert(insert_spec(t, s[i].0, s[i].1) =~= s.take(i + 1));
    lemma_as_map_insert(t, s[i].0, s[i].1);
}

/// Build the **maximal** times of a map of time events.
fn build_maximals<Tm: Time, E>(time_events: &GreaterEqualMap<Tm, E>) -> (r: Vec<Tm>)
    requires
        time_events.wf(),
    ensures
        r@.to_set() == maximal_elements(as_map(time_events@).dom()),
        r@.no_duplicates(),
{
    let entries = time_events.as_slice();
    let ghost s = time_events@;
    let mut maximals: Vec<Tm> = Vec::new();
    let mut i: usize = 0;
    proof {
        assert(as_map(s.take(0)).dom() =~= Set::<Tm>::empty());
        assert(maximal_elements(Set::<Tm>::empty()) =~= Set::<Tm>::empty());
    }
    while i < entries.len()
        invariant
            0 <= i <= s.len(),
            entries@ == s,
            keys_unique(s),
            maximals@.to_set() == maximal_elements(as_map(s.take(i as int)).dom()),
            maximals@.no_duplicates(),
        decreases entries.len() - i,
    {
        let time = entries[i].0;
        let ghost p = as_map(s.take(i as int)).dom();
        proof {
            lemma_take_push(s, i as int);
            lemma_as_map_finite(s.take(i as int));
            lemma_maximal_elements_insert(p, time);
            assert(as_map(s.take(i + 1)).dom() =~= p.insert(time));
        }
        let mut next: Vec<Tm> = Vec::new();
        let mut has_greater = false;
        let mut j: usize = 0;
        while j < maximals.len()
            invariant
                0 <= j <= maximals@.len(),
                maximals@.no_duplicates(),
                next@.no_duplicates(),
                forall|x: Tm| #[trigger]
                    next@.contains(x) <==> maximals@.take(j as int).contains(x) && !gt_spec(
                        time,
                        x,
                    ),
                has_greater == exists|k: int| 0 <= k < j && gt_spec(#[trigger] maximals@[k], time),
            decreases maximals.len() - j,
        {
            let max = maximals[j];
            proof {
                assert(maximals@.take(j + 1) =~= maximals@.take(j as int).push(max));
                assert(!maximals@.take(j as int).contains(max));
            }
            if !time.is_gt(&max) {
                proof {
                    assert(!next@.contains(max));
                }
                next.push(max);
            }
            if max.is_gt(&time) {
                has_greater = true;
            }
            j += 1;
        }
        proof {
            assert(maximals@.take(maximals@.len() as int) =~= maximals@);
            assert((exists|m: Tm| #[trigger]
                maximal_elements(p).contains(m) && gt_spec(m, time)) == has_greater) by {
                if has_greater {
                    let k = choose|k: int| 0 <= k < maximals@.len() && gt_spec(maximals@[k], time);
                    assert(maximals@.to_set().contains(maximals@[k]));
                }
                if exists|m: Tm| #[trigger] maximal_elements(p).contains(m) && gt_spec(m, time) {
                    let m = choose|m: Tm| #[trigger] maximal_elements(p).contains(m) && gt_spec(m, time);
                    assert(maximals@.to_set().contains(m));
                    let k = choose|k: int| 0 <= k < maximals@.len() && maximals@[k] == m;
                }
            }
        }
        if !has_greater {
            proof {
                assert(!next@.contains(time)) by {
                    Tm::lemma_reflexive(time);
                    if next@.contains(time) {
                        assert(maximals@.to_set().contains(time));
                        assert(maximal_elements(p).contains(time));
                    }
                }
            }
            next.push(time);
        }
        proof {
            let target = maximal_elements(p.insert(time));
            assert forall|x: Tm| next@.to_set().contains(x) <==> target.contains(x) by {
                if next@.contains(x) && x != time {
                    assert(maximals@.contains(x));
                    assert(maximals@.to_set().contains(x));
                }
                if target.contains(x) && x != time {
                    assert(maximal_elements(p).contains(x));
                    assert(maximals@.to_set().contains(x));
                    assert(maximals@.contains(x));
                    assert(next@.contains(x));
                }
            }
            assert(next@.to_set() =~= target);
        }
        maximals = next;
        i += 1;
    }
    proof {
        assert(s.take(s.len() as int) =~= s);
    }
    maximals
}


/// Putting together the branches of `a` below the times `ms`, but those
/// that `b` holds a greater time than, keeps `a` below the rest of them.
proof fn lemma_fold_first<Tm: Time, E: Value>(
    dm: spec_fn(Map<Tm, E>, Map<Tm, E>) -> Map<Tm, E>,
    a: Map<Tm, E>,
    b: Map<Tm, E>,
    ms: Seq<Tm>,
)
    requires
        forall|x: Map<Tm, E>, y: Map<Tm, E>| #[trigger] dm(x, y) == x.union_prefer_right(y),
    ensures
        fold_branches(
            dm,
            Map::empty(), a, ms, b) == a.restrict(
            below_any(
                a.dom(),
                ms.to_set().filter(
                    |m: Tm| !(exists|u: Tm| #[trigger] b.dom().contains(u) && gt_spec(u, m)),
                ),
            ),
        ),
    decreases ms.len(),
{
    let keep = |m: Tm| !(exists|u: Tm| #[trigger] b.dom().contains(u) && gt_spec(u, m));
    if ms.len() == 0 {
        assert(ms.to_set().filter(keep) =~= Set::<Tm>::empty());
        assert(a.restrict(below_any(a.dom(), ms.to_set().filter(keep))) =~= Map::<Tm, E>::empty());
    } else {
        let rest = ms.drop_last();
        let m = ms.last();
        lemma_fold_first(dm, a, b, rest);
        assert(ms =~= rest.push(m));
        vstd::seq::Seq::lemma_push_to_set_commute(rest, m);
        let k_old = rest.to_set().filter(keep);
        let k_new = ms.to_set().filter(keep);
        if keep(m) {
            assert(k_new =~= k_old.insert(m));
            assert forall|t: Tm| #[trigger] below_any(a.dom(), k_new).contains(t) <==> (below_any(
                a.dom(),
                k_old,
            ).contains(t) || at_or_below(a.dom(), m).contains(t)) by {
                if below_any(a.dom(), k_new).contains(t) {
                    let k = choose|k: Tm| #[trigger] k_new.contains(k) && k.ge_spec(&t);
                    if k != m {
                        assert(k_old.contains(k));
                    }
                }
                if below_any(a.dom(), k_old).contains(t) {
                    let k = choose|k: Tm| #[trigger] k_old.contains(k) && k.ge_spec(&t);
                    assert(k_new.contains(k));
                }
                if at_or_below(a.dom(), m).contains(t) {
                    assert(k_new.contains(m));
                }
            }
            assert(fold_branches(
            dm,
            Map::empty(), a, ms, b) =~= a.restrict(
                below_any(a.dom(), k_new),
            ));
        } else {
            assert(k_new =~= k_old);
        }
    }
}

/// Putting together, after `first`, the branches of `b` below the times
/// `ms`, but those that `a` holds a greater time than, adds `b` below the
/// rest of them.
proof fn lemma_fold_second<Tm: Time, E: Value>(
    dm: spec_fn(Map<Tm, E>, Map<Tm, E>) -> Map<Tm, E>,
    first: Map<Tm, E>,
    a: Map<Tm, E>,
    b: Map<Tm, E>,
    ms: Seq<Tm>,
)
    requires
        forall|x: Map<Tm, E>, y: Map<Tm, E>| #[trigger] dm(x, y) == x.union_prefer_right(y),
    ensures
        fold_branches(
            dm,
            first, b, ms, a) == first.union_prefer_right(
            b.restrict(
                below_any(
                    b.dom(),
                    ms.to_set().filter(
                        |o: Tm| !(exists|u: Tm| #[trigger] a.dom().contains(u) && gt_spec(u, o)),
                    ),
                ),
            ),
        ),
    decreases ms.len(),
{
    let keep = |o: Tm| !(exists|u: Tm| #[trigger] a.dom().contains(u) && gt_spec(u, o));
    if ms.len() == 0 {
        assert(ms.to_set().filter(keep) =~= Set::<Tm>::empty());
        assert(first.union_prefer_right(b.restrict(below_any(b.dom(), ms.to_set().filter(keep))))
            =~= first);
    } else {
        let rest = ms.drop_last();
        let o = ms.last();
        lemma_fold_second(dm, first, a, b, rest);
        assert(ms =~= rest.push(o));
        vstd::seq::Seq::lemma_push_to_set_commute(rest, o);
        let k_old = rest.to_set().filter(keep);
        let k_new = ms.to_set().filter(keep);
        if keep(o) {
            assert(k_new =~= k_old.insert(o));
            assert forall|t: Tm| #[trigger] below_any(b.dom(), k_new).contains(t) <==> (below_any(
                b.dom(),
                k_old,
            ).contains(t) || at_or_below(b.dom(), o).contains(t)) by {
                if below_any(b.dom(), k_new).contains(t) {
                    let k = choose|k: Tm| #[trigger] k_new.contains(k) && k.ge_spec(&t);
                    if k != o {
                        assert(k_old.contains(k));
                    }
                }
                if below_any(b.dom(), k_old).contains(t) {
                    let k = choose|k: Tm| #[trigger] k_old.contains(k) && k.ge_spec(&t);
                    assert(k_new.contains(k));
                }
                if at_or_below(b.dom(), o).contains(t) {
                    assert(k_new.contains(o));
                }
            }
            assert(fold_branches(
            dm,
            first, b, ms, a)
                =~= first.union_prefer_right(b.restrict(below_any(b.dom(), k_new))));
        } else {
            assert(k_new =~= k_old);
        }
    }
}

/// Appending to a history of a partial order stores the event asked for:
/// afterwards the history holds that event at the time appended at,
/// whatever was there before, and every other time keeps its event.
pub proof fn law_generic_append_stores_event<Tm: Time, E: Value>(
    events: Map<Tm, E>,
    time: Tm,
    event: E,
)
    ensures
        ({
            let after = events.insert(
                time,
                <GenericHistory<Tm, E> as History<Tm, E>>::stored_event(events, time, event),
            );
            &&& after[time] == event
            &&& after.dom() == events.dom().insert(time)
            &&& forall|u: Tm| #[trigger] events.contains_key(u) && u != time ==> after[u] == events[u]
        }),
{
}

impl<Tm: Time, E: Value> History<Tm, E> for GenericHistory<Tm, E> {
    closed spec fn events(&self) -> Map<Tm, E> {
        as_map(self.time_events@)
    }

    closed spec fn wf(&self) -> bool {
        &&& self.time_events.wf()
        &&& self.maximals@.no_duplicates()
        &&& self.maximals@.to_set() == maximal_elements(self.events().dom())
    }

    open spec fn stored_event(events: Map<Tm, E>, time: Tm, event: E) -> E {
        event
    }

    open spec fn do_merge_spec(a: Map<Tm, E>, b: Map<Tm, E>) -> Map<Tm, E> {
        a.union_prefer_right(b)
    }

    /// The branches that are kept of both sides are united.
    open spec fn merge_spec(a: Map<Tm, E>, b: Map<Tm, E>) -> Map<Tm, E> {
        merged_events(a, b)
    }

    proof fn lemma_merge_within(a: Map<Tm, E>, b: Map<Tm, E>) {
    }

    proof fn lemma_merge_by_branches(a: Map<Tm, E>, b: Map<Tm, E>, ma: Seq<Tm>, mb: Seq<Tm>) {
        let dm = |x: Map<Tm, E>, y: Map<Tm, E>| Self::do_merge_spec(x, y);
        assert(dm =~= (|x: Map<Tm, E>, y: Map<Tm, E>| Self::do_merge_spec(x, y)));
        lemma_fold_first(dm, a, b, ma);
        let first = fold_branches(dm, Map::empty(), a, ma, b);
        lemma_fold_second(dm, first, a, b, mb);
        assert(ma.to_set().filter(
            |m: Tm| !(exists|u: Tm| #[trigger] b.dom().contains(u) && gt_spec(u, m)),
        ) =~= kept_of_first(a, b));
        assert(mb.to_set().filter(
            |o: Tm| !(exists|u: Tm| #[trigger] a.dom().contains(u) && gt_spec(u, o)),
        ) =~= kept_of_second(a, b));
    }

    proof fn lemma_merge_with_empty(a: Map<Tm, E>) {
        law_merge_with_empty(a);
    }

    proof fn lemma_merge_with_itself(a: Map<Tm, E>) {
        law_merge_idempotent(a);
    }

    proof fn lemma_merge_keeps_greater(a: Map<Tm, E>, b: Map<Tm, E>, x: Tm) {
        // A time that is maximal among both sides is kept, and one of them
        // is greater than or equal to `x`.
        let all = a.dom().union(b.dom());
        let u = if reaches_time(a, x) {
            choose|u: Tm| #[trigger] a.dom().contains(u) && u.ge_spec(&x)
        } else {
            choose|u: Tm| #[trigger] b.dom().contains(u) && u.ge_spec(&x)
        };
        assert(all.contains(u));
        lemma_below_some_maximal(all, u);
        let m = choose|m: Tm| #[trigger] maximal_elements(all).contains(m) && m.ge_spec(&u);
        Tm::lemma_transitive(m, u, x);
        Tm::lemma_reflexive(m);
        assert forall|y: Tm| #[trigger] a.dom().contains(y) implies !gt_spec(y, m) by {
            assert(all.contains(y));
        }
        assert forall|y: Tm| #[trigger] b.dom().contains(y) implies !gt_spec(y, m) by {
            assert(all.contains(y));
        }
        if a.dom().contains(m) {
            assert(maximal_elements(a.dom()).contains(m));
            assert(kept_of_first(a, b).contains(m));
            assert(below_any(a.dom(), kept_of_first(a, b)).contains(m));
        } else {
            assert(maximal_elements(b.dom()).contains(m));
            assert(kept_of_second(a, b).contains(m));
            assert(below_any(b.dom(), kept_of_second(a, b)).contains(m));
        }
        assert(merged_events(a, b).dom().contains(m));
    }

    proof fn lemma_wf_finite(&self) {
        lemma_as_map_finite(self.time_events@);
    }

    fn new_empty() -> (r: Self) {
        let r = GenericHistory { maximals: Vec::new(), time_events: GreaterEqualMap::new() };
        proof {
            assert(r.events() =~= Map::<Tm, E>::empty());
            assert(maximal_elements(r.events().dom()) =~= Set::<Tm>::empty());
            assert(r.maximals@.to_set() =~= Set::<Tm>::empty());
        }
        r
    }

    fn clone_history(&self) -> (r: Self) {
        let mut maximals: Vec<Tm> = Vec::new();
        let mut i: usize = 0;
        while i < self.maximals.len()
            invariant
                0 <= i <= self.maximals@.len(),
                maximals@ == self.maximals@.take(i as int),
            decreases self.maximals.len() - i,
        {
            maximals.push(self.maximals[i]);
            proof {
                assert(self.maximals@.take(i + 1) =~= self.maximals@.take(i as int).push(
                    self.maximals@[i as int],
                ));
            }
            i += 1;
        }
        proof {
            assert(self.maximals@.take(self.maximals@.len() as int) =~= self.maximals@);
        }
        GenericHistory { maximals, time_events: self.time_events.clone_map() }
    }

    fn do_append(&mut self, time: Tm, event: E) {
        let ghost old_events = self.events();
        let ghost maxs = self.maximals@;
        proof {
            lemma_as_map_insert(self.time_events@, time, event);
            lemma_as_map_finite(self.time_events@);
            lemma_maximal_elements_insert(old_events.dom(), time);
        }
        self.time_events.insert(time, event);
        // The maximal times that `time` is greater than or equal to drop
        // out; `time` becomes maximal unless a maximal time is greater.
        let mut kept: Vec<Tm> = Vec::new();
        let mut dominated = false;
        let mut j: usize = 0;
        while j < self.maximals.len()
            invariant
                0 <= j <= maxs.len(),
                self.maximals@ == maxs,
                maxs.no_duplicates(),
                kept@.no_duplicates(),
                forall|x: Tm| #[trigger]
                    kept@.contains(x) <==> maxs.take(j as int).contains(x) && !time.ge_spec(&x),
                dominated <==> exists|k: int| 0 <= k < j && gt_spec(#[trigger] maxs[k], time),
            decreases maxs.len() - j,
        {
            let max = self.maximals[j];
            proof {
                assert(maxs.take(j + 1) =~= maxs.take(j as int).push(max));
                assert(!maxs.take(j as int).contains(max));
            }
            if !time.greater_equal(&max) {
                proof {
                    assert(!kept@.contains(max));
                }
                kept.push(max);
            }
            if max.is_gt(&time) {
                dominated = true;
            }
            j += 1;
        }
        proof {
            assert(maxs.take(maxs.len() as int) =~= maxs);
            Tm::lemma_reflexive(time);
            assert(!kept@.contains(time));
            if dominated {
                let k = choose|k: int| 0 <= k < maxs.len() && gt_spec(#[trigger] maxs[k], time);
                assert(maxs.to_set().contains(maxs[k]));
                assert(maximal_elements(old_events.dom()).contains(maxs[k]));
            } else {
                assert forall|m: Tm| #[trigger] maximal_elements(old_events.dom()).contains(m)
                    implies !gt_spec(m, time) by {
                    assert(maxs.to_set().contains(m));
                    let k = choose|k: int| 0 <= k < maxs.len() && maxs[k] == m;
                }
            }
        }
        if !dominated {
            kept.push(time);
        }
        proof {
            let target = maximal_elements(old_events.dom().insert(time));
            assert forall|x: Tm| kept@.to_set().contains(x) <==> target.contains(x) by {
                if kept@.contains(x) && x != time {
                    assert(maxs.contains(x));
                    assert(maxs.to_set().contains(x));
                }
                if target.contains(x) && x != time {
                    assert(maxs.to_set().contains(x));
                    assert(maxs.contains(x));
                }
                if dominated && x == time {
                    let k = choose|k: int| 0 <= k < maxs.len() && gt_spec(#[trigger] maxs[k], time);
                    assert(maxs.to_set().contains(maxs[k]));
                    assert(maxs[k] != time);
                    if target.contains(time) {
                        assert(old_events.dom().insert(time).contains(maxs[k]));
                    }
                }
            }
            assert(kept@.to_set() =~= target);
            assert(self.events().dom() =~= old_events.dom().insert(time));
        }
        self.maximals = kept;
    }

    fn get(&self, time: &Tm) -> (r: Option<&E>) {
        let r = self.time_events.get(time);
        proof {
            lemma_lookup_as_map(self.time_events@, *time);
        }
        r
    }

    fn lower_bounds(&self, time: Tm) -> (r: Self) {
        let entries = self.time_events.as_slice();
        let ghost s = self.time_events@;
        let mut time_events: GreaterEqualMap<Tm, E> = GreaterEqualMap::new();
        let mut i: usize = 0;
        proof {
            assert(as_map(s.take(0)) =~= Map::<Tm, E>::empty());
            assert(as_map(time_events@) =~= Map::<Tm, E>::empty());
        }
        while i < entries.len()
            invariant
                0 <= i <= s.len(),
                entries@ == s,
                keys_unique(s),
                time_events.wf(),
                as_map(time_events@) == events_at_or_below(as_map(s.take(i as int)), time),
            decreases entries.len() - i,
        {
            let t = entries[i].0;
            proof {
                lemma_take_push(s, i as int);
            }
            if time.greater_equal(&t) {
                let ev = entries[i].1.clone_value();
                proof {
                    lemma_as_map_insert(time_events@, t, ev);
                }
                time_events.insert(t, ev);
            }
            proof {
                assert(as_map(time_events@) =~= events_at_or_below(
                    as_map(s.take(i + 1)),
                    time,
                ));
            }
            i += 1;
        }
        proof {
            assert(s.take(s.len() as int) =~= s);
        }
        let maximals = build_maximals(&time_events);
        GenericHistory { maximals, time_events }
    }

    fn maximals(&self) -> (r: Vec<(Tm, E)>) {
        let mut res: Vec<(Tm, E)> = Vec::new();
        let mut i: usize = 0;
        while i < self.maximals.len()
            invariant
                self.wf(),
                0 <= i <= self.maximals@.len(),
                times_of(res@) == self.maximals@.take(i as int),
                forall|k: int|
                    0 <= k < res@.len() ==> self.events().contains_key(#[trigger] res@[k].0)
                        && self.events()[res@[k].0] == res@[k].1,
            decreases self.maximals.len() - i,
        {
            let t = self.maximals[i];
            proof {
                assert(self.maximals@.to_set().contains(t));
                lemma_lookup_as_map(self.time_events@, t);
            }
            match self.time_events.get(&t) {
                Some(ev) => {
                    let ghost old_res = res@;
                    res.push((t, ev.clone_value()));
                    proof {
                        assert(times_of(res@) =~= times_of(old_res).push(t));
                    }
                },
                None => {
                    proof {
                        assert(self.events().dom().contains(t));
                        assert(false);
                    }
                },
            }
            proof {
                assert(self.maximals@.take(i + 1) =~= self.maximals@.take(i as int).push(t));
            }
            i += 1;
        }
        proof {
            assert(self.maximals@.take(self.maximals@.len() as int) =~= self.maximals@);
        }
        res
    }

    fn do_merge(&mut self, other: Self) {
        let ghost a = self.events();
        let ghost b = other.events();
        proof {
            lemma_as_map_merge(self.time_events@, other.time_events@);
        }
        self.time_events.merge(other.time_events);
        self.maximals = build_maximals(&self.time_events);
        assert(self.events() == Self::do_merge_spec(a, b));
    }
}

impl<Tm: Time, E: Value> Default for GenericHistory<Tm, E> {
    fn default() -> (r: Self)
        ensures
            r.wf(),
            r.events() == Map::<Tm, E>::empty(),
    {
        Self::new_empty()
    }
}

} // verus!
