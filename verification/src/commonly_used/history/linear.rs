use vstd::prelude::*;

use crate::apaxos::greater_equal::gt_spec;
use crate::apaxos::greater_equal::GreaterEqual;
use crate::apaxos::greater_equal_map::as_map;
use crate::apaxos::greater_equal_map::contains_key;
use crate::apaxos::greater_equal_map::key_position;
use crate::apaxos::greater_equal_map::keys_unique;
use crate::apaxos::greater_equal_map::lemma_as_map_finite;
use crate::apaxos::history::below_any;
use crate::apaxos::history::events_at_or_below;
use crate::apaxos::history::kept_of_first;
use crate::apaxos::history::kept_of_second;
use crate::apaxos::history::merged_events;
use crate::apaxos::history::reaches_time;
use crate::apaxos::history::times_of;
use crate::apaxos::history::History;
use crate::apaxos::history::fold_branches;
use crate::apaxos::history::merged_by_branches;
use crate::apaxos::ptime::at_or_below;
use crate::apaxos::ptime::lemma_below_some_maximal;
use crate::apaxos::ptime::maximal_elements;
use crate::apaxos::ptime::time_lt;
use crate::apaxos::ptime::TotalTime;
use crate::Value;

verus! {

pub type Mode = bool;

/// A history that keeps only the first event: appending reuses the latest
/// event (classic Paxos, where a decided value can not change).
pub const SINGLE_VALUE: Mode = false;

/// A history that keeps every appended event.
pub const MULTI_VALUE: Mode = true;

/// Linear history requires the Time to be totally ordered.
///
/// The events are kept in ascending order of time.
#[derive(Clone, Debug)]
pub struct LinearHistory<Tm, E, const MODE: bool> {
    time_events: Vec<(Tm, E)>,
}

/// The events of merging linear history `b` into linear history `a`: `b`,
/// unless `a` has a time that is greater than every time of `b`; then `a`.
pub open spec fn linear_merged<Tm: GreaterEqual, E>(a: Map<Tm, E>, b: Map<Tm, E>) -> Map<Tm, E> {
    if exists|u: Tm| #[trigger] a.dom().contains(u) && forall|v: Tm| #[trigger] b.dom().contains(v) ==> gt_spec(u, v) {
        a
    } else {
        b
    }
}

/// All events of `m` are the same.
pub open spec fn single_valued<Tm, E>(m: Map<Tm, E>) -> bool {
    forall|a: Tm, b: Tm| #[trigger] m.contains_key(a) && #[trigger] m.contains_key(b) ==> m[a] == m[b]
}

/// In single-value mode the value of a history never changes: appending
/// to a history that holds events stores, at whatever time is appended at
/// (its latest time too), the event held at its latest time, not the event
/// asked for; afterwards every event of a single-valued history is that
/// one.
pub proof fn law_single_value_append_keeps_latest<Tm: TotalTime, E: Value>(
    m: Map<Tm, E>,
    t: Tm,
    event: E,
    latest: Tm,
)
    requires
        m.dom().finite(),
        m.contains_key(latest),
        forall|u: Tm| #[trigger] m.contains_key(u) ==> latest.ge_spec(&u),
    ensures
        LinearHistory::<Tm, E, SINGLE_VALUE>::stored_event(m, t, event) == m[latest],
        single_valued(m) ==> forall|u: Tm| #[trigger]
            m.insert(t, LinearHistory::<Tm, E, SINGLE_VALUE>::stored_event(m, t, event)).contains_key(u)
                ==> m.insert(t, LinearHistory::<Tm, E, SINGLE_VALUE>::stored_event(m, t, event))[u]
                == m[latest],
{
    let d = m.dom();
    vstd::set_lib::lemma_len_subset(set![latest], d);
    assert(set![latest].len() == 1);
    lemma_below_some_maximal(d, latest);
    let c = choose|c: Tm| maximal_elements(d).contains(c);
    assert(d.contains(c));
    assert(latest.ge_spec(&c));
    if c != latest {
        assert(gt_spec(latest, c));
    }
}

/// Once a value is in a single-value history, it stays the only one:
/// appending at any time, keeping the events up to a time, and merging with
/// another such history (either way) leave all events the same.
pub proof fn law_single_value_kept<Tm: TotalTime, E: Value>(
    m: Map<Tm, E>,
    other: Map<Tm, E>,
    t: Tm,
    event: E,
)
    requires
        m.dom().finite(),
        single_valued(m),
        single_valued(other),
    ensures
        single_valued(
            m.insert(t, LinearHistory::<Tm, E, SINGLE_VALUE>::stored_event(m, t, event)),
        ),
        single_valued(events_at_or_below(m, t)),
        single_valued(LinearHistory::<Tm, E, SINGLE_VALUE>::do_merge_spec(m, other)),
        single_valued(LinearHistory::<Tm, E, SINGLE_VALUE>::merge_spec(m, other)),
{
    let d = m.dom();
    let stored = LinearHistory::<Tm, E, SINGLE_VALUE>::stored_event(m, t, event);
    if exists|x: Tm| d.contains(x) {
        let x = choose|x: Tm| d.contains(x);
        vstd::set_lib::lemma_len_subset(set![x], d);
        assert(set![x].len() == 1);
        lemma_below_some_maximal(d, x);
        let c = choose|c: Tm| maximal_elements(d).contains(c);
        assert(d.contains(c));
        assert(stored == m[c]);
    } else {
        assert(d =~= Set::<Tm>::empty());
    }
    let mi = m.insert(t, stored);
    assert forall|a: Tm, b: Tm| #[trigger] mi.contains_key(a) && #[trigger] mi.contains_key(b)
        implies mi[a] == mi[b] by {
        if a != t && b != t {
            assert(m.contains_key(a) && m.contains_key(b));
        }
    }
    let lo = events_at_or_below(m, t);
    assert forall|a: Tm, b: Tm| #[trigger] lo.contains_key(a) && #[trigger] lo.contains_key(b)
        implies lo[a] == lo[b] by {
        assert(m.contains_key(a) && m.contains_key(b));
    }
}

/// The times of `s` are strictly ascending.
pub open spec fn ascending<Tm: GreaterEqual, E>(s: Seq<(Tm, E)>) -> bool {
    forall|i: int, j: int| 0 <= i < j < s.len() ==> time_lt(s[i].0, s[j].0)
}

/// Ascending entries have unique keys.
proof fn lemma_ascending_unique<Tm: TotalTime, E>(s: Seq<(Tm, E)>)
    requires
        ascending(s),
    ensures
        keys_unique(s),
{
    assert forall|i: int, j: int|
        0 <= i < s.len() && 0 <= j < s.len() && i != j implies s[i].0 != s[j].0 by {
        if i < j {
            assert(time_lt(s[i].0, s[j].0));
        } else {
            assert(time_lt(s[j].0, s[i].0));
        }
    }
}

/// The position of a time of ascending entries.
proof fn lemma_ascending_position<Tm: TotalTime, E>(s: Seq<(Tm, E)>, i: int)
    requires
        ascending(s),
        0 <= i < s.len(),
    ensures
        as_map(s).contains_key(s[i].0),
        as_map(s)[s[i].0] == s[i].1,
{
    lemma_ascending_unique(s);
    assert(contains_key(s, s[i].0));
    let p = key_position(s, s[i].0);
    assert(s[p].0 == s[i].0);
}

/// The last time of ascending entries is the greatest one, and the only
/// maximal one.
proof fn lemma_ascending_last<Tm: TotalTime, E>(s: Seq<(Tm, E)>)
    requires
        ascending(s),
        s.len() > 0,
    ensures
        forall|u: Tm| #[trigger] as_map(s).dom().contains(u) ==> s.last().0.ge_spec(&u),
        maximal_elements(as_map(s).dom()) == set![s.last().0],
{
    let n = s.len() - 1;
    let d = as_map(s).dom();
    lemma_ascending_position(s, n);
    assert forall|u: Tm| #[trigger] d.contains(u) implies s.last().0.ge_spec(&u) by {
        let i = choose|i: int| 0 <= i < s.len() && s[i].0 == u;
        if i < n {
            assert(time_lt(s[i].0, s[n].0));
        } else {
            Tm::lemma_reflexive(u);
        }
    }
    assert forall|x: Tm| maximal_elements(d).contains(x) <==> set![s.last().0].contains(x) by {
        if maximal_elements(d).contains(x) && x != s.last().0 {
            assert(d.contains(s.last().0));
            assert(gt_spec(s.last().0, x));
        }
        if x == s.last().0 {
            assert forall|u: Tm| #[trigger] d.contains(u) implies !gt_spec(u, x) by {
                if gt_spec(u, x) {
                    Tm::lemma_antisymmetric(u, x);
                }
            }
        }
    }
    assert(maximal_elements(d) =~= set![s.last().0]);
}

/// Empty entries have no maximal time.
proof fn lemma_empty_entries<Tm: TotalTime, E>(s: Seq<(Tm, E)>)
    requires
        s.len() == 0,
    ensures
        as_map(s) == Map::<Tm, E>::empty(),
        maximal_elements(as_map(s).dom()) == Set::<Tm>::empty(),
{
    assert(as_map(s) =~= Map::<Tm, E>::empty());
    assert(maximal_elements(as_map(s).dom()) =~= Set::<Tm>::empty());
}

impl<Tm: TotalTime, E: Value, const MODE: bool> LinearHistory<Tm, E, MODE> {
    /// Returns the latest time and its event.
    pub fn latest_time_value(&self) -> (r: Option<(&Tm, &E)>)
        requires
            self.wf(),
        ensures
            match r {
                Some((t, e)) => {
                    &&& self.events().contains_key(*t)
                    &&& self.events()[*t] == *e
                    &&& forall|u: Tm| #[trigger]
                        self.events().dom().contains(u) ==> t.ge_spec(&u)
                },
                None => self.events() == Map::<Tm, E>::empty(),
            },
    {
        let n = self.time_events.len();
        if n == 0 {
            proof {
                lemma_empty_entries(self.time_events@);
            }
            None
        } else {
            proof {
                lemma_ascending_last(self.time_events@);
                lemma_ascending_position(self.time_events@, n - 1);
            }
            let e = &self.time_events[n - 1];
            Some((&e.0, &e.1))
        }
    }

    /// Returns the latest time.
    pub fn latest_time(&self) -> (r: Option<Tm>)
        requires
            self.wf(),
        ensures
            match r {
                Some(t) => {
                    &&& self.events().contains_key(t)
                    &&& forall|u: Tm| #[trigger] self.events().dom().contains(u) ==> t.ge_spec(&u)
                },
                None => self.events() == Map::<Tm, E>::empty(),
            },
    {
        match self.latest_time_value() {
            Some((t, _ev)) => Some(*t),
            None => None,
        }
    }

    /// Returns the event at the latest time.
    pub fn latest_value(&self) -> (r: Option<E>)
        requires
            self.wf(),
        ensures
            match r {
                Some(e) => exists|t: Tm|
                    {
                        &&& #[trigger] self.events().contains_key(t)
                        &&& self.events()[t] == e
                        &&& forall|u: Tm| #[trigger]
                            self.events().dom().contains(u) ==> t.ge_spec(&u)
                    },
                None => self.events() == Map::<Tm, E>::empty(),
            },
    {
        match self.latest_time_value() {
            Some((_t, v)) => Some(v.clone_value()),
            None => None,
        }
    }
}

/// In a finite set of a total order, the maximal times, visited without
/// repetition, are none when the set is empty and otherwise one: its
/// greatest.
proof fn lemma_total_maximals<Tm: TotalTime>(s: Set<Tm>, ms: Seq<Tm>)
    requires
        s.finite(),
        ms.to_set() == maximal_elements(s),
        ms.no_duplicates(),
    ensures
        ms.len() <= 1,
        ms.len() == 1 ==> s.contains(ms[0]) && forall|u: Tm| #[trigger] s.contains(u) ==> ms[0].ge_spec(&u),
        ms.len() == 0 ==> forall|u: Tm| !#[trigger] s.contains(u),
{
    if ms.len() >= 2 {
        let m0 = ms[0];
        let m1 = ms[1];
        assert(ms.to_set().contains(m0) && ms.to_set().contains(m1));
        Tm::lemma_total(m0, m1);
        assert(m0 != m1);
        assert(false);
    }
    if ms.len() == 1 {
        let m = ms[0];
        assert(ms.to_set().contains(m));
        assert forall|u: Tm| #[trigger] s.contains(u) implies m.ge_spec(&u) by {
            Tm::lemma_total(m, u);
            Tm::lemma_reflexive(m);
        }
    }
    if ms.len() == 0 {
        assert forall|u: Tm| !#[trigger] s.contains(u) by {
            if s.contains(u) {
                lemma_below_some_maximal(s, u);
                let m = choose|m: Tm| #[trigger] maximal_elements(s).contains(m) && m.ge_spec(&u);
                assert(ms.to_set().contains(m));
            }
        }
    }
}

impl<Tm: TotalTime, E: Value, const MODE: bool> History<Tm, E> for LinearHistory<Tm, E, MODE> {
    closed spec fn events(&self) -> Map<Tm, E> {
        as_map(self.time_events@)
    }

    closed spec fn wf(&self) -> bool {
        ascending(self.time_events@)
    }

    /// In a single value mode(such as classic paxos), the latest event is
    /// stored again, if there is one.
    open spec fn stored_event(events: Map<Tm, E>, time: Tm, event: E) -> E {
        if MODE == SINGLE_VALUE && events.dom().len() > 0 {
            events[choose|t: Tm| maximal_elements(events.dom()).contains(t)]
        } else {
            event
        }
    }

    /// Linear history is replaced by the other when merging.
    open spec fn do_merge_spec(a: Map<Tm, E>, b: Map<Tm, E>) -> Map<Tm, E> {
        b
    }

    /// The branch with the greater latest time is kept; on a tie, `b`
    /// replaces `a` (see [`linear_merged`]).
    open spec fn merge_spec(a: Map<Tm, E>, b: Map<Tm, E>) -> Map<Tm, E> {
        linear_merged(a, b)
    }

    proof fn lemma_merge_within(a: Map<Tm, E>, b: Map<Tm, E>) {
    }

    proof fn lemma_merge_by_branches(a: Map<Tm, E>, b: Map<Tm, E>, ma: Seq<Tm>, mb: Seq<Tm>) {
        reveal_with_fuel(fold_branches, 2);
        lemma_total_maximals(a.dom(), ma);
        lemma_total_maximals(b.dom(), mb);
        let dm = |x: Map<Tm, E>, y: Map<Tm, E>| Self::do_merge_spec(x, y);
        assert(dm =~= (|x: Map<Tm, E>, y: Map<Tm, E>| Self::do_merge_spec(x, y)));
        let f = fold_branches(dm, Map::empty(), a, ma, b);
        if ma.len() == 1 {
            let m = ma[0];
            assert(ma.drop_last().len() == 0);
            assert(events_at_or_below(a, m) =~= a) by {
                assert forall|u: Tm| #[trigger] a.dom().contains(u) implies m.ge_spec(&u) by {}
            }
        } else {
            assert(a =~= Map::<Tm, E>::empty());
        }
        if mb.len() == 1 {
            let o = mb[0];
            assert(mb.drop_last().len() == 0);
            assert(events_at_or_below(b, o) =~= b) by {
                assert forall|u: Tm| #[trigger] b.dom().contains(u) implies o.ge_spec(&u) by {}
            }
            assert(b.dom().contains(o));
            if exists|u: Tm| #[trigger] a.dom().contains(u) && gt_spec(u, o) {
                let u = choose|u: Tm| #[trigger] a.dom().contains(u) && gt_spec(u, o);
                assert forall|v: Tm| #[trigger] b.dom().contains(v) implies gt_spec(u, v) by {
                    Tm::lemma_transitive(u, o, v);
                    if u == v {
                        Tm::lemma_antisymmetric(u, o);
                    }
                }
                let m = ma[0];
                assert(m.ge_spec(&u));
                assert forall|v: Tm| #[trigger] b.dom().contains(v) implies !gt_spec(v, m) by {
                    if gt_spec(v, m) {
                        Tm::lemma_transitive(v, m, u);
                        Tm::lemma_transitive(v, u, o);
                        Tm::lemma_antisymmetric(v, o);
                        Tm::lemma_antisymmetric(u, o);
                    }
                }
                assert(f =~= a);
                assert(merged_by_branches(dm, a, b, ma, mb) =~= linear_merged(a, b));
            } else {
                assert forall|u: Tm| #[trigger] a.dom().contains(u) implies !(forall|v: Tm|
                    #[trigger] b.dom().contains(v) ==> gt_spec(u, v)) by {
                    assert(b.dom().contains(o));
                }
                assert(merged_by_branches(dm, a, b, ma, mb) =~= linear_merged(a, b));
            }
        } else {
            assert(b =~= Map::<Tm, E>::empty());
            if ma.len() == 1 {
                assert(a.dom().contains(ma[0]));
                assert(f =~= a);
            } else {
                assert(f =~= Map::<Tm, E>::empty());
            }
            assert(merged_by_branches(dm, a, b, ma, mb) =~= linear_merged(a, b));
        }
    }

    proof fn lemma_merge_with_empty(a: Map<Tm, E>) {
        let e = Map::<Tm, E>::empty();
        if exists|u: Tm| a.dom().contains(u) {
            let u = choose|u: Tm| a.dom().contains(u);
            assert(forall|v: Tm| #[trigger] e.dom().contains(v) ==> gt_spec(u, v));
        } else {
            assert(a =~= e);
        }
    }

    proof fn lemma_merge_with_itself(a: Map<Tm, E>) {
        assert forall|u: Tm| #[trigger] a.dom().contains(u) implies !(forall|v: Tm| #[trigger]
            a.dom().contains(v) ==> gt_spec(u, v)) by {
            assert(!gt_spec(u, u));
        }
    }

    proof fn lemma_merge_keeps_greater(a: Map<Tm, E>, b: Map<Tm, E>, x: Tm) {
        let w = exists|u: Tm| #[trigger] a.dom().contains(u) && forall|v: Tm| #[trigger]
            b.dom().contains(v) ==> gt_spec(u, v);
        if w && !reaches_time(a, x) {
            // the time of `a` above all of `b` is above what `b` has above `x`
            let u = choose|u: Tm| #[trigger] a.dom().contains(u) && forall|v: Tm| #[trigger]
                b.dom().contains(v) ==> gt_spec(u, v);
            let v = choose|v: Tm| #[trigger] b.dom().contains(v) && v.ge_spec(&x);
            assert(gt_spec(u, v));
            Tm::lemma_transitive(u, v, x);
            assert(a.dom().contains(u) && u.ge_spec(&x));
        }
        if !w && !reaches_time(b, x) {
            // some time of `b` is not below the time of `a` above `x`
            let u = choose|u: Tm| #[trigger] a.dom().contains(u) && u.ge_spec(&x);
            assert(!(forall|v: Tm| #[trigger] b.dom().contains(v) ==> gt_spec(u, v)));
            let v = choose|v: Tm| #[trigger] b.dom().contains(v) && !gt_spec(u, v);
            Tm::lemma_total(u, v);
            if !v.ge_spec(&u) {
                assert(u.ge_spec(&v));
                Tm::lemma_reflexive(u);
            }
            Tm::lemma_transitive(v, u, x);
            assert(b.dom().contains(v) && v.ge_spec(&x));
        }
    }

    proof fn lemma_wf_finite(&self) {
        lemma_as_map_finite(self.time_events@);
    }

    fn new_empty() -> (r: Self) {
        let r = LinearHistory { time_events: Vec::new() };
        proof {
            lemma_empty_entries(r.time_events@);
        }
        r
    }

    fn clone_history(&self) -> (r: Self) {
        let mut time_events: Vec<(Tm, E)> = Vec::new();
        let mut i: usize = 0;
        while i < self.time_events.len()
            invariant
                0 <= i <= self.time_events@.len(),
                time_events@ == self.time_events@.take(i as int),
            decreases self.time_events.len() - i,
        {
            let e = &self.time_events[i];
            time_events.push((e.0, e.1.clone_value()));
            proof {
                assert(self.time_events@.take(i + 1) =~= self.time_events@.take(i as int).push(
                    self.time_events@[i as int],
                ));
            }
            i += 1;
        }
        proof {
            assert(self.time_events@.take(self.time_events@.len() as int) =~= self.time_events@);
        }
        LinearHistory { time_events }
    }

    fn do_append(&mut self, time: Tm, event: E) {
        // In a single value mode(such as classic paxos),
        // it disallows to append new event if there is already one.
        // Because the history can not be changed.
        // In such case, just use the last value.
        let n = self.time_events.len();
        let ghost s = self.time_events@;
        let ev = if MODE == SINGLE_VALUE && n > 0 {
            self.time_events[n - 1].1.clone_value()
        } else {
            event
        };
        proof {
            lemma_ascending_unique(s);
            lemma_as_map_finite(s);
            if n > 0 {
                lemma_ascending_last(s);
                lemma_ascending_position(s, n - 1);
                let c = choose|t: Tm| maximal_elements(as_map(s).dom()).contains(t);
                assert(maximal_elements(as_map(s).dom()).contains(s.last().0));
                assert(c == s.last().0);
                assert(as_map(s).dom().len() > 0) by {
                    vstd::set_lib::lemma_len_subset(set![s.last().0], as_map(s).dom());
                }
            } else {
                lemma_empty_entries(s);
            }
        }
        // The first position whose time is not less than `time`.
        let mut pos: usize = 0;
        while pos < n && !self.time_events[pos].0.greater_equal(&time)
            invariant
                0 <= pos <= n,
                n == s.len(),
                self.time_events@ == s,
                ascending(s),
                forall|k: int| 0 <= k < pos ==> !(#[trigger] s[k].0).ge_spec(&time),
            decreases n - pos,
        {
            pos += 1;
        }
        proof {
            assert forall|k: int| 0 <= k < pos implies time_lt(#[trigger] s[k].0, time) by {
                Tm::lemma_total(time, s[k].0);
            }
        }
        if pos < n && self.time_events[pos].0.equals(&time) {
            self.time_events.set(pos, (time, ev));
            proof {
                let t2 = self.time_events@;
                assert(t2 =~= s.update(pos as int, (time, ev)));
                assert forall|a: int, b: int| 0 <= a < b < t2.len() implies time_lt(
                    t2[a].0,
                    t2[b].0,
                ) by {
                    assert(time_lt(s[a].0, s[b].0));
                }
                lemma_ascending_unique(t2);
                assert forall|u: Tm| #[trigger]
                    as_map(t2).contains_key(u) == as_map(s).insert(time, ev).contains_key(u) by {
                    if contains_key(s, u) {
                        let a = choose|a: int| 0 <= a < s.len() && s[a].0 == u;
                        assert(t2[a].0 == u);
                    }
                    if contains_key(t2, u) {
                        let a = choose|a: int| 0 <= a < t2.len() && t2[a].0 == u;
                        assert(s[a].0 == u);
                    }
                    assert(t2[pos as int].0 == time);
                }
                assert forall|u: Tm| #[trigger] as_map(t2).contains_key(u) implies as_map(t2)[u]
                    == as_map(s).insert(time, ev)[u] by {
                    let a = choose|a: int| 0 <= a < t2.len() && t2[a].0 == u;
                    lemma_ascending_position(t2, a);
                    if u != time {
                        lemma_ascending_position(s, a);
                    }
                }
                assert(as_map(t2) =~= as_map(s).insert(time, ev));
            }
        } else {
            proof {
                assert forall|k: int| pos <= k < n implies gt_spec(#[trigger] s[k].0, time) by {
                    assert(s[pos as int].0.ge_spec(&time));
                    if k > pos {
                        assert(time_lt(s[pos as int].0, s[k].0));
                        Tm::lemma_transitive(s[k].0, s[pos as int].0, time);
                        if s[k].0 == time {
                            Tm::lemma_antisymmetric(time, s[pos as int].0);
                        }
                    }
                }
            }
            self.time_events.insert(pos, (time, ev));
            proof {
                let t2 = self.time_events@;
                assert(t2 =~= s.insert(pos as int, (time, ev)));
                assert forall|a: int, b: int| 0 <= a < b < t2.len() implies time_lt(
                    t2[a].0,
                    t2[b].0,
                ) by {
                    if b == pos {
                        assert(t2[a] == s[a]);
                    } else if a == pos {
                        assert(t2[b] == s[b - 1]);
                    } else {
                        let aa = if a < pos { a } else { a - 1 };
                        let bb = if b < pos { b } else { b - 1 };
                        assert(t2[a] == s[aa]);
                        assert(t2[b] == s[bb]);
                        assert(time_lt(s[aa].0, s[bb].0));
                    }
                }
                lemma_ascending_unique(t2);
                assert(t2[pos as int].0 == time);
                assert forall|u: Tm| #[trigger]
                    as_map(t2).contains_key(u) == as_map(s).insert(time, ev).contains_key(u) by {
                    if contains_key(s, u) {
                        let a = choose|a: int| 0 <= a < s.len() && s[a].0 == u;
                        if a < pos {
                            assert(t2[a] == s[a]);
                        } else {
                            assert(t2[a + 1] == s[a]);
                        }
                    }
                    if contains_key(t2, u) {
                        let a = choose|a: int| 0 <= a < t2.len() && t2[a].0 == u;
                        if a < pos {
                            assert(t2[a] == s[a]);
                        } else if a > pos {
                            assert(t2[a] == s[a - 1]);
                        }
                    }
                }
                assert forall|u: Tm| #[trigger] as_map(t2).contains_key(u) implies as_map(t2)[u]
                    == as_map(s).insert(time, ev)[u] by {
                    let a = choose|a: int| 0 <= a < t2.len() && t2[a].0 == u;
                    lemma_ascending_position(t2, a);
                    if a < pos {
                        assert(t2[a] == s[a]);
                        lemma_ascending_position(s, a);
                    } else if a > pos {
                        assert(t2[a] == s[a - 1]);
                        lemma_ascending_position(s, a - 1);
                    }
                }
                assert(as_map(t2) =~= as_map(s).insert(time, ev));
            }
        }
    }

    fn get(&self, time: &Tm) -> (r: Option<&E>) {
        let mut i: usize = 0;
        while i < self.time_events.len()
            invariant
                0 <= i <= self.time_events@.len(),
                ascending(self.time_events@),
                forall|j: int| 0 <= j < i ==> self.time_events@[j].0 != *time,
            decreases self.time_events.len() - i,
        {
            if self.time_events[i].0.equals(time) {
                proof {
                    lemma_ascending_position(self.time_events@, i as int);
                }
                return Some(&self.time_events[i].1);
            }
            i += 1;
        }
        None
    }

    fn lower_bounds(&self, time: Tm) -> (r: Self) {
        let ghost s = self.time_events@;
        let mut res: Vec<(Tm, E)> = Vec::new();
        let mut i: usize = 0;
        while i < self.time_events.len() && time.greater_equal(&self.time_events[i].0)
            invariant
                0 <= i <= s.len(),
                s == self.time_events@,
                ascending(s),
                res@ == s.take(i as int),
                forall|j: int| 0 <= j < i ==> time.ge_spec(&s[j].0),
            decreases self.time_events.len() - i,
        {
            let e = &self.time_events[i];
            res.push((e.0, e.1.clone_value()));
            proof {
                assert(s.take(i + 1) =~= s.take(i as int).push(s[i as int]));
            }
            i += 1;
        }
        let r = LinearHistory { time_events: res };
        proof {
            lemma_ascending_unique(s);
            assert(ascending(r.time_events@));
            lemma_ascending_unique(r.time_events@);
            // every time after the prefix is greater than `time`
            assert forall|j: int| i <= j < s.len() implies !time.ge_spec(&s[j].0) by {
                assert(!time.ge_spec(&s[i as int].0));
                if j > i {
                    assert(time_lt(s[i as int].0, s[j].0));
                    Tm::lemma_total(time, s[i as int].0);
                    if time.ge_spec(&s[j].0) {
                        Tm::lemma_transitive(time, s[j].0, s[i as int].0);
                    }
                }
            }
            let target = events_at_or_below(as_map(s), time);
            assert forall|u: Tm| #[trigger]
                as_map(r.time_events@).contains_key(u) == target.contains_key(u) by {
                if as_map(r.time_events@).contains_key(u) {
                    let k = choose|k: int| 0 <= k < res@.len() && res@[k].0 == u;
                    assert(s[k].0 == u);
                    lemma_ascending_position(s, k);
                }
                if target.contains_key(u) {
                    let k = choose|k: int| 0 <= k < s.len() && s[k].0 == u;
                    assert(k < i);
                    assert(res@[k].0 == u);
                }
            }
            assert forall|u: Tm| #[trigger]
                as_map(r.time_events@).contains_key(u) implies as_map(r.time_events@)[u]
                == target[u] by {
                let k = choose|k: int| 0 <= k < res@.len() && res@[k].0 == u;
                lemma_ascending_position(r.time_events@, k);
                lemma_ascending_position(s, k);
            }
            assert(as_map(r.time_events@) =~= target);
        }
        r
    }

    fn maximals(&self) -> (r: Vec<(Tm, E)>) {
        let mut res: Vec<(Tm, E)> = Vec::new();
        let n = self.time_events.len();
        if n > 0 {
            let e = &self.time_events[n - 1];
            res.push((e.0, e.1.clone_value()));
            proof {
                lemma_ascending_last(self.time_events@);
                lemma_ascending_position(self.time_events@, n - 1);
                assert(times_of(res@) =~= seq![e.0]);
                assert(seq![e.0][0] == e.0);
                assert(seq![e.0].to_set() =~= set![e.0]);
            }
        } else {
            proof {
                lemma_empty_entries(self.time_events@);
                assert(times_of(res@).to_set() =~= Set::<Tm>::empty());
            }
        }
        res
    }

    fn do_merge(&mut self, other: Self) {
        let ghost a = self.events();
        let ghost b = other.events();
        *self = other;
        assert(self.events() == b);
        assert(Self::do_merge_spec(a, b) == b);
    }
}

impl<Tm: TotalTime, E: Value, const MODE: bool> Default for LinearHistory<Tm, E, MODE> {
    fn default() -> (r: Self)
        ensures
            r.wf(),
            r.events() == Map::<Tm, E>::empty(),
    {
        Self::new_empty()
    }
}

} // verus!
