use vstd::prelude::*;

use crate::apaxos::greater_equal::gt_spec;
use crate::apaxos::greater_equal::GreaterEqual;
use crate::apaxos::ptime::Time;
use crate::Value;

verus! {

/// A map that stores values with [`GreaterEqual`] keys.
///
/// It provides the API to get all **maximal** keys.
/// A key is **maximal** if no other key is greater than it.
/// See: <https://en.wikipedia.org/wiki/Partially_ordered_set#Extrema>
///
/// The entries are kept in insertion order; no key occurs twice.
#[derive(Clone, Debug)]
pub struct GreaterEqualMap<K, V> {
    inner: Vec<(K, V)>,
}

impl<K, V> View for GreaterEqualMap<K, V> {
    type V = Seq<(K, V)>;

    closed spec fn view(&self) -> Seq<(K, V)> {
        self.inner@
    }
}

/// No key occurs twice in `s`.
pub open spec fn keys_unique<K, V>(s: Seq<(K, V)>) -> bool {
    forall|i: int, j: int| 0 <= i < s.len() && 0 <= j < s.len() && i != j ==> s[i].0 != s[j].0
}

/// `s` holds an entry with key `k`.
pub open spec fn contains_key<K, V>(s: Seq<(K, V)>, k: K) -> bool {
    exists|i: int| 0 <= i < s.len() && s[i].0 == k
}

/// The position of the entry with key `k` in `s`.
pub open spec fn key_position<K, V>(s: Seq<(K, V)>, k: K) -> int {
    choose|i: int| 0 <= i < s.len() && s[i].0 == k
}

/// The value stored at key `k` in `s`, if any.
pub open spec fn lookup<K, V>(s: Seq<(K, V)>, k: K) -> Option<V> {
    if contains_key(s, k) {
        Some(s[key_position(s, k)].1)
    } else {
        None
    }
}

/// The entries after inserting `(k, v)`: an existing entry of `k` has its
/// value replaced in place, otherwise the entry is appended.
pub open spec fn insert_spec<K, V>(s: Seq<(K, V)>, k: K, v: V) -> Seq<(K, V)> {
    if contains_key(s, k) {
        s.update(key_position(s, k), (k, v))
    } else {
        s.push((k, v))
    }
}

/// The entries after inserting every entry of `o`, front to back, into `s`.
pub open spec fn merge_spec<K, V>(s: Seq<(K, V)>, o: Seq<(K, V)>) -> Seq<(K, V)>
    decreases o.len(),
{
    if o.len() == 0 {
        s
    } else {
        insert_spec(merge_spec(s, o.drop_last()), o.last().0, o.last().1)
    }
}

/// The entries after removing key `k`: the last entry moves to the place of
/// the removed one.
pub open spec fn remove_spec<K, V>(s: Seq<(K, V)>, k: K) -> Seq<(K, V)> {
    if contains_key(s, k) {
        let i = key_position(s, k);
        s.update(i, s.last()).drop_last()
    } else {
        s
    }
}

/// `key` would be maximal among the keys of `s`: every key that is `>= key`
/// is also `<= key`.
pub open spec fn is_maximal_key<K: GreaterEqual, V>(s: Seq<(K, V)>, key: K) -> bool {
    forall|i: int| 0 <= i < s.len() ==> (#[trigger] s[i].0.ge_spec(&key) ==> key.ge_spec(&s[i].0))
}

/// The entries of `s` whose keys are maximal, in order.
pub open spec fn maximal_entries<K: GreaterEqual, V>(s: Seq<(K, V)>) -> Seq<(K, V)> {
    s.filter(|e: (K, V)| is_maximal_key(s, e.0))
}

impl<K: GreaterEqual, V> GreaterEqualMap<K, V> {
    /// The map holds no key twice.
    pub open spec fn wf(&self) -> bool {
        keys_unique(self@)
    }

    /// The entries, in insertion order.
    pub fn as_slice(&self) -> (r: &[(K, V)])
        ensures
            r@ == self@,
    {
        self.inner.as_slice()
    }

    /// Returns true if the given key will be a **maximal** if it is inserted.
    ///
    /// A key is **maximal** if no other key is greater than it.
    pub fn is_maximal(&self, key: &K) -> (r: bool)
        ensures
            r == is_maximal_key(self@, *key),
    {
        let mut i: usize = 0;
        while i < self.inner.len()
            invariant
                0 <= i <= self@.len(),
                self@ == self.inner@,
                forall|j: int|
                    0 <= j < i ==> (#[trigger] self@[j].0.ge_spec(key) ==> key.ge_spec(
                        &self@[j].0,
                    )),
            decreases self.inner.len() - i,
        {
            let k = &self.inner[i].0;
            if k.greater_equal(key) {
                // if a >= b and b >= a, it is a maximal key.
                if !key.greater_equal(k) {
                    return false;
                }
            }
            i += 1;
        }
        true
    }

    /// Return key value pairs of all **maximal** keys, in insertion order.
    ///
    /// A key is **maximal** if no other key is greater than it.
    pub fn maximals(&self) -> (r: Vec<(&K, &V)>)
        ensures
            r@.len() == maximal_entries(self@).len(),
            forall|i: int|
                0 <= i < r@.len() ==> *r@[i].0 == maximal_entries(self@)[i].0 && *r@[i].1
                    == maximal_entries(self@)[i].1,
    {
        let ghost pred = |e: (K, V)| is_maximal_key(self@, e.0);
        let mut res: Vec<(&K, &V)> = Vec::new();
        let mut i: usize = 0;
        while i < self.inner.len()
            invariant
                0 <= i <= self@.len(),
                self@ == self.inner@,
                pred == (|e: (K, V)| is_maximal_key(self@, e.0)),
                res@.len() == self@.take(i as int).filter(pred).len(),
                forall|j: int|
                    0 <= j < res@.len() ==> *res@[j].0 == self@.take(i as int).filter(pred)[j].0
                        && *res@[j].1 == self@.take(i as int).filter(pred)[j].1,
            decreases self.inner.len() - i,
        {
            let e = &self.inner[i];
            let keep = self.is_maximal(&e.0);
            proof {
                reveal(Seq::filter);
                assert(self@.take(i + 1 as int).drop_last() =~= self@.take(i as int));
                assert(self@.take(i + 1 as int).last() == self@[i as int]);
            }
            if keep {
                res.push((&e.0, &e.1));
            }
            i += 1;
        }
        proof {
            assert(self@.take(self@.len() as int) =~= self@);
        }
        res
    }
}

impl<K: GreaterEqual, V> GreaterEqualMap<K, V> {
    pub fn new() -> (m: Self)
        ensures
            m@ == Seq::<(K, V)>::empty(),
            m.wf(),
    {
        GreaterEqualMap { inner: Vec::new() }
    }

    /// Finds the position of `key`.
    fn position(&self, key: &K) -> (r: Option<usize>)
        requires
            self.wf(),
        ensures
            match r {
                Some(i) => contains_key(self@, *key) && i == key_position(self@, *key) && i
                    < self@.len(),
                None => !contains_key(self@, *key),
            },
    {
        let mut i: usize = 0;
        while i < self.inner.len()
            invariant
                0 <= i <= self@.len(),
                self@ == self.inner@,
                keys_unique(self@),
                forall|j: int| 0 <= j < i ==> self@[j].0 != *key,
            decreases self.inner.len() - i,
        {
            if self.inner[i].0.equals(key) {
                proof {
                    assert(self@[i as int].0 == *key);
                    let p = key_position(self@, *key);
                    assert(self@[p].0 == *key);
                }
                return Some(i);
            }
            i += 1;
        }
        None
    }

    /// Inserts `value` at `key`; returns the value that was there before.
    pub fn insert(&mut self, key: K, value: V) -> (r: Option<V>)
        requires
            old(self).wf(),
        ensures
            final(self).wf(),
            final(self)@ == insert_spec(old(self)@, key, value),
            r == lookup(old(self)@, key),
    {
        proof {
            lemma_insert_keeps_unique(self@, key, value);
        }
        match self.position(&key) {
            Some(i) => {
                self.inner.push((key, value));
                let old_entry = self.inner.swap_remove(i);
                proof {
                    assert(self@ =~= insert_spec(old(self)@, key, value));
                }
                Some(old_entry.1)
            },
            None => {
                self.inner.push((key, value));
                None
            },
        }
    }

    /// Inserts `value` at `key` unless `key` is present; returns a mutable
    /// reference to the inserted value.
    pub fn try_insert(&mut self, key: K, value: V) -> (r: Result<&mut V, ()>)
        requires
            old(self).wf(),
        ensures
            match r {
                Ok(v) => {
                    &&& !contains_key(old(self)@, key)
                    &&& *v == value
                    &&& final(self)@ == old(self)@.push((key, *final(v)))
                },
                Err(_) => contains_key(old(self)@, key) && final(self)@ == old(self)@,
            },
            final(self).wf(),
    {
        match self.position(&key) {
            Some(_) => Err(()),
            None => {
                proof {
                    lemma_insert_keeps_unique(self@, key, value);
                }
                self.inner.push((key, value));
                let n = self.inner.len();
                Ok(&mut self.inner[n - 1].1)
            },
        }
    }

    /// Removes `key`; returns the value that was there.
    pub fn remove(&mut self, key: &K) -> (r: Option<V>)
        requires
            old(self).wf(),
        ensures
            final(self).wf(),
            final(self)@ == remove_spec(old(self)@, *key),
            r == lookup(old(self)@, *key),
    {
        // 1. find the index of the specified key
        // 2. swap_remove it
        match self.position(key) {
            Some(index) => {
                let e = self.inner.swap_remove(index);
                proof {
                    assert(self@ =~= remove_spec(old(self)@, *key));
                    assert forall|i: int, j: int|
                        0 <= i < self@.len() && 0 <= j < self@.len() && i != j implies self@[i].0
                        != self@[j].0 by {
                        let s = old(self)@;
                        let ii = if i == index { s.len() - 1 } else { i };
                        let jj = if j == index { s.len() - 1 } else { j };
                        assert(self@[i] == s[ii]);
                        assert(self@[j] == s[jj]);
                    }
                }
                Some(e.1)
            },
            None => None,
        }
    }

    /// Returns the value at `key`.
    pub fn get(&self, key: &K) -> (r: Option<&V>)
        requires
            self.wf(),
        ensures
            match r {
                Some(v) => lookup(self@, *key) == Some(*v),
                None => lookup(self@, *key) is None,
            },
    {
        match self.position(key) {
            Some(index) => Some(&self.inner[index].1),
            None => None,
        }
    }

    /// Inserts every entry of `other` into `self`, front to back.
    pub fn merge(&mut self, other: Self)
        requires
            old(self).wf(),
        ensures
            final(self).wf(),
            final(self)@ == merge_spec(old(self)@, other@),
    {
        let mut rest = other.inner;
        let ghost all = rest@;
        let ghost mut done: int = 0;
        while rest.len() > 0
            invariant
                self.wf(),
                0 <= done <= all.len(),
                rest@ == all.subrange(done, all.len() as int),
                self@ == merge_spec(old(self)@, all.take(done)),
            decreases rest.len(),
        {
            let (k, v) = rest.remove(0);
            proof {
                assert(all.take(done + 1).drop_last() =~= all.take(done));
                assert(all.take(done + 1).last() == (k, v));
            }
            self.insert(k, v);
            proof {
                done = done + 1;
                assert(rest@ =~= all.subrange(done, all.len() as int));
            }
        }
        proof {
            assert(all.take(all.len() as int) =~= all);
        }
    }
}

/// The entries of `s` as a mathematical map.
pub open spec fn as_map<K, V>(s: Seq<(K, V)>) -> Map<K, V> {
    Map::new(|k: K| contains_key(s, k), |k: K| s[key_position(s, k)].1)
}

/// The keys of `as_map(s)` are finite: they are the keys of the entries.
pub proof fn lemma_as_map_finite<K, V>(s: Seq<(K, V)>)
    ensures
        as_map(s).dom() == s.map_values(|e: (K, V)| e.0).to_set(),
        as_map(s).dom().finite(),
{
    let ks = s.map_values(|e: (K, V)| e.0);
    assert forall|k: K| as_map(s).dom().contains(k) <==> ks.to_set().contains(k) by {
        if contains_key(s, k) {
            let i = choose|i: int| 0 <= i < s.len() && s[i].0 == k;
            assert(ks[i] == k);
        }
        if ks.contains(k) {
            let i = choose|i: int| 0 <= i < ks.len() && ks[i] == k;
            assert(s[i].0 == k);
        }
    }
    assert(as_map(s).dom() =~= ks.to_set());
    vstd::seq_lib::seq_to_set_is_finite(ks);
}

/// `lookup` agrees with `as_map`.
pub proof fn lemma_lookup_as_map<K, V>(s: Seq<(K, V)>, k: K)
    ensures
        lookup(s, k) == (if as_map(s).contains_key(k) {
            Some(as_map(s)[k])
        } else {
            None
        }),
{
}

/// As maps, inserting into the entries is inserting into the map.
pub proof fn lemma_as_map_insert<K, V>(s: Seq<(K, V)>, k: K, v: V)
    requires
        keys_unique(s),
    ensures
        as_map(insert_spec(s, k, v)) == as_map(s).insert(k, v),
{
    let t = insert_spec(s, k, v);
    assert forall|x: K| #[trigger] as_map(t).contains_key(x) == as_map(s).insert(k, v).contains_key(x)
        && (as_map(t).contains_key(x) ==> as_map(t)[x] == as_map(s).insert(k, v)[x]) by {
        law_lookup_after_insert(s, k, v, x);
    }
    assert(as_map(t) =~= as_map(s).insert(k, v));
}

/// As maps, merging the entries is a union in which `o` takes precedence.
pub proof fn lemma_as_map_merge<K, V>(s: Seq<(K, V)>, o: Seq<(K, V)>)
    requires
        keys_unique(s),
        keys_unique(o),
    ensures
        as_map(merge_spec(s, o)) == as_map(s).union_prefer_right(as_map(o)),
{
    let t = merge_spec(s, o);
    let r = as_map(s).union_prefer_right(as_map(o));
    assert forall|x: K| #[trigger] as_map(t).contains_key(x) == r.contains_key(x) && (as_map(
        t,
    ).contains_key(x) ==> as_map(t)[x] == r[x]) by {
        law_lookup_after_merge(s, o, x);
    }
    assert(as_map(t) =~= r);
}

impl<K: GreaterEqual + Copy, V: Value> GreaterEqualMap<K, V> {
    /// A copy of the map.
    pub fn clone_map(&self) -> (r: Self)
        ensures
            r@ == self@,
    {
        let mut inner: Vec<(K, V)> = Vec::new();
        let mut i: usize = 0;
        while i < self.inner.len()
            invariant
                0 <= i <= self@.len(),
                self@ == self.inner@,
                inner@ == self@.take(i as int),
            decreases self.inner.len() - i,
        {
            let e = &self.inner[i];
            inner.push((e.0, e.1.clone_value()));
            proof {
                assert(self@.take(i + 1) =~= self@.take(i as int).push(self@[i as int]));
            }
            i += 1;
        }
        proof {
            assert(self@.take(self@.len() as int) =~= self@);
        }
        GreaterEqualMap { inner }
    }
}

/// `s` lists no key after a smaller one: it orders its keys by `>=` as far
/// as they are ordered.
pub open spec fn sorted_by_ge<K: GreaterEqual, V>(s: Seq<(K, V)>) -> bool {
    forall|i: int, j: int| 0 <= i < j < s.len() ==> !gt_spec(#[trigger] s[i].0, #[trigger] s[j].0)
}

impl<K: Time + Copy, V: Value> GreaterEqualMap<K, V> {
    /// The entries, ordered by `>=`: no key comes after a smaller one.
    pub fn sorted_entries(&self) -> (r: Vec<(K, V)>)
        requires
            self.wf(),
        ensures
            r@.len() == self@.len(),
            r@.to_set() == self@.to_set(),
            sorted_by_ge(r@),
    {
        let mut res: Vec<(K, V)> = Vec::new();
        let mut i: usize = 0;
        while i < self.inner.len()
            invariant
                0 <= i <= self@.len(),
                self@ == self.inner@,
                keys_unique(self@),
                res@.len() == i,
                res@.to_set() == self@.take(i as int).to_set(),
                sorted_by_ge(res@),
            decreases self.inner.len() - i,
        {
            let e = &self.inner[i];
            let entry = (e.0, e.1.clone_value());
            // after the last entry whose key is smaller
            let mut pos: usize = 0;
            let mut k: usize = 0;
            while k < res.len()
                invariant
                    0 <= k <= res@.len(),
                    0 <= pos <= k,
                    pos > 0 ==> gt_spec(entry.0, res@[pos - 1].0),
                    forall|m: int| pos <= m < k ==> !gt_spec(entry.0, #[trigger] res@[m].0),
                decreases res.len() - k,
            {
                if entry.0.is_gt(&res[k].0) {
                    pos = k + 1;
                }
                k += 1;
            }
            let ghost s = res@;
            proof {
                assert(entry == self@[i as int]);
                assert forall|a: int| 0 <= a < pos implies !gt_spec(#[trigger] s[a].0, entry.0) by {
                    let l = pos - 1;
                    if gt_spec(s[a].0, entry.0) {
                        if a == l {
                            K::lemma_antisymmetric(s[a].0, entry.0);
                        } else {
                            K::lemma_transitive(s[a].0, entry.0, s[l].0);
                            if s[a].0 == s[l].0 {
                                K::lemma_antisymmetric(s[a].0, entry.0);
                            }
                            assert(!gt_spec(s[a].0, s[l].0));
                        }
                    }
                }
            }
            res.insert(pos, entry);
            proof {
                assert(res@ =~= s.insert(pos as int, entry));
                assert forall|a: int, b: int| 0 <= a < b < res@.len() implies !gt_spec(
                    #[trigger] res@[a].0,
                    #[trigger] res@[b].0,
                ) by {
                    if a == pos {
                        assert(res@[b] == s[b - 1]);
                    } else if b == pos {
                        assert(res@[a] == s[a]);
                    } else {
                        let aa = if a < pos { a } else { a - 1 };
                        let bb = if b < pos { b } else { b - 1 };
                        assert(res@[a] == s[aa]);
                        assert(res@[b] == s[bb]);
                    }
                }
                assert(self@.take(i + 1) =~= self@.take(i as int).push(self@[i as int]));
                assert forall|z: (K, V)| res@.to_set().contains(z) <==> s.to_set().insert(entry).contains(z) by {
                    if res@.contains(z) {
                        let a = choose|a: int| 0 <= a < res@.len() && res@[a] == z;
                        if a < pos {
                            assert(s[a] == z);
                        } else if a > pos {
                            assert(s[a - 1] == z);
                        }
                    }
                    if s.contains(z) {
                        let a = choose|a: int| 0 <= a < s.len() && s[a] == z;
                        if a < pos {
                            assert(res@[a] == z);
                        } else {
                            assert(res@[a + 1] == z);
                        }
                    }
                    if z == entry {
                        assert(res@[pos as int] == entry);
                    }
                }
                vstd::seq::Seq::lemma_push_to_set_commute(self@.take(i as int), self@[i as int]);
                assert(res@.to_set() =~= self@.take(i + 1).to_set());
            }
            i += 1;
        }
        proof {
            assert(self@.take(self@.len() as int) =~= self@);
        }
        res
    }
}

/// Inserting keeps the keys unique.
pub proof fn lemma_insert_keeps_unique<K, V>(s: Seq<(K, V)>, k: K, v: V)
    requires
        keys_unique(s),
    ensures
        keys_unique(insert_spec(s, k, v)),
{
    if contains_key(s, k) {
        let p = key_position(s, k);
        assert(s[p].0 == k);
    }
}

/// Merging keeps the keys unique.
pub proof fn lemma_merge_keeps_unique<K, V>(s: Seq<(K, V)>, o: Seq<(K, V)>)
    requires
        keys_unique(s),
    ensures
        keys_unique(merge_spec(s, o)),
    decreases o.len(),
{
    if o.len() > 0 {
        lemma_merge_keeps_unique(s, o.drop_last());
        lemma_insert_keeps_unique(merge_spec(s, o.drop_last()), o.last().0, o.last().1);
    }
}

/// After inserting `(k, v)`, looking up `k` gives `v`, and every other key
/// keeps its value.
pub proof fn law_lookup_after_insert<K, V>(s: Seq<(K, V)>, k: K, v: V, other: K)
    requires
        keys_unique(s),
    ensures
        lookup(insert_spec(s, k, v), k) == Some(v),
        other != k ==> lookup(insert_spec(s, k, v), other) == lookup(s, other),
{
    lemma_insert_keeps_unique(s, k, v);
    let t = insert_spec(s, k, v);
    if contains_key(s, k) {
        let p = key_position(s, k);
        assert(s[p].0 == k);
        assert(t[p].0 == k);
        assert(contains_key(t, k));
    } else {
        assert(t[s.len() as int].0 == k);
        assert(contains_key(t, k));
    }
    let q = key_position(t, k);
    assert(t[q].0 == k);
    if other != k {
        if contains_key(s, other) {
            let po = key_position(s, other);
            assert(s[po].0 == other);
            assert(t[po] == s[po]);
            assert(contains_key(t, other));
            let qo = key_position(t, other);
            assert(t[qo].0 == other);
        }
        if contains_key(t, other) {
            let qo = key_position(t, other);
            assert(t[qo].0 == other);
            assert(qo < s.len());
            assert(s[qo] == t[qo]);
            assert(contains_key(s, other));
        }
    }
}

/// After removing `k`, looking up `k` gives nothing, and every other key
/// keeps its value.
pub proof fn law_lookup_after_remove<K, V>(s: Seq<(K, V)>, k: K, other: K)
    requires
        keys_unique(s),
    ensures
        lookup(remove_spec(s, k), k) is None,
        other != k ==> lookup(remove_spec(s, k), other) == lookup(s, other),
{
    let t = remove_spec(s, k);
    if contains_key(s, k) {
        let p = key_position(s, k);
        assert(s[p].0 == k);
        let n = s.len() - 1;
        assert forall|i: int| 0 <= i < t.len() implies t[i].0 != k by {
            let ii = if i == p { n } else { i };
            assert(t[i] == s[ii]);
        }
        if other != k {
            if contains_key(s, other) {
                let po = key_position(s, other);
                assert(s[po].0 == other);
                let j = if po == n { p } else { po };
                assert(t[j] == s[po]);
                assert(contains_key(t, other));
                let qo = key_position(t, other);
                assert(t[qo].0 == other);
                let qq = if qo == p { n } else { qo };
                assert(t[qo] == s[qq]);
            }
            if contains_key(t, other) {
                let qo = key_position(t, other);
                assert(t[qo].0 == other);
                let qq = if qo == p { n } else { qo };
                assert(t[qo] == s[qq]);
                assert(contains_key(s, other));
            }
        }
    }
}

/// After merging `o` into `s`, a key of `o` has the value that `o` gives it;
/// any other key keeps the value that `s` gives it.
pub proof fn law_lookup_after_merge<K, V>(s: Seq<(K, V)>, o: Seq<(K, V)>, k: K)
    requires
        keys_unique(s),
        keys_unique(o),
    ensures
        lookup(merge_spec(s, o), k) == (if contains_key(o, k) {
            lookup(o, k)
        } else {
            lookup(s, k)
        }),
    decreases o.len(),
{
    if o.len() > 0 {
        let o2 = o.drop_last();
        assert(keys_unique(o2));
        law_lookup_after_merge(s, o2, k);
        lemma_merge_keeps_unique(s, o2);
        let (lk, lv) = o.last();
        law_lookup_after_insert(merge_spec(s, o2), lk, lv, k);
        if k == lk {
            assert(o[o.len() - 1].0 == k);
            let p = key_position(o, k);
            assert(o[p].0 == k);
        } else {
            if contains_key(o2, k) {
                let p = key_position(o2, k);
                assert(o2[p].0 == k);
                assert(o[p] == o2[p]);
                assert(contains_key(o, k));
                let q = key_position(o, k);
                assert(o[q].0 == k);
            }
            if contains_key(o, k) {
                let q = key_position(o, k);
                assert(o[q].0 == k);
                assert(q != o.len() - 1);
                assert(o2[q] == o[q]);
                assert(contains_key(o2, k));
                let p = key_position(o2, k);
                assert(o2[p].0 == k);
            }
        }
    }
}

/// Keeping some of the entries of `s`, in order, keeps their keys unique.
proof fn lemma_filter_keys_unique<K, V>(s: Seq<(K, V)>, pred: spec_fn((K, V)) -> bool)
    requires
        keys_unique(s),
    ensures
        keys_unique(s.filter(pred)),
    decreases s.len(),
{
    reveal(Seq::filter);
    if s.len() > 0 {
        let rest = s.drop_last();
        assert(keys_unique(rest)) by {
            assert forall|i: int, j: int|
                0 <= i < rest.len() && 0 <= j < rest.len() && i != j implies rest[i].0 != rest[j].0 by {
                assert(rest[i] == s[i] && rest[j] == s[j]);
            }
        }
        lemma_filter_keys_unique(rest, pred);
        let f = rest.filter(pred);
        if pred(s.last()) {
            assert(s.filter(pred) == f.push(s.last()));
            assert forall|i: int| 0 <= i < f.len() implies f[i].0 != s.last().0 by {
                rest.lemma_filter_contains_rev(pred, f[i]);
                let j = choose|j: int| 0 <= j < rest.len() && rest[j] == f[i];
                assert(rest[j] == s[j]);
                assert(s.last() == s[s.len() - 1]);
            }
            assert forall|i: int, j: int|
                0 <= i < f.len() + 1 && 0 <= j < f.len() + 1 && i != j implies f.push(s.last())[i].0
                != f.push(s.last())[j].0 by {
                if i < f.len() && j < f.len() {
                } else if i < f.len() {
                    assert(f.push(s.last())[j] == s.last());
                } else {
                    assert(f.push(s.last())[i] == s.last());
                }
            }
        } else {
            assert(s.filter(pred) == f);
        }
    }
}

/// A key is maximal among the entries `s` exactly when no key of `s` is
/// greater than it; the maximal entries are the entries of `s` that no key
/// of `s` is greater than, each of them, and nothing else.
pub proof fn law_maximal_means_none_greater<K: Time, V>(s: Seq<(K, V)>, key: K)
    ensures
        is_maximal_key(s, key) <==> !exists|k: K|
            #[trigger] as_map(s).contains_key(k) && gt_spec(k, key),
        forall|e: (K, V)| #[trigger]
            maximal_entries(s).contains(e) ==> s.contains(e) && !exists|k: K|
                #[trigger] as_map(s).contains_key(k) && gt_spec(k, e.0),
        forall|i: int|
            0 <= i < s.len() && !(exists|k: K| #[trigger]
                as_map(s).contains_key(k) && gt_spec(k, s[i].0)) ==> #[trigger] maximal_entries(
                s,
            ).contains(s[i]),
        keys_unique(s) ==> keys_unique(maximal_entries(s)),
        maximal_entries(s).len() <= s.len(),
{
    if keys_unique(s) {
        lemma_filter_keys_unique(s, |e: (K, V)| is_maximal_key(s, e.0));
    }
    s.lemma_filter_len(|e: (K, V)| is_maximal_key(s, e.0));
    assert forall|x: K| is_maximal_key(s, x) <==> !exists|k: K|
        #[trigger] as_map(s).contains_key(k) && gt_spec(k, x) by {
        if is_maximal_key(s, x) {
            if exists|k: K| #[trigger] as_map(s).contains_key(k) && gt_spec(k, x) {
                let k = choose|k: K| #[trigger] as_map(s).contains_key(k) && gt_spec(k, x);
                let i = choose|i: int| 0 <= i < s.len() && s[i].0 == k;
                assert(s[i].0.ge_spec(&x));
                K::lemma_antisymmetric(k, x);
            }
        } else {
            let i = choose|i: int|
                0 <= i < s.len() && !(#[trigger] s[i].0.ge_spec(&x) ==> x.ge_spec(&s[i].0));
            K::lemma_reflexive(x);
            assert(as_map(s).contains_key(s[i].0));
            assert(gt_spec(s[i].0, x));
        }
    }
    let pred = |e: (K, V)| is_maximal_key(s, e.0);
    assert forall|e: (K, V)| #[trigger] maximal_entries(s).contains(e) implies s.contains(e)
        && !exists|k: K| #[trigger] as_map(s).contains_key(k) && gt_spec(k, e.0) by {
        s.lemma_filter_contains_rev(pred, e);
        let j = choose|j: int| 0 <= j < s.filter(pred).len() && s.filter(pred)[j] == e;
        s.lemma_filter_pred(pred, j);
    }
    assert forall|i: int|
        0 <= i < s.len() && !(exists|k: K| #[trigger]
            as_map(s).contains_key(k) && gt_spec(k, s[i].0)) implies #[trigger] maximal_entries(
        s,
    ).contains(s[i]) by {
        s.lemma_filter_contains(pred, i);
    }
}

} // verus!
