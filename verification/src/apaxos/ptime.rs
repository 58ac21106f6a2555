use vstd::prelude::*;

use crate::apaxos::greater_equal::gt_spec;
use crate::apaxos::greater_equal::GreaterEqual;
use vstd::arithmetic::div_mod::lemma_fundamental_div_mod;
use vstd::arithmetic::div_mod::lemma_mod_multiples_basic;
use vstd::arithmetic::div_mod::lemma_mod_self_0;

verus! {

/// Pseudo time that is used in a distributed system.
///
/// `Time` is a partially ordered set under `>=` (`ge_spec`):
///
/// - Reflexivity: `a >= a`
/// - Antisymmetry: `a >= b` and `b >= a` implies `a == b`
/// - Transitivity: `a >= b` and `b >= c` implies `a >= c`
///
/// Every implementation proves the three laws.
pub trait Time: GreaterEqual + Copy + core::fmt::Debug + Default {
    proof fn lemma_reflexive(a: Self)
        ensures
            a.ge_spec(&a),
    ;

    proof fn lemma_antisymmetric(a: Self, b: Self)
        requires
            a.ge_spec(&b),
            b.ge_spec(&a),
        ensures
            a == b,
    ;

    proof fn lemma_transitive(a: Self, b: Self, c: Self)
        requires
            a.ge_spec(&b),
            b.ge_spec(&c),
        ensures
            a.ge_spec(&c),
    ;
}

/// A [`Time`] in which every two values are comparable, such as a ballot
/// number of classic Paxos.
pub trait TotalTime: Time {
    proof fn lemma_total(a: Self, b: Self)
        ensures
            a.ge_spec(&b) || b.ge_spec(&a),
    ;
}

impl Time for u64 {
    proof fn lemma_reflexive(a: Self) {
    }

    proof fn lemma_antisymmetric(a: Self, b: Self) {
    }

    proof fn lemma_transitive(a: Self, b: Self, c: Self) {
    }
}

impl TotalTime for u64 {
    proof fn lemma_total(a: Self, b: Self) {
    }
}

/// A time ordered by divisibility: `a >= b` iff `b` divides `a`.
///
/// E.g. `1 < 2 < 6` and `1 < 3 < 6`, but `2` and `3` are not comparable.
/// `0` is divided by every value and divides only itself, so it is the
/// greatest time.
#[derive(Debug, Clone, Copy, PartialEq, Eq, Default)]
pub struct DivisibleTime(pub u64);

/// `b` divides `a`.
pub open spec fn divides(b: u64, a: u64) -> bool {
    if b == 0 {
        a == 0
    } else {
        a % b == 0
    }
}

impl GreaterEqual for DivisibleTime {
    open spec fn ge_spec(&self, other: &Self) -> bool {
        divides(other.0, self.0)
    }

    fn greater_equal(&self, other: &Self) -> (r: bool) {
        if other.0 == 0 {
            self.0 == 0
        } else {
            self.0 % other.0 == 0
        }
    }

    fn equals(&self, other: &Self) -> (r: bool) {
        self.0 == other.0
    }
}

/// A positive multiple of a positive `b` is at least `b`.
proof fn lemma_multiple_at_least(a: int, b: int)
    requires
        a > 0,
        b > 0,
        a % b == 0,
    ensures
        a >= b,
{
    lemma_fundamental_div_mod(a, b);
    let q = a / b;
    assert(a == b * q);
    assert(q >= 1) by (nonlinear_arith)
        requires
            a == b * q,
            a > 0,
            b > 0,
    ;
    assert(b * q >= b) by (nonlinear_arith)
        requires
            q >= 1,
            b > 0,
    ;
}

impl Time for DivisibleTime {
    proof fn lemma_reflexive(a: Self) {
        if a.0 != 0 {
            lemma_mod_self_0(a.0 as int);
        }
    }

    proof fn lemma_antisymmetric(a: Self, b: Self) {
        if a.0 != 0 && b.0 != 0 {
            lemma_multiple_at_least(a.0 as int, b.0 as int);
            lemma_multiple_at_least(b.0 as int, a.0 as int);
        }
    }

    proof fn lemma_transitive(a: Self, b: Self, c: Self) {
        if c.0 != 0 && b.0 != 0 {
            let x = a.0 as int;
            let y = b.0 as int;
            let z = c.0 as int;
            lemma_fundamental_div_mod(x, y);
            lemma_fundamental_div_mod(y, z);
            let k = x / y;
            let m = y / z;
            assert(x == (m * k) * z) by (nonlinear_arith)
                requires
                    x == y * k,
                    y == z * m,
            ;
            lemma_mod_multiples_basic(m * k, z);
        } else if c.0 != 0 {
            // b == 0, hence a == 0, and c divides 0.
            assert(a.0 == 0);
        }
    }
}

/// `a < b`.
pub open spec fn time_lt<Tm: GreaterEqual>(a: Tm, b: Tm) -> bool {
    gt_spec(b, a)
}

/// `t` is maximal in `s`: no element of `s` is greater than it.
pub open spec fn is_maximal_in<Tm: GreaterEqual>(s: Set<Tm>, t: Tm) -> bool {
    forall|u: Tm| #[trigger] s.contains(u) ==> !gt_spec(u, t)
}

/// The maximal elements of `s`.
pub open spec fn maximal_elements<Tm: GreaterEqual>(s: Set<Tm>) -> Set<Tm> {
    s.filter(|t: Tm| is_maximal_in(s, t))
}

/// The elements of `s` that are greater than `x`.
pub open spec fn strictly_above<Tm: GreaterEqual>(s: Set<Tm>, x: Tm) -> Set<Tm> {
    s.filter(|u: Tm| gt_spec(u, x))
}

/// The elements of `s` that are less than or equal to `t`.
pub open spec fn at_or_below<Tm: GreaterEqual>(s: Set<Tm>, t: Tm) -> Set<Tm> {
    s.filter(|u: Tm| t.ge_spec(&u))
}

/// In a finite partially ordered set every element is less than or equal to
/// some maximal element.
pub proof fn lemma_below_some_maximal<Tm: Time>(s: Set<Tm>, x: Tm)
    requires
        s.finite(),
        s.contains(x),
    ensures
        exists|m: Tm| #[trigger] maximal_elements(s).contains(m) && m.ge_spec(&x),
    decreases strictly_above(s, x).len(),
{
    if is_maximal_in(s, x) {
        Tm::lemma_reflexive(x);
        assert(maximal_elements(s).contains(x));
    } else {
        let y = choose|u: Tm| s.contains(u) && gt_spec(u, x);
        let ax = strictly_above(s, x);
        let ay = strictly_above(s, y);
        s.lemma_len_filter(|u: Tm| gt_spec(u, x));
        assert forall|u: Tm| ay.contains(u) implies ax.remove(y).contains(u) by {
            Tm::lemma_transitive(u, y, x);
            if u == x {
                Tm::lemma_antisymmetric(x, y);
            }
            if u == y {
                Tm::lemma_reflexive(y);
            }
        }
        vstd::set_lib::lemma_len_subset(ay, ax.remove(y));
        assert(ax.contains(y));
        lemma_below_some_maximal(s, y);
        let m = choose|m: Tm| #[trigger] maximal_elements(s).contains(m) && m.ge_spec(&y);
        Tm::lemma_transitive(m, y, x);
    }
}

/// Adding `t` to a finite set: the maximal elements that `t` is greater than
/// drop out, and `t` becomes maximal unless a maximal element is greater
/// than it.
pub proof fn lemma_maximal_elements_insert<Tm: Time>(p: Set<Tm>, t: Tm)
    requires
        p.finite(),
    ensures
        (exists|m: Tm| #[trigger] maximal_elements(p).contains(m) && gt_spec(m, t))
            ==> maximal_elements(p.insert(t)) == maximal_elements(p).filter(
            |m: Tm| !gt_spec(t, m),
        ),
        !(exists|m: Tm| #[trigger] maximal_elements(p).contains(m) && gt_spec(m, t))
            ==> maximal_elements(p.insert(t)) == maximal_elements(p).filter(
            |m: Tm| !gt_spec(t, m),
        ).insert(t),
{
    let q = p.insert(t);
    let mx = maximal_elements(p);
    let kept = mx.filter(|m: Tm| !gt_spec(t, m));
    if exists|m: Tm| #[trigger] mx.contains(m) && gt_spec(m, t) {
        let m0 = choose|m: Tm| #[trigger] mx.contains(m) && gt_spec(m, t);
        assert forall|x: Tm| maximal_elements(q).contains(x) <==> kept.contains(x) by {
            if maximal_elements(q).contains(x) {
                assert(q.contains(m0));
                assert(x != t);
                assert forall|u: Tm| #[trigger] p.contains(u) implies !gt_spec(u, x) by {
                    assert(q.contains(u));
                }
                assert(q.contains(t));
            }
            if kept.contains(x) {
                assert forall|u: Tm| #[trigger] q.contains(u) implies !gt_spec(u, x) by {
                    if u != t {
                        assert(p.contains(u));
                    }
                }
            }
        }
        assert(maximal_elements(q) =~= kept);
    } else {
        assert forall|x: Tm| maximal_elements(q).contains(x) <==> kept.insert(t).contains(x) by {
            if maximal_elements(q).contains(x) && x != t {
                assert forall|u: Tm| #[trigger] p.contains(u) implies !gt_spec(u, x) by {
                    assert(q.contains(u));
                }
                assert(q.contains(t));
            }
            if x == t {
                assert forall|u: Tm| #[trigger] q.contains(u) implies !gt_spec(u, t) by {
                    if u != t && gt_spec(u, t) {
                        lemma_below_some_maximal(p, u);
                        let m = choose|m: Tm| #[trigger] mx.contains(m) && m.ge_spec(&u);
                        Tm::lemma_transitive(m, u, t);
                        if m == t {
                            Tm::lemma_antisymmetric(u, t);
                        }
                        assert(gt_spec(m, t));
                    }
                }
            }
            if kept.contains(x) {
                assert forall|u: Tm| #[trigger] q.contains(u) implies !gt_spec(u, x) by {
                    if u != t {
                        assert(p.contains(u));
                    }
                }
            }
        }
        assert(maximal_elements(q) =~= kept.insert(t));
    }
}

/// All maximal elements have no order between them: two maximal elements
/// that are ordered are the same.
pub proof fn law_maximals_unordered<Tm: Time>(s: Set<Tm>, a: Tm, b: Tm)
    requires
        maximal_elements(s).contains(a),
        maximal_elements(s).contains(b),
        a.ge_spec(&b),
    ensures
        a == b,
{
}

} // verus!
