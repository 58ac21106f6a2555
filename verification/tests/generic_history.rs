use raxos::apaxos::history::History;
use raxos::apaxos::ptime::DivisibleTime as P;
use raxos::commonly_used::history::generic::GenericHistory;
use raxos::commonly_used::history::one_slot::OneSlotHistory;

type G = GenericHistory<P, String>;

fn s(s: impl ToString) -> String {
    s.to_string()
}

fn sorted_maximals(h: &G) -> Vec<u64> {
    let mut v: Vec<u64> = h.maximal_times().into_iter().map(|t| t.0).collect();
    v.sort();
    v
}

#[test]
fn test_generic_history_append_maximals() {
    let mut h = G::new_empty();
    assert!(h.append(P(2), s("two")).is_ok());
    assert!(h.append(P(3), s("three")).is_ok());
    assert_eq!(sorted_maximals(&h), vec![2, 3]);

    // 4 is not less than 2 or 3; 2 divides 4, so 2 is no longer maximal
    assert!(h.append(P(4), s("four")).is_ok());
    assert_eq!(sorted_maximals(&h), vec![3, 4]);

    assert!(h.append(P(12), s("twelve")).is_ok());
    assert_eq!(sorted_maximals(&h), vec![12]);

    // 6 divides 12: appending at 6 is a time regression
    let e = h.append(P(6), s("six")).err().unwrap();
    assert_eq!(e.attempted, P(6));
    assert_eq!(e.existing, P(12));
    assert_eq!(h.get(&P(6)), None);

    assert_eq!(h.get(&P(3)), Some(&s("three")));
    assert!(h.greater_equal(P(6)));
    assert!(h.greater_equal(P(12)));
    assert!(!h.greater_equal(P(5)));
    assert!(h.greater_than(P(4)));
    assert!(!h.greater_than(P(12)));
}

#[test]
fn test_generic_history_lower_bounds() {
    let mut h = G::new_empty();
    h.append(P(2), s("two")).unwrap();
    h.append(P(3), s("three")).unwrap();
    h.append(P(6), s("six")).unwrap();
    let lb = h.lower_bounds(P(4));
    assert_eq!(sorted_maximals(&lb), vec![2]);
    assert_eq!(lb.get(&P(3)), None);
    assert_eq!(lb.maximals(), vec![(P(2), s("two"))]);
}

#[test]
fn test_generic_history_merge() {
    let mut a = G::new_empty();
    a.append(P(2), s("a2")).unwrap();
    let mut b = G::new_empty();
    b.append(P(3), s("b3")).unwrap();

    // incomparable branches are both kept
    let mut m = a.clone_history();
    m.merge(b.clone_history());
    assert_eq!(sorted_maximals(&m), vec![2, 3]);

    // a branch smaller than the other side is dropped
    let mut c = G::new_empty();
    c.append(P(6), s("c6")).unwrap();
    let mut m2 = m.clone_history();
    m2.merge(c);
    assert_eq!(sorted_maximals(&m2), vec![6]);
    assert_eq!(m2.get(&P(2)), None);

    // merging a history with itself keeps it
    let mut m3 = m.clone_history();
    m3.merge(m.clone_history());
    assert_eq!(sorted_maximals(&m3), vec![2, 3]);
    assert_eq!(m3.get(&P(2)), Some(&s("a2")));

    // on an equal maximal time both branches are kept
    let mut x = G::new_empty();
    x.append(P(6), s("e")).unwrap();
    let mut y = G::new_empty();
    y.append(P(3), s("f")).unwrap();
    y.append(P(6), s("e")).unwrap();
    x.merge(y);
    assert_eq!(sorted_maximals(&x), vec![6]);
    assert_eq!(x.get(&P(3)), Some(&s("f")));
    assert_eq!(x.get(&P(6)), Some(&s("e")));

    // do_merge unites the events
    let mut u = a.clone_history();
    u.do_merge(b);
    assert_eq!(sorted_maximals(&u), vec![2, 3]);
    let mut d = G::default();
    d.do_merge(a);
    assert_eq!(d.get(&P(2)), Some(&s("a2")));
}

#[test]
fn test_one_slot_history() {
    let h: OneSlotHistory<u64, String> = OneSlotHistory::new(Some((3, s("v"))));
    assert_eq!(h.value_time(), Some(3));
    assert_eq!(h.value(), Some(&s("v")));
    let e: OneSlotHistory<u64, String> = OneSlotHistory::new(None);
    assert_eq!(e.value_time(), None);
    assert_eq!(e.value(), None);
    assert_eq!(h.maximals(), vec![(3, s("v"))]);
    assert_eq!(e.maximals(), vec![]);
}

#[test]
fn test_merge_keeps_a_greater_head() {
    let mut a = G::new_empty();
    a.append(P(6), s("a6")).unwrap();
    let mut b = G::new_empty();
    b.append(P(2), s("b2")).unwrap();
    a.merge(b);
    assert!(a.greater_equal(P(2)));
    assert_eq!(a.get(&P(6)), Some(&s("a6")));
    assert_eq!(a.get(&P(2)), None);
}

#[test]
fn test_view_of_view() {
    let mut h = G::new_empty();
    h.append(P(2), s("two")).unwrap();
    h.append(P(3), s("three")).unwrap();
    h.append(P(12), s("twelve")).unwrap();
    let direct = h.lower_bounds(P(6));
    let nested = h.lower_bounds(P(12)).lower_bounds(P(6));
    let mut d = sorted_maximals(&direct);
    let mut n = sorted_maximals(&nested);
    d.sort();
    n.sort();
    assert_eq!(d, vec![2, 3]);
    assert_eq!(d, n);
    assert_eq!(nested.get(&P(12)), None);
}

#[test]
fn test_generic_do_append_below_a_maximal() {
    let mut h = G::new_empty();
    h.do_append(P(12), s("twelve"));
    // 3 divides 12: stored, and 12 stays the only maximal time
    h.do_append(P(3), s("three"));
    assert_eq!(h.get(&P(3)), Some(&s("three")));
    assert_eq!(sorted_maximals(&h), vec![12]);
    // 5 is unordered with 12: both are maximal
    h.do_append(P(5), s("five"));
    assert_eq!(sorted_maximals(&h), vec![5, 12]);
}
