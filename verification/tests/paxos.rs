use std::collections::BTreeMap;

use raxos::apaxos::acceptor::Acceptor;
use raxos::apaxos::branch::Branch;
use raxos::apaxos::branch::HEAD_UNSET;
use raxos::apaxos::decided::Decided;
use raxos::apaxos::errors::APError;
use raxos::apaxos::errors::TimeRegression;
use raxos::apaxos::focal_history::FocalHistory;
use raxos::apaxos::focal_history::WITHOUT_CURRENT_EVENT;
use raxos::apaxos::history::History;
use raxos::apaxos::history_view::history_view;
use raxos::apaxos::history_view::HistoryView;
use raxos::apaxos::proposer::phase1::Phase1;
use raxos::apaxos::proposer::phase2::Phase2;
use raxos::apaxos::proposer::Proposer;
use raxos::commonly_used::history::linear::LinearHistory;
use raxos::commonly_used::history::linear::MULTI_VALUE;
use raxos::commonly_used::history::linear::SINGLE_VALUE;
use raxos::commonly_used::history_view::BasicView;
use raxos::commonly_used::quorum_set::majority::Majority;
use raxos::commonly_used::transport::DirectCall;
use raxos::implementations::paxos::Paxos;
use raxos::APaxos;
use raxos::QuorumSet;
use raxos::Transport;

fn s(s: impl ToString) -> String {
    s.to_string()
}

type H = LinearHistory<u64, String, SINGLE_VALUE>;

fn history(entries: &[(u64, &str)]) -> H {
    let mut h = H::new_empty();
    for (t, e) in entries {
        h.do_append(*t, s(e));
    }
    h
}

fn new_apaxos(acceptor_ids: &[u64]) -> APaxos<Paxos, DirectCall<Paxos>> {
    let mut acceptors = BTreeMap::new();
    for id in acceptor_ids {
        acceptors.insert(*id, Acceptor::default());
    }
    let quorum_set = Majority::new(acceptor_ids.to_vec());
    let transport = DirectCall::new(acceptors.clone());
    APaxos::<Paxos, DirectCall<Paxos>>::new(acceptor_ids.to_vec(), quorum_set, transport)
}

#[test]
fn test_paxos() {
    let acceptor_ids = [1, 2, 3];

    let mut acceptors = BTreeMap::new();
    for id in acceptor_ids {
        acceptors.insert(id, Acceptor::default());
    }

    let quorum_set = Majority::new(acceptor_ids.to_vec());
    let transport = DirectCall::new(acceptors.clone());

    let mut apaxos = APaxos::<Paxos, DirectCall<Paxos>>::new(acceptor_ids.to_vec(), quorum_set, transport);

    let mut proposer = Proposer::new(&mut apaxos, 5, "hello".to_string());

    let committed = match proposer.run() {
        Ok(committed) => committed,
        Err(_) => panic!("the proposal is not committed"),
    };

    assert_eq!(committed.latest_time(), Some(5));
    assert_eq!(committed.latest_value(), Some(s("hello")));

    println!("Done");
}

#[test]
fn test_paxos_no_acceptor_is_not_committed() {
    let mut apaxos = new_apaxos(&[]);
    let mut proposer = Proposer::new(&mut apaxos, 5, s("hello"));
    match proposer.run() {
        Err(APError::ReadQuorumNotReached { accepted }) => assert!(accepted.is_empty()),
        _ => panic!("expected ReadQuorumNotReached"),
    }
}

#[test]
fn test_majority() {
    let m = Majority::new(vec![3, 1, 2, 1]);
    assert!(!m.is_read_quorum(&vec![1]));
    assert!(m.is_read_quorum(&vec![1, 2]));
    assert!(m.is_write_quorum(&vec![1, 2, 3]));
    assert!(!m.is_write_quorum(&vec![1, 4, 5]));
    let m4 = Majority::new(vec![1, 2, 3, 4]);
    assert!(!m4.is_read_quorum(&vec![1, 2]));
    assert!(m4.is_read_quorum(&vec![1, 2, 3]));
}

#[test]
fn test_apaxos_new_sorts_and_dedups() {
    let apaxos = new_apaxos(&[3, 1, 2, 3]);
    assert_eq!(apaxos.acceptors, vec![1, 2, 3]);
}

#[test]
fn test_acceptor_phase1_forbids_smaller() {
    let mut a: Acceptor<Paxos> = Acceptor::default();
    let view = a.handle_phase1_request(5).ok().unwrap();
    assert_eq!(view.current_time(), 5);
    assert_eq!(a.forbidden_commit_time, vec![5]);

    // a smaller phase-1 is rejected by the greater forbidden time
    assert_eq!(a.handle_phase1_request(3).err(), Some(5));
    assert_eq!(a.forbidden_commit_time, vec![5]);

    // a smaller phase-2 is rejected too
    let decided = Decided::<Paxos>::new_decided(3, history(&[(3, "x")]));
    assert_eq!(a.handle_phase2_request(decided), Err(5));
    assert_eq!(a.history.latest_time(), None);

    // a greater phase-1 replaces the smaller forbidden time
    assert!(a.handle_phase1_request(7).is_ok());
    assert_eq!(a.forbidden_commit_time, vec![7]);
    assert_eq!(a.check_committable(&7), Ok(()));
    assert_eq!(a.check_committable(&6), Err(7));
}

#[test]
fn test_acceptor_phase2_merges() {
    let mut a: Acceptor<Paxos> = Acceptor::default();
    a.forbid_smaller_commit_time(4);
    let decided = Decided::<Paxos>::new_decided(5, history(&[(5, "v")]));
    assert_eq!(a.handle_phase2_request(decided), Ok(()));
    assert_eq!(a.history.latest_time(), Some(5));
    assert_eq!(a.history.latest_value(), Some(s("v")));

    // a phase-1 view holds only what is at or before its time
    let view = a.handle_phase1_request(5).ok().unwrap();
    assert_eq!(view.into_history().latest_time(), Some(5));
    let view = history_view::<Paxos>(&a.history, 4);
    assert_eq!(view.into_history().latest_time(), None);
}

#[test]
fn test_linear_history_append() {
    let mut h = H::new_empty();
    assert_eq!(h.append(3, s("a")), Ok(()));
    assert_eq!(h.append(5, s("b")), Ok(()));
    // single value mode keeps the first value
    assert_eq!(h.get(&5), Some(&s("a")));
    assert_eq!(h.latest_time(), Some(5));
    assert_eq!(h.latest_value(), Some(s("a")));

    match h.append(4, s("c")) {
        Err(TimeRegression { attempted, existing }) => {
            assert_eq!(attempted, 4);
            assert_eq!(existing, 5);
        }
        Ok(()) => panic!("expected a time regression"),
    }
    assert_eq!(h.get(&4), None);

    let mut m: LinearHistory<u64, String, MULTI_VALUE> = LinearHistory::new_empty();
    m.append(1, s("a")).unwrap();
    m.append(2, s("b")).unwrap();
    assert_eq!(m.get(&2), Some(&s("b")));
    assert_eq!(m.maximal_times(), vec![2]);
    assert!(m.greater_equal(2));
    assert!(!m.greater_equal(3));
    assert!(m.greater_than(1));
    assert!(!m.greater_than(2));
}

#[test]
fn test_linear_history_lower_bounds_and_merge() {
    let h = history(&[(1, "a"), (3, "a"), (5, "a")]);
    let lb = h.lower_bounds(4);
    assert_eq!(lb.latest_time(), Some(3));
    assert_eq!(lb.maximals(), vec![(3, s("a"))]);

    // the history with the greater latest time is kept
    let mut x = history(&[(1, "x")]);
    x.merge(history(&[(2, "y")]));
    assert_eq!(x.latest_time(), Some(2));
    assert_eq!(x.latest_value(), Some(s("y")));

    let mut y = history(&[(4, "y")]);
    y.merge(history(&[(2, "x")]));
    assert_eq!(y.latest_value(), Some(s("y")));

    // on equal latest times, the history merged in replaces the other
    let mut z = history(&[(1, "z"), (4, "z")]);
    z.merge(history(&[(4, "w")]));
    assert_eq!(z.latest_time(), Some(4));
    assert_eq!(z.latest_value(), Some(s("w")));
    assert_eq!(z.get(&1), None);

    let mut e = H::new_empty();
    e.merge(history(&[(4, "w")]));
    assert_eq!(e.latest_value(), Some(s("w")));

    let mut d = history(&[(1, "a")]);
    d.do_merge(history(&[(4, "w")]));
    assert_eq!(d.get(&1), None);
    assert_eq!(d.get(&4), Some(&s("w")));
}

#[test]
fn test_views_add_event() {
    let view = HistoryView::<Paxos>::new(5, history(&[(3, "old")]));
    assert_eq!(view.current_time(), 5);
    let decided = view.append(s("new")).ok().unwrap();
    assert_eq!(decided.head_time(), 5);
    let h = decided.into_history();
    assert_eq!(h.get(&5), Some(&s("old")));

    // an event at the head time already: `Err`, with the history unchanged
    let branch = Branch::<Paxos, HEAD_UNSET>::new(5, history(&[(5, "kept")]));
    let set = branch.add_event(s("other")).err().unwrap();
    assert_eq!(set.head_time(), 5);
    assert_eq!(set.into_history().get(&5), Some(&s("kept")));

    let view = HistoryView::<Paxos>::new(5, history(&[(3, "a"), (5, "a")]));
    let kept = view.append(s("new")).err().unwrap();
    assert_eq!(kept.head_time(), 5);
    let h = kept.into_history();
    assert_eq!(h.get(&5), Some(&s("a")));
    assert_eq!(h.get(&3), Some(&s("a")));

    let focal = FocalHistory::<Paxos, WITHOUT_CURRENT_EVENT>::new(6, history(&[(6, "x")]));
    let kept = focal.add_event(s("y")).err().unwrap();
    assert_eq!(kept.head_time(), 6);
    assert_eq!(kept.into_history().get(&6), Some(&s("x")));

    let basic = BasicView::<Paxos>::new(2, history(&[(2, "x")]));
    let kept = basic.append(s("y")).err().unwrap();
    assert_eq!(kept.into_history().get(&2), Some(&s("x")));

    let branch = Branch::<Paxos, HEAD_UNSET>::new(7, history(&[(5, "old")]));
    let set = branch.add_event(s("other")).ok().unwrap();
    assert_eq!(set.head_time(), 7);
    assert_eq!(set.into_history().get(&7), Some(&s("old")));

    let focal = FocalHistory::<Paxos, WITHOUT_CURRENT_EVENT>::new(6, H::new_empty());
    let with_event = focal.add_event(s("e")).ok().unwrap();
    assert_eq!(with_event.head_time(), 6);
    assert_eq!(with_event.into_history().get(&6), Some(&s("e")));

    let basic = BasicView::<Paxos>::new(2, H::new_empty());
    assert_eq!(basic.current_time(), 2);
    let d = basic.append(s("b")).ok().unwrap();
    assert_eq!(d.clone_branch().head_time(), 2);
    assert_eq!(d.into_history().get(&2), Some(&s("b")));
}

#[test]
fn test_time_regression_new() {
    let e = TimeRegression::new(1u64, 2u64);
    assert_eq!(e.attempted, 1);
    assert_eq!(e.existing, 2);
}

#[test]
fn test_direct_call_replies_in_order() {
    let mut acceptors = BTreeMap::new();
    acceptors.insert(1u64, Acceptor::<Paxos>::default());
    acceptors.insert(2u64, Acceptor::<Paxos>::default());
    let mut t = DirectCall::new(acceptors);
    t.send_phase1_request(2, 4);
    t.send_phase1_request(1, 4);
    t.send_phase1_request(2, 3);
    let (id, r) = t.recv_phase1_reply();
    assert_eq!(id, 2);
    assert_eq!(r.ok().unwrap().current_time(), 4);
    let (id, r) = t.recv_phase1_reply();
    assert_eq!(id, 1);
    assert!(r.is_ok());
    let (id, r) = t.recv_phase1_reply();
    assert_eq!(id, 2);
    assert_eq!(r.err(), Some(4));

    t.send_phase2_request(1, Decided::<Paxos>::new_decided(4, history(&[(4, "v")])));
    t.send_phase2_request(2, Decided::<Paxos>::new_decided(3, history(&[(3, "w")])));
    assert_eq!(t.recv_phase2_reply(), (1, Ok(())));
    assert_eq!(t.recv_phase2_reply(), (2, Err(4)));
}

#[test]
fn test_linear_do_append_at_any_time() {
    let mut m: LinearHistory<u64, String, MULTI_VALUE> = LinearHistory::new_empty();
    m.do_append(3, s("a"));
    m.do_append(7, s("b"));
    m.do_append(5, s("c"));
    assert_eq!(m.latest_time(), Some(7));
    assert_eq!(m.get(&5), Some(&s("c")));
    assert_eq!(m.get(&3), Some(&s("a")));
    m.do_append(5, s("d"));
    assert_eq!(m.get(&5), Some(&s("d")));
    assert_eq!(m.maximal_times(), vec![7]);

    // a single-value history repeats its latest event wherever it appends
    let mut h = H::new_empty();
    h.do_append(3, s("a"));
    h.do_append(7, s("b"));
    h.do_append(5, s("c"));
    assert_eq!(h.get(&7), Some(&s("a")));
    assert_eq!(h.get(&5), Some(&s("a")));
    assert_eq!(h.latest_time(), Some(7));
}

#[test]
fn test_paxos_later_proposer_keeps_committed_value() {
    let mut apaxos = new_apaxos(&[1, 2, 3]);
    let committed = Proposer::new(&mut apaxos, 5, s("hello")).run().ok().unwrap();
    assert_eq!(committed.latest_value(), Some(s("hello")));

    let committed = Proposer::new(&mut apaxos, 6, s("world")).run().ok().unwrap();
    assert_eq!(committed.latest_time(), Some(6));
    assert_eq!(committed.latest_value(), Some(s("hello")));
    assert_eq!(committed.get(&5), Some(&s("hello")));
}

#[test]
fn test_apaxos_new_same_ids_same_run() {
    let mut a = new_apaxos(&[3, 1, 3, 2]);
    let mut b = new_apaxos(&[1, 2, 3]);
    assert_eq!(a.acceptors, b.acceptors);
    let ca = Proposer::new(&mut a, 5, s("v")).run().ok().unwrap();
    let cb = Proposer::new(&mut b, 5, s("v")).run().ok().unwrap();
    assert_eq!(ca.maximals(), cb.maximals());
}

#[test]
fn test_acceptor_refusal_is_never_undercut() {
    let mut a: Acceptor<Paxos> = Acceptor::default();
    assert!(a.handle_phase1_request(5).is_ok());
    assert_eq!(a.check_committable(&3), Err(5));
    // later requests only raise the forbidden times: 3 stays refused
    assert!(a.handle_phase1_request(7).is_ok());
    assert_eq!(a.check_committable(&3), Err(7));
    let decided = Decided::<Paxos>::new_decided(7, history(&[(7, "x")]));
    assert_eq!(a.handle_phase2_request(decided), Ok(()));
    assert_eq!(a.check_committable(&3), Err(7));
}

#[test]
fn test_single_value_law() {
    let mut h = history(&[(2, "a"), (4, "a")]);
    h.do_append(3, s("b"));
    assert_eq!(h.get(&3), Some(&s("a")));
    let lb = h.lower_bounds(3);
    assert_eq!(lb.get(&2), Some(&s("a")));
    assert_eq!(lb.get(&3), Some(&s("a")));
    let mut m = history(&[(1, "z")]);
    m.merge(h.clone_history());
    assert_eq!(m.get(&4), Some(&s("a")));
    assert_eq!(m.get(&1), None);
}

fn apaxos_with_forbidden(ids: &[u64], forbidden: &[(u64, u64)]) -> APaxos<Paxos, DirectCall<Paxos>> {
    let mut acceptors = BTreeMap::new();
    for id in ids {
        let mut a = Acceptor::<Paxos>::default();
        for (fid, t) in forbidden {
            if fid == id {
                a.forbid_smaller_commit_time(*t);
            }
        }
        acceptors.insert(*id, a);
    }
    let quorum_set = Majority::new(ids.to_vec());
    APaxos::<Paxos, DirectCall<Paxos>>::new(ids.to_vec(), quorum_set, DirectCall::new(acceptors))
}

#[test]
fn test_phases_report_who_answered() {
    // acceptors 2 and 3 refuse anything before 9
    let mut apaxos = apaxos_with_forbidden(&[1, 2, 3], &[(2, 9), (3, 9)]);
    let p1 = Phase1::<Paxos> { time: 5, granted: Vec::new(), previously_accepted: H::new_empty() };
    match p1.run(&mut apaxos) {
        Err(APError::ReadQuorumNotReached { accepted }) => assert_eq!(accepted, vec![1]),
        _ => panic!("expected ReadQuorumNotReached"),
    }
    let p2 = Phase2::<Paxos> {
        time: 5,
        decided: Decided::<Paxos>::new_decided(5, history(&[(5, "v")])),
        accepted: Vec::new(),
    };
    match p2.run(&mut apaxos) {
        Err(APError::WriteQuorumNotReached { accepted }) => assert_eq!(accepted, vec![1]),
        _ => panic!("expected WriteQuorumNotReached"),
    }

    // phase-1 at 9 is granted by all; the first two replies make a majority
    let p1 = Phase1::<Paxos> { time: 9, granted: Vec::new(), previously_accepted: H::new_empty() };
    let view = p1.run(&mut apaxos).ok().unwrap();
    assert_eq!(view.current_time(), 9);
    // acceptor 1 accepted the history at 5; it is what phase-1 merged
    assert_eq!(view.into_history().get(&5), Some(&s("v")));
}

#[test]
fn test_paxos_drained_rounds_keep_value() {
    let mut apaxos = new_apaxos(&[1, 2, 3]);
    let first = Proposer::new(&mut apaxos, 5, s("hello")).run().ok().unwrap();
    assert_eq!(first.get(&5), Some(&s("hello")));

    let (p1, p2) = apaxos.transport.pending_replies();
    assert_eq!((p1, p2), (1, 1));
    for _ in 0..p1 {
        apaxos.transport.recv_phase1_reply();
    }
    for _ in 0..p2 {
        apaxos.transport.recv_phase2_reply();
    }
    assert_eq!(apaxos.transport.pending_replies(), (0, 0));

    let second = Proposer::new(&mut apaxos, 6, s("world")).run().ok().unwrap();
    assert_eq!(second.get(&6), Some(&s("hello")));
    assert_eq!(second.get(&5), Some(&s("hello")));
}

#[test]
fn test_paxos_undrained_rounds_keep_first_value() {
    // every round leaves replies it did not receive; later rounds still
    // commit the first value, at their own times
    let mut apaxos = new_apaxos(&[1, 2, 3, 4, 5]);
    let first = Proposer::new(&mut apaxos, 5, s("a")).run().ok().unwrap();
    assert_eq!(first.latest_value(), Some(s("a")));
    assert_ne!(apaxos.transport.pending_replies(), (0, 0));
    for (t, e) in [(6, "b"), (9, "c"), (12, "d")] {
        let c = Proposer::new(&mut apaxos, t, s(e)).run().ok().unwrap();
        assert_eq!(c.latest_time(), Some(t));
        assert_eq!(c.latest_value(), Some(s("a")));
    }
    // a round at a time between earlier ones, answered in part by replies
    // that waited, holds the first value too if it succeeds
    if let Ok(c) = Proposer::new(&mut apaxos, 7, s("e")).run() {
        assert_eq!(c.latest_value(), Some(s("a")));
    }
}

#[test]
fn test_acceptor_default_and_debug() {
    let a: Acceptor<Paxos> = Acceptor::default();
    let text = format!("{:?}", a);
    assert!(text.contains("Acceptor"));
    let v: HistoryView<Paxos> = HistoryView::default();
    assert!(format!("{:?}", v).contains("HistoryView"));
}
