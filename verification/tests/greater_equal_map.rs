use std::collections::BTreeSet;

use raxos::apaxos::greater_equal::GreaterEqual;
use raxos::apaxos::greater_equal_map::GreaterEqualMap;
use raxos::apaxos::ptime::DivisibleTime as P;

fn get_maximals(map: &GreaterEqualMap<P, u64>) -> Vec<u64> {
    let maximals = map.maximals().into_iter().map(|(k, _v)| k.0).collect::<BTreeSet<u64>>();
    maximals.into_iter().collect()
}

#[test]
fn test_map_maximals() {
    let mut map = GreaterEqualMap::new();

    map.insert(P(2), 2);
    map.insert(P(3), 3);
    map.insert(P(6), 6);
    assert_eq!(get_maximals(&map), [6]);

    map.insert(P(9), 9);
    assert_eq!(get_maximals(&map), [6, 9]);
}

#[test]
fn test_map_is_maximal() {
    let mut map = GreaterEqualMap::new();

    map.insert(P(2), 2);
    map.insert(P(3), 3);
    map.insert(P(6), 6);
    assert!(map.is_maximal(&P(6)));
    assert!(map.is_maximal(&P(9)));
    assert!(map.is_maximal(&P(12)));
    assert!(!map.is_maximal(&P(3)));
    assert!(!map.is_maximal(&P(2)));
    assert!(!map.is_maximal(&P(1)));
}

#[test]
fn test_map_debug() {
    let mut map = GreaterEqualMap::new();

    map.insert(P(1), 1);
    map.insert(P(2), 2);
    map.insert(P(5), 5);
    map.insert(P(10), 10);
    map.insert(P(3), 3);
    map.insert(P(6), 6);
    map.insert(P(9), 9);

    let got = format!("{:?}", map);
    println!("{}", got);
}

#[test]
fn test_map_maximals_keep_insertion_order_and_values() {
    let mut map = GreaterEqualMap::new();
    map.insert(P(9), 90);
    map.insert(P(3), 30);
    map.insert(P(6), 60);
    let got: Vec<(u64, u64)> = map.maximals().into_iter().map(|(k, v)| (k.0, *v)).collect();
    assert_eq!(got, vec![(9, 90), (6, 60)]);
}

#[test]
fn test_map_insert_get_remove() {
    let mut map: GreaterEqualMap<u64, &str> = GreaterEqualMap::new();
    assert_eq!(map.insert(1, "a"), None);
    assert_eq!(map.insert(2, "b"), None);
    assert_eq!(map.insert(1, "c"), Some("a"));
    assert_eq!(map.get(&1), Some(&"c"));
    assert_eq!(map.get(&2), Some(&"b"));
    assert_eq!(map.get(&3), None);

    assert_eq!(map.remove(&1), Some("c"));
    assert_eq!(map.get(&1), None);
    assert_eq!(map.get(&2), Some(&"b"));
    assert_eq!(map.remove(&1), None);
}

#[test]
fn test_map_remove_moves_last_entry() {
    let mut map: GreaterEqualMap<u64, u64> = GreaterEqualMap::new();
    map.insert(1, 10);
    map.insert(2, 20);
    map.insert(3, 30);
    assert_eq!(map.remove(&1), Some(10));
    assert_eq!(map.as_slice(), &[(3, 30), (2, 20)]);
}

#[test]
fn test_map_try_insert() {
    let mut map: GreaterEqualMap<u64, u64> = GreaterEqualMap::new();
    {
        let v = map.try_insert(1, 10).unwrap();
        assert_eq!(*v, 10);
        *v = 11;
    }
    assert_eq!(map.get(&1), Some(&11));
    assert!(map.try_insert(1, 12).is_err());
    assert_eq!(map.get(&1), Some(&11));
}

#[test]
fn test_map_merge() {
    let mut a: GreaterEqualMap<u64, u64> = GreaterEqualMap::new();
    a.insert(1, 10);
    a.insert(2, 20);
    let mut b: GreaterEqualMap<u64, u64> = GreaterEqualMap::new();
    b.insert(2, 21);
    b.insert(3, 31);
    a.merge(b);
    assert_eq!(a.as_slice(), &[(1, 10), (2, 21), (3, 31)]);
}

#[test]
fn test_divisible_time_order() {
    assert!(P(6).greater_equal(&P(2)));
    assert!(P(6).greater_equal(&P(3)));
    assert!(!P(2).greater_equal(&P(3)));
    assert!(!P(3).greater_equal(&P(2)));
    assert!(P(0).greater_equal(&P(6)));
    assert!(!P(6).greater_equal(&P(0)));
    assert!(P(0).greater_equal(&P(0)));
    assert!(P(6).is_gt(&P(2)));
    assert!(!P(6).is_gt(&P(6)));
    assert!(P(6).equals(&P(6)));
    assert!(5u64.is_gt(&3));
    assert!(!3u64.is_gt(&3));
}

#[test]
fn test_map_sorted_entries() {
    let mut map: GreaterEqualMap<P, String> = GreaterEqualMap::new();
    map.insert(P(12), "12".to_string());
    map.insert(P(6), "6".to_string());
    map.insert(P(3), "3".to_string());
    map.insert(P(2), "2".to_string());
    map.insert(P(5), "5".to_string());
    let sorted = map.sorted_entries();
    assert_eq!(sorted.len(), 5);
    let pos = |k: u64| sorted.iter().position(|(t, _)| t.0 == k).unwrap();
    assert!(pos(2) < pos(6));
    assert!(pos(3) < pos(6));
    assert!(pos(6) < pos(12));
    assert!(pos(2) < pos(12));
    for i in 0..sorted.len() {
        for j in i + 1..sorted.len() {
            let (a, b) = (sorted[i].0, sorted[j].0);
            assert!(!(a.greater_equal(&b) && a != b));
        }
    }
    assert_eq!(sorted[pos(5)].1, "5");
}
