use contest_algos::rolling_hash::{RoLiHa, RollingHash};

#[test]
fn test_rolling_hash() {
    let seq: Vec<u64> = "abcabc".chars().map(|c| c as u64).collect();
    let rh = RollingHash::new(&seq);
    assert_eq!(rh.get(0, 3), rh.get(3, 6));
    assert_ne!(rh.get(0, 4), rh.get(3, 6));
    assert_ne!(rh.get(0, 3), rh.get(2, 5));
}

#[test]
fn test_roliha() {
    let seq: Vec<u64> = "abcabc".chars().map(|c| c as u64).collect();
    let rh = RoLiHa::new(&seq);
    assert_eq!(rh.get(0, 3), rh.get(3, 6));
    assert_ne!(rh.get(0, 4), rh.get(3, 6));
    assert_ne!(rh.get(0, 3), rh.get(2, 5));
}

#[test]
fn test_rolling_hash_len() {
    let seq: Vec<u64> = vec![1, 2, 3, 4, 5];
    let rh = RollingHash::new(&seq);
    assert_eq!(rh.len(), 5);
    let empty: Vec<u64> = vec![];
    assert_eq!(RollingHash::new(&empty).len(), 0);
}

#[test]
fn test_rolling_hash_custom_pairs() {
    let seq: Vec<u64> = vec![10, 20, 10, 20];
    let pairs: Vec<(u64, u64)> = vec![(31, 1_000_003)];
    let rh = RollingHash::with_base_mod_pairs(&seq, &pairs);
    assert_eq!(rh.get(0, 2), rh.get(2, 4));
    assert_ne!(rh.get(0, 2), rh.get(1, 3));
    // one pair, window [0, 1): ((0 + 10) * 31 % m) - nothing subtracted
    assert_eq!(rh.get(0, 1), 310);
}

#[test]
fn test_roliha_empty_window() {
    let seq: Vec<u64> = vec![5, 6, 7];
    let rh = RoLiHa::new(&seq);
    assert_eq!(rh.get(0, 0), rh.get(1, 1));
    assert_eq!(rh.get(1, 3), rh.get(1, 3));
}

use contest_algos::rolling_hash::{mk_queries, mk_str};

#[test]
fn test_mk_str_and_queries() {
    let s = mk_str(100);
    assert_eq!(s.len(), 100);
    assert!(s.iter().all(|&x| x < 52));
    let qs = mk_queries(100);
    assert_eq!(qs.len(), 100);
    assert!(qs.iter().all(|&(l, r)| l <= r && r < 100));
    let rh = RollingHash::new(&s);
    for &(l, r) in qs.iter() {
        let _ = rh.get(l, r);
    }
}
