use contest_algos::treap::{Treap, TreapError};
use contest_algos::xorshift::Xorshift;

#[test]
fn test_treap_lower_bound() {
    let mut rng = Xorshift::new();
    let mut tr = Treap::new();
    let mut v = vec![];
    let n = 10000;
    for i in 0..n {
        let x = rng.rand(1000) as i64;

        v.push(x);
        v.sort();
        let mut k1 = i;
        for k in 0..i {
            if v[k] == x {
                k1 = k;
                break;
            }
        }

        tr.orderd_insert(x);
        let k2 = tr.lower_bound(0, i, x).unwrap();

        assert_eq!(k2, k1);
    }
}

#[test]
fn test_treap() {
    let mut tr = Treap::new();
    assert_eq!(tr.len(), 0);
    tr.insert(0, 3).unwrap();
    assert_eq!(tr.len(), 1);
    tr.insert(0, 5).unwrap();
    assert_eq!(tr.len(), 2);
    assert_eq!(tr.sum(0, 1).unwrap(), 5);
    assert_eq!(tr.sum(1, 2).unwrap(), 3);
    tr.insert(0, 1).unwrap();
    assert_eq!(tr.sum(0, 1).unwrap(), 1);
    assert_eq!(tr.sum(1, 2).unwrap(), 5);
    assert_eq!(tr.sum(2, 3).unwrap(), 3);
    tr.erase(1).unwrap();
    assert_eq!(tr.sum(0, 1).unwrap(), 1);
    assert_eq!(tr.sum(1, 2).unwrap(), 3);
}

#[test]
fn test_treap_ref() {
    let mut rng = Xorshift::new();
    let mut v = vec![];
    let mut tr = Treap::new();
    let n = 100000;
    for _ in 0..n {
        let x = rng.rand(1000) as i64;
        v.push(x);
        tr.orderd_insert(x);
    }
    v.sort();

    for i in 0..n {
        assert_eq!(tr.get(i).unwrap(), v[i]);
    }
}

#[test]
fn test_treap_split_rejoins_sequence() {
    let mut tr = Treap::new();
    for (k, x) in [(0, 10), (1, 20), (2, 30), (3, 40)] {
        tr.insert(k, x).unwrap();
    }
    let (mut a, mut b) = tr.split(2).unwrap();
    assert_eq!(a.len(), 2);
    assert_eq!(b.len(), 2);
    assert_eq!(a.get(0).unwrap(), 10);
    assert_eq!(a.get(1).unwrap(), 20);
    assert_eq!(b.get(0).unwrap(), 30);
    assert_eq!(b.get(1).unwrap(), 40);
    assert_eq!(a.sum(0, 2).unwrap(), 30);
    assert_eq!(b.sum(0, 2).unwrap(), 70);
}

#[test]
fn test_treap_split_at_ends() {
    let mut tr = Treap::new();
    tr.insert(0, 7).unwrap();
    tr.insert(1, 8).unwrap();
    let (a, b) = tr.split(0).unwrap();
    assert_eq!(a.len(), 0);
    assert_eq!(b.len(), 2);
    let (c, d) = b.split(2).unwrap();
    assert_eq!(c.len(), 2);
    assert_eq!(d.len(), 0);
}

#[test]
fn test_treap_erase_removes_position() {
    let mut tr = Treap::new();
    for (k, x) in [(0, 1), (1, 2), (2, 3), (3, 4), (4, 5)] {
        tr.insert(k, x).unwrap();
    }
    tr.erase(2).unwrap();
    assert_eq!(tr.len(), 4);
    assert_eq!(tr.get(0).unwrap(), 1);
    assert_eq!(tr.get(1).unwrap(), 2);
    assert_eq!(tr.get(2).unwrap(), 4);
    assert_eq!(tr.get(3).unwrap(), 5);
}

#[test]
fn test_treap_ordered_insert_sorts_prefixes() {
    let mut tr = Treap::new();
    let values = [5i64, 1, 4, 1, 3, 9, 2, 6];
    let mut reference: Vec<i64> = Vec::new();
    for &x in values.iter() {
        reference.push(x);
        reference.sort();
        tr.orderd_insert(x);
        assert_eq!(tr.len(), reference.len());
        for i in 0..reference.len() {
            assert_eq!(tr.get(i).unwrap(), reference[i]);
        }
    }
}

#[test]
fn test_treap_index_out_of_range() {
    let mut tr = Treap::new();
    tr.insert(0, 1).unwrap();
    assert_eq!(tr.insert(2, 9), Err(TreapError::IndexOutOfRange));
    assert_eq!(tr.erase(1), Err(TreapError::IndexOutOfRange));
    assert_eq!(tr.get(1), Err(TreapError::IndexOutOfRange));
    assert_eq!(tr.sum(0, 2), Err(TreapError::IndexOutOfRange));
    assert_eq!(tr.lower_bound(0, 2, 0), Err(TreapError::IndexOutOfRange));
    assert_eq!(tr.len(), 1);
    assert_eq!(tr.get(0).unwrap(), 1);
}

#[test]
fn test_treap_invalid_range() {
    let mut tr = Treap::new();
    tr.insert(0, 1).unwrap();
    assert_eq!(tr.sum(1, 0), Err(TreapError::InvalidRange));
    assert_eq!(tr.lower_bound(1, 0, 5), Err(TreapError::InvalidRange));
}

#[test]
fn test_treap_empty_sum() {
    let mut tr = Treap::new();
    assert_eq!(tr.sum(0, 0).unwrap(), 0);
    assert_eq!(tr.get(0), Err(TreapError::IndexOutOfRange));
}

#[test]
fn test_treap_negative_values() {
    let mut tr = Treap::new();
    tr.orderd_insert(-5);
    tr.orderd_insert(3);
    tr.orderd_insert(-5);
    tr.orderd_insert(0);
    assert_eq!(tr.get(0).unwrap(), -5);
    assert_eq!(tr.get(1).unwrap(), -5);
    assert_eq!(tr.get(2).unwrap(), 0);
    assert_eq!(tr.get(3).unwrap(), 3);
    assert_eq!(tr.sum(0, 4).unwrap(), -7);
    assert_eq!(tr.sum(1, 3).unwrap(), -5);
}
