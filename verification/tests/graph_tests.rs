use contest_algos::bipartite_matching::BipartiteMatching;

#[test]
fn test_bipartite_matching() {
    let mut bpm = BipartiteMatching::new(4);
    bpm.connect(0, 2);
    bpm.connect(0, 3);
    bpm.connect(1, 2);
    println!("{:?}", bpm.run());
}

#[test]
fn test_bipartite_matching_is_disjoint() {
    let mut bpm = BipartiteMatching::new(6);
    let edges = [(0, 3), (0, 4), (1, 3), (1, 5), (2, 4)];
    for (u, v) in edges {
        bpm.connect(u, v);
    }
    let m = bpm.run();
    for p in 0..m.len() {
        let (a, b) = m[p];
        assert!(a < b && b < 6);
        assert!(edges.contains(&(a, b)) || edges.contains(&(b, a)));
        for q in 0..m.len() {
            if p != q {
                let (c, d) = m[q];
                assert!(a != c && a != d && b != c && b != d);
            }
        }
    }
    // maximal by inclusion: every edge touches a matched pair
    for (u, v) in edges {
        assert!(m.iter().any(|&(a, b)| a == u || b == u || a == v || b == v));
    }
}

#[test]
fn test_bipartite_matching_perfect_on_pairs() {
    let mut bpm = BipartiteMatching::new(4);
    bpm.connect(0, 2);
    bpm.connect(1, 3);
    let m = bpm.run();
    assert_eq!(m.len(), 2);
    assert!(m.contains(&(0, 2)));
    assert!(m.contains(&(1, 3)));
}

use contest_algos::hl_decomposition::HLDecomposition;

#[test]
fn test_hl_decomposition() {
    let mut hl = HLDecomposition::new(13);
    let es = vec![
        (0, 1),
        (0, 2),
        (0, 3),
        (1, 4),
        (1, 5),
        (4, 8),
        (4, 9),
        (2, 6),
        (6, 10),
        (6, 11),
        (6, 12),
        (3, 7),
    ];
    for (u, v) in es {
        hl.connect(u, v);
    }
    hl.build(0);
    println!("{:?}", &hl.real_to_virt);
    println!("{:?}", &hl.heavy_head);
}

#[test]
fn test_hl_decomposition_structure() {
    let mut hl = HLDecomposition::new(13);
    let es = vec![
        (0, 1),
        (0, 2),
        (0, 3),
        (1, 4),
        (1, 5),
        (4, 8),
        (4, 9),
        (2, 6),
        (6, 10),
        (6, 11),
        (6, 12),
        (3, 7),
    ];
    for (u, v) in es {
        hl.connect(u, v);
    }
    hl.build(0);
    // depths and parents along the tree
    assert_eq!(hl.depth[0], 0);
    assert_eq!(hl.depth[1], 1);
    assert_eq!(hl.depth[8], 3);
    assert_eq!(hl.par[0], None);
    assert_eq!(hl.par[4], Some(1));
    assert_eq!(hl.par[7], Some(3));
    // subtree sizes
    assert_eq!(hl.subcnt[0], 13);
    assert_eq!(hl.subcnt[1], 5);
    assert_eq!(hl.subcnt[2], 5);
    assert_eq!(hl.subcnt[6], 4);
    assert_eq!(hl.subcnt[8], 1);
    // the heavy path from the root runs 0 -> 1 -> 4 -> 8
    assert_eq!(hl.heavy_next[0], Some(1));
    assert_eq!(hl.heavy_next[1], Some(4));
    assert_eq!(hl.heavy_next[4], Some(8));
    assert_eq!(hl.heavy_head[8], 0);
    // the renumbering is a bijection on all 13 vertices
    for x in 0..13 {
        let rv = hl.real_to_virt[x];
        assert!(rv < 13);
        assert_eq!(hl.virt_to_real[rv], x);
    }
}
