use contest_algos::cumsum::{CumSum1, CumSum2, Imosu};

#[test]
fn test_cumsum1() {
    let x = vec![0, 1, 2, 1];
    let mut cs = CumSum1::new(4);
    for i in 0..4 {
        cs.set(i, x[i]);
    }
    cs.build();
    assert_eq!(cs.query(0, 0), 0);
    assert_eq!(cs.query(0, 1), 0);
    assert_eq!(cs.query(0, 2), 1);
    assert_eq!(cs.query(0, 3), 3);
    assert_eq!(cs.query(0, 4), 4);
}

#[test]
fn test_cum2() {
    let mut cum2 = CumSum2::new(2, 2);
    cum2.set(0, 0, 1);
    cum2.set(0, 1, 2);
    cum2.set(1, 0, 3);
    cum2.set(1, 1, 4);
    cum2.build();
    assert_eq!(cum2.query(0, 2, 0, 2), 10);
    assert_eq!(cum2.query(0, 1, 1, 2), 2);
    assert_eq!(cum2.query(1, 2, 1, 2), 4);
    assert_eq!(cum2.query(0, 1, 0, 2), 3);
}

#[test]
fn test_imosu() {
    let mut tbl = vec![vec![0; 5]; 5];
    let mut imosu = Imosu::new(5, 5);

    let tests = vec![(0, 3, 0, 3, 5), (2, 4, 1, 3, 8), (1, 3, 2, 4, 3)];

    for t in tests {
        let (i0, i1, j0, j1, x) = t;
        for i in i0..i1 {
            for j in j0..j1 {
                tbl[i][j] += x;
            }
        }
        imosu.add(i0, i1, j0, j1, x);
    }

    imosu.build();
    for i in 0..5 {
        for j in 0..5 {
            assert_eq!(imosu.get(i, j), tbl[i][j]);
        }
    }
}

#[test]
fn test_cumsum1_add_accumulates() {
    let mut cs = CumSum1::new(3);
    cs.add(0, 2);
    cs.add(0, 3);
    cs.add(2, -4);
    cs.build();
    assert_eq!(cs.query(0, 1), 5);
    assert_eq!(cs.query(1, 2), 0);
    assert_eq!(cs.query(2, 3), -4);
    assert_eq!(cs.query(0, 3), 1);
}

#[test]
fn test_cum2_add_and_middle_query() {
    let mut cum2 = CumSum2::new(3, 3);
    for i in 0..3 {
        for j in 0..3 {
            cum2.set(i, j, (i * 3 + j + 1) as i64);
        }
    }
    cum2.add(1, 1, 10);
    cum2.build();
    assert_eq!(cum2.query(1, 2, 1, 2), 15);
    assert_eq!(cum2.query(0, 3, 0, 3), 55);
    assert_eq!(cum2.query(2, 2, 0, 3), 0);
}

#[test]
fn test_imosu_single_cell() {
    let mut imosu = Imosu::new(2, 2);
    imosu.add(0, 1, 0, 1, 7);
    imosu.build();
    assert_eq!(imosu.get(0, 0), 7);
    assert_eq!(imosu.get(0, 1), 0);
    assert_eq!(imosu.get(1, 0), 0);
    assert_eq!(imosu.get(1, 1), 0);
}

#[test]
fn test_imosu_shared_corner_accumulates() {
    let mut tbl = vec![vec![0i64; 3]; 3];
    let mut imosu = Imosu::new(3, 3);
    let marks = vec![(0, 2, 0, 2, 5), (0, 2, 0, 2, 3), (1, 3, 1, 3, -2)];
    for (i0, i1, j0, j1, x) in marks {
        for i in i0..i1 {
            for j in j0..j1 {
                tbl[i][j] += x;
            }
        }
        imosu.add(i0, i1, j0, j1, x);
    }
    imosu.build();
    for i in 0..3 {
        for j in 0..3 {
            assert_eq!(imosu.get(i, j), tbl[i][j]);
        }
    }
}
