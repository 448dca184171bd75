use contest_algos::xorshift::Xorshift;

#[test]
fn test_xorshift_reproducible() {
    let mut a = Xorshift::with_seed(12345);
    let mut b = Xorshift::with_seed(12345);
    for _ in 0..100 {
        assert_eq!(a.next(), b.next());
    }
}

#[test]
fn test_xorshift_rand_in_bound() {
    let mut g = Xorshift::new();
    for _ in 0..1000 {
        assert!(g.rand(52) < 52);
    }
}

#[test]
fn test_xorshift_default_matches_new() {
    let mut a = Xorshift::new();
    let mut b = Xorshift::with_seed(0xf0fb588ca2196dac);
    assert_eq!(a.next(), b.next());
    assert_eq!(a.next(), b.next());
}
