use contest_algos::manacher::manacher;

#[test]
fn test_manacher() {
    let s = vec![0, 1, 0, 0, 0, 1, 0, 1, 0];
    assert_eq!(manacher(&s), [1, 2, 1, 4, 1, 2, 3, 2, 1]);
}

#[test]
fn test_manacher_empty() {
    let s: Vec<usize> = vec![];
    assert_eq!(manacher(&s), []);
}

#[test]
fn test_manacher_single() {
    let s = vec![42];
    assert_eq!(manacher(&s), [1]);
}

#[test]
fn test_manacher_uniform() {
    let s = vec![7, 7, 7, 7, 7];
    assert_eq!(manacher(&s), [1, 2, 3, 2, 1]);
}

#[test]
fn test_manacher_distinct() {
    let s = vec![1, 2, 3, 4];
    assert_eq!(manacher(&s), [1, 1, 1, 1]);
}
