use hypergreedy_bpe::counter::Counter;
use std::cell::RefCell;
use hypergreedy_bpe::scaffold_bpe::ScaffoldBpe;

fn sample() -> Counter {
    let mut c = Counter::new();
    c.update_weighted(vec![vec![1, 2, 3]], 4);
    c.update_weighted(vec![vec![7, 8]], 3);
    c.update(vec![vec![1, 2]]);
    c
}

#[test]
fn test_scaffold_train_marks_scaffold() {
    let mut s = ScaffoldBpe::new();
    s.train(&sample(), 10, |_| {});
    // 256 = (1,2) is left with one occurrence while (7,8) occurs three
    // times, so it becomes scaffold and is broken down when tokenizing
    assert_eq!(s.tokenize(&[1, 2]), vec![1, 2]);
    assert_eq!(s.tokenize(&[1, 2, 3]), vec![257]);
    assert_eq!(s.tokenize(&[7, 8]), vec![258]);
    assert_eq!(s.tokenize(&[7, 8, 1, 2, 3, 1, 2]), vec![258, 257, 1, 2]);
}

#[test]
fn test_scaffold_retrain_reuses_token() {
    let mut s = ScaffoldBpe::new();
    s.train(&sample(), 10, |_| {});
    let mut more = Counter::new();
    more.update_weighted(vec![vec![1, 2]], 10);
    // (1,2) is the first vocabulary entry and scaffold: it becomes normal again
    s.train(&more, 3, |_| {});
    assert_eq!(s.tokenize(&[1, 2]), vec![256]);
}

#[test]
fn test_scaffold_stops_at_target() {
    let mut s = ScaffoldBpe::new();
    s.train(&sample(), 1, |_| {});
    assert_eq!(s.tokenize(&[1, 2, 3]), vec![256, 3]);
    assert_eq!(s.tokenize(&[7, 8]), vec![7, 8]);
}

#[test]
fn test_scaffold_untrained() {
    let s = ScaffoldBpe::new();
    assert_eq!(s.tokenize(&[5, 6, 7]), vec![5, 6, 7]);
}

#[test]
fn test_scaffold_progress_counts_rounds() {
    let seen = RefCell::new(Vec::new());
    let mut s = ScaffoldBpe::new();
    s.train(&sample(), 10, |i| seen.borrow_mut().push(i));
    assert_eq!(*seen.borrow(), vec![1, 2, 3]);
}

#[test]
fn test_scaffold_retrain_duplicates_normal_pair() {
    // a pair that is already a normal token gets a second entry when it is
    // the most common pair of a later training
    let mut s = ScaffoldBpe::new();
    s.train(&sample(), 10, |_| {});
    assert_eq!(s.vocab_len(), 3);
    assert_eq!(s.normal_count(), 2);
    assert_eq!(s.scaffold_count(), 1);
    let mut more = Counter::new();
    more.update_weighted(vec![vec![7, 8]], 5);
    s.train(&more, 10, |_| {});
    assert_eq!(s.vocab_len(), 4);
    assert_eq!(s.normal_count(), 3);
    // tokenizing merges with the first entry
    assert_eq!(s.tokenize(&[7, 8]), vec![258]);
}

#[test]
fn test_scaffold_output_no_longer_than_word() {
    let mut s = ScaffoldBpe::new();
    s.train(&sample(), 10, |_| {});
    for w in [vec![1, 2], vec![1, 2, 3, 7, 8, 1, 2], vec![9], vec![]] {
        assert!(s.tokenize(&w).len() <= w.len());
    }
}
