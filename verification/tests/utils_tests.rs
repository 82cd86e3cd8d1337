use hypergreedy_bpe::counter::Counter;
use hypergreedy_bpe::utils::{
    expand, expand_in_library, fertility_terms, find_candidate, replace, replace_in_library, ticker_due,
    token_freq,
};

#[test]
fn test_replace() {
    let c = vec![1, 2, 3, 4];
    let a = replace(&c, &[2, 3], 4);
    assert_eq!(a, [1, 4, 4]);
}

#[test]
fn test_replace_no_match() {
    let c = vec![1, 2, 3, 4];
    let a = replace(&c, &[4, 3], 4);
    assert_eq!(a, [1, 2, 3, 4]);
    let a = replace(&c, &[1, 2, 3, 4, 5], 4);
    assert_eq!(a, [1, 2, 3, 4]);
}

#[test]
fn test_replace_double_replace() {
    let c = vec![1, 2, 1, 2];
    let a = replace(&c, &[1, 2], 4);
    assert_eq!(a, [4, 4]);
}

#[test]
fn test_expand_multi() {
    let c = vec![1, 2, 1, 2];
    let a = expand(&c, 2, &[1, 2]);
    assert_eq!(a, [1, 1, 2, 1, 1, 2]);
}

#[test]
fn test_expand_no_replace() {
    let c = vec![1, 4];
    let a = expand(&c, 2, &[1, 2]);
    assert_eq!(a, [1, 4]);
}

#[test]
fn test_expand_3length() {
    let c = vec![1, 4, 3];
    let a = expand(&c, 4, &[1, 2, 3]);
    assert_eq!(a, [1, 1, 2, 3, 3]);
}

#[test]
fn test_find_candidate() {
    let mut c = Counter::new();
    c.update(vec![vec![1, 1, 2], vec![1, 1], vec![1, 1, 2]]);
    let a = find_candidate(&c).unwrap();
    assert_eq!(a.0, vec![1, 1]);
    assert_eq!(a.1, 3);
}

#[test]
fn test_replace_in_library() {
    let mut c = Counter::new();
    c.update(vec![vec![1, 1, 2], vec![1, 1], vec![1, 1, 2]]);
    let a = replace_in_library(&c, &[1, 2], 3);
    let mut b = Counter::new();
    b.update(vec![vec![1, 3], vec![1, 1], vec![1, 3]]);
    assert_eq!(a, b);
}

#[test]
fn test_decompose_in_library() {
    let mut library: Counter = Counter::new();
    library.update(vec![vec![1, 2, 3], vec![1, 1], vec![4, 4], vec![1, 2, 3]]);
    let mut library2: Counter = Counter::new();
    library2.update(vec![vec![1, 2, 3], vec![1, 1], vec![3, 2, 3, 2], vec![1, 2, 3]]);
    assert_eq!(expand_in_library(&library, 4, &[3, 2]), library2);
}

#[test]
fn test_replace_overlapping_run() {
    // the scan is greedy from the left and never overlaps
    assert_eq!(replace(&[7, 7, 7], &[7, 7], 9), vec![9, 7]);
    assert_eq!(replace(&[], &[7, 7], 9), Vec::<u16>::new());
}

#[test]
fn test_expand_undoes_replace() {
    let s = vec![5, 1, 2, 3, 1, 2, 1];
    let r = replace(&s, &[1, 2], 300);
    assert_eq!(r, vec![5, 300, 3, 300, 1]);
    assert_eq!(expand(&r, 300, &[1, 2]), s);
}

#[test]
fn test_find_candidate_none() {
    let c = Counter::from_items(vec![vec![1], vec![2], vec![]]);
    assert_eq!(find_candidate(&c), None);
}

#[test]
fn test_find_candidate_weighted() {
    let mut c = Counter::new();
    c.update_weighted(vec![vec![4, 5, 4, 5]], 3);
    c.update_weighted(vec![vec![6, 7]], 5);
    // (4,5) occurs twice in a word counted three times
    assert_eq!(find_candidate(&c), Some((vec![4, 5], 6)));
}

#[test]
fn test_token_freq() {
    let mut c = Counter::new();
    c.update_weighted(vec![vec![1, 2, 1], vec![3, 1]], 2);
    assert_eq!(token_freq(&c, 1), 6);
    assert_eq!(token_freq(&c, 2), 2);
    assert_eq!(token_freq(&c, 9), 0);
}

#[test]
fn test_fertility_terms() {
    let mut c = Counter::new();
    c.update_weighted(vec![vec![1, 2, 3]], 2);
    c.update(vec![vec![4]]);
    assert_eq!(fertility_terms(&c), (7, 3));
}

#[test]
fn test_replace_in_library_collision() {
    // when the new token already occurs, words that meet are written, not added
    let mut c = Counter::new();
    c.set(vec![1, 2], 4);
    c.set(vec![3], 1);
    let r = replace_in_library(&c, &[1, 2], 3);
    assert_eq!(r.len(), 1);
    let n = r.get(&[3]);
    assert!(n == 4 || n == 1);
}

#[test]
fn test_replace_in_library_renames_cache() {
    let c = Counter::from_items(vec![vec![1, 2, 3], vec![1, 2, 3], vec![5]]);
    let r = replace_in_library(&c, &[1, 2], 300);
    assert_eq!(r.most_common(), Some((vec![300, 3], 2)));
    assert_eq!(r.get(&[5]), 1);
}

#[test]
fn test_expand_in_library_adds_counts() {
    let mut c = Counter::new();
    c.set(vec![300], 2);
    c.set(vec![1, 2], 5);
    let r = expand_in_library(&c, 300, &[1, 2]);
    assert_eq!(r.len(), 1);
    assert_eq!(r.get(&[1, 2]), 7);
    assert_eq!(r.most_common(), Some((vec![1, 2], 7)));
}

#[test]
fn test_ticker_due() {
    // 1000 items: a mark every 1 + 1000 / 79 = 13 steps
    assert!(ticker_due(1000, 0));
    assert!(!ticker_due(1000, 12));
    assert!(ticker_due(1000, 13));
    assert!(ticker_due(1000, 26));
    assert!(ticker_due(10, 5));
}

#[test]
fn test_ticker_marks_per_run() {
    // a run of 1000 steps prints one mark every 13 steps: 77 marks
    let marks = (0..1000u16).filter(|&i| ticker_due(1000, i)).count();
    assert_eq!(marks, 77);
    let marks = (0..79u16).filter(|&i| ticker_due(79, i)).count();
    assert_eq!(marks, 40);
}

#[test]
fn test_ticker_marks_ceiling() {
    // a run of m steps prints the ceiling of m over the step width
    for m in [1u16, 5, 78, 79, 80, 157, 158, 500, 1000, 4000] {
        let width = 1 + m / 79;
        let marks = (0..m).filter(|&i| ticker_due(m, i)).count();
        assert_eq!(marks, ((m + width - 1) / width) as usize);
        assert!(marks <= 79);
    }
}
