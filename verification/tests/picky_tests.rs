use hypergreedy_bpe::counter::Counter;
use std::cell::RefCell;
use hypergreedy_bpe::picky_bpe::{Event, PickyBpe};
use hypergreedy_bpe::text::decode;

fn sample() -> Counter {
    let mut c = Counter::new();
    c.update_weighted(vec![vec![1, 2, 3]], 5);
    c.update(vec![vec![1, 2]]);
    c
}

#[test]
fn test_picky_train_always_remove() {
    let mut p = PickyBpe::new();
    let (vocab, lib) = p.train(sample(), |_, _| true, 10, |_| {});
    assert_eq!(vocab, vec![vec![1, 2], vec![256, 3], vec![1, 2]]);
    assert_eq!(vocab, p.vocab);
    assert_eq!(p.events.len(), 4);
    assert!(matches!(p.events[0], Event::Merge(1, 2, 256)));
    assert!(matches!(p.events[1], Event::Merge(256, 3, 257)));
    assert!(matches!(p.events[2], Event::Remove(256, 1, 2)));
    assert!(matches!(p.events[3], Event::Merge(1, 2, 258)));
    let mut expected = Counter::new();
    expected.set(vec![257], 5);
    expected.set(vec![258], 1);
    assert_eq!(lib, expected);
}

#[test]
fn test_picky_train_never_remove() {
    let mut p = PickyBpe::new();
    let (vocab, lib) = p.train(sample(), |_, _| false, 10, |_| {});
    assert_eq!(vocab, vec![vec![1, 2], vec![256, 3]]);
    assert!(p.events.iter().all(|e| matches!(e, Event::Merge(_, _, _))));
    let mut expected = Counter::new();
    expected.set(vec![257], 5);
    expected.set(vec![256], 1);
    assert_eq!(lib, expected);
}

#[test]
fn test_picky_threshold_ratio() {
    // the test gets the pair's count and the token's own count
    let mut p = PickyBpe::new();
    let (_, _) = p.train(sample(), |pair, own| (pair as f64) / (own as f64) >= 0.9, 10, |_| {});
    // after (1,2) -> 256, the pair (256,3) occurs 5 times and 256 six times:
    // 5/6 is below 0.9, so nothing is removed
    assert!(p.events.iter().all(|e| matches!(e, Event::Merge(_, _, _))));
}

#[test]
fn test_picky_tokenize_matches_train() {
    let library = sample();
    let mut p = PickyBpe::new();
    let (_, picky_lib) = p.train(library.clone(), |_, _| true, 10, |_| {});
    let mut picky_lib2 = Counter::new();
    for (word, count) in library.entries() {
        let tokenized = p.tokenize(&word);
        picky_lib2.add_to(tokenized, count);
    }
    assert_eq!(picky_lib, picky_lib2);
}

#[test]
fn test_picky_tokenize_lossless() {
    let mut p = PickyBpe::new();
    let _ = p.train(sample(), |_, _| true, 10, |_| {});
    for w in [vec![1, 2, 3], vec![1, 2], vec![3, 1, 2, 1, 2, 3], vec![]] {
        let t = p.tokenize(&w);
        assert_eq!(decode(t, &p.vocab), w);
    }
}

#[test]
fn test_picky_stops_at_target() {
    let mut p = PickyBpe::new();
    let (vocab, lib) = p.train(sample(), |_, _| false, 1, |_| {});
    assert_eq!(vocab, vec![vec![1, 2]]);
    let mut expected = Counter::new();
    expected.set(vec![256, 3], 5);
    expected.set(vec![256], 1);
    assert_eq!(lib, expected);
}

#[test]
fn test_picky_progress_reports_net_count() {
    let seen = RefCell::new(Vec::new());
    let mut p = PickyBpe::new();
    let _ = p.train(sample(), |_, _| true, 10, |n| seen.borrow_mut().push(n));
    assert_eq!(*seen.borrow(), vec![1, 1, 2]);
}

#[test]
fn test_picky_net_count_can_wrap() {
    // a token removed earlier comes back when a token built from it is
    // removed, and can be removed again; a round that removes two tokens
    // when the net count is zero makes it wrap around, which ends training
    let mut c = Counter::new();
    c.update_weighted(vec![vec![1, 2, 3, 4, 5]], 1);
    c.update_weighted(vec![vec![1, 2, 3, 4]], 1);
    c.update_weighted(vec![vec![1, 2, 3, 4, 5, 1, 2, 3, 4]], 3);
    c.update_weighted(vec![vec![1, 2]], 2);
    c.update_weighted(vec![vec![3, 4]], 1);
    let seen = RefCell::new(Vec::new());
    let mut p = PickyBpe::new();
    let (vocab, _) = p.train(c, |_, _| true, 100, |n| seen.borrow_mut().push(n));
    assert_eq!(*seen.borrow(), vec![1, 2, 1, 1, 0, u16::MAX]);
    assert_eq!(vocab.len(), 6);
    let removals_of_256 = p.events.iter().filter(|e| matches!(e, Event::Remove(256, _, _))).count();
    assert_eq!(removals_of_256, 2);
}

#[test]
fn test_picky_zero_count_byte_words() {
    // words counted zero times that are single bytes never take part
    let mut c = sample();
    c.set(vec![9], 0);
    c.set(vec![], 0);
    let mut p = PickyBpe::new();
    let (_, lib) = p.train(c, |_, _| true, 10, |_| {});
    assert_eq!(lib.get(&[9]), 0);
    assert_eq!(lib.len(), 4);
}

#[test]
fn test_picky_tokenize_stays_below_next_id() {
    let mut p = PickyBpe::new();
    let _ = p.train(sample(), |_, _| true, 10, |_| {});
    let limit = 256 + p.vocab.len() as u16;
    for w in [vec![1, 2, 3], vec![3, 1, 2, 1, 2, 3], vec![255, 0, 1, 2]] {
        assert!(p.tokenize(&w).iter().all(|&t| t < limit));
    }
    // an untrained tokenizer hands the word back
    let q = PickyBpe::new();
    assert_eq!(q.tokenize(&[5, 6, 7]), vec![5, 6, 7]);
}
