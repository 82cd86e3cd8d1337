use hypergreedy_bpe::counter::Counter;
use hypergreedy_bpe::tokens::Token;

fn word(s: &str) -> Token {
    s.as_bytes().iter().map(|&b| b as u16).collect()
}

fn words(ws: &[&str]) -> Vec<Token> {
    ws.iter().map(|w| word(w)).collect()
}

#[test]
fn test_basic() {
    let mut c = Counter::new();
    c.update(words(&["a", "b", "a"]));
    assert_eq!(c.most_common().unwrap().1, 2);
    assert_eq!(c.most_common().unwrap().0, word("a"));
    c.update(words(&["b", "b", "b"]));
    assert_eq!(c.most_common().unwrap().1, 4);
    assert_eq!(c.most_common().unwrap().0, word("b"));
}

#[test]
fn test_weighted_update() {
    let mut c = Counter::new();
    c.update_weighted(words(&["a", "b", "a"]), 3);
    assert_eq!(c.most_common().unwrap().1, 6);
    c.update_weighted(words(&["b", "b", "b", "b"]), 1);
    assert_eq!(c.most_common().unwrap().1, 7);
    assert_eq!(c.get(&word("a")), 6);
}

#[test]
fn test_index() {
    let mut c = Counter::new();
    c.update(words(&["a", "b", "a"]));
    assert_eq!(c.get(&word("a")), 2);
    assert_eq!(c.get(&word("c")), 0);
    assert_eq!(c.get(&word("b")), 1);
}

#[test]
fn test_add() {
    let mut c = Counter::new();
    c.update(words(&["a", "b", "a"]));
    let mut d = Counter::new();
    d.update(words(&["a", "b", "a", "a", "c"]));
    c.add_assign(d);
    assert_eq!(c.get(&word("a")), 5);
    assert_eq!(c.get(&word("b")), 2);
    assert_eq!(c.get(&word("c")), 1);
    assert_eq!(c.most_common().unwrap().1, 5);
    assert_eq!(c.most_common().unwrap().0, word("a"));
}

#[test]
fn test_mul() {
    let mut c = Counter::new();
    c.update(words(&["a", "b", "a"]));
    c.mul_assign(2);
    assert_eq!(c.most_common().unwrap().1, 4);
    assert_eq!(c.most_common().unwrap().0, word("a"));
    c.mul_assign(3);
    assert_eq!(c.most_common().unwrap().1, 12);
}

#[test]
fn test_sum() {
    let mut c = Counter::new();
    c.update(words(&["a", "b", "a"]));
    let v: Vec<Counter> = vec![c.clone(), c.clone()];
    let vv: Counter = Counter::sum(v);
    assert_eq!(vv.most_common().unwrap().1, 4);
    assert_eq!(vv.most_common().unwrap().0, word("a"));
}

#[test]
fn test_counter_empty() {
    let c = Counter::new();
    assert!(c.is_empty());
    assert_eq!(c.len(), 0);
    assert_eq!(c.total(), 0);
    assert_eq!(c.most_common(), None);
    let d = Counter::with_capacity(10);
    assert!(d.is_empty());
    assert_eq!(c, d);
}

#[test]
fn test_counter_len_total_entries() {
    let c = Counter::from_items(words(&["ab", "b", "ab", "c"]));
    assert_eq!(c.len(), 3);
    assert!(!c.is_empty());
    assert_eq!(c.total(), 4);
    let mut es = c.entries();
    es.sort();
    assert_eq!(es, vec![(word("ab"), 2), (word("b"), 1), (word("c"), 1)]);
    let mut vs = c.into_vec();
    vs.sort();
    assert_eq!(vs, es);
}

#[test]
fn test_counter_set_keeps_cache() {
    let mut c = Counter::new();
    c.update(words(&["a", "a"]));
    c.set(word("b"), 9);
    assert_eq!(c.get(&word("b")), 9);
    // writing a count directly leaves the cached most common entry alone
    assert_eq!(c.most_common(), Some((word("a"), 2)));
    c.add_to(word("a"), 3);
    assert_eq!(c.get(&word("a")), 5);
    assert_eq!(c.most_common(), Some((word("a"), 2)));
    c.set_most_common(Some((word("b"), 9)));
    assert_eq!(c.most_common(), Some((word("b"), 9)));
}

#[test]
fn test_counter_mul_consuming() {
    let c = Counter::from_items(words(&["x", "y", "x"]));
    let d = c.mul(5);
    assert_eq!(d.get(&word("x")), 10);
    assert_eq!(d.get(&word("y")), 5);
    assert_eq!(d.most_common(), Some((word("x"), 10)));
}

#[test]
fn test_counter_eq_ignores_cache() {
    let mut a = Counter::new();
    a.set(word("q"), 1);
    let b = Counter::from_items(words(&["q"]));
    assert_eq!(a.most_common(), None);
    assert_eq!(b.most_common(), Some((word("q"), 1)));
    assert_eq!(a, b);
    let c = Counter::from_items(words(&["q", "q"]));
    assert_ne!(a, c);
}

#[test]
fn test_counter_update_takeover_rule() {
    // a key takes over the cache only when its count grows past the cached one
    let mut c = Counter::new();
    c.update(words(&["a", "b"]));
    assert_eq!(c.most_common(), Some((word("a"), 1)));
    c.update(words(&["b", "a"]));
    assert_eq!(c.most_common(), Some((word("b"), 2)));
}

#[test]
fn test_update_grows_total() {
    let mut c = Counter::new();
    assert_eq!(c.total(), 0);
    c.update(words(&["a", "b", "a"]));
    assert_eq!(c.total(), 3);
    c.update_weighted(words(&["b", "c"]), 5);
    assert_eq!(c.total(), 13);
}

#[test]
fn test_sum_cache_follows_additions() {
    // the first counter's cache stands until a later count passes it
    let mut a = Counter::new();
    a.update(words(&["x"]));
    let mut b = Counter::new();
    b.update(words(&["y", "y"]));
    let s = Counter::sum(vec![a.clone(), b]);
    assert_eq!(s.most_common(), Some((word("y"), 2)));
    let mut c = Counter::new();
    c.update(words(&["z"]));
    let s2 = Counter::sum(vec![a, c]);
    assert_eq!(s2.most_common(), Some((word("x"), 1)));
    assert_eq!(Counter::sum(vec![]).most_common(), None);
}
