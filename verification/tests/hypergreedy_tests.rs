use hypergreedy_bpe::bpe::{bpe, NEW_TOKEN_COUNT};
use hypergreedy_bpe::counter::Counter;
use hypergreedy_bpe::hypergreedy_bpe::{bpe_hypergreedy, find_best_extention, find_best_token};
use hypergreedy_bpe::text::decode;
use hypergreedy_bpe::tokens::Token;
use hypergreedy_bpe::utils::replace;

#[test]
fn test_find_best_extention_right() {
    let mut c = Counter::new();
    c.update(vec![vec![1, 1, 2], vec![1, 1], vec![1, 1, 2]]);
    let a = find_best_extention(&c, &vec![1, 1]);
    let aa = a.unwrap();
    assert_eq!(aa.0, vec![1, 1, 2]);
    assert_eq!(aa.1, 2);
}

#[test]
fn test_find_best_extention_left() {
    let mut c = Counter::new();
    c.update(vec![vec![1, 1, 2], vec![1, 1], vec![1, 1, 2]]);
    let a = find_best_extention(&c, &vec![1, 2]);
    let aa = a.unwrap();
    assert_eq!(aa.0, vec![1, 1, 2]);
    assert_eq!(aa.1, 2);
}

#[test]
fn test_find_best_extention_empty() {
    let mut c = Counter::new();
    c.update(vec![vec![1, 1, 2], vec![1, 1], vec![1, 1, 2]]);
    let a = find_best_extention(&c, &vec![1, 1, 2]);
    assert!(matches!(a, None));
}

#[test]
fn test_find_best_token() {
    let mut c = Counter::new();
    c.update(vec![vec![1, 1, 2], vec![1, 1], vec![1, 1, 2]]);
    let a = find_best_token(&c).unwrap();
    assert_eq!(a.0, vec![1, 1, 2]);
    assert_eq!(a.1, 2);
}

#[test]
fn test_find_best_token_no_compression_possible() {
    let mut c = Counter::new();
    c.update(vec![vec![1], vec![1], vec![1]]);
    let a = find_best_token(&c);
    assert_eq!(a, None);
}

#[test]
fn test_find_best_token_stops_at_half() {
    // (1,2) occurs 4 times; its best extension (1,2,3) only twice, which is
    // not more than half, so the pair itself is chosen
    let mut c = Counter::new();
    c.update(vec![vec![1, 2, 3], vec![1, 2, 3], vec![1, 2], vec![1, 2]]);
    assert_eq!(find_best_token(&c), Some((vec![1, 2], 4)));
}

fn compress(w: &[u16], vocab: &[Token]) -> Vec<u16> {
    let mut cur = w.to_vec();
    for (j, e) in vocab.iter().enumerate() {
        cur = replace(&cur, e, 256 + j as u16);
    }
    cur
}

#[test]
fn test_bpe_hypergreedy_small() {
    let mut c = Counter::new();
    c.update_weighted(vec![vec![97, 98, 99, 100]], 5);
    c.update_weighted(vec![vec![97, 98, 99]], 2);
    c.update(vec![vec![120, 121]]);
    let (vocab, lib) = bpe_hypergreedy(c.clone(), 10, |_| {});
    // the whole word (a b c d) is reached by extension, then (a b c), then (x y)
    assert_eq!(vocab, vec![vec![97, 98, 99, 100], vec![97, 98, 99], vec![120, 121]]);
    let mut expected = Counter::new();
    expected.set(vec![256], 5);
    expected.set(vec![257], 2);
    expected.set(vec![258], 1);
    assert_eq!(lib, expected);
    // every word compressed by the vocabulary decodes back to itself
    for (w, n) in c.entries() {
        let k = compress(&w, &vocab);
        assert_eq!(lib.get(&k), n);
        assert_eq!(decode(k, &vocab), w);
    }
}

#[test]
fn test_bpe_small() {
    let mut c = Counter::new();
    c.update_weighted(vec![vec![1, 2, 3]], 3);
    c.update(vec![vec![1, 2]]);
    let (vocab, lib) = bpe(c.clone(), |_| {});
    assert!(vocab.len() < NEW_TOKEN_COUNT as usize);
    assert_eq!(vocab, vec![vec![1, 2], vec![256, 3]]);
    let mut expected = Counter::new();
    expected.set(vec![257], 3);
    expected.set(vec![256], 1);
    assert_eq!(lib, expected);
    for (w, _) in c.entries() {
        assert_eq!(decode(compress(&w, &vocab), &vocab), w);
    }
}

fn decoded_library(lib: &Counter, vocab: &Vec<Token>) -> Counter {
    let mut out = Counter::new();
    for (k, n) in lib.entries() {
        let w = decode(k, vocab);
        let before = out.get(&w);
        out.set(w, before + n);
    }
    out
}

#[test]
fn test_bpe_decodes_back() {
    let mut c = Counter::new();
    c.update_weighted(vec![vec![1, 2, 3, 1, 2]], 4);
    c.update_weighted(vec![vec![2, 3]], 2);
    c.update(vec![vec![1, 2, 1, 2, 1, 2], vec![7], vec![]]);
    let (vocab, lib) = bpe(c.clone(), |_| {});
    assert_eq!(decoded_library(&lib, &vocab), c);
    assert_eq!(lib.len(), c.len());
    assert_eq!(lib.total(), c.total());
}

#[test]
fn test_bpe_hypergreedy_decodes_back() {
    let mut c = Counter::new();
    c.update_weighted(vec![vec![97, 98, 99, 100]], 5);
    c.update_weighted(vec![vec![97, 98, 99]], 2);
    c.update(vec![vec![120, 121], vec![99, 100, 97, 98]]);
    let (vocab, lib) = bpe_hypergreedy(c.clone(), 3, |_| {});
    assert_eq!(vocab.len(), 3);
    assert_eq!(decoded_library(&lib, &vocab), c);
    assert_eq!(lib.len(), c.len());
    assert_eq!(lib.total(), c.total());
}
