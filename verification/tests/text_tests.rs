use hypergreedy_bpe::text::{decode, encode, gen_word_counts, line_words, logger_line, to_string};
use std::cell::RefCell;

#[test]
fn test_encode_decode() {
    let text = vec![1, 2, 1];
    let vocab = vec![vec![1, 2]];
    let encoded_text = encode(&text, &vocab);
    let final_text = decode(encoded_text, &vocab);
    assert_eq!(text, final_text);
}

#[test]
fn test_decode_nested() {
    let vocab = vec![vec![104, 105], vec![256, 33], vec![257, 257]];
    assert_eq!(decode(vec![258, 10], &vocab), vec![104, 105, 33, 104, 105, 33, 10]);
    assert_eq!(decode(vec![], &vocab), Vec::<u16>::new());
}

#[test]
fn test_encode_bytes_unchanged() {
    let vocab = vec![vec![1, 2], vec![256, 3]];
    assert_eq!(encode(&vec![3, 2, 1, 255], &vocab), vec![3, 2, 1, 255]);
}

#[test]
fn test_encode_learned_token() {
    // at a learned token, the run is looked up while each shorter run is an
    // entry: the empty entry lets the run grow to the whole rest
    let vocab = vec![vec![], vec![300]];
    assert_eq!(encode(&vec![7, 300], &vocab), vec![7, 1]);
}

#[test]
fn test_to_string() {
    assert_eq!(to_string(&vec![104, 105]), "hi");
    assert_eq!(to_string(&vec![104, 300, 105]), "h?i");
    assert_eq!(to_string(&vec![]), "");
    // an invalid UTF-8 byte becomes the replacement character
    assert_eq!(to_string(&vec![97, 255]), "a\u{FFFD}");
    // valid multi-byte UTF-8 is read as such
    assert_eq!(to_string(&vec![0xC3, 0xA9]), "é");
}

#[test]
fn test_line_words() {
    let ws = line_words("Hello, world! It's 42.");
    let expected: Vec<Vec<u16>> = ["Hello", "world", "It's", "42"]
        .iter()
        .map(|w| w.as_bytes().iter().map(|&b| b as u16).collect())
        .collect();
    assert_eq!(ws, expected);
    assert_eq!(line_words("  ...  "), Vec::<Vec<u16>>::new());
    assert_eq!(line_words("é"), vec![vec![0xC3, 0xA9]]);
}

#[test]
fn test_logger_line() {
    assert_eq!(logger_line(0), None);
    assert_eq!(logger_line((1 << 20) - 1), Some(1 << 20));
    assert_eq!(logger_line(1 << 20), None);
    assert_eq!(logger_line((2 << 20) - 1), Some(2 << 20));
}

#[test]
fn test_gen_word_counts() {
    let lines = vec![String::from("the cat, the hat"), String::from(""), String::from("The cat!")];
    let c = gen_word_counts(&lines, 0, |_| {});
    let w = |s: &str| -> Vec<u16> { s.as_bytes().iter().map(|&b| b as u16).collect() };
    assert_eq!(c.get(&w("the")), 2);
    assert_eq!(c.get(&w("The")), 1);
    assert_eq!(c.get(&w("cat")), 2);
    assert_eq!(c.get(&w("hat")), 1);
    assert_eq!(c.len(), 4);
    assert_eq!(c.total(), 6);
    assert_eq!(c.most_common(), Some((w("the"), 2)));
}

#[test]
fn test_gen_word_counts_progress() {
    let seen = RefCell::new(Vec::new());
    let lines = vec![String::from("a"), String::from("b c")];
    let _ = gen_word_counts(&lines, 7, |i| seen.borrow_mut().push(i));
    assert_eq!(*seen.borrow(), vec![7, 8]);
}

#[test]
fn test_decode_gives_bytes() {
    let vocab = vec![vec![104, 105], vec![256, 33]];
    let d = decode(vec![257, 256, 7], &vocab);
    assert_eq!(d, vec![104, 105, 33, 104, 105, 7]);
    assert!(d.iter().all(|&t| t < 256));
}

#[test]
fn test_decode_forward_reference() {
    // entry 0 refers to the later token 257; decoding still ends
    let vocab = vec![vec![257, 1], vec![2, 3]];
    assert_eq!(decode(vec![256, 9], &vocab), vec![2, 3, 1, 9]);
}

#[test]
fn test_gen_word_counts_keys_are_bytes() {
    // punctuation, spaces and an empty line give no word; every counted word
    // is non-empty and made of bytes, multi-byte characters included
    let lines = vec![String::from("  ... , !"), String::from(""), String::from("héllo, wörld")];
    let c = gen_word_counts(&lines, 0, |_| {});
    assert_eq!(c.len(), 2);
    for (k, n) in c.entries() {
        assert!(!k.is_empty());
        assert!(k.iter().all(|&t| t < 256));
        assert_eq!(n, 1);
    }
    let w = |s: &str| -> Vec<u16> { s.as_bytes().iter().map(|&b| b as u16).collect() };
    assert_eq!(c.get(&w("héllo")), 1);
    assert_eq!(w("héllo").len(), 6);
}

#[test]
fn test_line_words_nonempty() {
    let ws = line_words("-- a -- bc --");
    assert_eq!(ws, vec![vec![97], vec![98, 99]]);
    assert!(ws.iter().all(|w| !w.is_empty()));
}
