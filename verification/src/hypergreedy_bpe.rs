//! Hypergreedy BPE: take the most common pair, then keep extending it by
//! one token to the left or right while the best extension occurs more
//! than half as often as the current candidate; the final candidate
//! becomes the new token.

use crate::counter::{add_items, count_of, lemma_add_items, occurrences, token_views, Counter};
use crate::sums::{
    count_weight, entry_sum, entry_views, is_enumeration, lemma_entry_sum_prefix, lemma_enumeration_sum, map_sum,
};
use crate::tokens::{matches_at, Token, BASE_TOKENS};
use crate::text::{decode_fn, lemma_compressed_library_decodes, lemma_ordered_push, ordered_vocab};
use crate::utils::{
    compressed_from, find_candidate, lemma_compressed_start, lemma_compressed_step, lemma_length_bound,
    lemma_no_window_no_count, lemma_window_at, lemma_window_below, lemma_window_contains,
    lemma_window_counts_fit, lemma_windows_other_length, merges_fn, merged_into, most_common_pair, relabel, replace_in_library,
    tokens_below, total_length, transported, window_count, window_counts_fit, window_weight, windows,
    windows_of,
};
use vstd::prelude::*;

verus! {

/// Whether `w` has `cand` as its first or its last tokens.
pub open spec fn ext_pred(cand: Seq<u16>) -> spec_fn(Seq<u16>) -> bool {
    |w: Seq<u16>| w.take(w.len() - 1) == cand || w.skip(1) == cand
}

/// `e` is `cand` with one more token at its start or at its end.
pub open spec fn is_extension(cand: Seq<u16>, e: Seq<u16>) -> bool {
    e.len() == cand.len() + 1 && ext_pred(cand)(e)
}

/// The windows of `k` that extend `cand` by one token.
pub open spec fn ext_windows(k: Seq<u16>, cand: Seq<u16>) -> Seq<Seq<u16>> {
    windows(k, cand.len() + 1).filter(ext_pred(cand))
}

/// Filtering keeps the occurrences of what passes and drops the rest.
proof fn lemma_occurrences_filter(s: Seq<Seq<u16>>, p: spec_fn(Seq<u16>) -> bool, e: Seq<u16>)
    ensures
        occurrences(s.filter(p), e) == if p(e) {
            occurrences(s, e)
        } else {
            0
        },
        s.filter(p).contains(e) ==> p(e) && s.contains(e),
    decreases s.len(),
{
    reveal_with_fuel(Seq::filter, 1);
    if s.len() > 0 {
        let sub = s.drop_last().filter(p);
        lemma_occurrences_filter(s.drop_last(), p, e);
        if p(s.last()) {
            assert(s.filter(p) == sub.push(s.last()));
            assert(sub.push(s.last()).drop_last() =~= sub);
            if s.filter(p).contains(e) && e != s.last() {
                let i = choose|i: int| 0 <= i < s.filter(p).len() && s.filter(p)[i] == e;
                assert(sub[i] == e);
                assert(sub.contains(e));
                let j = choose|j: int| 0 <= j < s.drop_last().len() && s.drop_last()[j] == e;
                assert(s[j] == e);
            }
        } else {
            assert(s.filter(p) == sub);
            if sub.contains(e) {
                let j = choose|j: int| 0 <= j < s.drop_last().len() && s.drop_last()[j] == e;
                assert(s[j] == e);
            }
        }
    }
}

/// The windows of `t` that extend `cand` by one token, as token sequences.
fn extension_windows(t: &[u16], cand: &[u16]) -> (r: Vec<Token>)
    requires
        cand@.len() + 1 <= usize::MAX,
    ensures
        token_views(r@) == ext_windows(t@, cand@),
{
    let n = cand.len() + 1;
    let ws = windows_of(t, n);
    let ghost wv = token_views(ws@);
    let mut r: Vec<Token> = Vec::new();
    let mut i: usize = 0;
    proof {
        reveal_with_fuel(Seq::filter, 1);
        assert(wv.take(0) =~= Seq::<Seq<u16>>::empty());
    }
    while i < ws.len()
        invariant
            n == cand@.len() + 1,
            wv == token_views(ws@),
            wv == windows(t@, n as nat),
            i <= ws@.len(),
            token_views(r@) == wv.take(i as int).filter(ext_pred(cand@)),
        decreases ws@.len() - i,
    {
        let w = &ws[i];
        proof {
            assert(wv[i as int] == w@);
            assert(wv.len() == ws@.len());
            assert(t@.len() >= n) by {
                if t@.len() < n {
                    assert(windows(t@, n as nat).len() == 0);
                }
            }
            assert(w@.len() == n) by {
                assert(windows(t@, n as nat)[i as int] == t@.subrange(i as int, i + n));
            }
        }
        let keep = matches_at(w, cand, 0) || matches_at(w, cand, 1);
        proof {
            assert(w@.subrange(0, cand@.len() as int) =~= w@.take(w@.len() - 1));
            assert(w@.subrange(1, 1 + cand@.len() as int) =~= w@.skip(1));
            assert(keep == ext_pred(cand@)(w@));
            reveal_with_fuel(Seq::filter, 1);
            assert(wv.take(i + 1).drop_last() =~= wv.take(i as int));
            assert(wv.take(i + 1).last() == w@);
        }
        if keep {
            let c = w.clone();
            assert(c@ =~= w@);
            let ghost prev = r@;
            r.push(c);
            assert(token_views(r@) =~= token_views(prev).push(w@));
        }
        i += 1;
    }
    assert(wv.take(i as int) =~= wv);
    r
}

/// The best way to extend `candidate` by one token: among the windows that
/// add one token before or after it, one of greatest count across the
/// library, with that count; `None` when no word holds such a window.
pub fn find_best_extention(library: &Counter, candidate: &Token) -> (r: Option<(Token, usize)>)
    requires
        library.wf(),
        window_counts_fit(library@),
        candidate@.len() + 1 <= usize::MAX,
    ensures
        match r {
            None => forall|k: Seq<u16>, e: Seq<u16>|
                #[trigger] library@.contains_key(k) && is_extension(candidate@, e) ==> !#[trigger] windows(
                    k,
                    e.len(),
                ).contains(e),
            Some(x) => {
                &&& is_extension(candidate@, x.0@)
                &&& x.1 as nat == window_count(library@, x.0@)
                &&& exists|k: Seq<u16>| library@.contains_key(k) && #[trigger] windows(k, x.0@.len()).contains(x.0@)
                &&& forall|e: Seq<u16>| is_extension(candidate@, e) ==> #[trigger] window_count(library@, e) <= x.1
            },
        },
{
    let es = library.entries();
    let ghost l = entry_views(es@);
    let ghost lib = library@;
    let ghost cand = candidate@;
    let mut counts = Counter::new();
    let mut i: usize = 0;
    assert(l.take(0) =~= Seq::<(Seq<u16>, nat)>::empty());
    while i < es.len()
        invariant
            i <= es@.len(),
            l == entry_views(es@),
            lib == library@,
            cand == candidate@,
            cand.len() + 1 <= usize::MAX,
            library.wf(),
            is_enumeration(l, lib),
            window_counts_fit(lib),
            counts.wf(),
            counts.consistent(),
            forall|e: Seq<u16>| #[trigger] count_of(counts@, e) == if is_extension(cand, e) {
                entry_sum(l.take(i as int), window_weight(e))
            } else {
                0
            },
            forall|e: Seq<u16>| #[trigger] counts@.contains_key(e) <==> exists|j: int|
                0 <= j < i && ext_windows(l[j].0, cand).contains(e),
        decreases es@.len() - i,
    {
        let items = extension_windows(&es[i].0, candidate);
        let w = es[i].1;
        let ghost wv = token_views(items@);
        let ghost st = counts.state();
        let ghost k = l[i as int].0;
        proof {
            assert(k == es@[i as int].0@);
            assert(l[i as int].1 == w as nat);
            assert(l.take(i + 1).drop_last() =~= l.take(i as int));
            assert(l.take(i + 1).last() == l[i as int]);
            assert forall|e: Seq<u16>| #[trigger] occurrences(wv, e) == if is_extension(cand, e) {
                occurrences(windows(k, e.len()), e)
            } else {
                0
            } by {
                lemma_occurrences_filter(windows(k, cand.len() + 1), ext_pred(cand), e);
                if e.len() != cand.len() + 1 {
                    lemma_windows_other_length(k, cand.len() + 1, e);
                }
            }
            assert forall|e: Seq<u16>|
                count_of(counts@, e) + w * #[trigger] occurrences(wv, e) <= usize::MAX by {
                if is_extension(cand, e) {
                    lemma_entry_sum_prefix(l, window_weight(e), i + 1);
                    lemma_enumeration_sum(l, lib, window_weight(e));
                    assert(window_count(lib, e) <= usize::MAX);
                } else {
                    assert(w * 0 == 0) by (nonlinear_arith);
                }
            }
        }
        counts.update_weighted(items, w);
        proof {
            lemma_add_items(st, wv, w as nat);
            assert forall|e: Seq<u16>| #[trigger] count_of(counts@, e) == if is_extension(cand, e) {
                entry_sum(l.take(i + 1), window_weight(e))
            } else {
                0
            } by {
                assert(count_of(add_items(st, wv, w as nat).0, e) == count_of(st.0, e) + w * occurrences(wv, e));
                if !is_extension(cand, e) {
                    assert(w * 0 == 0) by (nonlinear_arith);
                }
            }
            assert forall|e: Seq<u16>| #[trigger] counts@.contains_key(e) <==> exists|j: int|
                0 <= j < i + 1 && ext_windows(l[j].0, cand).contains(e) by {
                assert(add_items(st, wv, w as nat).0.contains_key(e) <==> st.0.contains_key(e) || wv.contains(e));
                if exists|j: int| 0 <= j < i + 1 && ext_windows(l[j].0, cand).contains(e) {
                    let j = choose|j: int| 0 <= j < i + 1 && ext_windows(l[j].0, cand).contains(e);
                    if j < i {
                        assert(exists|j: int| 0 <= j < i && ext_windows(l[j].0, cand).contains(e));
                    }
                }
            }
        }
        i += 1;
    }
    proof {
        assert(l.take(i as int) =~= l);
        assert forall|e: Seq<u16>| is_extension(cand, e) implies #[trigger] count_of(counts@, e) == window_count(lib, e) by {
            lemma_enumeration_sum(l, lib, window_weight(e));
        }
    }
    let best = counts.most_common();
    proof {
        if best is None {
            assert forall|k: Seq<u16>, e: Seq<u16>|
                #[trigger] lib.contains_key(k) && is_extension(cand, e) implies !#[trigger] windows(
                k,
                e.len(),
            ).contains(e) by {
                if windows(k, e.len()).contains(e) {
                    let j = choose|j: int| 0 <= j < l.len() && #[trigger] l[j].0 == k;
                    let a = choose|a: int| 0 <= a < windows(k, e.len()).len() && windows(k, e.len())[a] == e;
                    windows(k, cand.len() + 1).lemma_filter_contains(ext_pred(cand), a);
                    assert(ext_windows(l[j].0, cand).contains(e));
                    assert(counts@.contains_key(e));
                }
            }
        } else {
            let x = best->0;
            let e = x.0@;
            assert(counts@.contains_key(e));
            let j = choose|j: int| 0 <= j < l.len() && ext_windows(l[j].0, cand).contains(e);
            lemma_occurrences_filter(windows(l[j].0, cand.len() + 1), ext_pred(cand), e);
            assert(lib.contains_key(l[j].0));
            if e.len() != cand.len() + 1 {
                lemma_windows_other_length(l[j].0, cand.len() + 1, e);
            }
            assert(is_extension(cand, e));
            assert(count_of(counts@, e) == window_count(lib, e));
            assert(windows(l[j].0, e.len()).contains(e));
            assert forall|e2: Seq<u16>| is_extension(cand, e2) implies #[trigger] window_count(lib, e2) <= x.1 by {
                assert(count_of(counts@, e2) == window_count(lib, e2));
            }
        }
    }
    best
}

/// Entry `j` of `vocab` is where the hypergreedy search stopped on `l0`
/// compressed by the entries before it.
pub open spec fn token_chosen_at(l0: Map<Seq<u16>, nat>, vocab: Seq<Seq<u16>>, j: int) -> bool {
    exists|lj: Map<Seq<u16>, nat>, c: nat|
        transported(l0, lj, merges_fn(vocab.take(j))) && #[trigger] hypergreedy_choice(lj, vocab[j], c)
}

/// Round `j` of a hypergreedy run: entry `j` of `vocab` is a hypergreedy
/// choice on `libs[j]`, and merging it into token `BASE_TOKENS + j` gives
/// `libs[j + 1]`.
pub open spec fn hypergreedy_round(libs: Seq<Map<Seq<u16>, nat>>, vocab: Seq<Seq<u16>>, j: int) -> bool {
    &&& exists|c: nat| #[trigger] hypergreedy_choice(libs[j], vocab[j], c)
    &&& merged_into(libs[j], vocab[j], (BASE_TOKENS + j) as u16, libs[j + 1])
}

/// `libs` are the libraries before and after each round of a hypergreedy
/// run that learned `vocab`.
pub open spec fn hypergreedy_rounds(libs: Seq<Map<Seq<u16>, nat>>, vocab: Seq<Seq<u16>>) -> bool {
    &&& libs.len() == vocab.len() + 1
    &&& forall|j: int| 0 <= j < vocab.len() ==> #[trigger] hypergreedy_round(libs, vocab, j)
}

/// Trains `new_tokens` hypergreedy tokens: each round picks a token with
/// [`find_best_token`] and merges it into the next free id, `BASE_TOKENS`
/// plus the round number, stopping early once no word has two tokens.
/// Returns the vocabulary, entry `j` being the expansion of token
/// `BASE_TOKENS + j`, and the compressed library. Each round merges a
/// hypergreedy choice on the library as the rounds before left it (see
/// [`hypergreedy_rounds`]). When the library holds raw bytes only, the
/// compressed library is the given one with every word compressed by the
/// vocabulary, entry by entry, and decoding it gives the given library
/// back: as many words, each with its count.
pub fn bpe_hypergreedy<F: Fn(u16)>(library: Counter, new_tokens: u16, progress_fn: F) -> (r: (
    Vec<Token>,
    Counter,
))
    requires
        library.wf(),
        new_tokens as int + BASE_TOKENS as int <= u16::MAX + 1,
        total_length(library@) <= usize::MAX,
        forall|i: u16| call_requires(progress_fn, (i,)),
    ensures
        r.1.wf(),
        r.0@.len() <= new_tokens,
        exists|libs: Seq<Map<Seq<u16>, nat>>|
            #[trigger] hypergreedy_rounds(libs, token_views(r.0@)) && libs[0] == library@ && libs.last() == r.1@,
        forall|j: int| 0 <= j < r.0@.len() ==> (#[trigger] r.0@[j])@.len() >= 2,
        total_length(r.1@) <= total_length(library@),
        r.0@.len() < new_tokens ==> forall|k: Seq<u16>| #[trigger] r.1@.contains_key(k) ==> k.len() < 2,
        tokens_below(library@, BASE_TOKENS as int) ==> transported(library@, r.1@, merges_fn(token_views(r.0@)))
            && tokens_below(r.1@, BASE_TOKENS + r.0@.len()),
        tokens_below(library@, BASE_TOKENS as int) ==> ordered_vocab(token_views(r.0@)),
        tokens_below(library@, BASE_TOKENS as int) ==> relabel(r.1@, decode_fn(token_views(r.0@))) == library@
            && r.1@.dom().len() == library@.dom().len() && map_sum(r.1@, count_weight()) == map_sum(
            library@,
            count_weight(),
        ),
        tokens_below(library@, BASE_TOKENS as int) ==> forall|j: int|
            0 <= j < r.0@.len() ==> #[trigger] token_chosen_at(library@, token_views(r.0@), j),
{
    let ghost l0 = library@;
    let mut library = library;
    let mut vocab: Vec<Token> = Vec::new();
    let mut i: u16 = 0;
    let mut done = false;
    let ghost mut libs: Seq<Map<Seq<u16>, nat>> = seq![l0];
    proof {
        lemma_compressed_start(l0);
        assert(token_views(vocab@) =~= Seq::<Seq<u16>>::empty());
        assert(ordered_vocab(token_views(vocab@)));
    }
    while i < new_tokens && !done
        invariant
            library.wf(),
            i <= new_tokens,
            new_tokens as int + BASE_TOKENS as int <= u16::MAX + 1,
            vocab@.len() == i,
            total_length(library@) <= total_length(l0),
            total_length(l0) <= usize::MAX,
            forall|j: int| 0 <= j < vocab@.len() ==> (#[trigger] vocab@[j])@.len() >= 2,
            done ==> forall|k: Seq<u16>| #[trigger] library@.contains_key(k) ==> k.len() < 2,
            compressed_from(l0, library@, token_views(vocab@)),
            hypergreedy_rounds(libs, token_views(vocab@)),
            libs[0] == l0,
            libs.last() == library@,
            tokens_below(l0, BASE_TOKENS as int) ==> ordered_vocab(token_views(vocab@)),
            tokens_below(l0, BASE_TOKENS as int) ==> forall|j: int|
                0 <= j < vocab@.len() ==> #[trigger] token_chosen_at(l0, token_views(vocab@), j),
            forall|i: u16| call_requires(progress_fn, (i,)),
        decreases new_tokens - i + if done {
            0int
        } else {
            1int
        },
    {
        proof {
            lemma_window_counts_fit(library@);
        }
        match find_best_token(&library) {
            None => {
                done = true;
            },
            Some(best) => {
                let new_token = best.0;
                let to = i + BASE_TOKENS;
                let next = replace_in_library(&library, &new_token, to);
                proof {
                    if tokens_below(l0, BASE_TOKENS as int) {
                        reveal(compressed_from);
                        reveal(hypergreedy_choice);
                        lemma_window_below(library@, new_token@, BASE_TOKENS + vocab@.len());
                        lemma_ordered_push(token_views(vocab@), new_token@);
                        let v = token_views(vocab@);
                        let v2 = v.push(new_token@);
                        assert forall|j: int| 0 <= j < v2.len() implies #[trigger] token_chosen_at(l0, v2, j) by {
                            assert(v2.take(j) =~= v.take(j));
                            if j < v.len() {
                                assert(token_chosen_at(l0, v, j));
                                let (lj, c) = choose|lj: Map<Seq<u16>, nat>, c: nat|
                                    transported(l0, lj, merges_fn(v.take(j))) && #[trigger] hypergreedy_choice(lj, v[j], c);
                                assert(v2[j] == v[j]);
                                assert(transported(l0, lj, merges_fn(v2.take(j))) && hypergreedy_choice(lj, v2[j], c));
                            } else {
                                assert(v.take(j) =~= v);
                                assert(transported(l0, library@, merges_fn(v2.take(j))) && hypergreedy_choice(
                                    library@,
                                    v2[j],
                                    best.1 as nat,
                                ));
                            }
                        }
                    }
                    let v = token_views(vocab@);
                    let v2 = v.push(new_token@);
                    let libs2 = libs.push(next@);
                    assert forall|j: int| 0 <= j < v2.len() implies #[trigger] hypergreedy_round(libs2, v2, j) by {
                        assert(libs2[j] == libs[j] && v2[j] == (if j < v.len() { v[j] } else { new_token@ }));
                        if j < v.len() {
                            assert(hypergreedy_round(libs, v, j));
                            assert(libs2[j + 1] == libs[j + 1]);
                        } else {
                            assert(libs[j] == library@);
                            assert(libs2[j + 1] == next@);
                            assert(hypergreedy_choice(libs2[j], v2[j], best.1 as nat));
                        }
                    }
                    libs = libs2;
                    lemma_compressed_step(l0, library@, next@, token_views(vocab@), new_token@);
                    assert(token_views(vocab@.push(new_token)) =~= token_views(vocab@).push(new_token@));
                }
                library = next;
                vocab.push(new_token);
                progress_fn(i);
                i += 1;
            },
        }
    }
    proof {
        reveal(compressed_from);
        if tokens_below(l0, BASE_TOKENS as int) {
            let v = token_views(vocab@);
            assert forall|j: int| 0 <= j < v.len() implies (#[trigger] v[j]).len() > 0 by {
                assert(v[j] == vocab@[j]@);
            }
            lemma_compressed_library_decodes(l0, library@, v);
        }
    }
    (vocab, library)
}

/// An extension keeps every pair of the sequence it extends.
proof fn lemma_extension_keeps_pair(c: Seq<u16>, e: Seq<u16>, p: Seq<u16>)
    requires
        is_extension(c, e),
        windows(c, 2).contains(p),
    ensures
        windows(e, 2).contains(p),
{
    lemma_window_contains(c, 2, p);
    let a = choose|a: int| 0 <= a && a + 2 <= c.len() && #[trigger] c.subrange(a, a + 2) == p;
    if e.take(e.len() - 1) == c {
        assert(e.subrange(a, a + 2) =~= p);
        lemma_window_at(e, 2, a);
    } else {
        assert(e.skip(1) == c);
        assert(e.subrange(a + 1, a + 3) =~= p);
        lemma_window_at(e, 2, a + 1);
    }
}

/// Step `i` of a hypergreedy search: the next candidate is a one-token
/// extension of the current one of greatest count, and occurs more than
/// half as often as the current one.
pub open spec fn hypergreedy_step_at(lib: Map<Seq<u16>, nat>, chain: Seq<Seq<u16>>, i: int) -> bool {
    &&& is_extension(chain[i], chain[i + 1])
    &&& forall|e: Seq<u16>| is_extension(chain[i], e) ==> #[trigger] window_count(lib, e) <= window_count(lib, chain[i + 1])
    &&& 2 * window_count(lib, chain[i + 1]) > window_count(lib, chain[i])
}

/// The candidates of a hypergreedy search on `lib`, in order: it starts at
/// a most common pair and takes a step from each candidate to the next.
pub open spec fn hypergreedy_chain(lib: Map<Seq<u16>, nat>, chain: Seq<Seq<u16>>) -> bool {
    &&& chain.len() >= 1
    &&& most_common_pair(lib, chain[0])
    &&& forall|i: int| 0 <= i < chain.len() - 1 ==> #[trigger] hypergreedy_step_at(lib, chain, i)
}

/// `t`, with count `c`, is where the hypergreedy search stops: the last
/// candidate of a search on `lib`, a window of the library with its count,
/// holding a most common pair, whose every one-token extension occurs at
/// most half as often.
#[verifier::opaque]
pub open spec fn hypergreedy_choice(lib: Map<Seq<u16>, nat>, t: Seq<u16>, c: nat) -> bool {
    &&& exists|chain: Seq<Seq<u16>>| #[trigger] hypergreedy_chain(lib, chain) && chain.last() == t
    &&& t.len() >= 2
    &&& c == window_count(lib, t)
    &&& exists|k: Seq<u16>| lib.contains_key(k) && #[trigger] windows(k, t.len()).contains(t)
    &&& forall|e: Seq<u16>| is_extension(t, e) ==> 2 * (#[trigger] window_count(lib, e) as int) <= c as int
    &&& exists|p: Seq<u16>| #[trigger] windows(t, 2).contains(p) && forall|q: Seq<u16>|
        q.len() == 2 ==> #[trigger] window_count(lib, q) <= window_count(lib, p)
}

/// Hypergreedy choice of the next token: start from the most common pair
/// and, while the best one-token extension occurs more than half as often
/// as the current candidate, move to that extension. `None` exactly when
/// no word has two tokens. Otherwise the result is the last candidate of
/// such a search, with its count: a window of the library holding a most
/// common pair, whose every one-token extension occurs at most half as
/// often as it does. Which of several equally common pairs or extensions
/// the search takes is not stated.
pub fn find_best_token(library: &Counter) -> (r: Option<(Token, usize)>)
    requires
        library.wf(),
        window_counts_fit(library@),
    ensures
        match r {
            None => forall|k: Seq<u16>| #[trigger] library@.contains_key(k) ==> k.len() < 2,
            Some(x) => x.0@.len() >= 2 && hypergreedy_choice(library@, x.0@, x.1 as nat),
        },
{
    reveal(hypergreedy_choice);
    let ghost lib = library@;
    let mut can = match find_candidate(library) {
        Some(c) => c,
        None => {
            return None;
        },
    };
    let ghost p = can.0@;
    let ghost bound = lemma_length_bound(lib.dom());
    let ghost mut chain: Seq<Seq<u16>> = seq![p];
    proof {
        assert(can.0@.subrange(0, 2) =~= can.0@);
        lemma_window_at(can.0@, 2, 0);
        let k = choose|k: Seq<u16>| lib.contains_key(k) && #[trigger] windows(k, 2).contains(p);
        lemma_window_contains(k, 2, p);
    }
    loop
        invariant
            library.wf(),
            lib == library@,
            window_counts_fit(lib),
            forall|k: Seq<u16>| #[trigger] lib.contains_key(k) ==> k.len() <= bound,
            can.0@.len() >= 2,
            can.0@.len() <= bound,
            can.1 as nat == window_count(lib, can.0@),
            exists|k: Seq<u16>| lib.contains_key(k) && #[trigger] windows(k, can.0@.len()).contains(can.0@),
            windows(can.0@, 2).contains(p),
            p.len() == 2,
            forall|q: Seq<u16>| q.len() == 2 ==> #[trigger] window_count(lib, q) <= window_count(lib, p),
            hypergreedy_chain(lib, chain),
            chain.last() == can.0@,
        decreases bound - can.0@.len(),
    {
        if can.0.len() == usize::MAX {
            proof {
                assert forall|e: Seq<u16>| is_extension(can.0@, e) implies 2 * (#[trigger] window_count(lib, e) as int) <= can.1 as int by {
                    assert forall|k: Seq<u16>| #[trigger] lib.contains_key(k) implies !windows(k, e.len()).contains(e) by {
                        if windows(k, e.len()).contains(e) {
                            lemma_window_contains(k, e.len(), e);
                            assert(library@.contains_key(k));
                            assert(k.len() <= usize::MAX);
                            assert(e.len() == can.0@.len() + 1);
                        }
                    }
                    lemma_no_window_no_count(lib, e);
                }
                assert(windows(can.0@, 2).contains(p));
                assert(hypergreedy_chain(lib, chain) && chain.last() == can.0@);
                reveal(hypergreedy_choice);
                assert(hypergreedy_choice(lib, can.0@, can.1 as nat));
            }
            return Some(can);
        }
        match find_best_extention(library, &can.0) {
            Some(ext) => {
                if ext.1 > can.1 / 2 {
                    proof {
                        lemma_extension_keeps_pair(can.0@, ext.0@, p);
                        let k = choose|k: Seq<u16>| lib.contains_key(k) && #[trigger] windows(k, ext.0@.len()).contains(ext.0@);
                        lemma_window_contains(k, ext.0@.len(), ext.0@);
                        let a = ext.1;
                        let b = can.1;
                        assert(2 * a > b) by (nonlinear_arith)
                            requires
                                a > b / 2,
                        ;
                        let c2 = chain.push(ext.0@);
                        assert forall|i: int| 0 <= i < c2.len() - 1 implies #[trigger] hypergreedy_step_at(lib, c2, i) by {
                            assert(c2[i] == chain[i] || i == chain.len() - 1);
                            if i < chain.len() - 1 {
                                assert(hypergreedy_step_at(lib, chain, i));
                                assert(c2[i] == chain[i] && c2[i + 1] == chain[i + 1]);
                            } else {
                                assert(c2[i] == can.0@ && c2[i + 1] == ext.0@);
                            }
                        }
                        chain = c2;
                    }
                    can = ext;
                } else {
                    proof {
                        assert forall|e: Seq<u16>| is_extension(can.0@, e) implies 2 * (#[trigger] window_count(lib, e) as int) <= can.1 as int by {
                            assert(window_count(lib, e) <= ext.1);
                            let a = ext.1;
                            let b = can.1;
                            assert(a * 2 <= b) by (nonlinear_arith)
                                requires
                                    a <= b / 2,
                            ;
                        }
                    }
                    assert(windows(can.0@, 2).contains(p));
                    assert(hypergreedy_chain(lib, chain) && chain.last() == can.0@);
                    reveal(hypergreedy_choice);
                    assert(hypergreedy_choice(lib, can.0@, can.1 as nat));
                    return Some(can);
                }
            },
            None => {
                proof {
                    assert forall|e: Seq<u16>| is_extension(can.0@, e) implies 2 * (#[trigger] window_count(lib, e) as int) <= can.1 as int by {
                        assert forall|k: Seq<u16>| #[trigger] lib.contains_key(k) implies !windows(k, e.len()).contains(e) by {
                            assert(library@.contains_key(k) && is_extension(can.0@, e));
                        }
                        lemma_no_window_no_count(lib, e);
                    }
                    assert(windows(can.0@, 2).contains(p));
                    assert(hypergreedy_chain(lib, chain) && chain.last() == can.0@);
                    reveal(hypergreedy_choice);
                    assert(hypergreedy_choice(lib, can.0@, can.1 as nat));
                }
                return Some(can);
            },
        }
    }
}

} // verus!
