//! Picky-BPE: after each merge, a token that now occurs mostly inside the
//! new token (its "intersection over self" passes a threshold) is removed,
//! that is expanded back into the pair it was merged from. Training
//! records merges and removals as a list of events; tokenizing replays
//! the events.

use crate::counter::{occurrences, token_views, Counter};
use crate::sums::{count_weight, lemma_map_sum_agree, lemma_map_sum_le, lemma_map_sum_term, map_sum};
use crate::tokens::{
    expand, expand_seq, lemma_expand_tokens, lemma_replace_tokens, replace, replace_seq, Token,
    BASE_TOKENS,
};
use crate::text::{
    decode_fn, all_below, decoded_seq, lemma_decoded_bytes, lemma_decoded_expand, lemma_decoded_replace, ordered_vocab,
};
use crate::utils::{
    lemma_relabel_count, lemma_relabel_fixed, token_occurrences, token_weight, window_weight, most_common_pair, expand_fn, expand_in_library, find_candidate, image_weight, length_weight, lemma_below_is_free,
    lemma_relabel_compose, lemma_relabel_finite, lemma_relabel_identity, lemma_relabel_sum,
    lemma_replace_injective, lemma_token_frequency_le_total, lemma_transported_is_relabel,
    lemma_window_contains, lemma_window_counts_fit, linear_weight, relabel, replace_fn,
    replace_in_library, token_freq, token_frequency, tokens_below, total_length, window_count, windows,
};
use vstd::prelude::*;
use vstd::slice::slice_to_vec;

verus! {

/// A step of Picky-BPE training.
#[derive(Clone, Debug)]
pub enum Event {
    /// fromA, fromB, to
    Merge(u16, u16, u16),
    /// from, toA, toB
    Remove(u16, u16, u16),
}

/// The effect of one event on a word.
pub open spec fn apply_event(s: Seq<u16>, e: Event) -> Seq<u16> {
    match e {
        Event::Merge(a, b, t) => replace_seq(s, seq![a, b], t),
        Event::Remove(f, a, b) => expand_seq(s, f, seq![a, b]),
    }
}

/// The effect of a list of events on a word, in order.
pub open spec fn apply_events(s: Seq<u16>, evs: Seq<Event>) -> Seq<u16>
    decreases evs.len(),
{
    if evs.len() == 0 {
        s
    } else {
        apply_event(apply_events(s, evs.drop_last()), evs.last())
    }
}

/// Replaying a list of events, as a function on words.
pub open spec fn events_fn(evs: Seq<Event>) -> spec_fn(Seq<u16>) -> Seq<u16> {
    |w: Seq<u16>| apply_events(w, evs)
}

/// Every entry of the vocabulary is a pair of tokens below its own id.
pub open spec fn pair_vocab(vocab: Seq<Seq<u16>>) -> bool {
    forall|j: int|
        0 <= j < vocab.len() ==> (#[trigger] vocab[j]).len() == 2 && vocab[j][0] < BASE_TOKENS + j
            && vocab[j][1] < BASE_TOKENS + j
}

/// Whether `t` is a learned token whose vocabulary entry is the pair `a`, `b`.
pub open spec fn entry_is(vocab: Seq<Seq<u16>>, t: u16, a: u16, b: u16) -> bool {
    BASE_TOKENS <= t < BASE_TOKENS + vocab.len() && vocab[t - BASE_TOKENS] == seq![a, b]
}

/// Every event agrees with the vocabulary: a merge produces, and a removal
/// expands, a token into its vocabulary entry.
pub open spec fn events_agree(events: Seq<Event>, vocab: Seq<Seq<u16>>) -> bool {
    forall|i: int|
        0 <= i < events.len() ==> match #[trigger] events[i] {
            Event::Merge(a, b, t) => entry_is(vocab, t, a, b),
            Event::Remove(x, a, b) => entry_is(vocab, x, a, b),
        }
}

/// How many bytes the token `x` stands for: one for a byte, the sum of its
/// pair for a learned token.
pub open spec fn token_dl(x: u16, vocab: Seq<Seq<u16>>) -> nat
    decreases x,
{
    if x < BASE_TOKENS || x - BASE_TOKENS >= vocab.len() {
        1
    } else {
        let e = vocab[x - BASE_TOKENS];
        if e.len() == 2 && e[0] < x && e[1] < x {
            token_dl(e[0], vocab) + token_dl(e[1], vocab)
        } else {
            1
        }
    }
}

/// How many bytes a token sequence stands for.
pub open spec fn seq_dl(s: Seq<u16>, vocab: Seq<Seq<u16>>) -> nat
    decreases s.len(),
{
    if s.len() == 0 {
        0
    } else {
        seq_dl(s.drop_last(), vocab) + token_dl(s.last(), vocab)
    }
}

/// The decoded length of a word, as a function.
pub open spec fn dl_fn(vocab: Seq<Seq<u16>>) -> spec_fn(Seq<u16>) -> nat {
    |k: Seq<u16>| seq_dl(k, vocab)
}

/// How many bytes the whole library stands for, each word weighted by its count.
pub open spec fn decoded_total(lib: Map<Seq<u16>, nat>, vocab: Seq<Seq<u16>>) -> nat {
    map_sum(lib, linear_weight(dl_fn(vocab)))
}

/// Every word counted zero times is empty or a single byte: no merge and no
/// removal ever reaches such a word, so no pair counted zero times is ever
/// merged.
pub open spec fn zero_counts_idle(lib: Map<Seq<u16>, nat>) -> bool {
    forall|k: Seq<u16>|
        #[trigger] lib.contains_key(k) ==> lib[k] >= 1 || (k.len() <= 1 && all_below(k, BASE_TOKENS as int))
}

/// The tokens that the merges among `evs` made, in order.
pub open spec fn merge_ids(evs: Seq<Event>) -> Seq<u16>
    decreases evs.len(),
{
    if evs.len() == 0 {
        Seq::empty()
    } else {
        match evs.last() {
            Event::Merge(_, _, t) => merge_ids(evs.drop_last()).push(t),
            Event::Remove(..) => merge_ids(evs.drop_last()),
        }
    }
}

/// The merges among `evs` made the tokens `BASE_TOKENS`, `BASE_TOKENS + 1`,
/// and so on, in order, `n` of them.
pub open spec fn merges_in_order(evs: Seq<Event>, n: nat) -> bool {
    merge_ids(evs) == Seq::new(n, |i: int| (BASE_TOKENS + i) as u16)
}

/// Every removal comes after the merge that made its token.
pub open spec fn removes_follow_merges(evs: Seq<Event>) -> bool {
    forall|i: int|
        0 <= i < evs.len() ==> match #[trigger] evs[i] {
            Event::Remove(x, _, _) => BASE_TOKENS <= x < BASE_TOKENS + merge_ids(evs.take(i)).len(),
            Event::Merge(..) => true,
        }
}

/// No event of `evs` is a removal.
pub open spec fn merges_only(evs: Seq<Event>) -> bool {
    forall|i: int| 0 <= i < evs.len() ==> #[trigger] evs[i] is Merge
}

/// The tokens made by the merges of two lists of events one after the other.
proof fn lemma_merge_ids_concat(a: Seq<Event>, b: Seq<Event>)
    ensures
        merge_ids(a + b) == merge_ids(a) + merge_ids(b),
    decreases b.len(),
{
    if b.len() == 0 {
        assert(a + b =~= a);
        assert(merge_ids(a) + merge_ids(b) =~= merge_ids(a));
    } else {
        lemma_merge_ids_concat(a, b.drop_last());
        assert((a + b).drop_last() =~= a + b.drop_last());
        assert((a + b).last() == b.last());
        match b.last() {
            Event::Merge(_, _, t) => {
                assert(merge_ids(a) + merge_ids(b.drop_last()).push(t) =~= (merge_ids(a) + merge_ids(
                    b.drop_last(),
                )).push(t));
            },
            Event::Remove(..) => {},
        }
    }
}

/// One more event keeps the merges in order and the removals after their
/// merges, when a merge makes the next token and a removal takes a token
/// made already.
proof fn lemma_events_push(evs: Seq<Event>, e: Event, n: nat)
    requires
        merges_in_order(evs, n),
        removes_follow_merges(evs),
        match e {
            Event::Merge(_, _, t) => t == BASE_TOKENS + n,
            Event::Remove(x, _, _) => BASE_TOKENS <= x < BASE_TOKENS + n,
        },
    ensures
        merges_in_order(evs.push(e), if e is Merge { n + 1 } else { n }),
        removes_follow_merges(evs.push(e)),
{
    let e2 = evs.push(e);
    assert(e2.drop_last() =~= evs);
    match e {
        Event::Merge(_, _, t) => {
            assert(merge_ids(e2) =~= Seq::new(n + 1, |i: int| (BASE_TOKENS + i) as u16));
        },
        Event::Remove(..) => {},
    }
    assert forall|i: int| 0 <= i < e2.len() implies match #[trigger] e2[i] {
        Event::Remove(x, _, _) => BASE_TOKENS <= x < BASE_TOKENS + merge_ids(e2.take(i)).len(),
        Event::Merge(..) => true,
    } by {
        if i < evs.len() {
            assert(e2[i] == evs[i]);
            assert(e2.take(i) =~= evs.take(i));
        } else {
            assert(e2.take(i) =~= evs);
        }
    }
}

/// A short word of bytes is left alone by a merge of a pair.
proof fn lemma_replace_short(k: Seq<u16>, a: u16, b: u16, t: u16)
    requires
        k.len() <= 1,
    ensures
        replace_seq(k, seq![a, b], t) == k,
{
    let from = seq![a, b];
    if k.len() == 0 {
        assert(k =~= Seq::<u16>::empty());
    } else {
        let rest = k.skip(1);
        assert(rest =~= Seq::<u16>::empty());
        assert(replace_seq(rest, from, t) =~= Seq::<u16>::empty());
        assert(replace_seq(k, from, t) == seq![k[0]] + replace_seq(rest, from, t));
        assert(seq![k[0]] + Seq::<u16>::empty() =~= k);
    }
}

/// A short word of bytes is left alone by the expansion of a learned token.
proof fn lemma_expand_short(k: Seq<u16>, x: u16, to: Seq<u16>)
    requires
        k.len() <= 1,
        all_below(k, BASE_TOKENS as int),
        x >= BASE_TOKENS,
    ensures
        expand_seq(k, x, to) == k,
{
    if k.len() == 0 {
        assert(k =~= Seq::<u16>::empty());
    } else {
        assert(k[0] < BASE_TOKENS);
        let rest = k.skip(1);
        assert(rest =~= Seq::<u16>::empty());
        assert(expand_seq(rest, x, to) =~= Seq::<u16>::empty());
        assert(expand_seq(k, x, to) == seq![k[0]] + expand_seq(rest, x, to));
        assert(seq![k[0]] + Seq::<u16>::empty() =~= k);
    }
}

/// A pair occurs in a word at most as often as each of its tokens.
proof fn lemma_pair_occurrences(k: Seq<u16>, a: u16, b: u16)
    ensures
        occurrences(windows(k, 2), seq![a, b]) <= token_occurrences(k.drop_last(), a),
        occurrences(windows(k, 2), seq![a, b]) <= token_occurrences(k, b),
    decreases k.len(),
{
    let p = seq![a, b];
    if k.len() >= 2 {
        let k1 = k.drop_last();
        lemma_pair_occurrences(k1, a, b);
        let n = k.len() as int;
        let w = windows(k, 2);
        let w1 = windows(k1, 2);
        assert(w.len() == w1.len() + 1);
        assert forall|i: int| 0 <= i < w1.len() implies w[i] == w1[i] by {
            assert(w[i] =~= w1[i]);
        }
        assert(w =~= w1.push(k.subrange(n - 2, n)));
        assert(windows(k, 2).drop_last() =~= windows(k1, 2));
        assert(k.drop_last().last() == k[n - 2]);
        if k.subrange(n - 2, n) == p {
            assert(k.subrange(n - 2, n)[0] == k[n - 2]);
            assert(k.subrange(n - 2, n)[1] == k[n - 1]);
        }
    } else {
        assert(windows(k, 2) =~= Seq::<Seq<u16>>::empty());
    }
}

/// A pair occurs across the library at most as often as each of its tokens.
pub proof fn lemma_pair_count_le_tokens(lib: Map<Seq<u16>, nat>, a: u16, b: u16)
    requires
        lib.dom().finite(),
    ensures
        window_count(lib, seq![a, b]) <= token_frequency(lib, a),
        window_count(lib, seq![a, b]) <= token_frequency(lib, b),
{
    let p = seq![a, b];
    assert forall|k: Seq<u16>| lib.contains_key(k) implies #[trigger] window_weight(p)(k, lib[k]) <= token_weight(a)(
        k,
        lib[k],
    ) && window_weight(p)(k, lib[k]) <= token_weight(b)(k, lib[k]) by {
        lemma_pair_occurrences(k, a, b);
        if k.len() > 0 {
            assert(token_occurrences(k, a) >= token_occurrences(k.drop_last(), a));
        } else {
            assert(windows(k, 2) =~= Seq::<Seq<u16>>::empty());
        }
        let o = occurrences(windows(k, 2), p);
        let oa = token_occurrences(k, a);
        let ob = token_occurrences(k, b);
        let c = lib[k];
        assert(c * o <= c * oa && c * o <= c * ob) by (nonlinear_arith)
            requires
                o <= oa,
                o <= ob,
        ;
    }
    lemma_map_sum_le(lib, window_weight(p), token_weight(a));
    lemma_map_sum_le(lib, window_weight(p), token_weight(b));
}

/// A token stands for at least one byte.
proof fn lemma_token_dl_pos(x: u16, vocab: Seq<Seq<u16>>)
    ensures
        token_dl(x, vocab) >= 1,
    decreases x,
{
    if !(x < BASE_TOKENS || x - BASE_TOKENS >= vocab.len()) {
        let e = vocab[x - BASE_TOKENS];
        if e.len() == 2 && e[0] < x && e[1] < x {
            lemma_token_dl_pos(e[0], vocab);
            lemma_token_dl_pos(e[1], vocab);
        }
    }
}

/// A sequence stands for at least as many bytes as it has tokens.
proof fn lemma_seq_dl_ge_len(s: Seq<u16>, vocab: Seq<Seq<u16>>)
    ensures
        seq_dl(s, vocab) >= s.len(),
    decreases s.len(),
{
    if s.len() > 0 {
        lemma_seq_dl_ge_len(s.drop_last(), vocab);
        lemma_token_dl_pos(s.last(), vocab);
    }
}

/// Decoded lengths add up over concatenation.
proof fn lemma_seq_dl_concat(a: Seq<u16>, b: Seq<u16>, vocab: Seq<Seq<u16>>)
    ensures
        seq_dl(a + b, vocab) == seq_dl(a, vocab) + seq_dl(b, vocab),
    decreases b.len(),
{
    if b.len() == 0 {
        assert(a + b =~= a);
    } else {
        lemma_seq_dl_concat(a, b.drop_last(), vocab);
        assert((a + b).drop_last() =~= a + b.drop_last());
        assert((a + b).last() == b.last());
    }
}

/// The decoded length of a two-token sequence.
proof fn lemma_seq_dl_pair(a: u16, b: u16, vocab: Seq<Seq<u16>>)
    ensures
        seq_dl(seq![a, b], vocab) == token_dl(a, vocab) + token_dl(b, vocab),
{
    assert(seq![a, b].drop_last() =~= seq![a]);
    assert(seq![a, b].last() == b);
    lemma_seq_dl_single(a, vocab);
}

/// A one-token sequence stands for what its token stands for.
proof fn lemma_seq_dl_single(a: u16, vocab: Seq<Seq<u16>>)
    ensures
        seq_dl(seq![a], vocab) == token_dl(a, vocab),
{
    assert(seq![a].drop_last() =~= Seq::<u16>::empty());
    assert(seq![a].last() == a);
    assert(seq_dl(Seq::<u16>::empty(), vocab) == 0);
}

/// Adding a vocabulary entry changes nothing for the tokens already defined.
proof fn lemma_token_dl_extend(x: u16, vocab: Seq<Seq<u16>>, e: Seq<u16>)
    requires
        x < BASE_TOKENS + vocab.len(),
    ensures
        token_dl(x, vocab.push(e)) == token_dl(x, vocab),
    decreases x,
{
    let v2 = vocab.push(e);
    if !(x < BASE_TOKENS || x - BASE_TOKENS >= vocab.len()) {
        assert(v2[x - BASE_TOKENS] == vocab[x - BASE_TOKENS]);
        let en = vocab[x - BASE_TOKENS];
        if en.len() == 2 && en[0] < x && en[1] < x {
            lemma_token_dl_extend(en[0], vocab, e);
            lemma_token_dl_extend(en[1], vocab, e);
        }
    }
}

/// Adding a vocabulary entry changes nothing for sequences of tokens already defined.
proof fn lemma_seq_dl_extend(s: Seq<u16>, vocab: Seq<Seq<u16>>, e: Seq<u16>)
    requires
        forall|i: int| 0 <= i < s.len() ==> s[i] < BASE_TOKENS + vocab.len(),
    ensures
        seq_dl(s, vocab.push(e)) == seq_dl(s, vocab),
    decreases s.len(),
{
    if s.len() > 0 {
        lemma_seq_dl_extend(s.drop_last(), vocab, e);
        lemma_token_dl_extend(s.last(), vocab, e);
    }
}

/// Merging a pair into the token that stands for it keeps the decoded length.
proof fn lemma_seq_dl_replace(s: Seq<u16>, vocab: Seq<Seq<u16>>, a: u16, b: u16, t: u16)
    requires
        pair_vocab(vocab),
        entry_is(vocab, t, a, b),
    ensures
        seq_dl(replace_seq(s, seq![a, b], t), vocab) == seq_dl(s, vocab),
    decreases s.len(),
{
    let from = seq![a, b];
    let j = t - BASE_TOKENS;
    assert(vocab[j] == from);
    assert(token_dl(t, vocab) == token_dl(a, vocab) + token_dl(b, vocab));
    if s.len() > 0 {
        if 0 < from.len() <= s.len() && s.take(from.len() as int) == from {
            let rest = s.skip(2);
            lemma_seq_dl_replace(rest, vocab, a, b, t);
            lemma_seq_dl_concat(seq![t], replace_seq(rest, from, t), vocab);
            lemma_seq_dl_single(t, vocab);
            assert(s =~= from + rest);
            lemma_seq_dl_concat(from, rest, vocab);
            lemma_seq_dl_pair(a, b, vocab);
        } else {
            let rest = s.skip(1);
            lemma_seq_dl_replace(rest, vocab, a, b, t);
            lemma_seq_dl_concat(seq![s[0]], replace_seq(rest, from, t), vocab);
            assert(s =~= seq![s[0]] + rest);
            lemma_seq_dl_concat(seq![s[0]], rest, vocab);
        }
    }
}

/// Expanding a token into the pair it stands for keeps the decoded length.
proof fn lemma_seq_dl_expand(s: Seq<u16>, vocab: Seq<Seq<u16>>, x: u16, a: u16, b: u16)
    requires
        pair_vocab(vocab),
        entry_is(vocab, x, a, b),
    ensures
        seq_dl(expand_seq(s, x, seq![a, b]), vocab) == seq_dl(s, vocab),
    decreases s.len(),
{
    let to = seq![a, b];
    assert(vocab[x - BASE_TOKENS] == to);
    assert(token_dl(x, vocab) == token_dl(a, vocab) + token_dl(b, vocab));
    if s.len() > 0 {
        let rest = s.skip(1);
        lemma_seq_dl_expand(rest, vocab, x, a, b);
        let head: Seq<u16> = if s[0] == x {
            to
        } else {
            seq![s[0]]
        };
        assert(expand_seq(s, x, to) == head + expand_seq(rest, x, to));
        lemma_seq_dl_concat(head, expand_seq(rest, x, to), vocab);
        assert(s =~= seq![s[0]] + rest);
        lemma_seq_dl_concat(seq![s[0]], rest, vocab);
        lemma_seq_dl_single(s[0], vocab);
        lemma_seq_dl_pair(a, b, vocab);
    }
}

/// The effect of one event, as a function on words.
pub open spec fn event_fn(e: Event) -> spec_fn(Seq<u16>) -> Seq<u16> {
    |w: Seq<u16>| apply_event(w, e)
}

/// A library holds no more tokens than the bytes it stands for.
proof fn lemma_length_le_decoded(lib: Map<Seq<u16>, nat>, vocab: Seq<Seq<u16>>)
    requires
        lib.dom().finite(),
    ensures
        total_length(lib) <= decoded_total(lib, vocab),
{
    assert forall|k: Seq<u16>| lib.contains_key(k) implies #[trigger] length_weight()(k, lib[k]) <= linear_weight(
        dl_fn(vocab),
    )(k, lib[k]) by {
        lemma_seq_dl_ge_len(k, vocab);
        let n = k.len();
        let d = seq_dl(k, vocab);
        let c = lib[k];
        assert(n * c <= d * c) by (nonlinear_arith)
            requires
                n <= d,
        ;
    }
    lemma_map_sum_le(lib, length_weight(), linear_weight(dl_fn(vocab)));
}

/// No new count passes the total count when words are renamed.
proof fn lemma_relabel_counts(m: Map<Seq<u16>, nat>, f: spec_fn(Seq<u16>) -> Seq<u16>)
    requires
        m.dom().finite(),
    ensures
        forall|nk: Seq<u16>| #[trigger] map_sum(m, image_weight(f, nk)) <= map_sum(m, count_weight()),
{
    assert forall|nk: Seq<u16>| #[trigger] map_sum(m, image_weight(f, nk)) <= map_sum(m, count_weight()) by {
        lemma_map_sum_le(m, image_weight(f, nk), count_weight());
    }
}

/// A renaming that leaves short words of bytes alone keeps the words
/// counted zero times short words of bytes.
proof fn lemma_relabel_idle(m: Map<Seq<u16>, nat>, f: spec_fn(Seq<u16>) -> Seq<u16>)
    requires
        m.dom().finite(),
        zero_counts_idle(m),
        forall|k: Seq<u16>| k.len() <= 1 && all_below(k, BASE_TOKENS as int) ==> #[trigger] f(k) == k,
    ensures
        zero_counts_idle(relabel(m, f)),
{
    let r = relabel(m, f);
    assert forall|nk: Seq<u16>| #[trigger] r.contains_key(nk) implies r[nk] >= 1 || (nk.len() <= 1 && all_below(
        nk,
        BASE_TOKENS as int,
    )) by {
        let k = choose|k: Seq<u16>| m.contains_key(k) && f(k) == nk;
        lemma_map_sum_term(m, image_weight(f, nk), k);
        if r[nk] == 0 {
            assert(m[k] == 0);
            assert(f(k) == k);
        }
    }
}

/// Renaming by the events so far and then by one more event is renaming by
/// all of them.
proof fn lemma_events_step(l0: Map<Seq<u16>, nat>, evs: Seq<Event>, e: Event)
    requires
        l0.dom().finite(),
    ensures
        relabel(relabel(l0, events_fn(evs)), event_fn(e)) == relabel(l0, events_fn(evs.push(e))),
{
    lemma_relabel_compose(l0, events_fn(evs), event_fn(e));
    assert forall|w: Seq<u16>| #[trigger] apply_events(w, evs.push(e)) == event_fn(e)(events_fn(evs)(w)) by {
        assert(evs.push(e).drop_last() =~= evs);
    }
    assert((|w: Seq<u16>| event_fn(e)(events_fn(evs)(w))) =~= events_fn(evs.push(e)));
}

/// Replaying events that agree with a vocabulary of pairs keeps every
/// token of a word below the first unused id.
proof fn lemma_events_below(s: Seq<u16>, evs: Seq<Event>, vocab: Seq<Seq<u16>>)
    requires
        pair_vocab(vocab),
        events_agree(evs, vocab),
        all_below(s, BASE_TOKENS + vocab.len()),
    ensures
        all_below(apply_events(s, evs), BASE_TOKENS + vocab.len()),
    decreases evs.len(),
{
    if evs.len() > 0 {
        let pre = evs.drop_last();
        assert forall|i: int| 0 <= i < pre.len() implies match #[trigger] pre[i] {
            Event::Merge(a, b, t) => entry_is(vocab, t, a, b),
            Event::Remove(x, a, b) => entry_is(vocab, x, a, b),
        } by {
            assert(pre[i] == evs[i]);
        }
        lemma_events_below(s, pre, vocab);
        let p = apply_events(s, pre);
        let n = BASE_TOKENS + vocab.len();
        let last = evs[evs.len() - 1];
        assert(evs.last() == last);
        match last {
            Event::Merge(a, b, t) => {
                assert(entry_is(vocab, t, a, b));
                let r = replace_seq(p, seq![a, b], t);
                lemma_replace_tokens(p, seq![a, b], t);
                assert forall|k: int| 0 <= k < r.len() implies #[trigger] r[k] < n by {
                    assert(r.contains(r[k]));
                    if r[k] != t {
                        let j = choose|j: int| 0 <= j < p.len() && p[j] == r[k];
                        assert(p[j] < n);
                    }
                }
            },
            Event::Remove(x, a, b) => {
                assert(entry_is(vocab, x, a, b));
                let j0 = x - BASE_TOKENS;
                assert(vocab[j0] == seq![a, b]);
                assert(vocab[j0][0] == a && vocab[j0][1] == b);
                let r = expand_seq(p, x, seq![a, b]);
                lemma_expand_tokens(p, x, seq![a, b]);
                assert forall|k: int| 0 <= k < r.len() implies #[trigger] r[k] < n by {
                    assert(r.contains(r[k]));
                    if !seq![a, b].contains(r[k]) {
                        let j = choose|j: int| 0 <= j < p.len() && p[j] == r[k];
                        assert(p[j] < n);
                    } else {
                        let j = choose|j: int| 0 <= j < 2 && seq![a, b][j] == r[k];
                    }
                }
            },
        }
    }
}

/// Every vocabulary entry is a pair of earlier tokens, every event agrees
/// with the vocabulary, the merges made the learned tokens one after the
/// other in order, and every removal comes after the merge that made its
/// token.
pub open spec fn picky_wf(vocab: Seq<Seq<u16>>, events: Seq<Event>) -> bool {
    &&& pair_vocab(vocab)
    &&& events_agree(events, vocab)
    &&& merges_in_order(events, vocab.len())
    &&& removes_follow_merges(events)
}

/// What holds throughout training: `lib` is the starting library `l0`
/// renamed by the events since `ev0`, its tokens are all defined, only
/// short words of bytes are counted zero times, it stands for as many bytes
/// and words as at the start, and the events agree with the vocabulary.
#[verifier::opaque]
pub open spec fn training_state(
    lib: Map<Seq<u16>, nat>,
    l0: Map<Seq<u16>, nat>,
    vocab: Seq<Seq<u16>>,
    events: Seq<Event>,
    ev0: int,
    d0: nat,
    c0: nat,
) -> bool {
    &&& l0.dom().finite()
    &&& lib.dom().finite()
    &&& tokens_below(lib, BASE_TOKENS + vocab.len())
    &&& zero_counts_idle(lib)
    &&& decoded_total(lib, vocab) == d0
    &&& map_sum(lib, count_weight()) == c0
    &&& 0 <= ev0 <= events.len()
    &&& lib == relabel(l0, events_fn(events.skip(ev0)))
    &&& picky_wf(vocab, events)
}

/// What training needs at each round, out of [`training_state`].
proof fn lemma_training_facts(
    lib: Map<Seq<u16>, nat>,
    l0: Map<Seq<u16>, nat>,
    vocab: Seq<Seq<u16>>,
    events: Seq<Event>,
    ev0: int,
    d0: nat,
    c0: nat,
)
    requires
        training_state(lib, l0, vocab, events, ev0, d0, c0),
        d0 <= usize::MAX,
        c0 <= usize::MAX,
    ensures
        lib.dom().finite(),
        tokens_below(lib, BASE_TOKENS + vocab.len()),
        total_length(lib) <= usize::MAX,
        map_sum(lib, count_weight()) <= usize::MAX,
        0 <= ev0 <= events.len(),
        lib == relabel(l0, events_fn(events.skip(ev0))),
        pair_vocab(vocab),
{
    reveal(training_state);
    lemma_length_le_decoded(lib, vocab);
}

/// A merge of two defined tokens into the next free id keeps the training state.
proof fn lemma_merge_keeps(
    lib: Map<Seq<u16>, nat>,
    l0: Map<Seq<u16>, nat>,
    vocab: Seq<Seq<u16>>,
    events: Seq<Event>,
    ev0: int,
    d0: nat,
    c0: nat,
    a: u16,
    b: u16,
)
    requires
        training_state(lib, l0, vocab, events, ev0, d0, c0),
        a < BASE_TOKENS + vocab.len(),
        b < BASE_TOKENS + vocab.len(),
        BASE_TOKENS + vocab.len() <= u16::MAX,
    ensures
        ({
            let t = (BASE_TOKENS + vocab.len()) as u16;
            training_state(
                relabel(lib, replace_fn(seq![a, b], t)),
                l0,
                vocab.push(seq![a, b]),
                events.push(Event::Merge(a, b, t)),
                ev0,
                d0,
                c0,
            )
        }),
{
    reveal(training_state);
    let t = (BASE_TOKENS + vocab.len()) as u16;
    let p = seq![a, b];
    let f = replace_fn(p, t);
    let v2 = vocab.push(p);
    let e = Event::Merge(a, b, t);
    let ev2 = events.push(e);
    let lib2 = relabel(lib, f);
    lemma_relabel_finite(lib, f);
    // tokens stay defined
    assert forall|k: Seq<u16>, i: int| lib2.contains_key(k) && 0 <= i < k.len() implies k[i] < BASE_TOKENS
        + v2.len() by {
        let k1 = choose|k1: Seq<u16>| lib.contains_key(k1) && f(k1) == k;
        lemma_replace_tokens(k1, p, t);
        assert(k.contains(k[i]));
        if k[i] != t {
            let j = choose|j: int| 0 <= j < k1.len() && k1[j] == k[i];
            assert(k1[j] < BASE_TOKENS + vocab.len());
        }
    }
    assert forall|k: Seq<u16>| k.len() <= 1 && all_below(k, BASE_TOKENS as int) implies #[trigger] f(k) == k by {
        lemma_replace_short(k, a, b, t);
    }
    lemma_relabel_idle(lib, f);
    lemma_relabel_count(lib, f);
    lemma_events_push(events, e, vocab.len());
    // the vocabulary stays made of pairs, and events agree with it
    assert(pair_vocab(v2)) by {
        assert forall|j: int| 0 <= j < v2.len() implies (#[trigger] v2[j]).len() == 2 && v2[j][0] < BASE_TOKENS
            + j && v2[j][1] < BASE_TOKENS + j by {
            if j < vocab.len() {
                assert(v2[j] == vocab[j]);
            }
        }
    }
    assert(events_agree(ev2, v2)) by {
        assert forall|i: int| 0 <= i < ev2.len() implies match #[trigger] ev2[i] {
            Event::Merge(a, b, t) => entry_is(v2, t, a, b),
            Event::Remove(x, a, b) => entry_is(v2, x, a, b),
        } by {
            if i < events.len() {
                assert(ev2[i] == events[i]);
                match events[i] {
                    Event::Merge(a1, b1, t1) => {
                        assert(v2[t1 - BASE_TOKENS] == vocab[t1 - BASE_TOKENS]);
                    },
                    Event::Remove(x1, a1, b1) => {
                        assert(v2[x1 - BASE_TOKENS] == vocab[x1 - BASE_TOKENS]);
                    },
                }
            }
        }
    }
    // the decoded total stays the same
    assert(entry_is(v2, t, a, b));
    lemma_relabel_sum(lib, f, dl_fn(v2));
    assert forall|k: Seq<u16>| #[trigger] lib.contains_key(k) implies linear_weight(
        |w: Seq<u16>| dl_fn(v2)(f(w)),
    )(k, lib[k]) == linear_weight(dl_fn(vocab))(k, lib[k]) by {
        lemma_seq_dl_replace(k, v2, a, b, t);
        lemma_seq_dl_extend(k, vocab, p);
    }
    lemma_map_sum_agree(lib, linear_weight(|w: Seq<u16>| dl_fn(v2)(f(w))), linear_weight(dl_fn(vocab)));
    // the library is the start renamed by every event so far
    assert(f =~= event_fn(e));
    lemma_events_step(l0, events.skip(ev0), e);
    assert(ev2.skip(ev0) =~= events.skip(ev0).push(e));
}

/// Expanding a learned token back into its pair keeps the training state.
proof fn lemma_remove_keeps(
    lib: Map<Seq<u16>, nat>,
    l0: Map<Seq<u16>, nat>,
    vocab: Seq<Seq<u16>>,
    events: Seq<Event>,
    ev0: int,
    d0: nat,
    c0: nat,
    x: u16,
)
    requires
        training_state(lib, l0, vocab, events, ev0, d0, c0),
        BASE_TOKENS <= x < BASE_TOKENS + vocab.len(),
    ensures
        ({
            let en = vocab[x - BASE_TOKENS];
            training_state(
                relabel(lib, expand_fn(x, en)),
                l0,
                vocab,
                events.push(Event::Remove(x, en[0], en[1])),
                ev0,
                d0,
                c0,
            )
        }),
{
    reveal(training_state);
    let en = vocab[x - BASE_TOKENS];
    let a = en[0];
    let b = en[1];
    assert(en =~= seq![a, b]);
    let f = expand_fn(x, en);
    let e = Event::Remove(x, a, b);
    let ev2 = events.push(e);
    let lib2 = relabel(lib, f);
    lemma_relabel_finite(lib, f);
    assert forall|k: Seq<u16>, i: int| lib2.contains_key(k) && 0 <= i < k.len() implies k[i] < BASE_TOKENS
        + vocab.len() by {
        let k1 = choose|k1: Seq<u16>| lib.contains_key(k1) && f(k1) == k;
        lemma_expand_tokens(k1, x, en);
        assert(k.contains(k[i]));
        if !en.contains(k[i]) {
            let j = choose|j: int| 0 <= j < k1.len() && k1[j] == k[i];
            assert(k1[j] < BASE_TOKENS + vocab.len());
        }
    }
    assert forall|k: Seq<u16>| k.len() <= 1 && all_below(k, BASE_TOKENS as int) implies #[trigger] f(k) == k by {
        lemma_expand_short(k, x, en);
    }
    lemma_relabel_idle(lib, f);
    lemma_relabel_count(lib, f);
    lemma_events_push(events, e, vocab.len());
    assert(entry_is(vocab, x, a, b));
    assert(events_agree(ev2, vocab)) by {
        assert forall|i: int| 0 <= i < ev2.len() implies match #[trigger] ev2[i] {
            Event::Merge(a, b, t) => entry_is(vocab, t, a, b),
            Event::Remove(x, a, b) => entry_is(vocab, x, a, b),
        } by {
            if i < events.len() {
                assert(ev2[i] == events[i]);
            }
        }
    }
    lemma_relabel_sum(lib, f, dl_fn(vocab));
    assert forall|k: Seq<u16>| #[trigger] lib.contains_key(k) implies linear_weight(
        |w: Seq<u16>| dl_fn(vocab)(f(w)),
    )(k, lib[k]) == linear_weight(dl_fn(vocab))(k, lib[k]) by {
        lemma_seq_dl_expand(k, vocab, x, a, b);
    }
    lemma_map_sum_agree(lib, linear_weight(|w: Seq<u16>| dl_fn(vocab)(f(w))), linear_weight(dl_fn(vocab)));
    assert(f =~= event_fn(e));
    lemma_events_step(l0, events.skip(ev0), e);
    assert(ev2.skip(ev0) =~= events.skip(ev0).push(e));
}

/// How many tokens a list of events adds: one for each merge, less one for
/// each removal.
pub open spec fn net_tokens(evs: Seq<Event>) -> int
    decreases evs.len(),
{
    if evs.len() == 0 {
        0
    } else {
        net_tokens(evs.drop_last()) + match evs.last() {
            Event::Merge(..) => 1int,
            Event::Remove(..) => -1int,
        }
    }
}

/// `x` alone when `keep`, else nothing.
pub open spec fn opt_id(keep: bool, x: u16) -> Seq<u16> {
    if keep {
        seq![x]
    } else {
        Seq::empty()
    }
}

/// The tokens that a list of removals removes, in order; `None` when the
/// list holds a merge.
pub open spec fn removed_ids(rest: Seq<Event>) -> Option<Seq<u16>>
    decreases rest.len(),
{
    if rest.len() == 0 {
        Some(Seq::empty())
    } else {
        match (removed_ids(rest.drop_last()), rest.last()) {
            (Some(ids), Event::Remove(x, _, _)) => Some(ids.push(x)),
            _ => None,
        }
    }
}

/// The decision on one token of a merged pair, given the pair's count `pf`
/// and the token's own count `fx`: it is removed only when it is a learned
/// token and the threshold test said so, and a learned token is kept only
/// when the test said so.
pub open spec fn decided<G: Fn(usize, usize) -> bool>(removed: bool, x: u16, pf: usize, fx: usize, meets: G) -> bool {
    &&& removed ==> x >= BASE_TOKENS && call_ensures(meets, (pf, fx), true)
    &&& !removed && x >= BASE_TOKENS ==> call_ensures(meets, (pf, fx), false)
}

/// One round of training on `lib`: a merge of a most common pair `a`, `b`
/// into `t`, then a removal of `a` and one of `b` (tested only when it
/// differs from `a`) where the threshold test on the pair's count and the
/// token's own count decided so.
pub open spec fn picky_round<G: Fn(usize, usize) -> bool>(
    lib: Map<Seq<u16>, nat>,
    t: u16,
    round: Seq<Event>,
    meets: G,
) -> bool {
    round.len() >= 1 && match round[0] {
        Event::Merge(a, b, to) => {
            let pf = window_count(lib, seq![a, b]) as usize;
            let fa = token_frequency(lib, a) as usize;
            let fb = token_frequency(lib, b) as usize;
            let ids = removed_ids(round.skip(1));
            let ra = ids is Some && ids->0.len() >= 1 && ids->0[0] == a;
            let rb = a != b && ids is Some && ids->0.len() >= 1 && ids->0.last() == b;
            &&& to == t
            &&& most_common_pair(lib, seq![a, b])
            &&& ids == Some(opt_id(ra, a) + opt_id(rb, b))
            &&& decided(ra, a, pf, fa, meets)
            &&& (a != b ==> decided(rb, b, pf, fb, meets))
        },
        Event::Remove(..) => false,
    }
}

/// Round `i` of a training run cut out of `events` by `cuts`: it starts on
/// `l0` renamed by the events before it, with fewer than `n` net new tokens
/// so far, and merges into the id `id0 + i`.
pub open spec fn round_ok<G: Fn(usize, usize) -> bool>(
    l0: Map<Seq<u16>, nat>,
    events: Seq<Event>,
    cuts: Seq<int>,
    id0: int,
    n: int,
    meets: G,
    i: int,
) -> bool {
    let start = events.subrange(cuts[0], cuts[i]);
    &&& cuts[i] < cuts[i + 1]
    &&& 0 <= net_tokens(start) < n
    &&& picky_round(relabel(l0, events_fn(start)), (id0 + i) as u16, events.subrange(cuts[i], cuts[i + 1]), meets)
}

/// The events from `cuts[0]` on are a sequence of training rounds, cut at
/// the positions in `cuts`.
pub open spec fn picky_trace<G: Fn(usize, usize) -> bool>(
    l0: Map<Seq<u16>, nat>,
    events: Seq<Event>,
    cuts: Seq<int>,
    id0: int,
    n: int,
    meets: G,
) -> bool {
    &&& cuts.len() >= 1
    &&& 0 <= cuts[0]
    &&& cuts.last() == events.len()
    &&& forall|i: int| 0 <= i < cuts.len() ==> cuts[0] <= #[trigger] cuts[i] <= events.len()
    &&& forall|i: int| 0 <= i < cuts.len() - 1 ==> #[trigger] round_ok(l0, events, cuts, id0, n, meets, i)
}

/// The net count after one more event.
proof fn lemma_net_push(evs: Seq<Event>, e: Event)
    ensures
        net_tokens(evs.push(e)) == net_tokens(evs) + match e {
            Event::Merge(..) => 1int,
            Event::Remove(..) => -1int,
        },
{
    assert(evs.push(e).drop_last() =~= evs);
}

/// The removed tokens after one more removal.
proof fn lemma_removed_push(rest: Seq<Event>, x: u16, a: u16, b: u16)
    ensures
        removed_ids(rest.push(Event::Remove(x, a, b))) == match removed_ids(rest) {
            Some(ids) => Some(ids.push(x)),
            None => None,
        },
{
    assert(rest.push(Event::Remove(x, a, b)).drop_last() =~= rest);
}

/// A trace stays a trace when more events follow, and one more round makes
/// a longer trace.
proof fn lemma_trace_extend<G: Fn(usize, usize) -> bool>(
    l0: Map<Seq<u16>, nat>,
    events: Seq<Event>,
    cuts: Seq<int>,
    id0: int,
    n: int,
    meets: G,
    ev2: Seq<Event>,
)
    requires
        picky_trace(l0, events, cuts, id0, n, meets),
        events.len() < ev2.len(),
        ev2.take(events.len() as int) == events,
        0 <= net_tokens(events.subrange(cuts[0], events.len() as int)) < n,
        picky_round(
            relabel(l0, events_fn(events.subrange(cuts[0], events.len() as int))),
            (id0 + cuts.len() - 1) as u16,
            ev2.subrange(events.len() as int, ev2.len() as int),
            meets,
        ),
    ensures
        picky_trace(l0, ev2, cuts.push(ev2.len() as int), id0, n, meets),
{
    let c2 = cuts.push(ev2.len() as int);
    assert forall|i: int| 0 <= i < c2.len() - 1 implies #[trigger] round_ok(l0, ev2, c2, id0, n, meets, i) by {
        assert(c2[0] == cuts[0]);
        assert(c2[i] == cuts[i]);
        if i < cuts.len() - 1 {
            assert(round_ok(l0, events, cuts, id0, n, meets, i));
            assert(c2[i + 1] == cuts[i + 1]);
            assert(cuts[0] <= cuts[i + 1] <= events.len());
            assert(ev2.subrange(cuts[0], cuts[i]) =~= events.subrange(cuts[0], cuts[i]));
            assert(ev2.subrange(cuts[i], cuts[i + 1]) =~= events.subrange(cuts[i], cuts[i + 1]));
        } else {
            assert(i == cuts.len() - 1);
            assert(cuts[i] == events.len());
            assert(c2[i + 1] == ev2.len());
            assert(ev2.subrange(cuts[0], cuts[i]) =~= events.subrange(cuts[0], events.len() as int));
        }
    }
    assert forall|i: int| 0 <= i < c2.len() implies c2[0] <= #[trigger] c2[i] <= ev2.len() by {
        if i < cuts.len() {
            assert(c2[i] == cuts[i]);
        }
    }
}

/// A vocabulary of pairs of earlier tokens is ordered.
proof fn lemma_pair_vocab_ordered(vocab: Seq<Seq<u16>>)
    requires
        pair_vocab(vocab),
    ensures
        ordered_vocab(vocab),
{
    assert forall|j: int| 0 <= j < vocab.len() implies all_below(#[trigger] vocab[j], BASE_TOKENS + j) by {
        assert(vocab[j].len() == 2);
        assert forall|i: int| 0 <= i < vocab[j].len() implies #[trigger] vocab[j][i] < BASE_TOKENS + j by {
            assert(i == 0 || i == 1);
        }
    }
}

/// Replaying events that agree with the vocabulary keeps what a sequence
/// stands for.
proof fn lemma_decoded_events(w: Seq<u16>, evs: Seq<Event>, vocab: Seq<Seq<u16>>)
    requires
        pair_vocab(vocab),
        events_agree(evs, vocab),
    ensures
        decoded_seq(apply_events(w, evs), vocab) == decoded_seq(w, vocab),
    decreases evs.len(),
{
    if evs.len() > 0 {
        let pre = evs.drop_last();
        assert(events_agree(pre, vocab)) by {
            assert forall|i: int| 0 <= i < pre.len() implies match #[trigger] pre[i] {
                Event::Merge(a, b, t) => entry_is(vocab, t, a, b),
                Event::Remove(x, a, b) => entry_is(vocab, x, a, b),
            } by {
                assert(pre[i] == evs[i]);
            }
        }
        lemma_decoded_events(w, pre, vocab);
        lemma_pair_vocab_ordered(vocab);
        let s = apply_events(w, pre);
        assert(evs[evs.len() - 1] == evs.last());
        match evs.last() {
            Event::Merge(a, b, t) => {
                assert(entry_is(vocab, t, a, b));
                lemma_decoded_replace(s, seq![a, b], t, vocab);
            },
            Event::Remove(x, a, b) => {
                assert(entry_is(vocab, x, a, b));
                lemma_decoded_expand(s, x, seq![a, b], vocab);
            },
        }
    }
}

/// A copy of a vocabulary.
fn clone_vocab(v: &Vec<Token>) -> (r: Vec<Token>)
    ensures
        token_views(r@) == token_views(v@),
{
    let mut r: Vec<Token> = Vec::new();
    let mut i: usize = 0;
    while i < v.len()
        invariant
            i <= v@.len(),
            token_views(r@) == token_views(v@).take(i as int),
        decreases v@.len() - i,
    {
        let c = v[i].clone();
        assert(c@ =~= v@[i as int]@);
        let ghost prev = r@;
        r.push(c);
        assert(token_views(r@) =~= token_views(prev).push(v@[i as int]@));
        assert(token_views(v@).take(i + 1) =~= token_views(v@).take(i as int).push(v@[i as int]@));
        i += 1;
    }
    assert(token_views(v@).take(i as int) =~= token_views(v@));
    r
}

/// The threshold test never passes when the pair occurs at most as often
/// as the token, which it always does: such a test removes nothing.
pub open spec fn never_passes_within<G: Fn(usize, usize) -> bool>(meets: G) -> bool {
    forall|p: usize, f: usize| p <= f ==> !call_ensures(meets, (p, f), true)
}

/// Events that agree with a vocabulary still agree after dropping a prefix.
proof fn lemma_events_agree_skip(evs: Seq<Event>, vocab: Seq<Seq<u16>>, n: int)
    requires
        events_agree(evs, vocab),
        0 <= n <= evs.len(),
    ensures
        events_agree(evs.skip(n), vocab),
{
    assert forall|i: int| 0 <= i < evs.skip(n).len() implies match #[trigger] evs.skip(n)[i] {
        Event::Merge(a, b, t) => entry_is(vocab, t, a, b),
        Event::Remove(x, a, b) => entry_is(vocab, x, a, b),
    } by {
        assert(evs.skip(n)[i] == evs[i + n]);
    }
}

/// Decoding every word of a library of byte words, renamed by events that
/// agree with the vocabulary, gives the library back.
proof fn lemma_decode_renamed(l0: Map<Seq<u16>, nat>, evs: Seq<Event>, vocab: Seq<Seq<u16>>)
    requires
        l0.dom().finite(),
        tokens_below(l0, BASE_TOKENS as int),
        pair_vocab(vocab),
        events_agree(evs, vocab),
    ensures
        relabel(relabel(l0, events_fn(evs)), decode_fn(vocab)) == l0,
{
    let g = |w: Seq<u16>| decode_fn(vocab)(events_fn(evs)(w));
    lemma_relabel_compose(l0, events_fn(evs), decode_fn(vocab));
    assert forall|k: Seq<u16>| #[trigger] l0.contains_key(k) implies g(k) == k by {
        lemma_decoded_events(k, evs, vocab);
        assert forall|i: int| 0 <= i < k.len() implies #[trigger] k[i] < BASE_TOKENS by {
            assert(l0.contains_key(k) && 0 <= i < k.len());
        }
        lemma_decoded_bytes(k, vocab);
    }
    lemma_relabel_fixed(l0, g);
}

/// What training states at its end: the vocabulary grew by one entry per
/// merge, and decoding the trained library gives back a library of bytes.
proof fn lemma_training_end(
    lib: Map<Seq<u16>, nat>,
    l0: Map<Seq<u16>, nat>,
    vocab: Seq<Seq<u16>>,
    events: Seq<Event>,
    e0: Seq<Event>,
    n0: nat,
)
    requires
        l0.dom().finite(),
        0 <= e0.len() <= events.len(),
        lib == relabel(l0, events_fn(events.skip(e0.len() as int))),
        pair_vocab(vocab),
        events_agree(events, vocab),
        merges_in_order(events, vocab.len()),
        merges_in_order(e0, n0),
        events.take(e0.len() as int) == e0,
    ensures
        vocab.len() == n0 + merge_ids(events.skip(e0.len() as int)).len(),
        tokens_below(l0, BASE_TOKENS as int) ==> relabel(lib, decode_fn(vocab)) == l0,
{
    let ev0 = e0.len() as int;
    assert(events =~= events.take(ev0) + events.skip(ev0));
    lemma_merge_ids_concat(events.take(ev0), events.skip(ev0));
    assert(merge_ids(events) == merge_ids(e0) + merge_ids(events.skip(ev0)));
    assert(merge_ids(events).len() == vocab.len());
    assert(merge_ids(e0).len() == n0);
    if tokens_below(l0, BASE_TOKENS as int) {
        lemma_events_agree_skip(events, vocab, ev0);
        lemma_decode_renamed(l0, events.skip(ev0), vocab);
    }
}

/// A Picky-BPE tokeniser: `vocab[j]` is the pair of tokens that token
/// `BASE_TOKENS + j` was merged from (entries stay after a removal, so the
/// vocabulary also hands out the next free id), and `events` lists the
/// merges and removals in the order training made them.
pub struct PickyBpe {
    pub vocab: Vec<Token>,
    pub events: Vec<Event>,
}

impl PickyBpe {
    /// The vocabulary, each entry taken by its view.
    pub open spec fn vocab_view(&self) -> Seq<Seq<u16>> {
        token_views(self.vocab@)
    }

    /// Every vocabulary entry is a pair of earlier tokens, every event agrees
    /// with the vocabulary, the merges made the learned tokens one after the
    /// other in order, and every removal comes after the merge that made its
    /// token.
    pub open spec fn wf(&self) -> bool {
        picky_wf(self.vocab_view(), self.events@)
    }

    /// An untrained tokeniser: no vocabulary, no events.
    pub fn new() -> (r: Self)
        ensures
            r.vocab@.len() == 0,
            r.events@.len() == 0,
            r.wf(),
    {
        let r = PickyBpe { vocab: Vec::new(), events: Vec::new() };
        assert(merge_ids(r.events@) =~= Seq::new(0, |i: int| (BASE_TOKENS + i) as u16));
        r
    }

    /// Tokenizes a word by replaying every event in order: a merge replaces
    /// each occurrence of its pair, a removal expands its token back into
    /// its pair.
    pub fn tokenize(&self, word: &[u16]) -> (r: Vec<u16>)
        ensures
            r@ == apply_events(word@, self.events@),
            self.wf() && all_below(word@, BASE_TOKENS + self.vocab@.len()) ==> all_below(
                r@,
                BASE_TOKENS + self.vocab@.len(),
            ),
    {
        let mut current: Vec<u16> = slice_to_vec(word);
        let mut i: usize = 0;
        assert(self.events@.take(0) =~= Seq::<Event>::empty());
        while i < self.events.len()
            invariant
                i <= self.events@.len(),
                current@ == apply_events(word@, self.events@.take(i as int)),
            decreases self.events@.len() - i,
        {
            let ghost prev = current@;
            assert(self.events@.take(i + 1).drop_last() =~= self.events@.take(i as int));
            assert(self.events@.take(i + 1).last() == self.events@[i as int]);
            match &self.events[i] {
                Event::Merge(a, b, t) => {
                    let pair: [u16; 2] = [*a, *b];
                    assert(pair@ =~= seq![*a, *b]);
                    current = replace(&current, &pair, *t);
                },
                Event::Remove(x, a, b) => {
                    let pair: [u16; 2] = [*a, *b];
                    assert(pair@ =~= seq![*a, *b]);
                    current = expand(&current, *x, &pair);
                },
            }
            i += 1;
        }
        assert(self.events@.take(i as int) =~= self.events@);
        proof {
            if self.wf() && all_below(word@, BASE_TOKENS + self.vocab@.len()) {
                lemma_events_below(word@, self.events@, self.vocab_view());
            }
        }
        current
    }

    /// Trains on `library` until `new_token_count` net new tokens were made
    /// (each merge adds one, each removal takes one away), until no word
    /// has two tokens left, or until the token ids run out. Each round
    /// merges a most common pair of adjacent tokens into the next free id,
    /// then removes (expands back into its pair) each learned token of the
    /// pair for which `meets_threshold(pair count, token count)` holds; the
    /// second token is tested only when it differs from the first. The
    /// progress callback gets the net count after each round; the count is a
    /// `u16` that wraps around when a round removes more tokens than were
    /// made so far, which ends the training (a removed token can come back
    /// when a token built from it is removed, and be removed again). Words
    /// counted zero times must be empty or single bytes. Returns the
    /// vocabulary and the library rewritten by every event of this training;
    /// the vocabulary grows by one entry per merge, and a threshold test
    /// that never passes when the pair occurs at most as often as the token
    /// (as it always does) makes no removal.
    pub fn train<F: Fn(u16), G: Fn(usize, usize) -> bool>(
        &mut self,
        library: Counter,
        meets_threshold: G,
        new_token_count: u16,
        progress_fn: F,
    ) -> (r: (Vec<Token>, Counter))
        requires
            old(self).wf(),
            library.wf(),
            tokens_below(library@, BASE_TOKENS + old(self).vocab@.len()),
            zero_counts_idle(library@),
            decoded_total(library@, old(self).vocab_view()) <= usize::MAX,
            map_sum(library@, count_weight()) <= usize::MAX,
            forall|p: usize, f: usize| call_requires(meets_threshold, (p, f)),
            forall|i: u16| call_requires(progress_fn, (i,)),
        ensures
            final(self).wf(),
            final(self).vocab_view().take(old(self).vocab@.len() as int) == old(self).vocab_view(),
            final(self).events@.take(old(self).events@.len() as int) == old(self).events@,
            token_views(r.0@) == final(self).vocab_view(),
            r.1.wf(),
            r.1@ == relabel(library@, events_fn(final(self).events@.skip(old(self).events@.len() as int))),
            old(self).events@.len() == 0 ==> r.1@ == relabel(library@, events_fn(final(self).events@)),
            tokens_below(r.1@, BASE_TOKENS + final(self).vocab@.len()),
            zero_counts_idle(r.1@),
            decoded_total(r.1@, final(self).vocab_view()) == decoded_total(library@, old(self).vocab_view()),
            map_sum(r.1@, count_weight()) == map_sum(library@, count_weight()),
            tokens_below(library@, BASE_TOKENS as int) ==> relabel(r.1@, decode_fn(final(self).vocab_view()))
                == library@,
            final(self).vocab@.len() == old(self).vocab@.len() + merge_ids(
                final(self).events@.skip(old(self).events@.len() as int),
            ).len(),
            never_passes_within(meets_threshold) ==> merges_only(
                final(self).events@.skip(old(self).events@.len() as int),
            ),
            exists|cuts: Seq<int>|
                cuts[0] == old(self).events@.len() && #[trigger] picky_trace(
                    library@,
                    final(self).events@,
                    cuts,
                    BASE_TOKENS + old(self).vocab@.len(),
                    new_token_count as int,
                    meets_threshold,
                ),
            ({
                let net = net_tokens(final(self).events@.skip(old(self).events@.len() as int));
                &&& net <= new_token_count
                &&& net >= new_token_count || net < 0 || final(self).vocab@.len() > u16::MAX - BASE_TOKENS
                    || forall|k: Seq<u16>| #[trigger] r.1@.contains_key(k) ==> k.len() < 2
            }),
    {
        let ghost l0 = library@;
        let ghost v0 = self.vocab_view();
        let ghost e0 = self.events@;
        let ghost ev0 = self.events@.len() as int;
        let ghost d0 = decoded_total(l0, v0);
        let ghost c0 = map_sum(l0, count_weight());
        let ghost id0 = BASE_TOKENS + v0.len();
        let ghost n = new_token_count as int;
        let mut library = library;
        let mut effective_count: u16 = 0;
        let ghost mut cuts: Seq<int> = seq![ev0];
        proof {
            reveal(training_state);
            let evs = self.events@.skip(ev0);
            assert(evs =~= Seq::<Event>::empty());
            assert(events_fn(evs) =~= (|k: Seq<u16>| k));
            lemma_relabel_identity(l0);
            assert(self.vocab_view().take(v0.len() as int) =~= v0);
            assert(self.events@.take(ev0) =~= e0);
            assert(cuts.last() == self.events@.len());
            assert forall|i: int| 0 <= i < cuts.len() implies cuts[0] <= #[trigger] cuts[i] <= self.events@.len() by {
                assert(i == 0);
            }
        }
        while effective_count < new_token_count && self.vocab.len() <= (u16::MAX - BASE_TOKENS) as usize
            invariant
                training_state(library@, l0, self.vocab_view(), self.events@, ev0, d0, c0),
                library.wf(),
                d0 <= usize::MAX,
                c0 <= usize::MAX,
                ev0 == e0.len(),
                v0.len() <= self.vocab@.len(),
                self.vocab_view().take(v0.len() as int) == v0,
                self.events@.take(ev0) == e0,
                id0 == BASE_TOKENS + v0.len(),
                n == new_token_count,
                ({
                    let net = net_tokens(self.events@.skip(ev0));
                    &&& (net >= 0 && effective_count == net) || (net == -1 && effective_count == u16::MAX)
                    &&& net <= n
                }),
                never_passes_within(meets_threshold) ==> merges_only(self.events@.skip(ev0)),
                merges_in_order(e0, v0.len()),
                picky_trace(l0, self.events@, cuts, id0, n, meets_threshold),
                cuts[0] == ev0,
                self.vocab@.len() == v0.len() + cuts.len() - 1,
                forall|p: usize, f: usize| call_requires(meets_threshold, (p, f)),
                forall|i: u16| call_requires(progress_fn, (i,)),
            ensures
                training_state(library@, l0, self.vocab_view(), self.events@, ev0, d0, c0),
                library.wf(),
                v0.len() <= self.vocab@.len(),
                self.vocab_view().take(v0.len() as int) == v0,
                self.events@.take(ev0) == e0,
                ({
                    let net = net_tokens(self.events@.skip(ev0));
                    &&& (net >= 0 && effective_count == net) || (net == -1 && effective_count == u16::MAX)
                    &&& net <= n
                }),
                never_passes_within(meets_threshold) ==> merges_only(self.events@.skip(ev0)),
                merges_in_order(e0, v0.len()),
                picky_trace(l0, self.events@, cuts, id0, n, meets_threshold),
                cuts[0] == ev0,
                ({
                    ||| effective_count >= new_token_count
                    ||| self.vocab@.len() > u16::MAX - BASE_TOKENS
                    ||| forall|k: Seq<u16>| #[trigger] library@.contains_key(k) ==> k.len() < 2
                }),
            decreases u16::MAX - BASE_TOKENS + 1 - self.vocab@.len(),
        {
            let ghost lib_start = library@;
            let ghost evs_start = self.events@;
            let ghost vocab_start = self.vocab_view();
            proof {
                lemma_training_facts(lib_start, l0, vocab_start, evs_start, ev0, d0, c0);
                lemma_window_counts_fit(lib_start);
            }
            let cand = find_candidate(&library);
            if cand.is_none() {
                break;
            }
            let c = cand.unwrap();
            let pair = c.0;
            let pair_freq = c.1;
            let x1 = pair[0];
            let x2 = pair[1];
            proof {
                let k = choose|k: Seq<u16>| lib_start.contains_key(k) && #[trigger] windows(k, 2).contains(pair@);
                lemma_window_contains(k, 2, pair@);
                let a = choose|a: int| 0 <= a && a + 2 <= k.len() && #[trigger] k.subrange(a, a + 2) == pair@;
                assert(pair@[0] == k[a]);
                assert(pair@[1] == k[a + 1]);
                assert(k[a] < BASE_TOKENS + vocab_start.len());
                assert(k[a + 1] < BASE_TOKENS + vocab_start.len());
                assert(pair@ =~= seq![x1, x2]);
                lemma_token_frequency_le_total(lib_start, x1);
                lemma_token_frequency_le_total(lib_start, x2);
            }
            let x1_freq = token_freq(&library, x1);
            let x2_freq = token_freq(&library, x2);
            let new_token_id: u16 = self.vocab.len() as u16 + BASE_TOKENS;
            let ghost t = new_token_id;
            proof {
                lemma_merge_keeps(lib_start, l0, vocab_start, evs_start, ev0, d0, c0, x1, x2);
            }
            let ghost g1 = relabel(lib_start, replace_fn(seq![x1, x2], t));
            let x3 = pair.clone();
            assert(x3@ =~= pair@);
            self.events.push(Event::Merge(x1, x2, new_token_id));
            self.vocab.push(pair);
            assert(self.vocab_view() =~= vocab_start.push(seq![x1, x2]));
            let ghost vocab1 = self.vocab_view();
            let ghost evs1 = self.events@;
            proof {
                lemma_training_facts(g1, l0, vocab1, evs1, ev0, d0, c0);
            }
            let ghost mut g2 = g1;
            let remove_x1 = if x1 >= BASE_TOKENS {
                meets_threshold(pair_freq, x1_freq)
            } else {
                false
            };
            proof {
                if remove_x1 && never_passes_within(meets_threshold) {
                    lemma_pair_count_le_tokens(lib_start, x1, x2);
                    assert(call_ensures(meets_threshold, (pair_freq, x1_freq), true));
                }
            }
            if remove_x1 {
                let e = self.expansion_of(x1);
                proof {
                    lemma_remove_keeps(g1, l0, vocab1, evs1, ev0, d0, c0, x1);
                    g2 = relabel(g1, expand_fn(x1, vocab1[x1 - BASE_TOKENS]));
                }
                self.events.push(Event::Remove(x1, e[0], e[1]));
            }
            let ghost evs2 = self.events@;
            proof {
                lemma_training_facts(g2, l0, vocab1, evs2, ev0, d0, c0);
            }
            let ghost mut g3 = g2;
            let remove_x2 = if x2 != x1 && x2 >= BASE_TOKENS {
                meets_threshold(pair_freq, x2_freq)
            } else {
                false
            };
            proof {
                if remove_x2 && never_passes_within(meets_threshold) {
                    lemma_pair_count_le_tokens(lib_start, x1, x2);
                    assert(call_ensures(meets_threshold, (pair_freq, x2_freq), true));
                }
            }
            if remove_x2 {
                let e = self.expansion_of(x2);
                proof {
                    lemma_remove_keeps(g2, l0, vocab1, evs2, ev0, d0, c0, x2);
                    g3 = relabel(g2, expand_fn(x2, vocab1[x2 - BASE_TOKENS]));
                }
                self.events.push(Event::Remove(x2, e[0], e[1]));
            }
            proof {
                lemma_below_is_free(lib_start, BASE_TOKENS + vocab_start.len());
            }
            library = replace_in_library(&library, &x3, new_token_id);
            proof {
                lemma_replace_injective(lib_start, x3@, t);
                lemma_transported_is_relabel(lib_start, library@, replace_fn(x3@, t));
                assert(library@ == g1);
            }
            if remove_x1 {
                let e = self.expansion_of(x1);
                proof {
                    lemma_relabel_counts(library@, expand_fn(x1, e@));
                }
                library = expand_in_library(&library, x1, &e);
            }
            assert(library@ == g2);
            if remove_x2 {
                let e = self.expansion_of(x2);
                proof {
                    lemma_relabel_counts(library@, expand_fn(x2, e@));
                }
                library = expand_in_library(&library, x2, &e);
            }
            assert(library@ == g3);
            let removed: u16 = (if remove_x1 { 1u16 } else { 0u16 }) + (if remove_x2 { 1u16 } else { 0u16 });
            effective_count = (effective_count + 1).wrapping_sub(removed);
            proof {
                // the net count follows the events
                let s0 = evs_start.skip(ev0);
                let s1 = evs1.skip(ev0);
                let s2 = evs2.skip(ev0);
                let s3 = self.events@.skip(ev0);
                assert(s1 =~= s0.push(Event::Merge(x1, x2, t)));
                lemma_net_push(s0, Event::Merge(x1, x2, t));
                if remove_x1 {
                    assert(s2 =~= s1.push(evs2.last()));
                    lemma_net_push(s1, evs2.last());
                } else {
                    assert(s2 =~= s1);
                }
                if remove_x2 {
                    assert(s3 =~= s2.push(self.events@.last()));
                    lemma_net_push(s2, self.events@.last());
                } else {
                    assert(s3 =~= s2);
                }
                if never_passes_within(meets_threshold) {
                    assert forall|i: int| 0 <= i < s3.len() implies #[trigger] s3[i] is Merge by {
                        if i < s0.len() {
                            assert(s3[i] == s0[i]);
                        }
                    }
                }
                // this round extends the trace
                let round = self.events@.subrange(evs_start.len() as int, self.events@.len() as int);
                let rest = round.skip(1);
                assert(round[0] == Event::Merge(x1, x2, t));
                let rs0 = Seq::<Event>::empty();
                assert(removed_ids(rs0) == Some(Seq::<u16>::empty()));
                if remove_x1 {
                    lemma_removed_push(rs0, x1, evs2.last()->Remove_1, evs2.last()->Remove_2);
                }
                let rs1 = if remove_x1 { seq![evs2.last()] } else { rs0 };
                assert(rs0.push(evs2.last()) =~= seq![evs2.last()]);
                if remove_x2 {
                    lemma_removed_push(rs1, x2, self.events@.last()->Remove_1, self.events@.last()->Remove_2);
                    assert(rs1.push(self.events@.last()) =~= rest);
                } else {
                    assert(rs1 =~= rest);
                }
                assert(opt_id(remove_x1, x1) + opt_id(remove_x2, x2) == removed_ids(rest)->0);
                assert(evs_start.subrange(ev0, evs_start.len() as int) =~= s0);
                assert(self.events@.take(evs_start.len() as int) =~= evs_start);
                lemma_trace_extend(l0, evs_start, cuts, id0, n, meets_threshold, self.events@);
                cuts = cuts.push(self.events@.len() as int);
                assert(self.vocab_view().take(v0.len() as int) =~= v0);
                assert(self.events@.take(ev0) =~= e0);
            }
            progress_fn(effective_count);
        }
        let vocab = clone_vocab(&self.vocab);
        proof {
            reveal(training_state);
            assert(self.events@.skip(0) =~= self.events@);
            lemma_training_end(library@, l0, self.vocab_view(), self.events@, e0, v0.len());
        }
        (vocab, library)
    }

    /// Tokenizing a word of bytes loses nothing: what its tokens stand for,
    /// through the vocabulary, is the word itself.
    pub proof fn lemma_tokenize_lossless(&self, w: Seq<u16>)
        requires
            self.wf(),
            all_below(w, BASE_TOKENS as int),
        ensures
            decoded_seq(apply_events(w, self.events@), self.vocab_view()) == w,
    {
        lemma_decoded_events(w, self.events@, self.vocab_view());
        lemma_decoded_bytes(w, self.vocab_view());
    }

    /// The pair that the learned token `token_id` was merged from.
    fn expansion_of(&self, token_id: u16) -> (r: [u16; 2])
        requires
            pair_vocab(self.vocab_view()),
            BASE_TOKENS <= token_id < BASE_TOKENS + self.vocab@.len(),
        ensures
            r@ == self.vocab_view()[token_id - BASE_TOKENS],
    {
        let index: usize = (token_id - BASE_TOKENS) as usize;
        assert(self.vocab_view()[index as int] == self.vocab@[index as int]@);
        let xx1 = self.vocab[index][0];
        let xx2 = self.vocab[index][1];
        let r: [u16; 2] = [xx1, xx2];
        assert(r@ =~= self.vocab_view()[index as int]);
        r
    }
}

} // verus!
