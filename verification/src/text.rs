//! Between text and tokens: splitting a line into words of byte tokens,
//! decoding tokens back into bytes through a vocabulary, encoding a text
//! by a vocabulary, and showing a token sequence as a string.

use crate::counter::{add_items, count_of, lemma_add_items, occurrences, token_views, Counter};
use crate::utils::lemma_occurrences_le_len;
use crate::fx_map::{fx_contents, fx_get, fx_insert, fx_new, TokenMap};
use crate::tokens::{expand_seq, replace_seq, Token, BASE_TOKENS};
use crate::utils::{
    apply_merges, injective_on, lemma_relabel_compose, lemma_relabel_count, lemma_relabel_fixed,
    lemma_transported_is_relabel, merges_fn, relabel, tokens_below, transported,
};
use crate::sums::{count_weight, map_sum};
use unicode_segmentation::UnicodeSegmentation;
use vstd::prelude::*;
use vstd::slice::slice_subrange;
use vstd::utf8::{encode_scalar, encode_utf8, is_ascii_chars, is_ascii_chars_encode_utf8};

verus! {

/// Every token of `e` is below `x`.
pub open spec fn all_below(e: Seq<u16>, x: int) -> bool {
    forall|i: int| 0 <= i < e.len() ==> #[trigger] e[i] < x
}

/// Every vocabulary entry is made of tokens below its own id, so that
/// decoding ends.
pub open spec fn ordered_vocab(vocab: Seq<Seq<u16>>) -> bool {
    forall|j: int| 0 <= j < vocab.len() ==> all_below(#[trigger] vocab[j], BASE_TOKENS + j)
}

/// The bytes a token stands for: a byte (or a token the vocabulary does not
/// define) stands for itself, a learned token for what the tokens of its
/// vocabulary entry stand for.
pub open spec fn decoded_token(x: u16, vocab: Seq<Seq<u16>>) -> Seq<u16>
    decreases x, 1nat, 0nat,
{
    if x < BASE_TOKENS || x - BASE_TOKENS >= vocab.len() || !all_below(vocab[x - BASE_TOKENS], x as int) {
        seq![x]
    } else {
        decoded_below(vocab[x - BASE_TOKENS], vocab, x)
    }
}

/// What the tokens of `s`, each below `x`, stand for, in order.
pub open spec fn decoded_below(s: Seq<u16>, vocab: Seq<Seq<u16>>, x: u16) -> Seq<u16>
    decreases x, 0nat, s.len(),
{
    if s.len() == 0 {
        Seq::empty()
    } else if s.last() < x {
        decoded_below(s.drop_last(), vocab, x) + decoded_token(s.last(), vocab)
    } else {
        decoded_below(s.drop_last(), vocab, x) + seq![s.last()]
    }
}

/// What the tokens of `s` stand for, in order.
pub open spec fn decoded_seq(s: Seq<u16>, vocab: Seq<Seq<u16>>) -> Seq<u16>
    decreases s.len(),
{
    if s.len() == 0 {
        Seq::empty()
    } else {
        decoded_seq(s.drop_last(), vocab) + decoded_token(s.last(), vocab)
    }
}

/// Decoding, as a function on words.
pub open spec fn decode_fn(vocab: Seq<Seq<u16>>) -> spec_fn(Seq<u16>) -> Seq<u16> {
    |k: Seq<u16>| decoded_seq(k, vocab)
}

/// One more than the largest rank of a token of `s`, zero for an empty sequence.
pub open spec fn rank_bound(s: Seq<u16>, rank: spec_fn(u16) -> nat) -> nat
    decreases s.len(),
{
    if s.len() == 0 {
        0
    } else {
        let b = rank_bound(s.drop_last(), rank);
        if rank(s.last()) + 1 > b {
            rank(s.last()) + 1
        } else {
            b
        }
    }
}

/// Every token of `s` ranks below the bound, and a bound of the ranks of
/// the tokens of `s` bounds `rank_bound(s)`.
proof fn lemma_rank_bound(s: Seq<u16>, rank: spec_fn(u16) -> nat, x: nat)
    ensures
        forall|i: int| 0 <= i < s.len() ==> rank(s[i]) < rank_bound(s, rank),
        (forall|i: int| 0 <= i < s.len() ==> rank(#[trigger] s[i]) < x) ==> rank_bound(s, rank) <= x,
    decreases s.len(),
{
    if s.len() > 0 {
        lemma_rank_bound(s.drop_last(), rank, x);
        assert forall|i: int| 0 <= i < s.len() implies rank(s[i]) < rank_bound(s, rank) by {
            if i < s.len() - 1 {
                assert(s[i] == s.drop_last()[i]);
            }
        }
        if forall|i: int| 0 <= i < s.len() ==> rank(#[trigger] s[i]) < x {
            assert forall|i: int| 0 <= i < s.drop_last().len() implies rank(#[trigger] s.drop_last()[i]) < x by {
                assert(s.drop_last()[i] == s[i]);
            }
            assert(rank(s[s.len() - 1]) < x);
        }
    }
}

/// Every token of `s` is in `set`.
pub open spec fn in_set(s: Seq<u16>, set: Set<u16>) -> bool {
    forall|i: int| 0 <= i < s.len() ==> set.contains(#[trigger] s[i])
}

/// `rank` orders the tokens of `set` for decoding: each learned token of
/// `set` is defined by the vocabulary, and the tokens of its entry are in
/// `set` and rank below it.
pub open spec fn ranked_within(vocab: Seq<Seq<u16>>, set: Set<u16>, rank: spec_fn(u16) -> nat) -> bool {
    forall|x: u16|
        #[trigger] set.contains(x) && x >= BASE_TOKENS ==> x - BASE_TOKENS < vocab.len() && forall|i: int|
            0 <= i < vocab[x - BASE_TOKENS].len() ==> set.contains(#[trigger] vocab[x - BASE_TOKENS][i]) && rank(
                vocab[x - BASE_TOKENS][i],
            ) < rank(x)
}

/// Decoding `text` ends: its tokens lie in a set of tokens that some
/// ranking orders for decoding (no token reached from `text` is undefined
/// or stands, through its entry, for itself).
pub open spec fn decoding_ends(text: Seq<u16>, vocab: Seq<Seq<u16>>) -> bool {
    exists|set: Set<u16>, rank: spec_fn(u16) -> nat| #[trigger] ranked_within(vocab, set, rank) && in_set(text, set)
}

/// Every token of `e` ranks below `x`.
pub open spec fn rank_below(e: Seq<u16>, rank: spec_fn(u16) -> nat, x: u16) -> bool {
    forall|i: int| 0 <= i < e.len() ==> rank(#[trigger] e[i]) < rank(x)
}

/// What a token stands for, expanding through the vocabulary along `rank`:
/// a byte, an undefined token, or a token whose entry does not rank below
/// it stands for itself.
pub open spec fn ranked_token(x: u16, vocab: Seq<Seq<u16>>, rank: spec_fn(u16) -> nat) -> Seq<u16>
    decreases rank(x), 1nat, 0nat,
{
    if x < BASE_TOKENS || x - BASE_TOKENS >= vocab.len() || !rank_below(vocab[x - BASE_TOKENS], rank, x) {
        seq![x]
    } else {
        ranked_below(vocab[x - BASE_TOKENS], vocab, rank, x)
    }
}

/// What the tokens of `s`, each ranking below `x`, stand for, in order.
pub open spec fn ranked_below(s: Seq<u16>, vocab: Seq<Seq<u16>>, rank: spec_fn(u16) -> nat, x: u16) -> Seq<u16>
    decreases rank(x), 0nat, s.len(),
{
    if s.len() == 0 {
        Seq::empty()
    } else if rank(s.last()) < rank(x) {
        ranked_below(s.drop_last(), vocab, rank, x) + ranked_token(s.last(), vocab, rank)
    } else {
        ranked_below(s.drop_last(), vocab, rank, x) + seq![s.last()]
    }
}

/// What the tokens of `s` stand for, in order, expanding along `rank`.
pub open spec fn ranked_seq(s: Seq<u16>, vocab: Seq<Seq<u16>>, rank: spec_fn(u16) -> nat) -> Seq<u16>
    decreases s.len(),
{
    if s.len() == 0 {
        Seq::empty()
    } else {
        ranked_seq(s.drop_last(), vocab, rank) + ranked_token(s.last(), vocab, rank)
    }
}

/// Below a token that every token of `s` ranks below, expanding the tokens
/// one by one is expanding the sequence.
proof fn lemma_ranked_below(s: Seq<u16>, vocab: Seq<Seq<u16>>, rank: spec_fn(u16) -> nat, x: u16)
    requires
        rank_below(s, rank, x),
    ensures
        ranked_below(s, vocab, rank, x) == ranked_seq(s, vocab, rank),
    decreases s.len(),
{
    if s.len() > 0 {
        assert(rank(s[s.len() - 1]) < rank(x));
        assert forall|i: int| 0 <= i < s.drop_last().len() implies rank(#[trigger] s.drop_last()[i]) < rank(x) by {
            assert(s.drop_last()[i] == s[i]);
        }
        lemma_ranked_below(s.drop_last(), vocab, rank, x);
    }
}

/// A learned token of a ranked set stands for what its entry stands for.
proof fn lemma_ranked_entry(x: u16, vocab: Seq<Seq<u16>>, set: Set<u16>, rank: spec_fn(u16) -> nat)
    requires
        ranked_within(vocab, set, rank),
        set.contains(x),
        x >= BASE_TOKENS,
    ensures
        x - BASE_TOKENS < vocab.len(),
        in_set(vocab[x - BASE_TOKENS], set),
        rank_below(vocab[x - BASE_TOKENS], rank, x),
        ranked_token(x, vocab, rank) == ranked_seq(vocab[x - BASE_TOKENS], vocab, rank),
{
    let e = vocab[x - BASE_TOKENS];
    assert forall|i: int| 0 <= i < e.len() implies rank(#[trigger] e[i]) < rank(x) by {
        assert(set.contains(e[i]));
    }
    lemma_ranked_below(e, vocab, rank, x);
}

/// Two rankings of sets that hold a token expand it alike.
proof fn lemma_ranked_unique(
    x: u16,
    vocab: Seq<Seq<u16>>,
    s1: Set<u16>,
    r1: spec_fn(u16) -> nat,
    s2: Set<u16>,
    r2: spec_fn(u16) -> nat,
)
    requires
        ranked_within(vocab, s1, r1),
        ranked_within(vocab, s2, r2),
        s1.contains(x),
        s2.contains(x),
    ensures
        ranked_token(x, vocab, r1) == ranked_token(x, vocab, r2),
    decreases r1(x), 1nat, 0nat,
{
    if x >= BASE_TOKENS {
        lemma_ranked_entry(x, vocab, s1, r1);
        lemma_ranked_entry(x, vocab, s2, r2);
        let e = vocab[x - BASE_TOKENS];
        lemma_ranked_seq_unique(e, vocab, s1, r1, s2, r2, x);
    }
}

/// Two rankings of sets that hold the tokens of `s`, each ranking below
/// `x` in the first, expand `s` alike.
proof fn lemma_ranked_seq_unique(
    s: Seq<u16>,
    vocab: Seq<Seq<u16>>,
    s1: Set<u16>,
    r1: spec_fn(u16) -> nat,
    s2: Set<u16>,
    r2: spec_fn(u16) -> nat,
    x: u16,
)
    requires
        ranked_within(vocab, s1, r1),
        ranked_within(vocab, s2, r2),
        in_set(s, s1),
        in_set(s, s2),
        rank_below(s, r1, x),
    ensures
        ranked_seq(s, vocab, r1) == ranked_seq(s, vocab, r2),
    decreases r1(x), 0nat, s.len(),
{
    if s.len() > 0 {
        let s0 = s.drop_last();
        assert forall|i: int| 0 <= i < s0.len() implies s1.contains(#[trigger] s0[i]) && s2.contains(s0[i]) && r1(
            s0[i],
        ) < r1(x) by {
            assert(s0[i] == s[i]);
        }
        lemma_ranked_seq_unique(s0, vocab, s1, r1, s2, r2, x);
        assert(s1.contains(s[s.len() - 1]) && s2.contains(s[s.len() - 1]) && r1(s[s.len() - 1]) < r1(x));
        lemma_ranked_unique(s.last(), vocab, s1, r1, s2, r2);
    }
}

/// Two rankings of sets that hold the tokens of `s` expand `s` alike.
pub proof fn lemma_ranked_text_unique(
    s: Seq<u16>,
    vocab: Seq<Seq<u16>>,
    s1: Set<u16>,
    r1: spec_fn(u16) -> nat,
    s2: Set<u16>,
    r2: spec_fn(u16) -> nat,
)
    requires
        ranked_within(vocab, s1, r1),
        ranked_within(vocab, s2, r2),
        in_set(s, s1),
        in_set(s, s2),
    ensures
        ranked_seq(s, vocab, r1) == ranked_seq(s, vocab, r2),
    decreases s.len(),
{
    if s.len() > 0 {
        let s0 = s.drop_last();
        assert forall|i: int| 0 <= i < s0.len() implies #[trigger] s1.contains(s0[i]) && s2.contains(s0[i]) by {
            assert(s0[i] == s[i]);
        }
        assert(in_set(s0, s1) && in_set(s0, s2));
        lemma_ranked_text_unique(s0, vocab, s1, r1, s2, r2);
        assert(s1.contains(s[s.len() - 1]) && s2.contains(s[s.len() - 1]));
        lemma_ranked_unique(s.last(), vocab, s1, r1, s2, r2);
    }
}

/// A token of a ranked set stands for bytes only.
proof fn lemma_ranked_token_bytes(x: u16, vocab: Seq<Seq<u16>>, set: Set<u16>, rank: spec_fn(u16) -> nat)
    requires
        ranked_within(vocab, set, rank),
        set.contains(x),
    ensures
        all_below(ranked_token(x, vocab, rank), BASE_TOKENS as int),
    decreases rank(x), 1nat, 0nat,
{
    if x >= BASE_TOKENS {
        lemma_ranked_entry(x, vocab, set, rank);
        lemma_ranked_seq_bytes(vocab[x - BASE_TOKENS], vocab, set, rank, x);
    }
}

/// Tokens of a ranked set that rank below `x` stand for bytes only.
proof fn lemma_ranked_seq_bytes(
    s: Seq<u16>,
    vocab: Seq<Seq<u16>>,
    set: Set<u16>,
    rank: spec_fn(u16) -> nat,
    x: u16,
)
    requires
        ranked_within(vocab, set, rank),
        in_set(s, set),
        rank_below(s, rank, x),
    ensures
        all_below(ranked_seq(s, vocab, rank), BASE_TOKENS as int),
    decreases rank(x), 0nat, s.len(),
{
    if s.len() > 0 {
        let s0 = s.drop_last();
        assert forall|i: int| 0 <= i < s0.len() implies set.contains(#[trigger] s0[i]) && rank(s0[i]) < rank(x) by {
            assert(s0[i] == s[i]);
        }
        lemma_ranked_seq_bytes(s0, vocab, set, rank, x);
        assert(set.contains(s[s.len() - 1]) && rank(s[s.len() - 1]) < rank(x));
        lemma_ranked_token_bytes(s.last(), vocab, set, rank);
        let a = ranked_seq(s0, vocab, rank);
        let b = ranked_token(s.last(), vocab, rank);
        assert forall|i: int| 0 <= i < (a + b).len() implies #[trigger] (a + b)[i] < BASE_TOKENS by {
            if i < a.len() {
                assert((a + b)[i] == a[i]);
            } else {
                assert((a + b)[i] == b[i - a.len()]);
            }
        }
    }
}

/// Ranking tokens by their ids.
pub open spec fn id_rank() -> spec_fn(u16) -> nat {
    |x: u16| x as nat
}

/// The tokens an ordered vocabulary defines, bytes included.
pub open spec fn defined_tokens(vocab: Seq<Seq<u16>>) -> Set<u16> {
    Set::new(|x: u16| x < BASE_TOKENS + vocab.len())
}

/// An ordered vocabulary ranks its defined tokens by their ids.
pub proof fn lemma_ordered_ranked(vocab: Seq<Seq<u16>>)
    requires
        ordered_vocab(vocab),
    ensures
        ranked_within(vocab, defined_tokens(vocab), id_rank()),
{
    let set = defined_tokens(vocab);
    assert forall|x: u16| #[trigger] set.contains(x) && x >= BASE_TOKENS implies x - BASE_TOKENS < vocab.len()
        && forall|i: int|
        0 <= i < vocab[x - BASE_TOKENS].len() ==> set.contains(#[trigger] vocab[x - BASE_TOKENS][i]) && id_rank()(
            vocab[x - BASE_TOKENS][i],
        ) < id_rank()(x) by {
        let j = x - BASE_TOKENS;
        assert(all_below(vocab[j], BASE_TOKENS + j));
        assert forall|i: int| 0 <= i < vocab[j].len() implies set.contains(#[trigger] vocab[j][i]) && id_rank()(
            vocab[j][i],
        ) < id_rank()(x) by {
            assert(vocab[j][i] < BASE_TOKENS + j);
        }
    }
}

/// For an ordered vocabulary, expanding along the ids is decoding.
proof fn lemma_ranked_is_decoded(x: u16, vocab: Seq<Seq<u16>>)
    requires
        ordered_vocab(vocab),
    ensures
        ranked_token(x, vocab, id_rank()) == decoded_token(x, vocab),
    decreases x, 1nat, 0nat,
{
    if !(x < BASE_TOKENS || x - BASE_TOKENS >= vocab.len()) {
        let e = vocab[x - BASE_TOKENS];
        assert(all_below(e, x as int));
        assert(rank_below(e, id_rank(), x)) by {
            assert forall|i: int| 0 <= i < e.len() implies id_rank()(#[trigger] e[i]) < id_rank()(x) by {
                assert(e[i] < x);
            }
        }
        lemma_ranked_below(e, vocab, id_rank(), x);
        lemma_decoded_below(e, vocab, x);
        lemma_ranked_seq_is_decoded(e, vocab, x);
    }
}

/// For an ordered vocabulary and tokens below `x`, expanding along the ids
/// is decoding.
proof fn lemma_ranked_seq_is_decoded(s: Seq<u16>, vocab: Seq<Seq<u16>>, x: u16)
    requires
        ordered_vocab(vocab),
        all_below(s, x as int),
    ensures
        ranked_seq(s, vocab, id_rank()) == decoded_seq(s, vocab),
    decreases x, 0nat, s.len(),
{
    if s.len() > 0 {
        let s0 = s.drop_last();
        assert forall|i: int| 0 <= i < s0.len() implies #[trigger] s0[i] < x by {
            assert(s0[i] == s[i]);
        }
        lemma_ranked_seq_is_decoded(s0, vocab, x);
        assert(s[s.len() - 1] < x);
        lemma_ranked_is_decoded(s.last(), vocab);
    }
}

/// For an ordered vocabulary, expanding any sequence along the ids is
/// decoding it.
pub proof fn lemma_ranked_text_is_decoded(s: Seq<u16>, vocab: Seq<Seq<u16>>)
    requires
        ordered_vocab(vocab),
    ensures
        ranked_seq(s, vocab, id_rank()) == decoded_seq(s, vocab),
    decreases s.len(),
{
    if s.len() > 0 {
        lemma_ranked_text_is_decoded(s.drop_last(), vocab);
        lemma_ranked_is_decoded(s.last(), vocab);
    }
}

/// Below a bound that every token keeps, decoding the tokens one by one is
/// decoding the sequence.
proof fn lemma_decoded_below(s: Seq<u16>, vocab: Seq<Seq<u16>>, x: u16)
    requires
        all_below(s, x as int),
    ensures
        decoded_below(s, vocab, x) == decoded_seq(s, vocab),
    decreases s.len(),
{
    if s.len() > 0 {
        assert(s[s.len() - 1] < x);
        assert forall|i: int| 0 <= i < s.drop_last().len() implies #[trigger] s.drop_last()[i] < x by {
            assert(s[i] < x);
        }
        lemma_decoded_below(s.drop_last(), vocab, x);
    }
}

/// A learned token defined by an ordered vocabulary stands for what its
/// entry stands for.
pub proof fn lemma_decoded_entry(x: u16, vocab: Seq<Seq<u16>>)
    requires
        ordered_vocab(vocab),
        BASE_TOKENS <= x < BASE_TOKENS + vocab.len(),
    ensures
        decoded_token(x, vocab) == decoded_seq(vocab[x - BASE_TOKENS], vocab),
{
    assert(all_below(vocab[x - BASE_TOKENS], x as int));
    lemma_decoded_below(vocab[x - BASE_TOKENS], vocab, x);
}

/// Decoding splits over concatenation.
pub proof fn lemma_decoded_concat(a: Seq<u16>, b: Seq<u16>, vocab: Seq<Seq<u16>>)
    ensures
        decoded_seq(a + b, vocab) == decoded_seq(a, vocab) + decoded_seq(b, vocab),
    decreases b.len(),
{
    if b.len() == 0 {
        assert(a + b =~= a);
        assert(decoded_seq(a, vocab) + Seq::<u16>::empty() =~= decoded_seq(a, vocab));
    } else {
        lemma_decoded_concat(a, b.drop_last(), vocab);
        assert((a + b).drop_last() =~= a + b.drop_last());
        assert((a + b).last() == b.last());
        assert(decoded_seq(a, vocab) + decoded_seq(b.drop_last(), vocab) + decoded_token(b.last(), vocab)
            =~= decoded_seq(a, vocab) + (decoded_seq(b.drop_last(), vocab) + decoded_token(b.last(), vocab)));
    }
}

/// A single token decodes as the token does.
pub proof fn lemma_decoded_single(x: u16, vocab: Seq<Seq<u16>>)
    ensures
        decoded_seq(seq![x], vocab) == decoded_token(x, vocab),
{
    assert(seq![x].drop_last() =~= Seq::<u16>::empty());
    assert(decoded_seq(seq![x].drop_last(), vocab) =~= Seq::<u16>::empty());
    assert(Seq::<u16>::empty() + decoded_token(x, vocab) =~= decoded_token(x, vocab));
}

/// Bytes decode as themselves.
pub proof fn lemma_decoded_bytes(s: Seq<u16>, vocab: Seq<Seq<u16>>)
    requires
        all_below(s, BASE_TOKENS as int),
    ensures
        decoded_seq(s, vocab) == s,
    decreases s.len(),
{
    if s.len() > 0 {
        assert(s[s.len() - 1] < BASE_TOKENS);
        assert forall|i: int| 0 <= i < s.drop_last().len() implies #[trigger] s.drop_last()[i] < BASE_TOKENS by {
            assert(s[i] < BASE_TOKENS);
        }
        lemma_decoded_bytes(s.drop_last(), vocab);
        assert(s.drop_last().push(s.last()) =~= s);
    }
}

/// A vocabulary stays ordered when the next entry is made of tokens below
/// its own id.
pub proof fn lemma_ordered_push(vocab: Seq<Seq<u16>>, e: Seq<u16>)
    requires
        ordered_vocab(vocab),
        all_below(e, BASE_TOKENS + vocab.len()),
    ensures
        ordered_vocab(vocab.push(e)),
{
    assert forall|j: int| 0 <= j < vocab.push(e).len() implies all_below(#[trigger] vocab.push(e)[j], BASE_TOKENS + j) by {
        if j < vocab.len() {
            assert(vocab.push(e)[j] == vocab[j]);
        }
    }
}

/// Merging a run into a token that stands for that run keeps what a
/// sequence stands for.
pub proof fn lemma_decoded_replace(s: Seq<u16>, from: Seq<u16>, t: u16, vocab: Seq<Seq<u16>>)
    requires
        ordered_vocab(vocab),
        BASE_TOKENS <= t < BASE_TOKENS + vocab.len(),
        vocab[t - BASE_TOKENS] == from,
        from.len() > 0,
    ensures
        decoded_seq(replace_seq(s, from, t), vocab) == decoded_seq(s, vocab),
    decreases s.len(),
{
    lemma_decoded_entry(t, vocab);
    if s.len() > 0 {
        if from.len() <= s.len() && s.take(from.len() as int) == from {
            let rest = s.skip(from.len() as int);
            lemma_decoded_replace(rest, from, t, vocab);
            lemma_decoded_concat(seq![t], replace_seq(rest, from, t), vocab);
            lemma_decoded_single(t, vocab);
            assert(s =~= from + rest);
            lemma_decoded_concat(from, rest, vocab);
        } else {
            let rest = s.skip(1);
            lemma_decoded_replace(rest, from, t, vocab);
            lemma_decoded_concat(seq![s[0]], replace_seq(rest, from, t), vocab);
            assert(s =~= seq![s[0]] + rest);
            lemma_decoded_concat(seq![s[0]], rest, vocab);
        }
    }
}

/// Expanding a token into the run it stands for keeps what a sequence
/// stands for.
pub proof fn lemma_decoded_expand(s: Seq<u16>, x: u16, to: Seq<u16>, vocab: Seq<Seq<u16>>)
    requires
        ordered_vocab(vocab),
        BASE_TOKENS <= x < BASE_TOKENS + vocab.len(),
        vocab[x - BASE_TOKENS] == to,
    ensures
        decoded_seq(expand_seq(s, x, to), vocab) == decoded_seq(s, vocab),
    decreases s.len(),
{
    lemma_decoded_entry(x, vocab);
    if s.len() > 0 {
        let rest = s.skip(1);
        lemma_decoded_expand(rest, x, to, vocab);
        let head: Seq<u16> = if s[0] == x {
            to
        } else {
            seq![s[0]]
        };
        assert(expand_seq(s, x, to) == head + expand_seq(rest, x, to));
        lemma_decoded_concat(head, expand_seq(rest, x, to), vocab);
        assert(s =~= seq![s[0]] + rest);
        lemma_decoded_concat(seq![s[0]], rest, vocab);
        lemma_decoded_single(s[0], vocab);
    }
}

/// Merging the first `n` entries of an ordered vocabulary keeps what a
/// sequence stands for.
proof fn lemma_decoded_merges(w: Seq<u16>, vocab: Seq<Seq<u16>>, n: int)
    requires
        ordered_vocab(vocab),
        forall|j: int| 0 <= j < vocab.len() ==> (#[trigger] vocab[j]).len() > 0,
        BASE_TOKENS + vocab.len() <= u16::MAX + 1,
        0 <= n <= vocab.len(),
    ensures
        decoded_seq(apply_merges(w, vocab.take(n)), vocab) == decoded_seq(w, vocab),
    decreases n,
{
    if n == 0 {
        assert(vocab.take(0) =~= Seq::<Seq<u16>>::empty());
    } else {
        lemma_decoded_merges(w, vocab, n - 1);
        let v = vocab.take(n);
        assert(v.drop_last() =~= vocab.take(n - 1));
        assert(v.last() == vocab[n - 1]);
        let t = (BASE_TOKENS + n - 1) as u16;
        assert(t - BASE_TOKENS == n - 1);
        lemma_decoded_replace(apply_merges(w, vocab.take(n - 1)), vocab[n - 1], t, vocab);
    }
}

/// Compressing a word of bytes by an ordered vocabulary, entry by entry,
/// loses nothing: decoding gives the word back.
pub proof fn lemma_merges_lossless(w: Seq<u16>, vocab: Seq<Seq<u16>>)
    requires
        ordered_vocab(vocab),
        forall|j: int| 0 <= j < vocab.len() ==> (#[trigger] vocab[j]).len() > 0,
        BASE_TOKENS + vocab.len() <= u16::MAX + 1,
        all_below(w, BASE_TOKENS as int),
    ensures
        decoded_seq(apply_merges(w, vocab), vocab) == w,
{
    lemma_decoded_merges(w, vocab, vocab.len() as int);
    assert(vocab.take(vocab.len() as int) =~= vocab);
    lemma_decoded_bytes(w, vocab);
}

/// A library of byte words compressed by an ordered vocabulary of
/// nonempty entries decodes back to itself: no two words were compressed
/// alike, so it holds as many words, with the same total count.
pub proof fn lemma_compressed_library_decodes(
    l0: Map<Seq<u16>, nat>,
    l1: Map<Seq<u16>, nat>,
    vocab: Seq<Seq<u16>>,
)
    requires
        l0.dom().finite(),
        tokens_below(l0, BASE_TOKENS as int),
        ordered_vocab(vocab),
        forall|j: int| 0 <= j < vocab.len() ==> (#[trigger] vocab[j]).len() > 0,
        BASE_TOKENS + vocab.len() <= u16::MAX + 1,
        transported(l0, l1, merges_fn(vocab)),
    ensures
        relabel(l1, decode_fn(vocab)) == l0,
        l1.dom().len() == l0.dom().len(),
        map_sum(l1, count_weight()) == map_sum(l0, count_weight()),
{
    let f = merges_fn(vocab);
    let d = decode_fn(vocab);
    assert forall|k: Seq<u16>| #[trigger] l0.contains_key(k) implies d(f(k)) == k by {
        assert forall|i: int| 0 <= i < k.len() implies #[trigger] k[i] < BASE_TOKENS by {
            assert(l0.contains_key(k) && 0 <= i < k.len());
        }
        lemma_merges_lossless(k, vocab);
    }
    assert forall|a: Seq<u16>, b: Seq<u16>|
        l0.contains_key(a) && l0.contains_key(b) && #[trigger] f(a) == #[trigger] f(b) implies a == b by {
        assert(d(f(a)) == a);
        assert(d(f(b)) == b);
    }
    assert(injective_on(l0, f));
    lemma_transported_is_relabel(l0, l1, f);
    lemma_relabel_compose(l0, f, d);
    lemma_relabel_fixed(l0, |w: Seq<u16>| d(f(w)));
    lemma_relabel_count(l0, f);
    assert(l1.dom() =~= l0.dom().map(f));
    assert(vstd::relations::injective_on(f, l0.dom())) by {
        assert forall|a: Seq<u16>, b: Seq<u16>|
            l0.dom().contains(a) && l0.dom().contains(b) && #[trigger] f(a) == #[trigger] f(b) implies a == b by {
            assert(d(f(a)) == a);
            assert(d(f(b)) == b);
        }
    }
    vstd::set_lib::lemma_map_size(l0.dom(), l1.dom(), f);
}

/// With nonempty vocabulary entries, every token stands for at least one byte.
proof fn lemma_decoded_token_nonempty(x: u16, vocab: Seq<Seq<u16>>)
    requires
        ordered_vocab(vocab),
        forall|j: int| 0 <= j < vocab.len() ==> (#[trigger] vocab[j]).len() > 0,
    ensures
        decoded_token(x, vocab).len() >= 1,
    decreases x,
{
    if !(x < BASE_TOKENS || x - BASE_TOKENS >= vocab.len()) {
        let e = vocab[x - BASE_TOKENS];
        assert(e.len() > 0);
        lemma_decoded_entry(x, vocab);
        assert(e[e.len() - 1] < x);
        lemma_decoded_token_nonempty(e.last(), vocab);
    }
}

/// With nonempty vocabulary entries, a sequence stands for at least as many
/// bytes as it has tokens.
pub proof fn lemma_decoded_len(s: Seq<u16>, vocab: Seq<Seq<u16>>)
    requires
        ordered_vocab(vocab),
        forall|j: int| 0 <= j < vocab.len() ==> (#[trigger] vocab[j]).len() > 0,
    ensures
        decoded_seq(s, vocab).len() >= s.len(),
    decreases s.len(),
{
    if s.len() > 0 {
        lemma_decoded_len(s.drop_last(), vocab);
        lemma_decoded_token_nonempty(s.last(), vocab);
    }
}

/// A token defined by an ordered vocabulary stands for bytes only.
proof fn lemma_decoded_token_bytes(x: u16, vocab: Seq<Seq<u16>>)
    requires
        ordered_vocab(vocab),
        x < BASE_TOKENS + vocab.len(),
    ensures
        all_below(decoded_token(x, vocab), BASE_TOKENS as int),
    decreases x,
{
    if x >= BASE_TOKENS {
        let e = vocab[x - BASE_TOKENS];
        lemma_decoded_entry(x, vocab);
        assert(all_below(e, x as int));
        lemma_decoded_seq_bytes_below(e, vocab, x);
    }
}

/// Tokens below a defined token `x` stand for bytes only.
proof fn lemma_decoded_seq_bytes_below(s: Seq<u16>, vocab: Seq<Seq<u16>>, x: u16)
    requires
        ordered_vocab(vocab),
        all_below(s, x as int),
        x < BASE_TOKENS + vocab.len(),
    ensures
        all_below(decoded_seq(s, vocab), BASE_TOKENS as int),
    decreases x, s.len(),
{
    if s.len() > 0 {
        assert forall|i: int| 0 <= i < s.drop_last().len() implies #[trigger] s.drop_last()[i] < x by {
            assert(s[i] < x);
        }
        lemma_decoded_seq_bytes_below(s.drop_last(), vocab, x);
        assert(s[s.len() - 1] < x);
        lemma_decoded_token_bytes(s.last(), vocab);
        let a = decoded_seq(s.drop_last(), vocab);
        let b = decoded_token(s.last(), vocab);
        assert forall|i: int| 0 <= i < (a + b).len() implies #[trigger] (a + b)[i] < BASE_TOKENS by {
            if i < a.len() {
                assert((a + b)[i] == a[i]);
            } else {
                assert((a + b)[i] == b[i - a.len()]);
            }
        }
    }
}

/// A sequence of tokens defined by an ordered vocabulary stands for bytes only.
pub proof fn lemma_decoded_seq_bytes(s: Seq<u16>, vocab: Seq<Seq<u16>>)
    requires
        ordered_vocab(vocab),
        all_below(s, BASE_TOKENS + vocab.len()),
    ensures
        all_below(decoded_seq(s, vocab), BASE_TOKENS as int),
    decreases s.len(),
{
    if s.len() > 0 {
        assert forall|i: int| 0 <= i < s.drop_last().len() implies #[trigger] s.drop_last()[i] < BASE_TOKENS
            + vocab.len() by {
            assert(s[i] < BASE_TOKENS + vocab.len());
        }
        lemma_decoded_seq_bytes(s.drop_last(), vocab);
        assert(s[s.len() - 1] < BASE_TOKENS + vocab.len());
        lemma_decoded_token_bytes(s.last(), vocab);
        let a = decoded_seq(s.drop_last(), vocab);
        let b = decoded_token(s.last(), vocab);
        assert forall|i: int| 0 <= i < (a + b).len() implies #[trigger] (a + b)[i] < BASE_TOKENS by {
            if i < a.len() {
                assert((a + b)[i] == a[i]);
            } else {
                assert((a + b)[i] == b[i - a.len()]);
            }
        }
    }
}

/// Decodes `text` along a ranking of a set of tokens that holds it.
fn decode_ranked(
    text: Vec<u16>,
    vocab: &Vec<Token>,
    Ghost(set): Ghost<Set<u16>>,
    Ghost(rank): Ghost<spec_fn(u16) -> nat>,
) -> (r: Vec<u16>)
    requires
        ranked_within(token_views(vocab@), set, rank),
        in_set(text@, set),
    ensures
        r@ == ranked_seq(text@, token_views(vocab@), rank),
    decreases rank_bound(text@, rank),
{
    let ghost v = token_views(vocab@);
    let mut result: Vec<u16> = Vec::new();
    let mut i: usize = 0;
    proof {
        lemma_rank_bound(text@, rank, 0);
    }
    assert(text@.take(0) =~= Seq::<u16>::empty());
    while i < text.len()
        invariant
            v == token_views(vocab@),
            ranked_within(v, set, rank),
            in_set(text@, set),
            forall|k: int| 0 <= k < text@.len() ==> rank(text@[k]) < rank_bound(text@, rank),
            i <= text@.len(),
            result@ == ranked_seq(text@.take(i as int), v, rank),
        decreases text@.len() - i,
    {
        let c = text[i];
        assert(text@.take(i + 1).drop_last() =~= text@.take(i as int));
        assert(text@.take(i + 1).last() == c);
        assert(set.contains(text@[i as int]));
        if c < BASE_TOKENS {
            result.push(c);
        } else {
            proof {
                lemma_ranked_entry(c, v, set, rank);
            }
            let idx: usize = (c - BASE_TOKENS) as usize;
            let entry = vocab[idx].clone();
            proof {
                assert(entry@ == v[idx as int]);
                lemma_rank_bound(entry@, rank, rank(c));
                assert(rank(c) < rank_bound(text@, rank));
            }
            let mut part = decode_ranked(entry, vocab, Ghost(set), Ghost(rank));
            result.append(&mut part);
        }
        i += 1;
    }
    assert(text@.take(i as int) =~= text@);
    result
}

/// Decodes a token sequence into the bytes it stands for: a byte stays,
/// a learned token is replaced by the decoding of its vocabulary entry.
/// Decoding must end: no token reached from `text` may be undefined or
/// stand, through its entry, for itself.
pub fn decode(text: Vec<u16>, vocab: &Vec<Token>) -> (r: Vec<u16>)
    requires
        decoding_ends(text@, token_views(vocab@)),
    ensures
        forall|set: Set<u16>, rank: spec_fn(u16) -> nat|
            #[trigger] ranked_within(token_views(vocab@), set, rank) && in_set(text@, set) ==> r@ == ranked_seq(
                text@,
                token_views(vocab@),
                rank,
            ),
        all_below(r@, BASE_TOKENS as int),
        ordered_vocab(token_views(vocab@)) && all_below(text@, BASE_TOKENS + vocab@.len()) ==> r@ == decoded_seq(
            text@,
            token_views(vocab@),
        ),
{
    let ghost v = token_views(vocab@);
    let ghost (set, rank) = choose|set: Set<u16>, rank: spec_fn(u16) -> nat|
        #[trigger] ranked_within(v, set, rank) && in_set(text@, set);
    let r = decode_ranked(text, vocab, Ghost(set), Ghost(rank));
    proof {
        assert forall|s2: Set<u16>, r2: spec_fn(u16) -> nat|
            #[trigger] ranked_within(v, s2, r2) && in_set(text@, s2) implies r@ == ranked_seq(text@, v, r2) by {
            lemma_ranked_text_unique(text@, v, set, rank, s2, r2);
        }
        lemma_ranked_seq_bytes_all(text@, v, set, rank);
        if ordered_vocab(v) && all_below(text@, BASE_TOKENS + vocab@.len()) {
            lemma_ordered_ranked(v);
            assert(in_set(text@, defined_tokens(v))) by {
                assert forall|i: int| 0 <= i < text@.len() implies defined_tokens(v).contains(#[trigger] text@[i]) by {
                    assert(text@[i] < BASE_TOKENS + vocab@.len());
                }
            }
            lemma_ranked_text_unique(text@, v, set, rank, defined_tokens(v), id_rank());
            lemma_ranked_text_is_decoded(text@, v);
        }
    }
    r
}

/// Tokens of a ranked set stand for bytes only.
proof fn lemma_ranked_seq_bytes_all(s: Seq<u16>, vocab: Seq<Seq<u16>>, set: Set<u16>, rank: spec_fn(u16) -> nat)
    requires
        ranked_within(vocab, set, rank),
        in_set(s, set),
    ensures
        all_below(ranked_seq(s, vocab, rank), BASE_TOKENS as int),
    decreases s.len(),
{
    if s.len() > 0 {
        let s0 = s.drop_last();
        assert forall|i: int| 0 <= i < s0.len() implies set.contains(#[trigger] s0[i]) by {
            assert(s0[i] == s[i]);
        }
        lemma_ranked_seq_bytes_all(s0, vocab, set, rank);
        assert(set.contains(s[s.len() - 1]));
        lemma_ranked_token_bytes(s.last(), vocab, set, rank);
        let a = ranked_seq(s0, vocab, rank);
        let b = ranked_token(s.last(), vocab, rank);
        assert forall|i: int| 0 <= i < (a + b).len() implies #[trigger] (a + b)[i] < BASE_TOKENS by {
            if i < a.len() {
                assert((a + b)[i] == a[i]);
            } else {
                assert((a + b)[i] == b[i - a.len()]);
            }
        }
    }
}

/// Each vocabulary entry with the last position it is found at.
pub open spec fn entry_positions(vocab: Seq<Seq<u16>>) -> Map<Seq<u16>, nat>
    decreases vocab.len(),
{
    if vocab.len() == 0 {
        Map::empty()
    } else {
        entry_positions(vocab.drop_last()).insert(vocab.last(), (vocab.len() - 1) as nat)
    }
}

/// How long the run of `text` from `start` grows: it grows by one token as
/// long as the run so far is a key of `keys` and text remains.
pub open spec fn prefix_len(text: Seq<u16>, keys: Map<Seq<u16>, nat>, start: int, i: nat) -> nat
    decreases text.len() - start - i,
{
    if start + i < text.len() && keys.contains_key(text.subrange(start, start + i)) {
        prefix_len(text, keys, start, i + 1)
    } else {
        i
    }
}

/// The encoding of `text` from `start`, or `None` where a run at a learned
/// token is not a key: a byte is kept, and at a learned token the run that
/// `prefix_len` finds is replaced by its position.
pub open spec fn encode_from(text: Seq<u16>, pos: Map<Seq<u16>, nat>, start: int) -> Option<Seq<u16>>
    decreases text.len() - start,
{
    if start < 0 || start >= text.len() {
        Some(Seq::empty())
    } else if text[start] < BASE_TOKENS {
        match encode_from(text, pos, start + 1) {
            Some(rest) => Some(seq![text[start]] + rest),
            None => None,
        }
    } else {
        let p = prefix_len(text, pos, start, 0);
        let run = text.subrange(start, start + p);
        proof {
            lemma_prefix_len(text, pos, start, 0);
        }
        if p > 0 && pos.contains_key(run) {
            match encode_from(text, pos, start + p) {
                Some(rest) => Some(seq![pos[run] as u16] + rest),
                None => None,
            }
        } else {
            None
        }
    }
}

/// The run that `prefix_len` reaches ends within the text.
pub proof fn lemma_prefix_len(text: Seq<u16>, keys: Map<Seq<u16>, nat>, start: int, i: nat)
    requires
        0 <= start,
        start + i <= text.len(),
    ensures
        i <= prefix_len(text, keys, start, i),
        start + prefix_len(text, keys, start, i) <= text.len(),
    decreases text.len() - start - i,
{
    if start + i < text.len() && keys.contains_key(text.subrange(start, start + i)) {
        lemma_prefix_len(text, keys, start, i + 1);
    }
}

/// Takes the longest run of `text` from `start_idx` whose every shorter run
/// is a key of `map`: the run grows while the run so far is a key and text
/// remains.
fn find_prefix<'a>(map: &TokenMap, text: &'a Vec<u16>, start_idx: usize) -> (r: &'a [u16])
    requires
        start_idx <= text@.len(),
    ensures
        r@ == text@.subrange(start_idx as int, start_idx + prefix_len(text@, fx_contents(*map), start_idx as int, 0)),
{
    let mut i: usize = 0;
    let n = text.len();
    let ghost keys = fx_contents(*map);
    loop
        invariant
            n == text@.len(),
            keys == fx_contents(*map),
            start_idx + i <= text@.len(),
            prefix_len(text@, keys, start_idx as int, i as nat) == prefix_len(text@, keys, start_idx as int, 0),
        ensures
            start_idx + i <= text@.len(),
            prefix_len(text@, keys, start_idx as int, 0) == i,
        decreases text@.len() - start_idx - i,
    {
        if i + start_idx >= n {
            break;
        }
        let run = slice_subrange(text.as_slice(), start_idx, i + start_idx);
        if fx_get(map, run).is_none() {
            break;
        }
        i += 1;
    }
    slice_subrange(text.as_slice(), start_idx, i + start_idx)
}

/// Encodes a text by a vocabulary: bytes are kept; at a learned token, the
/// run that [`find_prefix`] takes is replaced by the last position of that
/// run in the vocabulary. A text whose runs are not all vocabulary entries
/// has no encoding, and is not accepted.
pub fn encode(text: &Vec<u16>, vocab: &Vec<Token>) -> (r: Vec<u16>)
    requires
        encode_from(text@, entry_positions(token_views(vocab@)), 0) is Some,
    ensures
        r@ == encode_from(text@, entry_positions(token_views(vocab@)), 0)->0,
{
    let ghost v = token_views(vocab@);
    let ghost pos = entry_positions(v);
    let mut map = fx_new();
    let mut idx: usize = 0;
    assert(v.take(0) =~= Seq::<Seq<u16>>::empty());
    assert(fx_contents(map) =~= entry_positions(v.take(0)));
    while idx < vocab.len()
        invariant
            v == token_views(vocab@),
            idx <= v.len(),
            fx_contents(map) == entry_positions(v.take(idx as int)),
        decreases v.len() - idx,
    {
        let t = vocab[idx].clone();
        assert(t@ =~= v[idx as int]);
        assert(v.take(idx + 1).drop_last() =~= v.take(idx as int));
        assert(v.take(idx + 1).last() == v[idx as int]);
        fx_insert(&mut map, t, idx);
        idx += 1;
    }
    assert(v.take(idx as int) =~= v);
    let mut result: Vec<u16> = Vec::new();
    let mut i: usize = 0;
    while i < text.len()
        invariant
            fx_contents(map) == pos,
            pos == entry_positions(token_views(vocab@)),
            i <= text@.len(),
            encode_from(text@, pos, i as int) is Some,
            encode_from(text@, pos, 0) is Some,
            result@ + encode_from(text@, pos, i as int)->0 == encode_from(text@, pos, 0)->0,
        decreases text@.len() - i,
    {
        if text[i] < BASE_TOKENS {
            let ghost rest = encode_from(text@, pos, i + 1)->0;
            assert(encode_from(text@, pos, i as int)->0 == seq![text@[i as int]] + rest);
            assert(result@.push(text@[i as int]) + rest =~= result@ + (seq![text@[i as int]] + rest));
            result.push(text[i]);
            i += 1;
        } else {
            proof {
                lemma_prefix_len(text@, pos, i as int, 0);
            }
            let prefix = find_prefix(&map, text, i);
            let ghost p = prefix_len(text@, pos, i as int, 0);
            let got = fx_get(&map, prefix);
            let id = match got {
                Some(v) => *v,
                None => 0,
            };
            let ghost rest = encode_from(text@, pos, i + p)->0;
            assert(encode_from(text@, pos, i as int)->0 == seq![id as u16] + rest);
            assert(result@.push(id as u16) + rest =~= result@ + (seq![id as u16] + rest));
            result.push(id as u16);
            i += prefix.len();
        }
    }
    assert(result@ + Seq::<u16>::empty() =~= result@);
    result
}

/// A text of bytes encodes as itself, whatever the vocabulary.
pub proof fn lemma_encode_bytes(text: Seq<u16>, pos: Map<Seq<u16>, nat>, start: int)
    requires
        all_below(text, BASE_TOKENS as int),
        0 <= start <= text.len(),
    ensures
        encode_from(text, pos, start) == Some(text.subrange(start, text.len() as int)),
    decreases text.len() - start,
{
    if start < text.len() {
        assert(text[start] < BASE_TOKENS);
        lemma_encode_bytes(text, pos, start + 1);
        assert(seq![text[start]] + text.subrange(start + 1, text.len() as int) =~= text.subrange(
            start,
            text.len() as int,
        ));
    } else {
        assert(text.subrange(start, text.len() as int) =~= Seq::<u16>::empty());
    }
}

/// Decoding the encoding of a text of bytes gives the text back.
pub proof fn lemma_decode_encode_bytes(text: Seq<u16>, vocab: Seq<Seq<u16>>)
    requires
        all_below(text, BASE_TOKENS as int),
    ensures
        encode_from(text, entry_positions(vocab), 0) == Some(text),
        decoded_seq(encode_from(text, entry_positions(vocab), 0)->0, vocab) == text,
{
    lemma_encode_bytes(text, entry_positions(vocab), 0);
    assert(text.subrange(0, text.len() as int) =~= text);
    lemma_decoded_bytes(text, vocab);
}

/// The ASCII code of `?`, shown in place of a learned token.
pub const QUESTION_MARK: u8 = 63;

/// The byte shown for a token: the byte itself, or `?` for a learned token.
pub open spec fn shown_byte(u: u16) -> u8 {
    if u < 256 {
        u as u8
    } else {
        QUESTION_MARK
    }
}

/// Name for what `String::from_utf8_lossy` makes of some bytes: the text
/// they spell in UTF-8, each invalid sequence replaced by U+FFFD.
pub uninterp spec fn utf8_lossy(bytes: Seq<u8>) -> Seq<char>;

/// `String::from_utf8_lossy`, made an owned string: claims the result is
/// named by `utf8_lossy`, and that ASCII bytes come back as the same
/// characters (ASCII is valid UTF-8, which the function keeps as it is).
#[verifier::external_body]
fn string_from_utf8_lossy(bytes: &[u8]) -> (r: String)
    ensures
        r@ == utf8_lossy(bytes@),
        (forall|i: int| 0 <= i < bytes@.len() ==> #[trigger] bytes@[i] < 128) ==> r@ == bytes@.map_values(
            |b: u8| b as char,
        ),
{
    String::from_utf8_lossy(bytes).into_owned()
}

/// Shows a token sequence as a string: each byte as itself, each learned
/// token as `?`, the bytes read as UTF-8 with invalid sequences replaced.
pub fn to_string(t: &Token) -> (r: String)
    ensures
        r@ == utf8_lossy(t@.map_values(|u: u16| shown_byte(u))),
        (forall|i: int| 0 <= i < t@.len() ==> #[trigger] t@[i] < 128 || t@[i] >= 256) ==> r@
            == t@.map_values(|u: u16| shown_byte(u) as char),
{
    let mut x: Vec<u8> = Vec::new();
    let mut i: usize = 0;
    while i < t.len()
        invariant
            i <= t@.len(),
            x@ == t@.take(i as int).map_values(|u: u16| shown_byte(u)),
        decreases t@.len() - i,
    {
        let u = t[i];
        let b: u8 = if u < 256 {
            u as u8
        } else {
            QUESTION_MARK
        };
        x.push(b);
        assert(x@ =~= t@.take(i + 1).map_values(|u: u16| shown_byte(u)));
        i += 1;
    }
    assert(t@.take(i as int) =~= t@);
    let r = string_from_utf8_lossy(x.as_slice());
    proof {
        if forall|i: int| 0 <= i < t@.len() ==> #[trigger] t@[i] < 128 || t@[i] >= 256 {
            assert forall|i: int| 0 <= i < x@.len() implies #[trigger] x@[i] < 128 by {
                assert(t@[i] < 128 || t@[i] >= 256);
            }
            assert(x@.map_values(|b: u8| b as char) =~= t@.map_values(|u: u16| shown_byte(u) as char));
        }
    }
    r
}

/// Name for what `UnicodeSegmentation::unicode_words` finds in a line: its
/// words, in order.
pub uninterp spec fn unicode_words_of(line: Seq<char>) -> Seq<Seq<char>>;

/// The code of an ASCII letter or digit.
pub open spec fn alnum_code(x: int) -> bool {
    (48 <= x <= 57) || (65 <= x <= 90) || (97 <= x <= 122)
}

/// The code of a character that holds an ASCII word together on its own:
/// a letter, a digit or an underscore.
pub open spec fn core_code(x: int) -> bool {
    alnum_code(x) || x == 95
}

/// The code of a character that may stand in an ASCII word: a core one, or
/// one of the separators `'`, `,`, `.`, `:` and `;` that join two core ones
/// (as in "can't", "1,000", "3.14", "e.g").
pub open spec fn word_code(x: int) -> bool {
    core_code(x) || x == 39 || x == 44 || x == 46 || x == 58 || x == 59
}

/// The character codes of a text.
pub open spec fn char_codes(s: Seq<char>) -> Seq<int> {
    s.map_values(|c: char| c as int)
}

/// The codes of a token sequence.
pub open spec fn token_codes(s: Seq<u16>) -> Seq<int> {
    s.map_values(|b: u16| b as int)
}

/// The codes of an ASCII word: word characters only, a core one at each
/// end, and at least one letter or digit. No white space, no hyphen.
pub open spec fn word_shape(w: Seq<int>) -> bool {
    &&& w.len() > 0
    &&& forall|j: int| 0 <= j < w.len() ==> word_code(#[trigger] w[j])
    &&& core_code(w[0])
    &&& core_code(w[w.len() - 1])
    &&& exists|j: int| 0 <= j < w.len() && alnum_code(#[trigger] w[j])
}

/// `words` lie in `line` one after another without overlapping, word `i`
/// starting at position `starts[i]`.
pub open spec fn placed_in(words: Seq<Seq<char>>, line: Seq<char>, starts: Seq<int>) -> bool {
    &&& starts.len() == words.len()
    &&& forall|i: int|
        #![trigger words[i]]
        0 <= i < words.len() ==> 0 <= starts[i] && starts[i] + words[i].len() <= line.len() && line.subrange(
            starts[i],
            starts[i] + words[i].len(),
        ) == words[i]
    &&& forall|i: int|
        #![trigger words[i]]
        0 <= i < words.len() - 1 ==> starts[i] + words[i].len() <= starts[i + 1]
}

/// How the words of an ASCII line, placed at `starts`, are cut: each has the
/// shape of a word, no letter, digit or underscore touches a word from
/// outside, and every letter or digit of the line lies in a word.
pub open spec fn ascii_words_cut(words: Seq<Seq<char>>, line: Seq<char>, starts: Seq<int>) -> bool {
    let l = char_codes(line);
    &&& forall|i: int| 0 <= i < words.len() ==> word_shape(char_codes(#[trigger] words[i]))
    &&& forall|i: int|
        #![trigger words[i]]
        0 <= i < words.len() && starts[i] > 0 ==> !core_code(l[starts[i] - 1])
    &&& forall|i: int|
        #![trigger words[i]]
        0 <= i < words.len() && starts[i] + words[i].len() < line.len() ==> !core_code(
            l[starts[i] + words[i].len()],
        )
    &&& forall|p: int|
        0 <= p < line.len() && alnum_code(#[trigger] l[p]) ==> exists|i: int|
            #![trigger words[i]]
            0 <= i < words.len() && starts[i] <= p < starts[i] + words[i].len()
}

/// The strings of a list, taken by their characters.
pub open spec fn string_views(l: Seq<String>) -> Seq<Seq<char>> {
    l.map_values(|s: String| s@)
}

/// In an ASCII line cut into words, a character that cannot stand in a
/// word (a hyphen, a space, a bracket...) between two letters or digits
/// separates two words: one word ends just before it and the next starts
/// just after it. So "rabbit-hole" is two words.
pub proof fn lemma_separator_splits(words: Seq<Seq<char>>, line: Seq<char>, starts: Seq<int>, p: int)
    requires
        placed_in(words, line, starts),
        ascii_words_cut(words, line, starts),
        0 < p < line.len() - 1,
        !word_code(line[p] as int),
        alnum_code(line[p - 1] as int),
        alnum_code(line[p + 1] as int),
    ensures
        exists|i: int| #![trigger words[i]] 0 <= i < words.len() && starts[i] + words[i].len() == p,
        exists|i: int| #![trigger words[i]] 0 <= i < words.len() && starts[i] == p + 1,
{
    let l = char_codes(line);
    assert(alnum_code(l[p - 1]));
    assert(alnum_code(l[p + 1]));
    let i = choose|i: int| #![trigger words[i]] 0 <= i < words.len() && starts[i] <= p - 1 < starts[i] + words[i].len();
    let k = choose|k: int| #![trigger words[k]] 0 <= k < words.len() && starts[k] <= p + 1 < starts[k] + words[k].len();
    assert(word_shape(char_codes(words[i])));
    assert(word_shape(char_codes(words[k])));
    if starts[i] + words[i].len() > p {
        assert(line.subrange(starts[i], starts[i] + words[i].len()) == words[i]);
        assert(words[i][p - starts[i]] == line[p]);
        assert(word_code(char_codes(words[i])[p - starts[i]]));
    }
    if starts[k] < p + 1 {
        assert(line.subrange(starts[k], starts[k] + words[k].len()) == words[k]);
        assert(words[k][p - starts[k]] == line[p]);
        assert(word_code(char_codes(words[k])[p - starts[k]]));
    }
}

/// `unicode_words` of `unicode_segmentation`, each word made an owned
/// string. Claims: the words are those named by `unicode_words_of`; each is
/// a piece of the line between two word boundaries holding an alphanumeric
/// character, so none is empty and they lie in the line in order without
/// overlapping. For a line of ASCII characters, where the crate cuts with
/// its ASCII rules (runs of letters, digits and underscores, joined across
/// a single `.`, `'` or `:` between letters and a single `.`, `,`, `;` or
/// `'` between digits; a run of spaces or a CR LF pair one piece; every
/// other character its own piece), also: each
/// word has that shape, no letter, digit or underscore is left touching a
/// word, and every letter or digit lies in a word. Where the boundaries of
/// other lines fall is not stated.
#[verifier::external_body]
fn unicode_words(line: &str) -> (r: Vec<String>)
    ensures
        string_views(r@) == unicode_words_of(line@),
        forall|i: int| 0 <= i < r@.len() ==> (#[trigger] r@[i])@.len() > 0,
        exists|starts: Seq<int>|
            #[trigger] placed_in(string_views(r@), line@, starts) && (is_ascii_chars(line@) ==> ascii_words_cut(
                string_views(r@),
                line@,
                starts,
            )),
{
    line.unicode_words().map(String::from).collect()
}

/// The tokens of a word: its UTF-8 bytes, one token each.
pub open spec fn word_token(w: Seq<char>) -> Seq<u16> {
    encode_utf8(w).map_values(|b: u8| b as u16)
}

/// The words of a line as token sequences.
pub open spec fn line_tokens(line: Seq<char>) -> Seq<Seq<u16>> {
    unicode_words_of(line).map_values(|w: Seq<char>| word_token(w))
}

/// Splits a line into its words, each as the (non-empty) token sequence of
/// its UTF-8 bytes; punctuation and white space fall away between the words.
pub fn line_words(line: &str) -> (r: Vec<Token>)
    ensures
        token_views(r@) == line_tokens(line@),
        forall|i: int| 0 <= i < r@.len() ==> all_below(#[trigger] r@[i]@, BASE_TOKENS as int),
        forall|i: int| 0 <= i < r@.len() ==> (#[trigger] r@[i])@.len() > 0,
        exists|starts: Seq<int>|
            #[trigger] placed_in(unicode_words_of(line@), line@, starts) && (is_ascii_chars(line@) ==> ascii_words_cut(
                unicode_words_of(line@),
                line@,
                starts,
            )),
        is_ascii_chars(line@) ==> forall|i: int|
            0 <= i < r@.len() ==> token_codes(#[trigger] r@[i]@) == char_codes(unicode_words_of(line@)[i])
                && word_shape(token_codes(r@[i]@)),
{
    let words = unicode_words(line);
    let ghost ws = string_views(words@);
    assert forall|j: int| 0 <= j < ws.len() implies (#[trigger] ws[j]).len() > 0 by {
        assert(ws[j] == words@[j]@);
    }
    let mut r: Vec<Token> = Vec::new();
    let mut i: usize = 0;
    while i < words.len()
        invariant
            ws == string_views(words@),
            ws == unicode_words_of(line@),
            forall|j: int| 0 <= j < ws.len() ==> (#[trigger] ws[j]).len() > 0,
            i <= words@.len(),
            token_views(r@) == ws.take(i as int).map_values(|w: Seq<char>| word_token(w)),
            forall|k: int| 0 <= k < r@.len() ==> all_below(#[trigger] r@[k]@, BASE_TOKENS as int),
            forall|k: int| 0 <= k < r@.len() ==> (#[trigger] r@[k])@.len() > 0,
        decreases words@.len() - i,
    {
        let bytes = words[i].as_str().as_bytes();
        assert(bytes@ == encode_utf8(ws[i as int]));
        assert(bytes@.len() > 0) by {
            assert(ws[i as int].len() > 0);
            assert(encode_scalar(ws[i as int][0] as u32).len() > 0);
        }
        let mut t: Token = Vec::new();
        let mut k: usize = 0;
        while k < bytes.len()
            invariant
                k <= bytes@.len(),
                t@ == bytes@.take(k as int).map_values(|b: u8| b as u16),
                all_below(t@, BASE_TOKENS as int),
            decreases bytes@.len() - k,
        {
            t.push(bytes[k] as u16);
            assert(t@ =~= bytes@.take(k + 1).map_values(|b: u8| b as u16));
            k += 1;
        }
        assert(bytes@.take(k as int) =~= bytes@);
        assert(t@.len() > 0);
        let ghost prev = r@;
        r.push(t);
        assert(token_views(r@) =~= token_views(prev).push(word_token(ws[i as int])));
        assert(ws.take(i + 1).map_values(|w: Seq<char>| word_token(w)) =~= ws.take(i as int).map_values(
            |w: Seq<char>| word_token(w),
        ).push(word_token(ws[i as int])));
        i += 1;
    }
    assert(ws.take(i as int) =~= ws);
    proof {
        let starts = choose|starts: Seq<int>|
            #[trigger] placed_in(ws, line@, starts) && (is_ascii_chars(line@) ==> ascii_words_cut(ws, line@, starts));
        if is_ascii_chars(line@) {
            assert forall|i: int| 0 <= i < r@.len() implies token_codes(#[trigger] r@[i]@) == char_codes(ws[i])
                && word_shape(token_codes(r@[i]@)) by {
                let w = ws[i];
                assert(token_views(r@)[i] == word_token(w));
                assert(r@[i]@ == word_token(w));
                assert(line@.subrange(starts[i], starts[i] + w.len()) == w);
                assert(is_ascii_chars(w)) by {
                    assert forall|j: int| 0 <= j < w.len() implies '\0' <= #[trigger] w[j] <= '\u{7f}' by {
                        assert(w[j] == line@[starts[i] + j]);
                    }
                }
                is_ascii_chars_encode_utf8(w);
                assert forall|j: int| 0 <= j < w.len() implies #[trigger] token_codes(r@[i]@)[j] == char_codes(w)[j] by {
                    assert((w[j] as u32) < 128);
                    let b = encode_utf8(w)[j];
                    assert(b == w[j] as u8);
                    assert(r@[i]@[j] == b as u16);
                }
                assert(token_codes(r@[i]@) =~= char_codes(w));
                assert(word_shape(char_codes(ws[i])));
            }
        }
    }
    r
}

/// The words of the lines, line by line, each as a token sequence.
pub open spec fn all_words(lines: Seq<Seq<char>>) -> Seq<Seq<u16>>
    decreases lines.len(),
{
    if lines.len() == 0 {
        Seq::empty()
    } else {
        all_words(lines.drop_last()) + line_tokens(lines.last())
    }
}

/// Counts the words of some lines of text: every word of every line, in
/// order, is counted once, each a non-empty sequence of byte tokens. The progress callback gets the number of each
/// line, counted from `first_line`, before it is read.
pub fn gen_word_counts<F: Fn(usize)>(lines: &[String], first_line: usize, progress_fn: F) -> (r: Counter)
    requires
        first_line + lines@.len() <= usize::MAX,
        forall|i: usize| call_requires(progress_fn, (i,)),
    ensures
        r.wf(),
        r.consistent(),
        r.state() == add_items((Map::empty(), None), all_words(string_views(lines@)), 1),
        forall|k: Seq<u16>| #[trigger] count_of(r@, k) == occurrences(all_words(string_views(lines@)), k),
        forall|k: Seq<u16>| #[trigger] r@.contains_key(k) ==> k.len() > 0 && all_below(k, BASE_TOKENS as int),
        (forall|j: int| 0 <= j < lines@.len() ==> is_ascii_chars(#[trigger] lines@[j]@)) ==> forall|k: Seq<u16>|
            #[trigger] r@.contains_key(k) ==> word_shape(token_codes(k)),
{
    let ghost ls = string_views(lines@);
    let mut all: Vec<Token> = Vec::new();
    let mut i: usize = 0;
    assert(ls.take(0) =~= Seq::<Seq<char>>::empty());
    while i < lines.len()
        invariant
            ls == string_views(lines@),
            first_line + lines@.len() <= usize::MAX,
            forall|j: usize| call_requires(progress_fn, (j,)),
            i <= lines@.len(),
            token_views(all@) == all_words(ls.take(i as int)),
            forall|j: int| 0 <= j < all@.len() ==> (#[trigger] all@[j])@.len() > 0 && all_below(all@[j]@, BASE_TOKENS as int),
            (forall|j: int| 0 <= j < lines@.len() ==> is_ascii_chars(#[trigger] lines@[j]@)) ==> forall|j: int|
                0 <= j < all@.len() ==> word_shape(token_codes(#[trigger] all@[j]@)),
        decreases lines@.len() - i,
    {
        progress_fn(first_line + i);
        let mut ws = line_words(lines[i].as_str());
        let ghost prev = all@;
        let ghost added = ws@;
        all.append(&mut ws);
        proof {
            assert forall|j: int| 0 <= j < all@.len() implies (#[trigger] all@[j])@.len() > 0 && all_below(all@[j]@, BASE_TOKENS as int) by {
                if j >= prev.len() {
                    assert(all@[j] == added[j - prev.len()]);
                }
            }
            if forall|j: int| 0 <= j < lines@.len() ==> is_ascii_chars(#[trigger] lines@[j]@) {
                assert(is_ascii_chars(lines@[i as int]@));
                assert forall|j: int| 0 <= j < all@.len() implies word_shape(token_codes(#[trigger] all@[j]@)) by {
                    if j >= prev.len() {
                        assert(all@[j] == added[j - prev.len()]);
                    }
                }
            }
            assert(lines@[i as int]@ == ls[i as int]);
            assert(ls.take(i + 1).drop_last() =~= ls.take(i as int));
            assert(ls.take(i + 1).last() == ls[i as int]);
            assert(token_views(all@) =~= token_views(prev) + line_tokens(ls[i as int]));
        }
        i += 1;
    }
    assert(ls.take(i as int) =~= ls);
    let n = all.len();
    let ghost words = token_views(all@);
    proof {
        assert forall|k: Seq<u16>| count_of(Map::<Seq<u16>, nat>::empty(), k) + 1 * #[trigger] occurrences(words, k) <= usize::MAX by {
            lemma_occurrences_le_len(words, k);
        }
    }
    let mut counter = Counter::new();
    counter.update(all);
    proof {
        lemma_add_items((Map::<Seq<u16>, nat>::empty(), None), words, 1);
        assert forall|k: Seq<u16>| #[trigger] count_of(counter@, k) == occurrences(words, k) by {
            assert(count_of(add_items((Map::<Seq<u16>, nat>::empty(), None), words, 1).0, k) == 0 + 1 * occurrences(words, k));
        }
        assert forall|k: Seq<u16>| #[trigger] counter@.contains_key(k) implies k.len() > 0 && all_below(k, BASE_TOKENS as int) by {
            assert(words.contains(k));
            let j = choose|j: int| 0 <= j < words.len() && words[j] == k;
            assert(words[j] == all@[j]@);
        }
        if forall|j: int| 0 <= j < lines@.len() ==> is_ascii_chars(#[trigger] lines@[j]@) {
            assert forall|k: Seq<u16>| #[trigger] counter@.contains_key(k) implies word_shape(token_codes(k)) by {
                assert(words.contains(k));
                let j = choose|j: int| 0 <= j < words.len() && words[j] == k;
                assert(words[j] == all@[j]@);
            }
        }
    }
    counter
}

/// The line number shown by the reading logger after line `i` (counted from
/// zero): one every 2^20 lines, `None` in between.
pub fn logger_line(i: usize) -> (r: Option<usize>)
    requires
        i < usize::MAX,
    ensures
        r == if (i + 1) % 0x10_0000 == 0 {
            Some((i + 1) as usize)
        } else {
            None
        },
{
    let i = i + 1;
    assert((1usize << 20usize) == 0x10_0000usize) by (bit_vector);
    if i % (1 << 20) == 0 {
        Some(i)
    } else {
        None
    }
}

} // verus!
