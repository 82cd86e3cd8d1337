//! Classic byte-pair encoding: repeatedly merge the most common pair of
//! adjacent tokens into a new token.

use crate::counter::{token_views, Counter};
use crate::tokens::{Token, BASE_TOKENS};
use crate::utils::{
    compressed_from, find_candidate, lemma_compressed_start, lemma_compressed_step,
    lemma_window_counts_fit, merges_fn, relabel, replace_in_library, tokens_below, total_length, transported,
};
use crate::text::{decode_fn, lemma_compressed_library_decodes, lemma_ordered_push, ordered_vocab};
use crate::sums::{count_weight, map_sum};
use crate::utils::{lemma_window_below, merged_into, most_common_pair, pair_chosen_at};
use vstd::prelude::*;

verus! {

/// Number of new tokens the trainers learn by default.
pub const NEW_TOKEN_COUNT: u16 = 1000;

/// Round `j` of a BPE run: entry `j` of `vocab` is a most common pair of
/// `libs[j]`, and merging it into token `BASE_TOKENS + j` gives `libs[j + 1]`.
pub open spec fn bpe_round(libs: Seq<Map<Seq<u16>, nat>>, vocab: Seq<Seq<u16>>, j: int) -> bool {
    &&& most_common_pair(libs[j], vocab[j])
    &&& merged_into(libs[j], vocab[j], (BASE_TOKENS + j) as u16, libs[j + 1])
}

/// `libs` are the libraries before and after each round of a BPE run that
/// learned `vocab`.
pub open spec fn bpe_rounds(libs: Seq<Map<Seq<u16>, nat>>, vocab: Seq<Seq<u16>>) -> bool {
    &&& libs.len() == vocab.len() + 1
    &&& forall|j: int| 0 <= j < vocab.len() ==> #[trigger] bpe_round(libs, vocab, j)
}

/// Trains [`NEW_TOKEN_COUNT`] BPE tokens: each round merges the most common
/// pair into the next free id, `BASE_TOKENS` plus the round number, and
/// stops early once no word has two tokens. Returns the vocabulary, entry
/// `j` being the pair that token `BASE_TOKENS + j` stands for, and the
/// compressed library. Each round merges a most common pair of the
/// library as the rounds before left it (see [`bpe_rounds`]). When the
/// library holds raw bytes only, the compressed library is the given one
/// with every word compressed by the vocabulary, entry by entry, and
/// decoding it gives the given library back: as many words, each with its
/// count.
pub fn bpe<F: Fn(u16)>(library: Counter, progress_fn: F) -> (r: (Vec<Token>, Counter))
    requires
        library.wf(),
        total_length(library@) <= usize::MAX,
        forall|i: u16| call_requires(progress_fn, (i,)),
    ensures
        r.1.wf(),
        r.0@.len() <= NEW_TOKEN_COUNT,
        exists|libs: Seq<Map<Seq<u16>, nat>>|
            #[trigger] bpe_rounds(libs, token_views(r.0@)) && libs[0] == library@ && libs.last() == r.1@,
        forall|j: int| 0 <= j < r.0@.len() ==> (#[trigger] r.0@[j])@.len() == 2,
        total_length(r.1@) <= total_length(library@),
        r.0@.len() < NEW_TOKEN_COUNT ==> forall|k: Seq<u16>| #[trigger] r.1@.contains_key(k) ==> k.len() < 2,
        tokens_below(library@, BASE_TOKENS as int) ==> transported(library@, r.1@, merges_fn(token_views(r.0@)))
            && tokens_below(r.1@, BASE_TOKENS + r.0@.len()),
        tokens_below(library@, BASE_TOKENS as int) ==> ordered_vocab(token_views(r.0@)),
        tokens_below(library@, BASE_TOKENS as int) ==> relabel(r.1@, decode_fn(token_views(r.0@))) == library@
            && r.1@.dom().len() == library@.dom().len() && map_sum(r.1@, count_weight()) == map_sum(
            library@,
            count_weight(),
        ),
        tokens_below(library@, BASE_TOKENS as int) ==> forall|j: int|
            0 <= j < r.0@.len() ==> #[trigger] pair_chosen_at(library@, token_views(r.0@), j),
{
    let ghost l0 = library@;
    let mut library = library;
    let mut vocab: Vec<Token> = Vec::with_capacity(NEW_TOKEN_COUNT as usize);
    let mut i: u16 = 0;
    let mut done = false;
    let ghost mut libs: Seq<Map<Seq<u16>, nat>> = seq![l0];
    proof {
        lemma_compressed_start(l0);
        assert(token_views(vocab@) =~= Seq::<Seq<u16>>::empty());
        assert(ordered_vocab(token_views(vocab@)));
    }
    while i < NEW_TOKEN_COUNT && !done
        invariant
            library.wf(),
            i <= NEW_TOKEN_COUNT,
            vocab@.len() == i,
            total_length(library@) <= total_length(l0),
            total_length(l0) <= usize::MAX,
            forall|j: int| 0 <= j < vocab@.len() ==> (#[trigger] vocab@[j])@.len() == 2,
            done ==> forall|k: Seq<u16>| #[trigger] library@.contains_key(k) ==> k.len() < 2,
            compressed_from(l0, library@, token_views(vocab@)),
            bpe_rounds(libs, token_views(vocab@)),
            libs[0] == l0,
            libs.last() == library@,
            tokens_below(l0, BASE_TOKENS as int) ==> ordered_vocab(token_views(vocab@)),
            tokens_below(l0, BASE_TOKENS as int) ==> forall|j: int|
                0 <= j < vocab@.len() ==> #[trigger] pair_chosen_at(l0, token_views(vocab@), j),
            forall|i: u16| call_requires(progress_fn, (i,)),
        decreases NEW_TOKEN_COUNT - i + if done {
            0int
        } else {
            1int
        },
    {
        proof {
            lemma_window_counts_fit(library@);
        }
        match find_candidate(&library) {
            None => {
                done = true;
            },
            Some(best) => {
                let new_token = best.0;
                let next = replace_in_library(&library, &new_token, i + BASE_TOKENS);
                proof {
                    if tokens_below(l0, BASE_TOKENS as int) {
                        reveal(compressed_from);
                        lemma_window_below(library@, new_token@, BASE_TOKENS + vocab@.len());
                        lemma_ordered_push(token_views(vocab@), new_token@);
                        let v = token_views(vocab@);
                        let v2 = v.push(new_token@);
                        assert forall|j: int| 0 <= j < v2.len() implies #[trigger] pair_chosen_at(l0, v2, j) by {
                            assert(v2.take(j) =~= v.take(j));
                            if j < v.len() {
                                assert(pair_chosen_at(l0, v, j));
                                let lj = choose|lj: Map<Seq<u16>, nat>|
                                    transported(l0, lj, merges_fn(v.take(j))) && #[trigger] most_common_pair(lj, v[j]);
                                assert(v2[j] == v[j]);
                                assert(transported(l0, lj, merges_fn(v2.take(j))) && most_common_pair(lj, v2[j]));
                            } else {
                                assert(v.take(j) =~= v);
                                assert(transported(l0, library@, merges_fn(v2.take(j))) && most_common_pair(library@, v2[j]));
                            }
                        }
                    }
                    let v = token_views(vocab@);
                    let v2 = v.push(new_token@);
                    let libs2 = libs.push(next@);
                    assert forall|j: int| 0 <= j < v2.len() implies #[trigger] bpe_round(libs2, v2, j) by {
                        assert(libs2[j] == libs[j] && v2[j] == (if j < v.len() { v[j] } else { new_token@ }));
                        if j < v.len() {
                            assert(bpe_round(libs, v, j));
                            assert(libs2[j + 1] == libs[j + 1]);
                        } else {
                            assert(libs[j] == library@);
                            assert(libs2[j + 1] == next@);
                        }
                    }
                    libs = libs2;
                    lemma_compressed_step(l0, library@, next@, token_views(vocab@), new_token@);
                    assert(token_views(vocab@.push(new_token)) =~= token_views(vocab@).push(new_token@));
                }
                library = next;
                vocab.push(new_token);
                progress_fn(i);
                i += 1;
            },
        }
    }
    proof {
        reveal(compressed_from);
        if tokens_below(l0, BASE_TOKENS as int) {
            let v = token_views(vocab@);
            assert forall|j: int| 0 <= j < v.len() implies (#[trigger] v[j]).len() > 0 by {
                assert(v[j] == vocab@[j]@);
            }
            lemma_compressed_library_decodes(l0, library@, v);
        }
    }
    (vocab, library)
}

} // verus!
