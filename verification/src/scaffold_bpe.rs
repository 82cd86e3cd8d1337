//! Scaffold-BPE: classic BPE merges, but a token whose own count falls
//! below the count of the next pair to merge is marked as scaffold. The
//! tokenizer still merges with every vocabulary entry, then breaks each
//! scaffold token back down into the tokens it was built from.

use crate::counter::{token_views, Counter};
use crate::tokens::{lemma_replace_tokens, matches_at, replace, Token, BASE_TOKENS};
use crate::utils::{
    most_common_pair, apply_merges, find_candidate, lemma_token_frequency_le_total, lemma_window_contains,
    lemma_window_counts_fit, merged_into, replace_fn, replace_in_library, set_entries, token_freq,
    token_frequency, tokens_below, total_length, window_count, windows,
};
use crate::sums::is_enumeration;
use crate::text::{
    all_below, decoded_seq, decoded_token, lemma_decoded_concat, lemma_decoded_entry, lemma_decoded_single,
    lemma_decoded_len, lemma_merges_lossless, ordered_vocab,
};
use std::collections::HashSet;
use vstd::prelude::*;
use vstd::slice::slice_to_vec;

verus! {

/// What a token turns into in the tokenizer's output: a byte or a kept
/// token stays as it is, a scaffold token turns into what its two parts
/// turn into.
pub open spec fn demolish_token(x: u16, vocab: Seq<Seq<u16>>, scaffold: Set<u16>) -> Seq<u16>
    decreases x,
{
    if x < BASE_TOKENS || !scaffold.contains(x) || x - BASE_TOKENS >= vocab.len() {
        seq![x]
    } else {
        let e = vocab[x - BASE_TOKENS];
        if e.len() == 2 && e[0] < x && e[1] < x {
            demolish_token(e[0], vocab, scaffold) + demolish_token(e[1], vocab, scaffold)
        } else {
            seq![x]
        }
    }
}

/// Every token of `s` turned into what it turns into, in order.
pub open spec fn demolish_seq(s: Seq<u16>, vocab: Seq<Seq<u16>>, scaffold: Set<u16>) -> Seq<u16>
    decreases s.len(),
{
    if s.len() == 0 {
        Seq::empty()
    } else {
        demolish_seq(s.drop_last(), vocab, scaffold) + demolish_token(s.last(), vocab, scaffold)
    }
}

/// Every vocabulary entry is a pair of earlier tokens, and there are no
/// more entries than token ids.
pub open spec fn scaffold_vocab(vocab: Seq<Seq<u16>>) -> bool {
    &&& vocab.len() <= u16::MAX - BASE_TOKENS + 1
    &&& forall|j: int|
        0 <= j < vocab.len() ==> (#[trigger] vocab[j]).len() == 2 && vocab[j][0] < BASE_TOKENS + j
            && vocab[j][1] < BASE_TOKENS + j
}

/// The state a round of training changes: vocabulary, scaffold tokens and
/// the number of normal tokens.
pub type ScaffoldState = (Seq<Seq<u16>>, Set<u16>, nat);

/// The first position of `p` in `v`, or -1 when it is absent.
pub open spec fn first_index(v: Seq<Seq<u16>>, p: Seq<u16>) -> int
    decreases v.len(),
{
    if v.len() == 0 {
        -1
    } else {
        let f = first_index(v.drop_last(), p);
        if f >= 0 {
            f
        } else if v.last() == p {
            v.len() - 1
        } else {
            -1
        }
    }
}

/// The count of a most common pair of adjacent tokens in `lib`, zero when
/// no word has two tokens.
pub open spec fn next_pair_count(lib: Map<Seq<u16>, nat>) -> nat {
    if exists|q: Seq<u16>| most_common_pair(lib, q) {
        window_count(lib, choose|q: Seq<u16>| most_common_pair(lib, q))
    } else {
        0
    }
}

/// `x` of a merged pair becomes scaffold: it is a learned token that is not
/// scaffold yet, and after the merge it occurs less often than the next pair.
pub open spec fn becomes_scaffold(lib2: Map<Seq<u16>, nat>, sc: Set<u16>, x: u16) -> bool {
    x >= BASE_TOKENS && token_frequency(lib2, x) < next_pair_count(lib2) && !sc.contains(x)
}

/// One round of training: `p` is a most common pair of `lib`. When its first
/// vocabulary entry is a scaffold token, that token becomes normal again and
/// `p` is merged into it. Otherwise `p` becomes a new token, merged into the
/// next free id, and each learned token of `p` (the second only when it
/// differs from the first) that now occurs less often than the next pair to
/// merge becomes scaffold.
pub open spec fn scaffold_round(
    lib: Map<Seq<u16>, nat>,
    st: ScaffoldState,
    p: Seq<u16>,
    lib2: Map<Seq<u16>, nat>,
    st2: ScaffoldState,
) -> bool {
    let v = st.0;
    let sc = st.1;
    let j = first_index(v, p);
    &&& most_common_pair(lib, p)
    &&& if j >= 0 && sc.contains((BASE_TOKENS + j) as u16) {
        &&& merged_into(lib, p, (BASE_TOKENS + j) as u16, lib2)
        &&& st2 == (v, sc.remove((BASE_TOKENS + j) as u16), st.2 + 1nat)
    } else {
        let a = p[0];
        let b = p[1];
        let ra = becomes_scaffold(lib2, sc, a);
        let sc1 = if ra { sc.insert(a) } else { sc };
        let rb = a != b && becomes_scaffold(lib2, sc1, b);
        let sc2 = if rb { sc1.insert(b) } else { sc1 };
        &&& merged_into(lib, p, (BASE_TOKENS + v.len()) as u16, lib2)
        &&& st2 == (v.push(p), sc2, (st.2 + 1 - (if ra { 1int } else { 0int }) - (if rb { 1int } else { 0int })) as nat)
    }
}

/// Round `i` of a training run, with fewer than `target` normal tokens
/// before it.
pub open spec fn scaffold_round_at(libs: Seq<Map<Seq<u16>, nat>>, states: Seq<ScaffoldState>, target: nat, i: int) -> bool {
    &&& states[i].2 < target
    &&& exists|p: Seq<u16>| #[trigger] scaffold_round(libs[i], states[i], p, libs[i + 1], states[i + 1])
}

/// A training run: libraries and states before and after each round.
pub open spec fn scaffold_trace(libs: Seq<Map<Seq<u16>, nat>>, states: Seq<ScaffoldState>, target: nat) -> bool {
    &&& libs.len() == states.len()
    &&& libs.len() >= 1
    &&& forall|i: int| 0 <= i < libs.len() - 1 ==> #[trigger] scaffold_round_at(libs, states, target, i)
}

/// A set of learned token ids among the first `n` holds at most `n` of them.
proof fn lemma_ids_bound(sc: Set<u16>, n: nat)
    requires
        forall|x: u16| #[trigger] sc.contains(x) ==> BASE_TOKENS <= x < BASE_TOKENS + n,
        n <= u16::MAX - BASE_TOKENS + 1,
    ensures
        sc.finite(),
        sc.len() <= n,
{
    let f = |i: int| i as u16;
    let r = vstd::set_lib::set_int_range(BASE_TOKENS as int, BASE_TOKENS + n);
    vstd::set_lib::lemma_int_range(BASE_TOKENS as int, BASE_TOKENS + n);
    vstd::set_lib::lemma_map_size_bound(r, r.map(f), f);
    assert forall|x: u16| sc.contains(x) implies #[trigger] r.map(f).contains(x) by {
        assert(r.contains(x as int));
        assert(f(x as int) == x);
    }
    vstd::set_lib::lemma_len_subset(sc, r.map(f));
}

/// The first position of `x` in `vocab`, compared by value.
fn position_of(vocab: &Vec<Token>, x: &Token) -> (r: Option<usize>)
    ensures
        match r {
            Some(j) => j as int == first_index(token_views(vocab@), x@) && j < vocab@.len(),
            None => first_index(token_views(vocab@), x@) == -1,
        },
{
    let ghost v = token_views(vocab@);
    let mut k: usize = 0;
    assert(v.take(0) =~= Seq::<Seq<u16>>::empty());
    while k < vocab.len()
        invariant
            v == token_views(vocab@),
            k <= vocab@.len(),
            first_index(v.take(k as int), x@) == -1,
        decreases vocab@.len() - k,
    {
        let w = &vocab[k];
        assert(v[k as int] == w@);
        let same = w.len() == x.len() && matches_at(w, x, 0);
        assert(v.take(k + 1).drop_last() =~= v.take(k as int));
        assert(v.take(k + 1).last() == w@);
        if same {
            proof {
                assert(w@.subrange(0, x@.len() as int) =~= w@);
                lemma_first_index_prefix(v, x@, k + 1);
            }
            return Some(k);
        }
        assert(same == (w@ == x@)) by {
            if w@ == x@ {
                assert(w@.subrange(0, x@.len() as int) =~= w@);
            }
        }
        k += 1;
    }
    assert(v.take(k as int) =~= v);
    None
}

/// Once `p` is found within the first `n` entries, more entries do not
/// change its first position.
proof fn lemma_first_index_prefix(v: Seq<Seq<u16>>, p: Seq<u16>, n: int)
    requires
        0 <= n <= v.len(),
        first_index(v.take(n), p) >= 0,
    ensures
        first_index(v, p) == first_index(v.take(n), p),
    decreases v.len() - n,
{
    if n < v.len() {
        assert(v.take(n + 1).drop_last() =~= v.take(n));
        lemma_first_index_prefix(v, p, n + 1);
    } else {
        assert(v.take(n) =~= v);
    }
}

/// The libraries of a training run, before and after each round.
pub type LibraryTrace = Seq<Map<Seq<u16>, nat>>;

/// The tokeniser states of a training run, before and after each round.
pub type StateTrace = Seq<ScaffoldState>;

/// One more round makes a longer training run.
proof fn lemma_scaffold_extend(
    libs: LibraryTrace,
    states: StateTrace,
    target: nat,
    p: Seq<u16>,
    lib2: Map<Seq<u16>, nat>,
    st2: ScaffoldState,
)
    requires
        scaffold_trace(libs, states, target),
        states.last().2 < target,
        scaffold_round(libs.last(), states.last(), p, lib2, st2),
    ensures
        scaffold_trace(libs.push(lib2), states.push(st2), target),
{
    let l2 = libs.push(lib2);
    let s2 = states.push(st2);
    assert forall|i: int| 0 <= i < l2.len() - 1 implies #[trigger] scaffold_round_at(l2, s2, target, i) by {
        if i < libs.len() - 1 {
            assert(scaffold_round_at(libs, states, target, i));
            let q = choose|q: Seq<u16>| #[trigger] scaffold_round(libs[i], states[i], q, libs[i + 1], states[i + 1]);
            assert(scaffold_round(l2[i], s2[i], q, l2[i + 1], s2[i + 1]));
        } else {
            assert(scaffold_round(l2[i], s2[i], p, l2[i + 1], s2[i + 1]));
        }
    }
}

/// The count that `find_candidate` gives back is the count of a most
/// common pair, zero when there is none.
proof fn lemma_next_pair_count(lib: Map<Seq<u16>, nat>, e: Option<(Seq<u16>, nat)>)
    requires
        lib.dom().finite(),
        match e {
            None => forall|k: Seq<u16>| #[trigger] lib.contains_key(k) ==> k.len() < 2,
            Some(c) => most_common_pair(lib, c.0) && c.1 == window_count(lib, c.0),
        },
    ensures
        next_pair_count(lib) == match e {
            None => 0,
            Some(c) => c.1,
        },
{
    match e {
        None => {
            if exists|q: Seq<u16>| most_common_pair(lib, q) {
                let q = choose|q: Seq<u16>| most_common_pair(lib, q);
                let k = choose|k: Seq<u16>| lib.contains_key(k) && #[trigger] windows(k, 2).contains(q);
                lemma_window_contains(k, 2, q);
            }
        },
        Some(c) => {
            let q = choose|q: Seq<u16>| most_common_pair(lib, q);
            assert(window_count(lib, q) <= window_count(lib, c.0));
            assert(window_count(lib, c.0) <= window_count(lib, q));
        },
    }
}

/// Every word written by `set_entries` from nothing is the renamed word of
/// some entry.
proof fn lemma_set_entries_keys(l: Seq<(Seq<u16>, nat)>, f: spec_fn(Seq<u16>) -> Seq<u16>)
    ensures
        forall|nk: Seq<u16>| #[trigger] set_entries(Map::empty(), l, f).contains_key(nk) ==> exists|j: int|
            0 <= j < l.len() && f(l[j].0) == nk,
    decreases l.len(),
{
    if l.len() > 0 {
        let l1 = l.drop_last();
        lemma_set_entries_keys(l1, f);
        assert forall|nk: Seq<u16>| #[trigger] set_entries(Map::empty(), l, f).contains_key(nk) implies exists|j: int|
            0 <= j < l.len() && f(l[j].0) == nk by {
            let m1 = set_entries(Map::<Seq<u16>, nat>::empty(), l1, f);
            assert(set_entries(Map::<Seq<u16>, nat>::empty(), l, f) == m1.insert(f(l.last().0), l.last().1));
            if nk != f(l.last().0) {
                assert(m1.contains_key(nk));
                let j = choose|j: int| 0 <= j < l1.len() && f(l1[j].0) == nk;
                assert(l[j] == l1[j]);
            } else {
                assert(f(l[l.len() - 1].0) == nk);
            }
        }
    }
}

/// Merging into a token below `bound` keeps every token of the library below `bound`.
proof fn lemma_merged_tokens(lib: Map<Seq<u16>, nat>, p: Seq<u16>, t: u16, lib2: Map<Seq<u16>, nat>, bound: int)
    requires
        merged_into(lib, p, t, lib2),
        tokens_below(lib, bound),
        t < bound,
    ensures
        tokens_below(lib2, bound),
{
    let l = choose|l: Seq<(Seq<u16>, nat)>| is_enumeration(l, lib) && #[trigger] set_entries(Map::empty(), l, replace_fn(p, t)) == lib2;
    let f = replace_fn(p, t);
    lemma_set_entries_keys(l, f);
    assert forall|k: Seq<u16>, n: int| lib2.contains_key(k) && 0 <= n < k.len() implies k[n] < bound by {
        let j = choose|j: int| 0 <= j < l.len() && f(l[j].0) == k;
        let k1 = l[j].0;
        assert(lib.contains_key(k1));
        lemma_replace_tokens(k1, p, t);
        assert(k.contains(k[n]));
        if k[n] != t {
            let m = choose|m: int| 0 <= m < k1.len() && k1[m] == k[n];
            assert(k1[m] < bound);
        }
    }
}

/// What a token turns into in the tokenizer's output stands for what the
/// token stands for.
proof fn lemma_decoded_demolish_token(x: u16, vocab: Seq<Seq<u16>>, sc: Set<u16>)
    requires
        scaffold_vocab(vocab),
    ensures
        decoded_seq(demolish_token(x, vocab, sc), vocab) == decoded_token(x, vocab),
    decreases x,
{
    lemma_decoded_single(x, vocab);
    if !(x < BASE_TOKENS || !sc.contains(x) || x - BASE_TOKENS >= vocab.len()) {
        let e = vocab[x - BASE_TOKENS];
        assert(e.len() == 2 && e[0] < x && e[1] < x);
        lemma_decoded_demolish_token(e[0], vocab, sc);
        lemma_decoded_demolish_token(e[1], vocab, sc);
        lemma_decoded_concat(demolish_token(e[0], vocab, sc), demolish_token(e[1], vocab, sc), vocab);
        lemma_scaffold_vocab_ordered(vocab);
        lemma_decoded_entry(x, vocab);
        assert(e =~= seq![e[0]] + seq![e[1]]);
        lemma_decoded_concat(seq![e[0]], seq![e[1]], vocab);
        lemma_decoded_single(e[0], vocab);
        lemma_decoded_single(e[1], vocab);
    }
}

/// Turning every token of a sequence into its output keeps what the
/// sequence stands for.
proof fn lemma_decoded_demolish_seq(s: Seq<u16>, vocab: Seq<Seq<u16>>, sc: Set<u16>)
    requires
        scaffold_vocab(vocab),
    ensures
        decoded_seq(demolish_seq(s, vocab, sc), vocab) == decoded_seq(s, vocab),
    decreases s.len(),
{
    if s.len() > 0 {
        lemma_decoded_demolish_seq(s.drop_last(), vocab, sc);
        lemma_decoded_demolish_token(s.last(), vocab, sc);
        lemma_decoded_concat(demolish_seq(s.drop_last(), vocab, sc), demolish_token(s.last(), vocab, sc), vocab);
    }
}

/// A vocabulary of pairs of earlier tokens is ordered.
proof fn lemma_scaffold_vocab_ordered(vocab: Seq<Seq<u16>>)
    requires
        scaffold_vocab(vocab),
    ensures
        ordered_vocab(vocab),
{
    assert forall|j: int| 0 <= j < vocab.len() implies all_below(#[trigger] vocab[j], BASE_TOKENS + j) by {
        assert(vocab[j].len() == 2);
        assert forall|i: int| 0 <= i < vocab[j].len() implies #[trigger] vocab[j][i] < BASE_TOKENS + j by {
            assert(i == 0 || i == 1);
        }
    }
}

/// The vocabulary is made of pairs of earlier tokens, the scaffold tokens
/// are learned tokens, each part of a later vocabulary entry, and the
/// normal tokens are the learned tokens that are not scaffold.
pub open spec fn scaffold_wf(vocab: Seq<Seq<u16>>, scaffold: Set<u16>, normal: nat) -> bool {
    &&& scaffold_vocab(vocab)
    &&& scaffold.finite()
    &&& forall|x: u16| #[trigger] scaffold.contains(x) ==> BASE_TOKENS <= x < BASE_TOKENS + vocab.len()
    &&& forall|x: u16| #[trigger] scaffold.contains(x) ==> exists|j: int|
        x - BASE_TOKENS < j < vocab.len() && #[trigger] vocab[j].contains(x)
    &&& normal + scaffold.len() == vocab.len()
}

/// A Scaffold-BPE tokeniser: `all_vocab[j]` is the pair that token
/// `BASE_TOKENS + j` was merged from, `is_scaffold` the learned tokens
/// marked as scaffold, and `normal_count` how many learned tokens are not.
pub struct ScaffoldBpe {
    all_vocab: Vec<Token>,
    is_scaffold: HashSet<u16>,
    normal_count: usize,
}

impl ScaffoldBpe {
    /// The vocabulary, each entry taken by its view.
    pub closed spec fn vocab_view(&self) -> Seq<Seq<u16>> {
        token_views(self.all_vocab@)
    }

    /// The scaffold tokens.
    pub closed spec fn scaffold(&self) -> Set<u16> {
        self.is_scaffold@
    }

    /// How many learned tokens are not scaffold.
    pub closed spec fn normal(&self) -> nat {
        self.normal_count as nat
    }

    /// The vocabulary is made of pairs of earlier tokens, the scaffold
    /// tokens are learned tokens, each part of a later entry, and the normal
    /// tokens are the others.
    pub closed spec fn wf(&self) -> bool {
        scaffold_wf(self.vocab_view(), self.scaffold(), self.normal())
    }

    /// What [`ScaffoldBpe::wf`] and [`ScaffoldBpe::state`] are, in terms of
    /// the vocabulary, the scaffold tokens and the normal count.
    pub proof fn lemma_unfold(&self)
        ensures
            self.wf() == scaffold_wf(self.vocab_view(), self.scaffold(), self.normal()),
            self.state() == (self.vocab_view(), self.scaffold(), self.normal()),
    {
    }

    /// Vocabulary, scaffold tokens and normal count together.
    pub closed spec fn state(&self) -> ScaffoldState {
        (self.vocab_view(), self.scaffold(), self.normal())
    }

    /// An untrained tokeniser.
    pub fn new() -> (r: Self)
        ensures
            r.wf(),
            r.vocab_view().len() == 0,
            r.scaffold() == Set::<u16>::empty(),
            r.normal() == 0,
    {
        ScaffoldBpe { all_vocab: Vec::new(), is_scaffold: HashSet::new(), normal_count: 0 }
    }

    /// Trains on a copy of `library` until there are `target_normal_tokens`
    /// normal tokens, until no word has two tokens left, or until the round
    /// counter or the token ids run out. Each round takes a most common
    /// pair: when its first vocabulary entry is a scaffold token, that token
    /// becomes normal again and the pair is merged into it; otherwise the
    /// pair becomes a new normal token, and each learned token of the pair
    /// that now occurs less often than the next pair to merge becomes
    /// scaffold. The progress callback gets the round number after each new
    /// token.
    pub fn train<F: Fn(u16)>(&mut self, library: &Counter, target_normal_tokens: u16, progress_fn: F)
        requires
            old(self).wf(),
            library.wf(),
            tokens_below(library@, BASE_TOKENS + old(self).vocab_view().len()),
            total_length(library@) <= usize::MAX,
            forall|i: u16| call_requires(progress_fn, (i,)),
        ensures
            final(self).wf(),
            final(self).vocab_view().take(old(self).vocab_view().len() as int) == old(self).vocab_view(),
            exists|libs: LibraryTrace, states: StateTrace|
                #[trigger] scaffold_trace(libs, states, target_normal_tokens as nat) && libs[0] == library@
                    && states[0] == old(self).state() && states.last() == final(self).state() && ({
                    ||| states.last().2 >= target_normal_tokens
                    ||| libs.len() - 1 >= u16::MAX
                    ||| states.last().0.len() > u16::MAX - BASE_TOKENS
                    ||| forall|k: Seq<u16>| #[trigger] libs.last().contains_key(k) ==> k.len() < 2
                }),
    {
        let ghost l0 = library@;
        let ghost v0 = self.vocab_view();
        let ghost s0 = self.state();
        let ghost target = target_normal_tokens as nat;
        let mut library = library.clone();
        let mut i: u16 = 0;
        let ghost mut libs: LibraryTrace = seq![l0];
        let ghost mut states: StateTrace = seq![s0];
        assert(self.vocab_view().take(v0.len() as int) =~= v0);
        while self.normal_count < target_normal_tokens as usize && i < u16::MAX && self.all_vocab.len() <= (
        u16::MAX - BASE_TOKENS) as usize
            invariant
                self.wf(),
                library.wf(),
                tokens_below(library@, BASE_TOKENS + self.vocab_view().len()),
                total_length(library@) <= usize::MAX,
                v0.len() <= self.vocab_view().len(),
                self.vocab_view().take(v0.len() as int) == v0,
                target == target_normal_tokens,
                scaffold_trace(libs, states, target),
                libs[0] == l0,
                states[0] == s0,
                libs.last() == library@,
                states.last() == self.state(),
                libs.len() == i + 1,
                forall|k: u16| call_requires(progress_fn, (k,)),
            ensures
                self.wf(),
                self.vocab_view().take(v0.len() as int) == v0,
                scaffold_trace(libs, states, target),
                libs[0] == l0,
                states[0] == s0,
                libs.last() == library@,
                states.last() == self.state(),
                ({
                    ||| self.normal() >= target
                    ||| libs.len() - 1 >= u16::MAX
                    ||| self.vocab_view().len() > u16::MAX - BASE_TOKENS
                    ||| forall|k: Seq<u16>| #[trigger] library@.contains_key(k) ==> k.len() < 2
                }),
            decreases u16::MAX - i,
        {
            let ghost lib = library@;
            let ghost st = self.state();
            let ghost v = self.vocab_view();
            proof {
                lemma_window_counts_fit(lib);
            }
            let cand = find_candidate(&library);
            if cand.is_none() {
                break;
            }
            let c = cand.unwrap();
            let pair = c.0;
            let a = pair[0];
            let b = pair[1];
            proof {
                let k = choose|k: Seq<u16>| lib.contains_key(k) && #[trigger] windows(k, 2).contains(pair@);
                lemma_window_contains(k, 2, pair@);
                let at = choose|at: int| 0 <= at && at + 2 <= k.len() && #[trigger] k.subrange(at, at + 2) == pair@;
                assert(pair@[0] == k[at]);
                assert(pair@[1] == k[at + 1]);
                assert(k[at] < BASE_TOKENS + v.len());
                assert(k[at + 1] < BASE_TOKENS + v.len());
                assert(pair@ =~= seq![a, b]);
            }
            let mut x3: Token = Vec::new();
            x3.push(a);
            x3.push(b);
            assert(x3@ =~= pair@);
            let pos = position_of(&self.all_vocab, &x3);
            if let Some(existing_idx) = pos {
                let existing_id: u16 = BASE_TOKENS + existing_idx as u16;
                if self.is_scaffold.contains(&existing_id) {
                    self.is_scaffold.remove(&existing_id);
                    self.normal_count += 1;
                    library = replace_in_library(&library, &x3, existing_id);
                    i += 1;
                    proof {
                        let lib2 = library@;
                        lemma_merged_tokens(lib, x3@, existing_id, lib2, BASE_TOKENS + v.len());
                        assert(scaffold_round(lib, st, pair@, lib2, self.state()));
                        lemma_scaffold_extend(libs, states, target, pair@, lib2, self.state());
                        libs = libs.push(lib2);
                        states = states.push(self.state());
                    }
                    continue;
                }
            }
            let token_id: u16 = BASE_TOKENS + self.all_vocab.len() as u16;
            let x3c = x3.clone();
            assert(x3c@ =~= x3@);
            self.all_vocab.push(x3c);
            self.normal_count += 1;
            assert(self.vocab_view() =~= v.push(pair@));
            library = replace_in_library(&library, &x3, token_id);
            let ghost lib2 = library@;
            proof {
                lemma_merged_tokens(lib, x3@, token_id, lib2, BASE_TOKENS + v.len() + 1);
                lemma_window_counts_fit(lib2);
                lemma_token_frequency_le_total(lib2, a);
                lemma_token_frequency_le_total(lib2, b);
            }
            let next = find_candidate(&library);
            let next_pair_freq: usize = match &next {
                Some(e) => e.1,
                None => 0,
            };
            proof {
                lemma_next_pair_count(lib2, match next {
                    Some(e) => Some((e.0@, e.1 as nat)),
                    None => None,
                });
            }
            let remaining_a = token_freq(&library, a);
            let remaining_b = token_freq(&library, b);
            let ghost sc0 = self.scaffold();
            if a >= BASE_TOKENS {
                if remaining_a < next_pair_freq && !self.is_scaffold.contains(&a) {
                    proof {
                        lemma_ids_bound(sc0.insert(a), v.len() + 1);
                    }
                    self.is_scaffold.insert(a);
                    self.normal_count -= 1;
                }
            }
            let ghost sc1 = self.scaffold();
            if b != a && b >= BASE_TOKENS {
                if remaining_b < next_pair_freq && !self.is_scaffold.contains(&b) {
                    proof {
                        lemma_ids_bound(sc1.insert(b), v.len() + 1);
                    }
                    self.is_scaffold.insert(b);
                    self.normal_count -= 1;
                }
            }
            i += 1;
            proof {
                let v2 = self.vocab_view();
                let sc = self.scaffold();
                assert(v2[v.len() as int] == pair@);
                assert(pair@[0] == a && pair@[1] == b);
                assert forall|x: u16| #[trigger] sc.contains(x) implies exists|j: int|
                    x - BASE_TOKENS < j < v2.len() && #[trigger] v2[j].contains(x) by {
                    if sc0.contains(x) {
                        let j = choose|j: int| x - BASE_TOKENS < j < v.len() && #[trigger] v[j].contains(x);
                        assert(v2[j] == v[j]);
                    } else {
                        assert(x == a || x == b);
                        assert(v2[v.len() as int][0] == a);
                        assert(v2[v.len() as int][1] == b);
                        assert(v2[v.len() as int].contains(x));
                    }
                }
                assert(scaffold_round(lib, st, pair@, lib2, self.state()));
                lemma_scaffold_extend(libs, states, target, pair@, lib2, self.state());
                libs = libs.push(lib2);
                states = states.push(self.state());
                assert(self.vocab_view().take(v0.len() as int) =~= v0);
            }
            progress_fn(i);
        }
    }

    /// Tokenizing a word of bytes loses nothing: what its tokens stand for,
    /// through the vocabulary, is the word itself.
    pub proof fn lemma_tokenize_lossless(&self, w: Seq<u16>)
        requires
            self.wf(),
            all_below(w, BASE_TOKENS as int),
        ensures
            decoded_seq(demolish_seq(apply_merges(w, self.vocab_view()), self.vocab_view(), self.scaffold()), self.vocab_view())
                == w,
    {
        let v = self.vocab_view();
        lemma_scaffold_vocab_ordered(v);
        lemma_decoded_demolish_seq(apply_merges(w, v), v, self.scaffold());
        lemma_merges_lossless(w, v);
    }

    /// A token that is not scaffold is kept whole: its breakdown is the
    /// token alone, whether it is a byte or a learned token.
    pub proof fn lemma_breakdown_keeps(&self, x: u16)
        requires
            !self.scaffold().contains(x),
        ensures
            demolish_token(x, self.vocab_view(), self.scaffold()) == seq![x],
    {
    }

    /// A scaffold token breaks down into the breakdown of the first part of
    /// its vocabulary entry followed by that of the second part: each part
    /// is kept whole when it is not scaffold, and broken down further when
    /// it is.
    pub proof fn lemma_breakdown_splits(&self, x: u16)
        requires
            self.wf(),
            self.scaffold().contains(x),
        ensures
            BASE_TOKENS <= x < BASE_TOKENS + self.vocab_view().len(),
            self.vocab_view()[x - BASE_TOKENS].len() == 2,
            demolish_token(x, self.vocab_view(), self.scaffold()) == demolish_token(
                self.vocab_view()[x - BASE_TOKENS][0],
                self.vocab_view(),
                self.scaffold(),
            ) + demolish_token(self.vocab_view()[x - BASE_TOKENS][1], self.vocab_view(), self.scaffold()),
    {
        let v = self.vocab_view();
        assert(v[x - BASE_TOKENS].len() == 2);
    }

    /// The breakdown of any token holds no scaffold token: scaffold tokens
    /// are broken down all the way to tokens that are not scaffold.
    pub proof fn lemma_breakdown_free_of_scaffold(&self, x: u16)
        requires
            self.wf(),
        ensures
            forall|i: int|
                0 <= i < demolish_token(x, self.vocab_view(), self.scaffold()).len() ==> !self.scaffold().contains(
                    #[trigger] demolish_token(x, self.vocab_view(), self.scaffold())[i],
                ),
        decreases x,
    {
        let v = self.vocab_view();
        let sc = self.scaffold();
        if sc.contains(x) {
            self.lemma_breakdown_splits(x);
            let e = v[x - BASE_TOKENS];
            assert(e[0] < x && e[1] < x);
            self.lemma_breakdown_free_of_scaffold(e[0]);
            self.lemma_breakdown_free_of_scaffold(e[1]);
            let d0 = demolish_token(e[0], v, sc);
            let d1 = demolish_token(e[1], v, sc);
            assert forall|i: int| 0 <= i < (d0 + d1).len() implies !sc.contains(#[trigger] (d0 + d1)[i]) by {
                if i < d0.len() {
                    assert((d0 + d1)[i] == d0[i]);
                } else {
                    assert((d0 + d1)[i] == d1[i - d0.len()]);
                }
            }
        }
    }

    /// Breaking down every token of a sequence leaves no scaffold token.
    proof fn lemma_breakdown_seq_free_of_scaffold(&self, s: Seq<u16>)
        requires
            self.wf(),
        ensures
            forall|i: int|
                0 <= i < demolish_seq(s, self.vocab_view(), self.scaffold()).len() ==> !self.scaffold().contains(
                    #[trigger] demolish_seq(s, self.vocab_view(), self.scaffold())[i],
                ),
        decreases s.len(),
    {
        if s.len() > 0 {
            let v = self.vocab_view();
            let sc = self.scaffold();
            self.lemma_breakdown_seq_free_of_scaffold(s.drop_last());
            self.lemma_breakdown_free_of_scaffold(s.last());
            let a = demolish_seq(s.drop_last(), v, sc);
            let b = demolish_token(s.last(), v, sc);
            assert forall|i: int| 0 <= i < (a + b).len() implies !sc.contains(#[trigger] (a + b)[i]) by {
                if i < a.len() {
                    assert((a + b)[i] == a[i]);
                } else {
                    assert((a + b)[i] == b[i - a.len()]);
                }
            }
        }
    }

    /// How many learned tokens are not scaffold.
    pub fn normal_count(&self) -> (r: usize)
        ensures
            r == self.normal(),
    {
        self.normal_count
    }

    /// How many learned tokens are scaffold.
    pub fn scaffold_count(&self) -> (r: usize)
        requires
            self.wf(),
        ensures
            r == self.scaffold().len(),
    {
        self.is_scaffold.len()
    }

    /// How many tokens were learned, scaffold or not.
    pub fn vocab_len(&self) -> (r: usize)
        ensures
            r == self.vocab_view().len(),
    {
        self.all_vocab.len()
    }

    /// What `token_id` turns into in the tokenizer's output: the token
    /// itself unless it is scaffold; a scaffold token becomes what its two
    /// parts become, in order, so that no scaffold token is left.
    fn demolish(&self, token_id: u16) -> (r: Token)
        requires
            self.wf(),
        ensures
            r@ == demolish_token(token_id, self.vocab_view(), self.scaffold()),
            forall|i: int| 0 <= i < r@.len() ==> !self.scaffold().contains(#[trigger] r@[i]),
            !self.scaffold().contains(token_id) ==> r@ == seq![token_id],
            decoded_seq(r@, self.vocab_view()) == decoded_token(token_id, self.vocab_view()),
        decreases token_id,
    {
        proof {
            self.lemma_breakdown_free_of_scaffold(token_id);
            lemma_decoded_demolish_token(token_id, self.vocab_view(), self.scaffold());
        }
        let mut single: Token = Vec::new();
        single.push(token_id);
        assert(single@ =~= seq![token_id]);
        if token_id < BASE_TOKENS {
            return single;
        }
        if !self.is_scaffold.contains(&token_id) {
            return single;
        }
        let idx: usize = (token_id - BASE_TOKENS) as usize;
        let components = &self.all_vocab[idx];
        let ghost e = self.vocab_view()[idx as int];
        assert(components@ == e);
        let mut result: Token = Vec::new();
        let mut i: usize = 0;
        assert(e.take(0) =~= Seq::<u16>::empty());
        while i < components.len()
            invariant
                self.wf(),
                components@ == e,
                e == self.vocab_view()[token_id - BASE_TOKENS],
                e.len() == 2,
                e[0] < token_id,
                e[1] < token_id,
                i <= e.len(),
                result@ == demolish_seq(e.take(i as int), self.vocab_view(), self.scaffold()),
            decreases e.len() - i,
        {
            let c = components[i];
            let mut part = self.demolish(c);
            assert(e.take(i + 1).drop_last() =~= e.take(i as int));
            result.append(&mut part);
            i += 1;
        }
        proof {
            let v = self.vocab_view();
            let sc = self.scaffold();
            assert(e.take(2) =~= e);
            assert(e.take(1).drop_last() =~= e.take(0));
            assert(e.take(2).drop_last() =~= e.take(1));
            assert(demolish_seq(e.take(0), v, sc) =~= Seq::<u16>::empty());
            assert(demolish_seq(e.take(1), v, sc) =~= demolish_token(e[0], v, sc));
            assert(result@ =~= demolish_token(e[0], v, sc) + demolish_token(e[1], v, sc));
        }
        result
    }

    /// Tokenizes a word: merges with every vocabulary entry in order, entry
    /// `j` into token `BASE_TOKENS + j`, then turns each scaffold token back
    /// into the tokens it was built from, breaking scaffold parts down in
    /// turn: no scaffold token is left, and every other token stays whole.
    pub fn tokenize(&self, word: &[u16]) -> (r: Vec<u16>)
        requires
            self.wf(),
        ensures
            r@ == demolish_seq(apply_merges(word@, self.vocab_view()), self.vocab_view(), self.scaffold()),
            all_below(word@, BASE_TOKENS as int) ==> r@.len() <= word@.len(),
            forall|i: int| 0 <= i < r@.len() ==> !self.scaffold().contains(#[trigger] r@[i]),
            all_below(word@, BASE_TOKENS as int) ==> decoded_seq(r@, self.vocab_view()) == word@,
    {
        let ghost vocab = self.vocab_view();
        let mut current: Vec<u16> = slice_to_vec(word);
        let mut i: usize = 0;
        assert(vocab.take(0) =~= Seq::<Seq<u16>>::empty());
        while i < self.all_vocab.len()
            invariant
                self.wf(),
                vocab == self.vocab_view(),
                i <= vocab.len(),
                current@ == apply_merges(word@, vocab.take(i as int)),
            decreases vocab.len() - i,
        {
            let token_id: u16 = BASE_TOKENS + i as u16;
            assert(self.all_vocab@[i as int]@ == vocab[i as int]);
            assert(vocab.take(i + 1).drop_last() =~= vocab.take(i as int));
            assert(vocab.take(i + 1).last() == vocab[i as int]);
            current = replace(&current, &self.all_vocab[i], token_id);
            i += 1;
        }
        assert(vocab.take(i as int) =~= vocab);
        let ghost merged = current@;
        let mut result: Vec<u16> = Vec::new();
        let mut j: usize = 0;
        assert(merged.take(0) =~= Seq::<u16>::empty());
        while j < current.len()
            invariant
                self.wf(),
                current@ == merged,
                j <= merged.len(),
                result@ == demolish_seq(merged.take(j as int), self.vocab_view(), self.scaffold()),
            decreases merged.len() - j,
        {
            let token = current[j];
            assert(merged.take(j + 1).drop_last() =~= merged.take(j as int));
            assert(merged.take(j + 1).last() == token);
            if token < BASE_TOKENS {
                result.push(token);
            } else if self.is_scaffold.contains(&token) {
                let mut part = self.demolish(token);
                result.append(&mut part);
            } else {
                result.push(token);
            }
            j += 1;
        }
        assert(merged.take(j as int) =~= merged);
        proof {
            self.lemma_breakdown_seq_free_of_scaffold(merged);
            if all_below(word@, BASE_TOKENS as int) {
                self.lemma_tokenize_lossless(word@);
                lemma_scaffold_vocab_ordered(vocab);
                lemma_decoded_len(result@, vocab);
            }
        }
        result
    }
}

} // verus!
