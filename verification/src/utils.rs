//! Library-level operations: counting pairs and windows across a library
//! of weighted words, rewriting every word of a library, and the small
//! computations behind progress output and fertility.

use crate::counter::{
    add_entries, add_items, add_one, count_of, lemma_add_entries_consistent,
    lemma_add_items, occurrences, token_views, Counter, CounterState,
};
use crate::sums::{
    entry_sum, entry_views, is_enumeration, lemma_entry_sum_prefix, lemma_enumeration_sum,
    map_sum, count_weight, lemma_map_sum_agree, lemma_map_sum_insert, lemma_map_sum_le, lemma_map_sum_single,
};
pub use crate::tokens::{expand, replace, Token, BASE_TOKENS};
use crate::tokens::{expand_seq, lemma_expand_undoes_replace, lemma_replace_tokens, replace_seq};
use crate::text::all_below;
use vstd::prelude::*;

verus! {

/// `k` after merging each vocabulary entry in turn, entry `j` into the
/// token `BASE_TOKENS + j`.
pub open spec fn apply_merges(k: Seq<u16>, vocab: Seq<Seq<u16>>) -> Seq<u16>
    decreases vocab.len(),
{
    if vocab.len() == 0 {
        k
    } else {
        replace_seq(
            apply_merges(k, vocab.drop_last()),
            vocab.last(),
            (BASE_TOKENS + vocab.len() - 1) as u16,
        )
    }
}

/// Merging a whole vocabulary, as a function on words.
pub open spec fn merges_fn(vocab: Seq<Seq<u16>>) -> spec_fn(Seq<u16>) -> Seq<u16> {
    |k: Seq<u16>| apply_merges(k, vocab)
}

/// Every token of every word of the library is below `n`.
pub open spec fn tokens_below(lib: Map<Seq<u16>, nat>, n: int) -> bool {
    forall|k: Seq<u16>, i: int|
        #![trigger lib.contains_key(k), k[i]]
        lib.contains_key(k) && 0 <= i < k.len() ==> k[i] < n
}

/// The contiguous windows of length `n` of `k`, left to right.
pub open spec fn windows(k: Seq<u16>, n: nat) -> Seq<Seq<u16>> {
    if k.len() >= n {
        Seq::new((k.len() - n + 1) as nat, |i: int| k.subrange(i, i + n))
    } else {
        Seq::empty()
    }
}

/// Weight of a word for the window `e`: its count times how often `e`
/// occurs in it as a window.
pub open spec fn window_weight(e: Seq<u16>) -> spec_fn(Seq<u16>, nat) -> nat {
    |k: Seq<u16>, c: nat| c * occurrences(windows(k, e.len()), e)
}

/// How often `e` occurs across the library, each word weighted by its count.
pub open spec fn window_count(lib: Map<Seq<u16>, nat>, e: Seq<u16>) -> nat {
    map_sum(lib, window_weight(e))
}

/// No window of one or more tokens occurs more than `usize::MAX` times
/// across the library.
pub open spec fn window_counts_fit(lib: Map<Seq<u16>, nat>) -> bool {
    forall|e: Seq<u16>| e.len() >= 1 ==> #[trigger] window_count(lib, e) <= usize::MAX
}

/// `p` is a pair of adjacent tokens that occurs in some word of `lib`, and
/// no pair occurs more often across the library.
pub open spec fn most_common_pair(lib: Map<Seq<u16>, nat>, p: Seq<u16>) -> bool {
    &&& p.len() == 2
    &&& exists|k: Seq<u16>| lib.contains_key(k) && #[trigger] windows(k, 2).contains(p)
    &&& forall|q: Seq<u16>| q.len() == 2 ==> #[trigger] window_count(lib, q) <= window_count(lib, p)
}

/// How often the token `t` occurs in `s`.
pub open spec fn token_occurrences(s: Seq<u16>, t: u16) -> nat
    decreases s.len(),
{
    if s.len() == 0 {
        0
    } else {
        token_occurrences(s.drop_last(), t) + if s.last() == t {
            1nat
        } else {
            0nat
        }
    }
}

/// Weight of a word for the token `t`: its count times the occurrences of `t`.
pub open spec fn token_weight(t: u16) -> spec_fn(Seq<u16>, nat) -> nat {
    |k: Seq<u16>, c: nat| c * token_occurrences(k, t)
}

/// How often the token `t` occurs across the library.
pub open spec fn token_frequency(lib: Map<Seq<u16>, nat>, t: u16) -> nat {
    map_sum(lib, token_weight(t))
}

/// Weight of a word by its length: length times count.
pub open spec fn length_weight() -> spec_fn(Seq<u16>, nat) -> nat {
    |k: Seq<u16>, c: nat| k.len() * c
}

/// The number of tokens across the library.
pub open spec fn total_length(lib: Map<Seq<u16>, nat>) -> nat {
    map_sum(lib, length_weight())
}

/// No word of the library holds the token `t`.
pub open spec fn free_of(lib: Map<Seq<u16>, nat>, t: u16) -> bool {
    forall|k: Seq<u16>| #[trigger] lib.contains_key(k) ==> !k.contains(t)
}

/// Merging `from` into `to`, as a function on words.
pub open spec fn replace_fn(from: Seq<u16>, to: u16) -> spec_fn(Seq<u16>) -> Seq<u16> {
    |k: Seq<u16>| replace_seq(k, from, to)
}

/// Expanding `from` into `to`, as a function on words.
pub open spec fn expand_fn(from: u16, to: Seq<u16>) -> spec_fn(Seq<u16>) -> Seq<u16> {
    |k: Seq<u16>| expand_seq(k, from, to)
}

/// `r` is `m` with every word `k` renamed to `f(k)`, no two words sharing a
/// new name: each count moves to the new name and no other name appears.
#[verifier::opaque]
pub open spec fn transported(
    m: Map<Seq<u16>, nat>,
    r: Map<Seq<u16>, nat>,
    f: spec_fn(Seq<u16>) -> Seq<u16>,
) -> bool {
    &&& forall|k: Seq<u16>| m.contains_key(k) ==> #[trigger] r.contains_key(f(k)) && r[f(k)] == m[k]
    &&& forall|nk: Seq<u16>| #[trigger] r.contains_key(nk) ==> exists|k: Seq<u16>|
        m.contains_key(k) && f(k) == nk
}

/// Weight of a word for the new name `nk`: its count when `f` renames it to `nk`.
pub open spec fn image_weight(f: spec_fn(Seq<u16>) -> Seq<u16>, nk: Seq<u16>) -> spec_fn(Seq<u16>, nat) -> nat {
    |k: Seq<u16>, c: nat| if f(k) == nk {
        c
    } else {
        0
    }
}

/// `m` with every word renamed by `f`, the counts of words that get the
/// same name added up.
pub open spec fn relabel(m: Map<Seq<u16>, nat>, f: spec_fn(Seq<u16>) -> Seq<u16>) -> Map<Seq<u16>, nat> {
    Map::new(
        |nk: Seq<u16>| exists|k: Seq<u16>| m.contains_key(k) && f(k) == nk,
        |nk: Seq<u16>| map_sum(m, image_weight(f, nk)),
    )
}

/// Writing each renamed entry of `l` in turn, a later write of a name
/// replacing an earlier one.
pub open spec fn set_entries(
    m: Map<Seq<u16>, nat>,
    l: Seq<(Seq<u16>, nat)>,
    f: spec_fn(Seq<u16>) -> Seq<u16>,
) -> Map<Seq<u16>, nat>
    decreases l.len(),
{
    if l.len() == 0 {
        m
    } else {
        set_entries(m, l.drop_last(), f).insert(f(l.last().0), l.last().1)
    }
}

/// `lib2` is `lib` with `p` merged into `t` in every word, each new word
/// written with its count in the order of some enumeration of `lib`, a later
/// write of the same word replacing an earlier one.
pub open spec fn merged_into(lib: Map<Seq<u16>, nat>, p: Seq<u16>, t: u16, lib2: Map<Seq<u16>, nat>) -> bool {
    exists|l: Seq<(Seq<u16>, nat)>| is_enumeration(l, lib) && #[trigger] set_entries(Map::empty(), l, replace_fn(p, t)) == lib2
}

/// The entries of `l` with their words renamed by `f`.
pub open spec fn renamed(l: Seq<(Seq<u16>, nat)>, f: spec_fn(Seq<u16>) -> Seq<u16>) -> Seq<(Seq<u16>, nat)> {
    l.map_values(|e: (Seq<u16>, nat)| (f(e.0), e.1))
}

/// A sequence none of whose elements is `e` holds `e` zero times.
proof fn lemma_occurrences_absent(s: Seq<Seq<u16>>, e: Seq<u16>)
    requires
        !s.contains(e),
    ensures
        occurrences(s, e) == 0,
    decreases s.len(),
{
    if s.len() > 0 {
        assert(!s.drop_last().contains(e)) by {
            if s.drop_last().contains(e) {
                let i = choose|i: int| 0 <= i < s.drop_last().len() && s.drop_last()[i] == e;
                assert(s[i] == e);
            }
        }
        assert(s.last() != e) by {
            assert(s[s.len() - 1] == s.last());
        }
        lemma_occurrences_absent(s.drop_last(), e);
    }
}

/// Windows of one length never hold a sequence of another length.
pub proof fn lemma_windows_other_length(k: Seq<u16>, n: nat, e: Seq<u16>)
    requires
        e.len() != n,
    ensures
        occurrences(windows(k, n), e) == 0,
        !windows(k, n).contains(e),
{
    if windows(k, n).contains(e) {
        let a = choose|a: int| 0 <= a < windows(k, n).len() && windows(k, n)[a] == e;
        assert(windows(k, n)[a] == k.subrange(a, a + n));
    }
    lemma_occurrences_absent(windows(k, n), e);
}

pub proof fn lemma_occurrences_le_len(s: Seq<Seq<u16>>, e: Seq<u16>)
    ensures
        occurrences(s, e) <= s.len(),
    decreases s.len(),
{
    if s.len() > 0 {
        lemma_occurrences_le_len(s.drop_last(), e);
    }
}

proof fn lemma_token_occurrences_le_len(s: Seq<u16>, t: u16)
    ensures
        token_occurrences(s, t) <= s.len(),
    decreases s.len(),
{
    if s.len() > 0 {
        lemma_token_occurrences_le_len(s.drop_last(), t);
    }
}

/// A window of one or more tokens occurs at most as often as there are
/// tokens in the library.
pub proof fn lemma_window_count_le_total(lib: Map<Seq<u16>, nat>, e: Seq<u16>)
    requires
        lib.dom().finite(),
        e.len() >= 1,
    ensures
        window_count(lib, e) <= total_length(lib),
{
    assert forall|k: Seq<u16>| lib.contains_key(k) implies window_weight(e)(k, lib[k]) <= length_weight()(
        k,
        lib[k],
    ) by {
        lemma_occurrences_le_len(windows(k, e.len()), e);
        let o = occurrences(windows(k, e.len()), e);
        let c = lib[k];
        let n = k.len();
        assert(o <= n);
        assert(c * o <= n * c) by (nonlinear_arith)
            requires
                o <= n,
        ;
    }
    lemma_map_sum_le(lib, window_weight(e), length_weight());
}

/// A token occurs at most as often as there are tokens in the library.
pub proof fn lemma_token_frequency_le_total(lib: Map<Seq<u16>, nat>, t: u16)
    requires
        lib.dom().finite(),
    ensures
        token_frequency(lib, t) <= total_length(lib),
{
    assert forall|k: Seq<u16>| lib.contains_key(k) implies token_weight(t)(k, lib[k]) <= length_weight()(
        k,
        lib[k],
    ) by {
        lemma_token_occurrences_le_len(k, t);
        let o = token_occurrences(k, t);
        let c = lib[k];
        let n = k.len();
        assert(c * o <= n * c) by (nonlinear_arith)
            requires
                o <= n,
        ;
    }
    lemma_map_sum_le(lib, token_weight(t), length_weight());
}

/// When the library holds at most `usize::MAX` tokens, no window count
/// passes `usize::MAX` either.
pub proof fn lemma_window_counts_fit(lib: Map<Seq<u16>, nat>)
    requires
        lib.dom().finite(),
        total_length(lib) <= usize::MAX,
    ensures
        window_counts_fit(lib),
{
    assert forall|e: Seq<u16>| e.len() >= 1 implies #[trigger] window_count(lib, e) <= usize::MAX by {
        lemma_window_count_le_total(lib, e);
    }
}

/// A window that occurs in no word has count zero.
pub proof fn lemma_no_window_no_count(lib: Map<Seq<u16>, nat>, e: Seq<u16>)
    requires
        lib.dom().finite(),
        forall|k: Seq<u16>| #[trigger] lib.contains_key(k) ==> !windows(k, e.len()).contains(e),
    ensures
        window_count(lib, e) == 0,
{
    assert forall|k: Seq<u16>| lib.contains_key(k) implies window_weight(e)(k, lib[k]) <= (|k: Seq<u16>, c: nat| 0nat)(k, lib[k]) by {
        lemma_occurrences_absent(windows(k, e.len()), e);
        let c = lib[k];
        assert(c * 0 == 0) by (nonlinear_arith);
    }
    lemma_map_sum_le(lib, window_weight(e), |k: Seq<u16>, c: nat| 0nat);
    lemma_map_sum_single(lib, |k: Seq<u16>, c: nat| 0nat, Seq::empty());
}

/// A window of `k` of length `n` is `k`'s run at some position.
pub proof fn lemma_window_contains(k: Seq<u16>, n: nat, e: Seq<u16>)
    requires
        windows(k, n).contains(e),
    ensures
        e.len() == n,
        n <= k.len(),
        exists|a: int| 0 <= a && a + n <= k.len() && #[trigger] k.subrange(a, a + n) == e,
{
    let a = choose|a: int| 0 <= a < windows(k, n).len() && windows(k, n)[a] == e;
    assert(k.subrange(a, a + n) == e);
}

/// The run of `k` at position `a` is one of its windows.
pub proof fn lemma_window_at(k: Seq<u16>, n: nat, a: int)
    requires
        0 <= a,
        a + n <= k.len(),
    ensures
        windows(k, n).contains(k.subrange(a, a + n)),
{
    assert(windows(k, n)[a] == k.subrange(a, a + n));
}

/// Some length bounds every word of a finite set of words.
pub proof fn lemma_length_bound(s: Set<Seq<u16>>) -> (n: nat)
    requires
        s.finite(),
    ensures
        forall|k: Seq<u16>| #[trigger] s.contains(k) ==> k.len() <= n,
    decreases s.len(),
{
    if s.len() == 0 {
        assert forall|k: Seq<u16>| #[trigger] s.contains(k) implies k.len() <= 0 by {
            assert(s.remove(k).len() < s.len());
        }
        0
    } else {
        let x = s.choose();
        let m = lemma_length_bound(s.remove(x));
        let n = if m >= x.len() {
            m
        } else {
            x.len()
        };
        assert forall|k: Seq<u16>| #[trigger] s.contains(k) implies k.len() <= n by {
            if k != x {
                assert(s.remove(x).contains(k));
            }
        }
        n
    }
}

/// A window of a word of the library has its tokens below any bound of
/// the library's tokens.
pub proof fn lemma_window_below(lib: Map<Seq<u16>, nat>, t: Seq<u16>, bound: int)
    requires
        tokens_below(lib, bound),
        exists|k: Seq<u16>| lib.contains_key(k) && #[trigger] windows(k, t.len()).contains(t),
    ensures
        all_below(t, bound),
{
    let k = choose|k: Seq<u16>| lib.contains_key(k) && #[trigger] windows(k, t.len()).contains(t);
    lemma_window_contains(k, t.len(), t);
    let a = choose|a: int| 0 <= a && a + t.len() <= k.len() && #[trigger] k.subrange(a, a + t.len()) == t;
    assert forall|i: int| 0 <= i < t.len() implies #[trigger] t[i] < bound by {
        assert(t[i] == k[a + i]);
    }
}

/// A library whose tokens are all below `n` holds no word with the token `n`.
pub proof fn lemma_below_is_free(lib: Map<Seq<u16>, nat>, n: int)
    requires
        tokens_below(lib, n),
        0 <= n <= u16::MAX,
    ensures
        free_of(lib, n as u16),
{
    assert forall|k: Seq<u16>| #[trigger] lib.contains_key(k) implies !k.contains(n as u16) by {
        if k.contains(n as u16) {
            let i = choose|i: int| 0 <= i < k.len() && k[i] == n as u16;
            assert(k[i] < n);
        }
    }
}

/// `lib` is `l0` compressed by `vocab`: when `l0` holds raw bytes only,
/// every word of `l0` compressed by the vocabulary carries its count into
/// `lib`, no other word is in `lib`, and `lib`'s tokens are all below the
/// next free id.
#[verifier::opaque]
pub open spec fn compressed_from(l0: Map<Seq<u16>, nat>, lib: Map<Seq<u16>, nat>, vocab: Seq<Seq<u16>>) -> bool {
    tokens_below(l0, BASE_TOKENS as int) ==> transported(l0, lib, merges_fn(vocab)) && tokens_below(
        lib,
        BASE_TOKENS + vocab.len(),
    )
}

/// Entry `j` of `vocab` was a most common pair of `l0` compressed by the
/// entries before it.
pub open spec fn pair_chosen_at(l0: Map<Seq<u16>, nat>, vocab: Seq<Seq<u16>>, j: int) -> bool {
    exists|lj: Map<Seq<u16>, nat>|
        transported(l0, lj, merges_fn(vocab.take(j))) && #[trigger] most_common_pair(lj, vocab[j])
}

/// Renaming nothing transports a map onto itself.
proof fn lemma_transported_identity(m: Map<Seq<u16>, nat>)
    ensures
        transported(m, m, |k: Seq<u16>| k),
{
    reveal(transported);
}

/// Before any merge, a library is compressed from itself by the empty vocabulary.
pub proof fn lemma_compressed_start(l0: Map<Seq<u16>, nat>)
    ensures
        compressed_from(l0, l0, Seq::empty()),
{
    let v = Seq::<Seq<u16>>::empty();
    assert forall|k: Seq<u16>| #[trigger] merges_fn(v)(k) == k by {}
    assert(merges_fn(v) =~= (|k: Seq<u16>| k));
    lemma_transported_identity(l0);
    reveal(compressed_from);
}

/// Merging the next vocabulary entry into the next free id keeps the
/// library compressed from the starting one.
pub proof fn lemma_compressed_step(
    l0: Map<Seq<u16>, nat>,
    li: Map<Seq<u16>, nat>,
    lnext: Map<Seq<u16>, nat>,
    vocab: Seq<Seq<u16>>,
    t: Seq<u16>,
)
    requires
        compressed_from(l0, li, vocab),
        BASE_TOKENS + vocab.len() <= u16::MAX,
        free_of(li, (BASE_TOKENS + vocab.len()) as u16) ==> transported(
            li,
            lnext,
            replace_fn(t, (BASE_TOKENS + vocab.len()) as u16),
        ),
    ensures
        compressed_from(l0, lnext, vocab.push(t)),
{
    reveal(compressed_from);
    if tokens_below(l0, BASE_TOKENS as int) {
        lemma_below_is_free(li, BASE_TOKENS + vocab.len());
        lemma_merge_step(l0, li, lnext, vocab, t);
    }
}

/// One more merge keeps the compressed library equal to the starting one
/// with every word compressed by the vocabulary so far.
pub proof fn lemma_merge_step(
    l0: Map<Seq<u16>, nat>,
    li: Map<Seq<u16>, nat>,
    lnext: Map<Seq<u16>, nat>,
    vocab: Seq<Seq<u16>>,
    t: Seq<u16>,
)
    requires
        transported(l0, li, merges_fn(vocab)),
        tokens_below(li, BASE_TOKENS + vocab.len()),
        BASE_TOKENS + vocab.len() <= u16::MAX,
        transported(li, lnext, replace_fn(t, (BASE_TOKENS + vocab.len()) as u16)),
    ensures
        transported(l0, lnext, merges_fn(vocab.push(t))),
        tokens_below(lnext, BASE_TOKENS + vocab.len() + 1),
{
    reveal(transported);
    let to = (BASE_TOKENS + vocab.len()) as u16;
    let v2 = vocab.push(t);
    assert(v2.drop_last() =~= vocab);
    assert(v2.last() == t);
    assert forall|k: Seq<u16>| #[trigger] l0.contains_key(k) implies lnext.contains_key(merges_fn(v2)(k))
        && lnext[merges_fn(v2)(k)] == l0[k] by {
        let a = merges_fn(vocab)(k);
        assert(li.contains_key(a));
        assert(lnext.contains_key(replace_fn(t, to)(a)));
        assert(merges_fn(v2)(k) == replace_fn(t, to)(a));
    }
    assert forall|nk: Seq<u16>| #[trigger] lnext.contains_key(nk) implies exists|k: Seq<u16>|
        l0.contains_key(k) && merges_fn(v2)(k) == nk by {
        let k1 = choose|k1: Seq<u16>| li.contains_key(k1) && replace_fn(t, to)(k1) == nk;
        let k0 = choose|k0: Seq<u16>| l0.contains_key(k0) && merges_fn(vocab)(k0) == k1;
        assert(merges_fn(v2)(k0) == replace_fn(t, to)(merges_fn(vocab)(k0)));
    }
    assert forall|nk: Seq<u16>, i: int| lnext.contains_key(nk) && 0 <= i < nk.len() implies nk[i]
        < BASE_TOKENS + vocab.len() + 1 by {
        let k1 = choose|k1: Seq<u16>| li.contains_key(k1) && replace_fn(t, to)(k1) == nk;
        lemma_replace_tokens(k1, t, to);
        assert(nk.contains(nk[i]));
        if nk[i] != to {
            let j = choose|j: int| 0 <= j < k1.len() && k1[j] == nk[i];
            assert(k1[j] < BASE_TOKENS + vocab.len());
        }
    }
}

/// Weight of a word that is a per-word factor times its count.
pub open spec fn linear_weight(h: spec_fn(Seq<u16>) -> nat) -> spec_fn(Seq<u16>, nat) -> nat {
    |k: Seq<u16>, c: nat| h(k) * c
}

/// Renaming the words of a finite library leaves finitely many words.
pub proof fn lemma_relabel_finite(m: Map<Seq<u16>, nat>, f: spec_fn(Seq<u16>) -> Seq<u16>)
    requires
        m.dom().finite(),
    ensures
        relabel(m, f).dom().finite(),
{
    m.dom().lemma_map_finite(f);
    assert(relabel(m, f).dom() =~= m.dom().map(f));
}

/// A name no word is renamed to collects nothing.
proof fn lemma_relabel_zero(m: Map<Seq<u16>, nat>, f: spec_fn(Seq<u16>) -> Seq<u16>, nk: Seq<u16>)
    requires
        m.dom().finite(),
        forall|w: Seq<u16>| m.contains_key(w) ==> f(w) != nk,
    ensures
        map_sum(m, image_weight(f, nk)) == 0,
{
    lemma_map_sum_single(m, image_weight(f, nk), Seq::empty());
    if m.contains_key(Seq::empty()) {
        assert(f(Seq::empty()) != nk);
    }
}

/// Adding one more word to a library adds its count under its new name.
proof fn lemma_relabel_insert(m1: Map<Seq<u16>, nat>, w0: Seq<u16>, c0: nat, f: spec_fn(Seq<u16>) -> Seq<u16>)
    requires
        m1.dom().finite(),
        !m1.contains_key(w0),
    ensures
        relabel(m1.insert(w0, c0), f) == relabel(m1, f).insert(f(w0), count_of(relabel(m1, f), f(w0)) + c0),
{
    let m = m1.insert(w0, c0);
    let r = relabel(m, f);
    let r1 = relabel(m1, f);
    let r2 = r1.insert(f(w0), count_of(r1, f(w0)) + c0);
    assert forall|nk: Seq<u16>| #[trigger] r.contains_key(nk) <==> r2.contains_key(nk) by {
        if r1.contains_key(nk) {
            let w = choose|w: Seq<u16>| m1.contains_key(w) && f(w) == nk;
            assert(m.contains_key(w) && f(w) == nk);
        }
        if nk == f(w0) {
            assert(m.contains_key(w0) && f(w0) == nk);
        }
        if r.contains_key(nk) && nk != f(w0) {
            let w = choose|w: Seq<u16>| m.contains_key(w) && f(w) == nk;
            assert(m1.contains_key(w) && f(w) == nk);
        }
    }
    assert forall|nk: Seq<u16>| r.contains_key(nk) implies #[trigger] r[nk] == r2[nk] by {
        lemma_map_sum_insert(m1, image_weight(f, nk), w0, c0);
        if !r1.contains_key(nk) {
            assert forall|w: Seq<u16>| m1.contains_key(w) implies f(w) != nk by {
                if f(w) == nk {
                    assert(r1.contains_key(nk));
                }
            }
            lemma_relabel_zero(m1, f, nk);
        }
    }
    assert(r =~= r2);
}

/// Summing a per-word weight over a renamed library is summing, over the
/// words before renaming, the weight of each word's new name.
pub proof fn lemma_relabel_sum(m: Map<Seq<u16>, nat>, f: spec_fn(Seq<u16>) -> Seq<u16>, h: spec_fn(Seq<u16>) -> nat)
    requires
        m.dom().finite(),
    ensures
        map_sum(relabel(m, f), linear_weight(h)) == map_sum(m, linear_weight(|w: Seq<u16>| h(f(w)))),
    decreases m.dom().len(),
{
    let hf = |w: Seq<u16>| h(f(w));
    lemma_relabel_finite(m, f);
    if m.dom().len() == 0 {
        assert(m.dom() =~= Set::<Seq<u16>>::empty());
        assert(relabel(m, f).dom() =~= Set::<Seq<u16>>::empty());
        lemma_map_sum_single(m, linear_weight(hf), Seq::empty());
        lemma_map_sum_single(relabel(m, f), linear_weight(h), Seq::empty());
    } else {
        let w0 = m.dom().choose();
        let c0 = m[w0];
        let m1 = m.remove(w0);
        assert(m =~= m1.insert(w0, c0));
        lemma_relabel_sum(m1, f, h);
        lemma_relabel_insert(m1, w0, c0, f);
        lemma_relabel_finite(m1, f);
        let r1 = relabel(m1, f);
        let k = f(w0);
        let old_c = count_of(r1, k);
        lemma_map_sum_insert(r1, linear_weight(h), k, old_c + c0);
        lemma_map_sum_insert(m1, linear_weight(hf), w0, c0);
        let hk = h(k);
        assert(hk * (old_c + c0) == hk * old_c + hk * c0) by (nonlinear_arith);
        if !r1.contains_key(k) {
            assert(old_c == 0);
            assert(hk * 0 == 0) by (nonlinear_arith);
        }
    }
}

/// Renaming twice adds counts up the same way as renaming once by the
/// composed renaming.
pub proof fn lemma_relabel_compose(m: Map<Seq<u16>, nat>, f: spec_fn(Seq<u16>) -> Seq<u16>, g: spec_fn(Seq<u16>) -> Seq<u16>)
    requires
        m.dom().finite(),
    ensures
        relabel(relabel(m, f), g) == relabel(m, |w: Seq<u16>| g(f(w))),
{
    let gf = |w: Seq<u16>| g(f(w));
    let r = relabel(m, f);
    let lhs = relabel(r, g);
    let rhs = relabel(m, gf);
    assert forall|x: Seq<u16>| #[trigger] lhs.contains_key(x) <==> rhs.contains_key(x) by {
        if lhs.contains_key(x) {
            let k1 = choose|k1: Seq<u16>| r.contains_key(k1) && g(k1) == x;
            let w = choose|w: Seq<u16>| m.contains_key(w) && f(w) == k1;
            assert(m.contains_key(w) && gf(w) == x);
        }
        if rhs.contains_key(x) {
            let w = choose|w: Seq<u16>| m.contains_key(w) && gf(w) == x;
            assert(r.contains_key(f(w)));
        }
    }
    assert forall|x: Seq<u16>| lhs.contains_key(x) implies #[trigger] lhs[x] == rhs[x] by {
        let hx = |k: Seq<u16>| if g(k) == x {
            1nat
        } else {
            0nat
        };
        assert(image_weight(g, x) =~= linear_weight(hx)) by {
            assert forall|k: Seq<u16>, c: nat| #[trigger] image_weight(g, x)(k, c) == linear_weight(hx)(k, c) by {
                assert(1 * c == c) by (nonlinear_arith);
                assert(0 * c == 0) by (nonlinear_arith);
            }
        }
        lemma_relabel_sum(m, f, hx);
        assert(image_weight(gf, x) =~= linear_weight(|w: Seq<u16>| hx(f(w)))) by {
            assert forall|k: Seq<u16>, c: nat| #[trigger] image_weight(gf, x)(k, c) == linear_weight(
                |w: Seq<u16>| hx(f(w)),
            )(k, c) by {
                assert(1 * c == c) by (nonlinear_arith);
                assert(0 * c == 0) by (nonlinear_arith);
            }
        }
    }
    assert(lhs =~= rhs);
}

/// A renaming that sends no two words alike and moves each count to the new
/// name gives the renamed library.
pub proof fn lemma_transported_is_relabel(m: Map<Seq<u16>, nat>, r: Map<Seq<u16>, nat>, f: spec_fn(Seq<u16>) -> Seq<u16>)
    requires
        m.dom().finite(),
        injective_on(m, f),
        transported(m, r, f),
    ensures
        r == relabel(m, f),
{
    reveal(transported);
    let rl = relabel(m, f);
    assert forall|nk: Seq<u16>| #[trigger] r.contains_key(nk) <==> rl.contains_key(nk) by {
        if rl.contains_key(nk) {
            let w = choose|w: Seq<u16>| m.contains_key(w) && f(w) == nk;
            assert(r.contains_key(f(w)));
        }
    }
    assert forall|nk: Seq<u16>| r.contains_key(nk) implies #[trigger] r[nk] == rl[nk] by {
        let w = choose|w: Seq<u16>| m.contains_key(w) && f(w) == nk;
        assert(r.contains_key(f(w)));
        assert forall|j: Seq<u16>| m.contains_key(j) && j != w implies image_weight(f, nk)(j, m[j]) == 0 by {
            if f(j) == nk {
                assert(f(j) == f(w));
            }
        }
        lemma_map_sum_single(m, image_weight(f, nk), w);
    }
    assert(r =~= rl);
}

/// Renaming words keeps the total count.
pub proof fn lemma_relabel_count(m: Map<Seq<u16>, nat>, f: spec_fn(Seq<u16>) -> Seq<u16>)
    requires
        m.dom().finite(),
    ensures
        map_sum(relabel(m, f), count_weight()) == map_sum(m, count_weight()),
{
    let one = |k: Seq<u16>| 1nat;
    lemma_relabel_sum(m, f, one);
    lemma_relabel_finite(m, f);
    let r = relabel(m, f);
    assert forall|k: Seq<u16>| r.contains_key(k) implies count_weight()(k, r[k]) == linear_weight(one)(k, r[k]) by {
        let c = r[k];
        assert(1 * c == c) by (nonlinear_arith);
    }
    lemma_map_sum_agree(r, count_weight(), linear_weight(one));
    assert forall|k: Seq<u16>| m.contains_key(k) implies count_weight()(k, m[k]) == linear_weight(
        |w: Seq<u16>| one(f(w)),
    )(k, m[k]) by {
        let c = m[k];
        assert(1 * c == c) by (nonlinear_arith);
    }
    lemma_map_sum_agree(m, count_weight(), linear_weight(|w: Seq<u16>| one(f(w))));
}

/// Renaming nothing changes nothing.
pub proof fn lemma_relabel_identity(m: Map<Seq<u16>, nat>)
    requires
        m.dom().finite(),
    ensures
        relabel(m, |k: Seq<u16>| k) == m,
{
    let f = |k: Seq<u16>| k;
    let rl = relabel(m, f);
    assert forall|nk: Seq<u16>| #[trigger] rl.contains_key(nk) <==> m.contains_key(nk) by {
        if m.contains_key(nk) {
            assert(f(nk) == nk);
        }
    }
    assert forall|nk: Seq<u16>| m.contains_key(nk) implies #[trigger] rl[nk] == m[nk] by {
        lemma_map_sum_single(m, image_weight(f, nk), nk);
    }
    assert(rl =~= m);
}

/// Renaming every word of `m` to itself changes nothing.
pub proof fn lemma_relabel_fixed(m: Map<Seq<u16>, nat>, f: spec_fn(Seq<u16>) -> Seq<u16>)
    requires
        m.dom().finite(),
        forall|k: Seq<u16>| #[trigger] m.contains_key(k) ==> f(k) == k,
    ensures
        relabel(m, f) == m,
{
    let rl = relabel(m, f);
    assert forall|nk: Seq<u16>| #[trigger] rl.contains_key(nk) <==> m.contains_key(nk) by {
        if m.contains_key(nk) {
            assert(f(nk) == nk);
        }
        if rl.contains_key(nk) {
            let k = choose|k: Seq<u16>| m.contains_key(k) && f(k) == nk;
            assert(f(k) == k);
        }
    }
    assert forall|nk: Seq<u16>| m.contains_key(nk) implies #[trigger] rl[nk] == m[nk] by {
        assert forall|j: Seq<u16>| m.contains_key(j) && j != nk implies image_weight(f, nk)(j, m[j]) == 0 by {
            assert(f(j) == j);
        }
        assert(f(nk) == nk);
        lemma_map_sum_single(m, image_weight(f, nk), nk);
    }
    assert(rl =~= m);
}

/// `f` renames no two words of `m` alike.
pub open spec fn injective_on(m: Map<Seq<u16>, nat>, f: spec_fn(Seq<u16>) -> Seq<u16>) -> bool {
    forall|a: Seq<u16>, b: Seq<u16>|
        m.contains_key(a) && m.contains_key(b) && #[trigger] f(a) == #[trigger] f(b) ==> a == b
}

/// A merge into a token that occurs in no word renames no two words alike.
pub proof fn lemma_replace_injective(m: Map<Seq<u16>, nat>, from: Seq<u16>, to: u16)
    requires
        from.len() > 0,
        free_of(m, to),
    ensures
        injective_on(m, replace_fn(from, to)),
{
    assert forall|a: Seq<u16>, b: Seq<u16>|
        m.contains_key(a) && m.contains_key(b) && #[trigger] replace_fn(from, to)(a)
            == #[trigger] replace_fn(from, to)(b) implies a == b by {
        lemma_expand_undoes_replace(a, from, to);
        lemma_expand_undoes_replace(b, from, to);
    }
}

/// Writing the renamed entries of an enumeration, with a renaming that
/// sends no two words to the same name, transports the map.
proof fn lemma_set_entries_prefix(
    l: Seq<(Seq<u16>, nat)>,
    m: Map<Seq<u16>, nat>,
    f: spec_fn(Seq<u16>) -> Seq<u16>,
    n: int,
)
    requires
        0 <= n <= l.len(),
        is_enumeration(l, m),
        injective_on(m, f),
    ensures
        forall|j: int| 0 <= j < n ==> #[trigger] set_entries(Map::empty(), l.take(n), f).contains_key(f(l[j].0))
            && set_entries(Map::empty(), l.take(n), f)[f(l[j].0)] == l[j].1,
        forall|nk: Seq<u16>| #[trigger] set_entries(Map::empty(), l.take(n), f).contains_key(nk)
            ==> exists|j: int| 0 <= j < n && f(l[j].0) == nk,
    decreases n,
{
    if n == 0 {
        assert(l.take(0) =~= Seq::<(Seq<u16>, nat)>::empty());
    } else {
        lemma_set_entries_prefix(l, m, f, n - 1);
        assert(l.take(n).drop_last() =~= l.take(n - 1));
        assert(l.take(n).last() == l[n - 1]);
        let prev = set_entries(Map::<Seq<u16>, nat>::empty(), l.take(n - 1), f);
        let cur = set_entries(Map::<Seq<u16>, nat>::empty(), l.take(n), f);
        assert(cur == prev.insert(f(l[n - 1].0), l[n - 1].1));
        assert forall|j: int| 0 <= j < n implies #[trigger] cur.contains_key(f(l[j].0))
            && cur[f(l[j].0)] == l[j].1 by {
            if j < n - 1 {
                assert(m.contains_key(l[j].0));
                assert(m.contains_key(l[n - 1].0));
                assert(l[j].0 != l[n - 1].0);
                assert(f(l[j].0) != f(l[n - 1].0));
                assert(prev.contains_key(f(l[j].0)));
            }
        }
        assert forall|nk: Seq<u16>| #[trigger] cur.contains_key(nk) implies exists|j: int|
            0 <= j < n && f(l[j].0) == nk by {
            if nk != f(l[n - 1].0) {
                assert(prev.contains_key(nk));
                let j = choose|j: int| 0 <= j < n - 1 && f(l[j].0) == nk;
                assert(0 <= j < n && f(l[j].0) == nk);
            }
        }
    }
}

/// Counting the renamed entries of an enumeration one by one adds up,
/// under each new name, the counts of the words renamed to it.
proof fn lemma_renamed_counts(
    st: CounterState,
    l: Seq<(Seq<u16>, nat)>,
    f: spec_fn(Seq<u16>) -> Seq<u16>,
    n: int,
)
    requires
        0 <= n <= l.len(),
    ensures
        forall|nk: Seq<u16>| #[trigger] count_of(add_entries(st, renamed(l, f).take(n)).0, nk)
            == count_of(st.0, nk) + entry_sum(l.take(n), image_weight(f, nk)),
        forall|nk: Seq<u16>| #[trigger] add_entries(st, renamed(l, f).take(n)).0.contains_key(nk)
            <==> st.0.contains_key(nk) || exists|j: int| 0 <= j < n && f(l[j].0) == nk,
        st.0.dom().finite() ==> add_entries(st, renamed(l, f).take(n)).0.dom().finite(),
    decreases n,
{
    let rl = renamed(l, f);
    if n == 0 {
        assert(rl.take(0) =~= Seq::<(Seq<u16>, nat)>::empty());
        assert(l.take(0) =~= Seq::<(Seq<u16>, nat)>::empty());
    } else {
        lemma_renamed_counts(st, l, f, n - 1);
        assert(rl.take(n).drop_last() =~= rl.take(n - 1));
        assert(l.take(n).drop_last() =~= l.take(n - 1));
        assert(rl.take(n).last() == (f(l[n - 1].0), l[n - 1].1));
        assert(l.take(n).last() == l[n - 1]);
        let prev = add_entries(st, rl.take(n - 1));
        assert forall|nk: Seq<u16>| #[trigger] count_of(add_entries(st, rl.take(n)).0, nk)
            == count_of(st.0, nk) + entry_sum(l.take(n), image_weight(f, nk)) by {
            assert(count_of(prev.0, nk) == count_of(st.0, nk) + entry_sum(l.take(n - 1), image_weight(f, nk)));
        }
        assert forall|nk: Seq<u16>| #[trigger] add_entries(st, rl.take(n)).0.contains_key(nk)
            <==> st.0.contains_key(nk) || exists|j: int| 0 <= j < n && f(l[j].0) == nk by {
            assert(prev.0.contains_key(nk) <==> st.0.contains_key(nk) || exists|j: int|
                0 <= j < n - 1 && f(l[j].0) == nk);
            if exists|j: int| 0 <= j < n && f(l[j].0) == nk {
                let j = choose|j: int| 0 <= j < n && f(l[j].0) == nk;
                if j < n - 1 {
                    assert(exists|j: int| 0 <= j < n - 1 && f(l[j].0) == nk);
                }
            }
        }
    }
}

/// The windows of `t` of length `n`, each as its own token sequence.
pub(crate) fn windows_of(t: &[u16], n: usize) -> (r: Vec<Token>)
    requires
        n >= 1,
    ensures
        token_views(r@) == windows(t@, n as nat),
{
    let mut r: Vec<Token> = Vec::new();
    if t.len() >= n {
        let count = t.len() - n + 1;
        let tl = t.len();
        let mut i: usize = 0;
        while i < count
            invariant
                tl == t@.len(),
                t@.len() >= n,
                count == t@.len() - n + 1,
                i <= count,
                token_views(r@) == windows(t@, n as nat).take(i as int),
            decreases count - i,
        {
            let w = vstd::slice::slice_to_vec(&t[i..i + n]);
            assert(w@ == windows(t@, n as nat)[i as int]);
            let ghost prev = r@;
            let ghost wv = w;
            r.push(w);
            assert(r@ == prev.push(wv));
            assert(windows(t@, n as nat).len() == count);
            assert(windows(t@, n as nat).take(i as int).len() == i);
            assert(token_views(prev).len() == prev.len());
            assert(prev.len() == i);
            i += 1;
            assert forall|j: int| 0 <= j < i implies #[trigger] token_views(r@)[j] == windows(
                t@,
                n as nat,
            ).take(i as int)[j] by {
                if j < i - 1 {
                    assert(token_views(prev)[j] == windows(t@, n as nat).take(i - 1)[j]);
                    assert(r@[j] == prev[j]);
                }
            }
            assert(token_views(r@) =~= windows(t@, n as nat).take(i as int));
        }
        assert(windows(t@, n as nat).take(i as int) =~= windows(t@, n as nat));
    } else {
        assert(token_views(r@) =~= windows(t@, n as nat));
    }
    r
}

/// Finds the most commonly occurring pair of adjacent tokens in the
/// library, each word weighted by its count: `None` exactly when no word
/// has two tokens; otherwise a pair of greatest count, with that count.
/// Which of several equally common pairs comes back is not stated.
pub fn find_candidate(library: &Counter) -> (r: Option<(Token, usize)>)
    requires
        library.wf(),
        window_counts_fit(library@),
    ensures
        match r {
            None => forall|k: Seq<u16>| #[trigger] library@.contains_key(k) ==> k.len() < 2,
            Some(e) => {
                &&& e.0@.len() == 2
                &&& e.1 as nat == window_count(library@, e.0@)
                &&& exists|k: Seq<u16>| library@.contains_key(k) && #[trigger] windows(k, 2).contains(e.0@)
                &&& forall|q: Seq<u16>| q.len() == 2 ==> #[trigger] window_count(library@, q) <= e.1
            },
        },
{
    let es = library.entries();
    let ghost l = entry_views(es@);
    let ghost lib = library@;
    let mut pair_counts = Counter::new();
    let mut i: usize = 0;
    assert(l.take(0) =~= Seq::<(Seq<u16>, nat)>::empty());
    while i < es.len()
        invariant
            i <= es@.len(),
            l == entry_views(es@),
            lib == library@,
            library.wf(),
            is_enumeration(l, lib),
            window_counts_fit(lib),
            pair_counts.wf(),
            pair_counts.consistent(),
            forall|q: Seq<u16>| #[trigger] count_of(pair_counts@, q) == if q.len() == 2 {
                entry_sum(l.take(i as int), window_weight(q))
            } else {
                0
            },
            forall|q: Seq<u16>| #[trigger] pair_counts@.contains_key(q) <==> exists|j: int|
                0 <= j < i && windows(l[j].0, 2).contains(q),
        decreases es@.len() - i,
    {
        let items = windows_of(&es[i].0, 2);
        let w = es[i].1;
        let ghost wv = token_views(items@);
        let ghost st = pair_counts.state();
        proof {
            assert(l[i as int].0 == es@[i as int].0@);
            assert(l[i as int].1 == w as nat);
            assert(l.take(i + 1).drop_last() =~= l.take(i as int));
            assert(l.take(i + 1).last() == l[i as int]);
            assert forall|q: Seq<u16>|
                count_of(pair_counts@, q) + w * #[trigger] occurrences(wv, q) <= usize::MAX by {
                if q.len() == 2 {
                    lemma_entry_sum_prefix(l, window_weight(q), i + 1);
                    lemma_enumeration_sum(l, lib, window_weight(q));
                    assert(window_count(lib, q) <= usize::MAX);
                } else {
                    lemma_windows_other_length(l[i as int].0, 2, q);
                    assert(w * 0 == 0) by (nonlinear_arith);
                }
            }
        }
        pair_counts.update_weighted(items, w);
        proof {
            lemma_add_items(st, wv, w as nat);
            assert forall|q: Seq<u16>| #[trigger] count_of(pair_counts@, q) == if q.len() == 2 {
                entry_sum(l.take(i + 1), window_weight(q))
            } else {
                0
            } by {
                assert(count_of(add_items(st, wv, w as nat).0, q) == count_of(st.0, q) + w * occurrences(wv, q));
                if q.len() != 2 {
                    lemma_windows_other_length(l[i as int].0, 2, q);
                    assert(w * 0 == 0) by (nonlinear_arith);
                }
            }
            assert forall|q: Seq<u16>| #[trigger] pair_counts@.contains_key(q) <==> exists|j: int|
                0 <= j < i + 1 && windows(l[j].0, 2).contains(q) by {
                assert(add_items(st, wv, w as nat).0.contains_key(q) <==> st.0.contains_key(q) || wv.contains(q));
                if exists|j: int| 0 <= j < i + 1 && windows(l[j].0, 2).contains(q) {
                    let j = choose|j: int| 0 <= j < i + 1 && windows(l[j].0, 2).contains(q);
                    if j < i {
                        assert(exists|j: int| 0 <= j < i && windows(l[j].0, 2).contains(q));
                    }
                }
            }
        }
        i += 1;
    }
    proof {
        assert(l.take(i as int) =~= l);
        assert forall|q: Seq<u16>| q.len() == 2 implies #[trigger] count_of(pair_counts@, q) == window_count(lib, q) by {
            lemma_enumeration_sum(l, lib, window_weight(q));
        }
    }
    let best = pair_counts.most_common();
    proof {
        if best is None {
                assert forall|k: Seq<u16>| #[trigger] lib.contains_key(k) implies k.len() < 2 by {
                    let j = choose|j: int| 0 <= j < l.len() && #[trigger] l[j].0 == k;
                    if k.len() >= 2 {
                        assert(windows(k, 2)[0] == k.subrange(0, 2));
                        assert(windows(l[j].0, 2).contains(k.subrange(0, 2)));
                        assert(pair_counts@.contains_key(k.subrange(0, 2)));
                    }
                }
        } else {
                let e = best->0;
                let p = e.0@;
                assert(pair_counts@.contains_key(p));
                let j = choose|j: int| 0 <= j < l.len() && windows(l[j].0, 2).contains(p);
                assert(lib.contains_key(l[j].0));
                if p.len() != 2 {
                    lemma_windows_other_length(l[j].0, 2, p);
                }
                assert(count_of(pair_counts@, p) == window_count(lib, p));
                assert forall|q: Seq<u16>| q.len() == 2 implies #[trigger] window_count(lib, q) <= e.1 by {
                    assert(count_of(pair_counts@, q) == window_count(lib, q));
                }
        }
    }
    best
}

/// Counts how often `t` occurs in `word`.
fn count_token(word: &[u16], t: u16) -> (r: usize)
    ensures
        r as nat == token_occurrences(word@, t),
{
    let mut count: usize = 0;
    let mut i: usize = 0;
    assert(word@.take(0) =~= Seq::<u16>::empty());
    while i < word.len()
        invariant
            i <= word@.len(),
            count <= i,
            count as nat == token_occurrences(word@.take(i as int), t),
        decreases word@.len() - i,
    {
        assert(word@.take(i + 1).drop_last() =~= word@.take(i as int));
        if word[i] == t {
            count += 1;
        }
        i += 1;
    }
    assert(word@.take(i as int) =~= word@);
    count
}

/// Counts how often a token occurs inside the library, each word weighted
/// by its count.
pub fn token_freq(library: &Counter, token_id: u16) -> (r: usize)
    requires
        library.wf(),
        token_frequency(library@, token_id) <= usize::MAX,
    ensures
        r as nat == token_frequency(library@, token_id),
{
    let es = library.entries();
    let ghost l = entry_views(es@);
    let ghost g = token_weight(token_id);
    proof {
        lemma_enumeration_sum(l, library@, g);
    }
    let mut sum: usize = 0;
    let mut i: usize = 0;
    while i < es.len()
        invariant
            i <= es@.len(),
            l == entry_views(es@),
            g == token_weight(token_id),
            sum as nat == entry_sum(l.take(i as int), g),
            entry_sum(l, g) <= usize::MAX,
        decreases es@.len() - i,
    {
        let n = count_token(&es[i].0, token_id);
        proof {
            lemma_entry_sum_prefix(l, g, i + 1);
            assert(l.take(i + 1).drop_last() =~= l.take(i as int));
            assert(l.take(i + 1).last() == l[i as int]);
            assert(l[i as int] == (es@[i as int].0@, es@[i as int].1 as nat));
        }
        sum = sum + es[i].1 * n;
        i += 1;
    }
    assert(l.take(i as int) =~= l);
    sum
}

/// The two terms of the fertility of a library: the number of tokens across
/// it, and the number of words counted. Fertility is the first over the second.
pub fn fertility_terms(library: &Counter) -> (r: (usize, usize))
    requires
        library.wf(),
        total_length(library@) <= usize::MAX,
        map_sum(library@, count_weight()) <= usize::MAX,
    ensures
        r.0 as nat == total_length(library@),
        r.1 as nat == map_sum(library@, count_weight()),
{
    let es = library.entries();
    let ghost l = entry_views(es@);
    let ghost g = length_weight();
    proof {
        lemma_enumeration_sum(l, library@, g);
    }
    let mut sum: usize = 0;
    let mut i: usize = 0;
    while i < es.len()
        invariant
            i <= es@.len(),
            l == entry_views(es@),
            g == length_weight(),
            sum as nat == entry_sum(l.take(i as int), g),
            entry_sum(l, g) <= usize::MAX,
        decreases es@.len() - i,
    {
        proof {
            lemma_entry_sum_prefix(l, g, i + 1);
            assert(l.take(i + 1).drop_last() =~= l.take(i as int));
            assert(l.take(i + 1).last() == l[i as int]);
            assert(l[i as int] == (es@[i as int].0@, es@[i as int].1 as nat));
        }
        sum = sum + es[i].0.len() * es[i].1;
        i += 1;
    }
    assert(l.take(i as int) =~= l);
    (sum, library.total())
}

/// Merges the run `from` into the token `to` in every word of the library.
/// Each renamed word is written with its count, a later write of the same
/// new word replacing an earlier one; the cached most common entry is
/// renamed too. When `to` occurs in no word, no two words get the same new
/// name, so the counts move unchanged to the new names.
pub fn replace_in_library(library: &Counter, from: &[u16], to: u16) -> (r: Counter)
    requires
        library.wf(),
        from@.len() > 0,
    ensures
        r.wf(),
        merged_into(library@, from@, to, r@),
        r.cached() == match library.cached() {
            Some(e) => Some((replace_seq(e.0, from@, to), e.1)),
            None => None,
        },
        free_of(library@, to) ==> transported(library@, r@, replace_fn(from@, to)),
        free_of(library@, to) && library.consistent() ==> r.consistent(),
        total_length(r@) <= total_length(library@),
{
    let es = library.entries();
    let ghost l = entry_views(es@);
    let ghost f = replace_fn(from@, to);
    let mut new_library = Counter::with_capacity(library.len());
    let mut i: usize = 0;
    assert(l.take(0) =~= Seq::<(Seq<u16>, nat)>::empty());
    proof {
        lemma_map_sum_single(new_library@, length_weight(), Seq::empty());
    }
    while i < es.len()
        invariant
            i <= es@.len(),
            l == entry_views(es@),
            f == replace_fn(from@, to),
            from@.len() > 0,
            new_library.wf(),
            new_library@ == set_entries(Map::empty(), l.take(i as int), f),
            total_length(new_library@) <= entry_sum(l.take(i as int), length_weight()),
        decreases es@.len() - i,
    {
        let new_key = replace(&es[i].0, from, to);
        let ghost m = new_library@;
        proof {
            assert(l.take(i + 1).drop_last() =~= l.take(i as int));
            assert(l.take(i + 1).last() == l[i as int]);
            assert(l[i as int] == (es@[i as int].0@, es@[i as int].1 as nat));
            lemma_map_sum_insert(m, length_weight(), new_key@, es@[i as int].1 as nat);
            lemma_replace_tokens(es@[i as int].0@, from@, to);
            let a = new_key@.len();
            let b = es@[i as int].0@.len();
            let c = es@[i as int].1 as nat;
            assert(a * c <= b * c) by (nonlinear_arith)
                requires
                    a <= b,
            ;
        }
        new_library.set(new_key, es[i].1);
        i += 1;
    }
    assert(l.take(i as int) =~= l);
    proof {
        lemma_enumeration_sum(l, library@, length_weight());
    }
    let cm = library.most_common();
    match cm {
        Some(e) => {
            let k = replace(&e.0, from, to);
            new_library.set_most_common(Some((k, e.1)));
        },
        None => {
            new_library.set_most_common(None);
        },
    }
    proof {
        reveal(transported);
        if free_of(library@, to) {
            lemma_replace_injective(library@, from@, to);
            lemma_set_entries_prefix(l, library@, f, l.len() as int);
            let lib = library@;
            let nl = new_library@;
            assert forall|k: Seq<u16>| #[trigger] lib.contains_key(k) implies nl.contains_key(f(k))
                && nl[f(k)] == lib[k] by {
                let j = choose|j: int| 0 <= j < l.len() && #[trigger] l[j].0 == k;
                assert(nl.contains_key(f(l[j].0)));
            }
            assert forall|nk: Seq<u16>| #[trigger] nl.contains_key(nk) implies exists|k: Seq<u16>|
                lib.contains_key(k) && f(k) == nk by {
                let j = choose|j: int| 0 <= j < l.len() && f(l[j].0) == nk;
                assert(lib.contains_key(l[j].0));
            }
            if library.consistent() {
                match library.cached() {
                    Some(e) => {
                        assert(nl.contains_key(f(e.0)));
                        assert forall|j: Seq<u16>| #[trigger] nl.contains_key(j) implies nl[j] <= e.1 by {
                            let k = choose|k: Seq<u16>| lib.contains_key(k) && f(k) == j;
                            assert(lib.contains_key(k));
                        }
                    },
                    None => {
                        if !nl.dom().is_empty() {
                            let nk = nl.dom().choose();
                            assert(nl.contains_key(nk));
                            let k = choose|k: Seq<u16>| lib.contains_key(k) && f(k) == nk;
                            assert(lib.dom().contains(k));
                        }
                    },
                }
            }
        }
    }
    new_library
}

/// Expands the token `token_id` into `expansion` in every word of the
/// library; words that become equal have their counts added up, and the
/// cached most common entry is rebuilt from the new counts.
pub fn expand_in_library(library: &Counter, token_id: u16, expansion: &[u16]) -> (r: Counter)
    requires
        library.wf(),
        forall|nk: Seq<u16>|
            #[trigger] map_sum(library@, image_weight(expand_fn(token_id, expansion@), nk)) <= usize::MAX,
    ensures
        r.wf(),
        r@ == relabel(library@, expand_fn(token_id, expansion@)),
        r.consistent(),
{
    let es = library.entries();
    let ghost l = entry_views(es@);
    let ghost f = expand_fn(token_id, expansion@);
    let ghost st0 = (Map::<Seq<u16>, nat>::empty(), None::<(Seq<u16>, nat)>);
    let mut new_library = Counter::with_capacity(library.len());
    let mut i: usize = 0;
    assert(renamed(l, f).take(0) =~= Seq::<(Seq<u16>, nat)>::empty());
    while i < es.len()
        invariant
            i <= es@.len(),
            l == entry_views(es@),
            library.wf(),
            is_enumeration(l, library@),
            f == expand_fn(token_id, expansion@),
            st0 == (Map::<Seq<u16>, nat>::empty(), None::<(Seq<u16>, nat)>),
            forall|nk: Seq<u16>| #[trigger] map_sum(library@, image_weight(f, nk)) <= usize::MAX,
            new_library.wf(),
            new_library.state() == add_entries(st0, renamed(l, f).take(i as int)),
        decreases es@.len() - i,
    {
        let new_key = expand(&es[i].0, token_id, expansion);
        let ghost nk = new_key@;
        proof {
            assert(l[i as int] == (es@[i as int].0@, es@[i as int].1 as nat));
            lemma_renamed_counts(st0, l, f, i as int);
            lemma_entry_sum_prefix(l, image_weight(f, nk), i + 1);
            lemma_enumeration_sum(l, library@, image_weight(f, nk));
            assert(l.take(i + 1).drop_last() =~= l.take(i as int));
            assert(l.take(i + 1).last() == l[i as int]);
            assert(new_library@ == add_entries(st0, renamed(l, f).take(i as int)).0);
            assert(count_of(new_library@, nk) == entry_sum(l.take(i as int), image_weight(f, nk)));
            assert(renamed(l, f).take(i + 1).drop_last() =~= renamed(l, f).take(i as int));
            assert(renamed(l, f).take(i + 1).last() == (nk, l[i as int].1));
        }
        let mut one: Vec<Token> = Vec::new();
        one.push(new_key);
        let ghost st = new_library.state();
        proof {
            assert(f(l[i as int].0) == expand_seq(l[i as int].0, token_id, expansion@));
            assert(f(l[i as int].0) == nk);
            assert(image_weight(f, nk)(l[i as int].0, l[i as int].1) == l[i as int].1);
            assert(entry_sum(l.take(i + 1), image_weight(f, nk)) == entry_sum(l.take(i as int), image_weight(f, nk)) + l[i as int].1);
            assert(es@[i as int].1 * 1 == es@[i as int].1) by (nonlinear_arith);
            assert(token_views(one@) =~= seq![nk]);
            assert(seq![nk].drop_last() =~= Seq::<Seq<u16>>::empty());
            let tv = token_views(one@);
            assert(tv.drop_last() =~= Seq::<Seq<u16>>::empty());
            assert(tv.last() == nk);
            assert(occurrences(Seq::<Seq<u16>>::empty(), nk) == 0);
            assert forall|q: Seq<u16>| count_of(new_library@, q) + es@[i as int].1 * #[trigger] occurrences(
                tv,
                q,
            ) <= usize::MAX by {
                assert(occurrences(Seq::<Seq<u16>>::empty(), q) == 0);
                assert(occurrences(tv, q) == occurrences(tv.drop_last(), q) + if tv.last() == q {
                    1nat
                } else {
                    0nat
                });
                if q != nk {
                    assert(es@[i as int].1 * 0 == 0) by (nonlinear_arith);
                    assert(occurrences(tv, q) == 0);
                    assert(es@[i as int].1 * occurrences(tv, q) == es@[i as int].1 * 0);
                } else {
                    assert(occurrences(tv, q) == 1);
                    assert(map_sum(library@, image_weight(f, nk)) <= usize::MAX);
                    assert(entry_sum(l, image_weight(f, nk)) == map_sum(library@, image_weight(f, nk)));
                    assert(entry_sum(l.take(i + 1), image_weight(f, nk)) <= entry_sum(l, image_weight(f, nk)));
                    assert(count_of(new_library@, q) == entry_sum(l.take(i as int), image_weight(f, nk)));
                    assert(count_of(new_library@, q) + es@[i as int].1 <= usize::MAX);
                    assert(es@[i as int].1 * occurrences(tv, q) == es@[i as int].1 * 1);
                }
            }
        }
        new_library.update_weighted(one, es[i].1);
        proof {
            assert(token_views(one@).drop_last() =~= Seq::<Seq<u16>>::empty());
            assert(add_items(st, Seq::<Seq<u16>>::empty(), es@[i as int].1 as nat) == st);
            assert(token_views(one@).last() == nk);
            assert(add_items(st, token_views(one@), es@[i as int].1 as nat) == add_one(st, nk, es@[i as int].1 as nat));
        }
        i += 1;
    }
    proof {
        let n = l.len() as int;
        assert(l.take(n) =~= l);
        assert(renamed(l, f).take(n) =~= renamed(l, f));
        lemma_renamed_counts(st0, l, f, n);
        lemma_add_entries_consistent(st0, renamed(l, f));
        let nl = new_library@;
        assert forall|nk: Seq<u16>| #[trigger] nl.contains_key(nk) <==> relabel(library@, f).contains_key(nk) by {
            assert(add_entries(st0, renamed(l, f).take(n)).0.contains_key(nk) <==> st0.0.contains_key(nk)
                || exists|j: int| 0 <= j < n && f(l[j].0) == nk);
            if exists|k: Seq<u16>| library@.contains_key(k) && f(k) == nk {
                let k = choose|k: Seq<u16>| library@.contains_key(k) && f(k) == nk;
                let j = choose|j: int| 0 <= j < l.len() && #[trigger] l[j].0 == k;
                assert(f(l[j].0) == nk);
            }
            if exists|j: int| 0 <= j < n && f(l[j].0) == nk {
                let j = choose|j: int| 0 <= j < n && f(l[j].0) == nk;
                assert(library@.contains_key(l[j].0));
            }
        }
        assert forall|nk: Seq<u16>| #[trigger] nl.contains_key(nk) implies nl[nk] == relabel(library@, f)[nk] by {
            lemma_enumeration_sum(l, library@, image_weight(f, nk));
            assert(count_of(add_entries(st0, renamed(l, f).take(n)).0, nk) == count_of(st0.0, nk) + entry_sum(
                l.take(n),
                image_weight(f, nk),
            ));
        }
        assert(nl =~= relabel(library@, f));
    }
    new_library
}

/// How many of the steps `0..n` print a ticker mark in a run of `max_items` steps.
pub open spec fn marks_before(max_items: u16, n: nat) -> nat
    decreases n,
{
    if n == 0 {
        0
    } else {
        marks_before(max_items, (n - 1) as nat) + if ((n - 1) as int) % (1 + (max_items as int) / 79) == 0 {
            1nat
        } else {
            0nat
        }
    }
}

/// The marks before step `n` are the multiples of the step width below `n`.
proof fn lemma_marks_before(max_items: u16, n: nat)
    ensures
        marks_before(max_items, n) == (n + (max_items as int) / 79) / (1 + (max_items as int) / 79),
    decreases n,
{
    let s = 1 + (max_items as int) / 79;
    if n > 0 {
        lemma_marks_before(max_items, (n - 1) as nat);
        let a = (n - 1) as int;
        let q = a / s;
        let r = a % s;
        assert(a == q * s + r && 0 <= r < s) by (nonlinear_arith)
            requires
                s >= 1,
                q == a / s,
                r == a % s,
        ;
        assert((a + s - 1) / s == q + (if r > 0 { 1int } else { 0int })) by (nonlinear_arith)
            requires
                s >= 1,
                a == q * s + r,
                0 <= r < s,
        ;
        assert((a + s) / s == q + 1) by (nonlinear_arith)
            requires
                s >= 1,
                a == q * s + r,
                0 <= r < s,
        ;
        let prev = marks_before(max_items, (n - 1) as nat);
        assert(((n - 1) as nat) + (max_items as int) / 79 == a + s - 1);
        assert(prev == (a + s - 1) / s);
        assert(marks_before(max_items, n) == prev + if r == 0 {
            1nat
        } else {
            0nat
        });
        assert(n + (max_items as int) / 79 == a + s);
    } else {
        assert((s - 1) / s == 0) by (nonlinear_arith)
            requires
                s >= 1,
        ;
    }
}

/// A run of the progress ticker prints one mark per step width, that is
/// the ceiling of the number of steps over `1 + max_items / 79`: at most
/// 79 marks, so that they fit in 80 columns, at least 40 once it has 79
/// steps or more, and 77 over a run of 1000 steps.
pub proof fn lemma_ticker_marks(max_items: u16)
    ensures
        marks_before(max_items, max_items as nat) == (max_items + (1 + (max_items as int) / 79) - 1) / (1
            + (max_items as int) / 79),
        marks_before(max_items, max_items as nat) <= 79,
        max_items >= 79 ==> marks_before(max_items, max_items as nat) >= 40,
        max_items == 1000 ==> marks_before(max_items, max_items as nat) == 77,
{
    lemma_marks_before(max_items, max_items as nat);
    let m = max_items as int;
    let s = 1 + m / 79;
    let c = (m + s - 1) / s;
    assert(79 * (s - 1) <= m < 79 * s) by (nonlinear_arith)
        requires
            s == 1 + m / 79,
            m >= 0,
    ;
    assert(c <= 79) by (nonlinear_arith)
        requires
            s >= 1,
            m < 79 * s,
            c == (m + s - 1) / s,
    ;
    if m == 1000 {
        assert(s == 13);
        assert(c == 1012int / 13);
        assert(1012int / 13 == 77) by (nonlinear_arith);
    }
    if m >= 79 {
        assert(c >= 40) by (nonlinear_arith)
            requires
                s >= 2,
                79 * (s - 1) <= m,
                c == (m + s - 1) / s,
        ;
    }
}

/// Whether the progress ticker prints at step `i` of `max_items`: roughly
/// eighty marks over the whole run.
pub fn ticker_due(max_items: u16, i: u16) -> (r: bool)
    ensures
        r == ((i as int) % (1 + (max_items as int) / 79) == 0),
{
    i % (1 + max_items / (80 - 1)) == 0
}

} // verus!
