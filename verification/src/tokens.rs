//! Token sequences and the two rewrites on them: merging a run of tokens
//! into one token, and expanding one token back into a run.

use vstd::prelude::*;

verus! {

/// A token sequence: ids below [`BASE_TOKENS`] are raw bytes, the others
/// stand for learned merges.
pub type Token = Vec<u16>;

/// Number of raw byte tokens; learned tokens are numbered from here.
pub const BASE_TOKENS: u16 = 256;

/// `s` with every occurrence of `from` replaced by the single token `to`,
/// scanning left to right and resuming after each replaced run.
pub open spec fn replace_seq(s: Seq<u16>, from: Seq<u16>, to: u16) -> Seq<u16>
    decreases s.len(),
{
    if s.len() == 0 {
        Seq::empty()
    } else if 0 < from.len() <= s.len() && s.take(from.len() as int) == from {
        seq![to] + replace_seq(s.skip(from.len() as int), from, to)
    } else {
        seq![s[0]] + replace_seq(s.skip(1), from, to)
    }
}

/// `s` with every occurrence of the token `from` replaced by the run `to`.
pub open spec fn expand_seq(s: Seq<u16>, from: u16, to: Seq<u16>) -> Seq<u16>
    decreases s.len(),
{
    if s.len() == 0 {
        Seq::empty()
    } else {
        (if s[0] == from {
            to
        } else {
            seq![s[0]]
        }) + expand_seq(s.skip(1), from, to)
    }
}

/// Whether `pat` occurs in `s` starting at `i`.
pub open spec fn occurs_at(s: Seq<u16>, pat: Seq<u16>, i: int) -> bool {
    0 <= i && i + pat.len() <= s.len() && s.subrange(i, i + pat.len()) == pat
}

/// Whether `s[i..i + pat.len()]` equals `pat`.
pub(crate) fn matches_at(s: &[u16], pat: &[u16], i: usize) -> (r: bool)
    requires
        i + pat@.len() <= s@.len(),
    ensures
        r == (s@.subrange(i as int, i + pat@.len()) == pat@),
{
    let n = s.len();
    let mut j: usize = 0;
    while j < pat.len()
        invariant
            n == s@.len(),
            i + pat@.len() <= s@.len(),
            j <= pat@.len(),
            forall|k: int| 0 <= k < j ==> s@[i + k] == pat@[k],
        decreases pat@.len() - j,
    {
        if s[i + j] != pat[j] {
            assert(s@.subrange(i as int, i + pat@.len())[j as int] != pat@[j as int]);
            return false;
        }
        j += 1;
    }
    assert(s@.subrange(i as int, i + pat@.len()) =~= pat@);
    true
}

/// Turns several elements into one element: every run equal to `from` in
/// `s`, found left to right, becomes the single token `to`.
pub fn replace(s: &[u16], from: &[u16], to: u16) -> (r: Vec<u16>)
    requires
        from@.len() > 0,
    ensures
        r@ == replace_seq(s@, from@, to),
{
    let mut result: Vec<u16> = Vec::with_capacity(s.len());
    let mut i: usize = 0;
    assert(s@.skip(0) =~= s@);
    while i < s.len()
        invariant
            from@.len() > 0,
            i <= s@.len(),
            result@ + replace_seq(s@.skip(i as int), from@, to) == replace_seq(s@, from@, to),
        decreases s@.len() - i,
    {
        let ghost rest = s@.skip(i as int);
        if from.len() <= s.len() - i && matches_at(s, from, i) {
            assert(rest.take(from@.len() as int) =~= s@.subrange(i as int, i + from@.len()));
            assert(rest.skip(from@.len() as int) =~= s@.skip(i + from@.len()));
            result.push(to);
            i += from.len();
        } else {
            assert(from@.len() <= rest.len() ==> rest.take(from@.len() as int) =~= s@.subrange(
                i as int,
                i + from@.len(),
            ));
            assert(rest.skip(1) =~= s@.skip(i + 1));
            result.push(s[i]);
            i += 1;
        }
        assert(result@ + replace_seq(s@.skip(i as int), from@, to) =~= replace_seq(
            s@,
            from@,
            to,
        ));
    }
    assert(s@.skip(i as int) =~= Seq::<u16>::empty());
    assert(result@ =~= replace_seq(s@, from@, to));
    result
}

/// Turns one element into several elements: every `from` in `s` becomes
/// the run `to`.
pub fn expand(s: &[u16], from: u16, to: &[u16]) -> (r: Vec<u16>)
    ensures
        r@ == expand_seq(s@, from, to@),
{
    let mut result: Vec<u16> = Vec::with_capacity(s.len());
    let mut i: usize = 0;
    assert(s@.skip(0) =~= s@);
    while i < s.len()
        invariant
            i <= s@.len(),
            result@ + expand_seq(s@.skip(i as int), from, to@) == expand_seq(s@, from, to@),
        decreases s@.len() - i,
    {
        let ghost rest = s@.skip(i as int);
        assert(rest.skip(1) =~= s@.skip(i + 1));
        if s[i] == from {
            result.extend_from_slice(to);
        } else {
            result.push(s[i]);
        }
        i += 1;
        assert(result@ + expand_seq(s@.skip(i as int), from, to@) =~= expand_seq(
            s@,
            from,
            to@,
        ));
    }
    assert(s@.skip(i as int) =~= Seq::<u16>::empty());
    assert(result@ =~= expand_seq(s@, from, to@));
    result
}

/// Expanding the merged token back undoes a merge: when `to` does not occur
/// in `s`, expanding `to` into `from` in `replace(s, from, to)` gives `s`.
pub proof fn lemma_expand_undoes_replace(s: Seq<u16>, from: Seq<u16>, to: u16)
    requires
        from.len() > 0,
        !s.contains(to),
    ensures
        expand_seq(replace_seq(s, from, to), to, from) == s,
    decreases s.len(),
{
    let r = replace_seq(s, from, to);
    if s.len() == 0 {
    } else if 0 < from.len() <= s.len() && s.take(from.len() as int) == from {
        let rest = s.skip(from.len() as int);
        assert forall|x: u16| rest.contains(x) implies s.contains(x) by {
            let k = choose|k: int| 0 <= k < rest.len() && rest[k] == x;
            assert(s[k + from.len()] == x);
        }
        lemma_expand_undoes_replace(rest, from, to);
        assert(r[0] == to);
        assert(r.skip(1) =~= replace_seq(rest, from, to));
        assert(s =~= from + rest);
    } else {
        let rest = s.skip(1);
        assert forall|x: u16| rest.contains(x) implies s.contains(x) by {
            let k = choose|k: int| 0 <= k < rest.len() && rest[k] == x;
            assert(s[k + 1] == x);
        }
        lemma_expand_undoes_replace(rest, from, to);
        assert(r[0] == s[0]);
        assert(s[0] != to) by {
            assert(s.contains(s[0]));
        }
        assert(r.skip(1) =~= replace_seq(rest, from, to));
        assert(s =~= seq![s[0]] + rest);
    }
}

/// A merge introduces no token but `to`, and never lengthens the sequence.
pub proof fn lemma_replace_tokens(s: Seq<u16>, from: Seq<u16>, to: u16)
    ensures
        replace_seq(s, from, to).len() <= s.len(),
        forall|x: u16| #[trigger]
            replace_seq(s, from, to).contains(x) ==> x == to || s.contains(x),
    decreases s.len(),
{
    let r = replace_seq(s, from, to);
    if s.len() == 0 {
    } else {
        let n: int = if 0 < from.len() <= s.len() && s.take(from.len() as int) == from {
            from.len() as int
        } else {
            1
        };
        let rest = s.skip(n);
        lemma_replace_tokens(rest, from, to);
        assert(r.skip(1) =~= replace_seq(rest, from, to));
        assert forall|x: u16| #[trigger] r.contains(x) implies x == to || s.contains(x) by {
            let k = choose|k: int| 0 <= k < r.len() && r[k] == x;
            if k > 0 {
                assert(r.skip(1)[k - 1] == x);
                assert(replace_seq(rest, from, to).contains(x));
                if x != to {
                    let j = choose|j: int| 0 <= j < rest.len() && rest[j] == x;
                    assert(s[j + n] == x);
                }
            } else if n == 1 && x != to {
                assert(s[0] == x);
            }
        }
    }
}

/// An expansion introduces no token but those of `to`, and removes every
/// `from` when `to` holds none.
pub proof fn lemma_expand_tokens(s: Seq<u16>, from: u16, to: Seq<u16>)
    ensures
        expand_seq(s, from, to).len() >= s.len() || to.len() == 0,
        forall|x: u16| #[trigger]
            expand_seq(s, from, to).contains(x) ==> (x != from && s.contains(x)) || to.contains(x),
    decreases s.len(),
{
    let e = expand_seq(s, from, to);
    if s.len() == 0 {
    } else {
        let rest = s.skip(1);
        lemma_expand_tokens(rest, from, to);
        let head: Seq<u16> = if s[0] == from {
            to
        } else {
            seq![s[0]]
        };
        assert(e =~= head + expand_seq(rest, from, to));
        assert forall|x: u16| #[trigger] e.contains(x) implies (x != from && s.contains(x))
            || to.contains(x) by {
            let k = choose|k: int| 0 <= k < e.len() && e[k] == x;
            if k < head.len() {
                if s[0] != from {
                    assert(s[0] == x);
                } else {
                    assert(to[k] == x);
                }
            } else {
                assert(expand_seq(rest, from, to)[k - head.len()] == x);
                assert(expand_seq(rest, from, to).contains(x));
                if !to.contains(x) {
                    let j = choose|j: int| 0 <= j < rest.len() && rest[j] == x;
                    assert(s[j + 1] == x);
                }
            }
        }
    }
}

/// A merge leaves `s` unchanged when `from` occurs nowhere in it.
pub proof fn lemma_replace_without_match(s: Seq<u16>, from: Seq<u16>, to: u16)
    requires
        forall|i: int| !occurs_at(s, from, i),
    ensures
        replace_seq(s, from, to) == s,
    decreases s.len(),
{
    if s.len() > 0 {
        if 0 < from.len() <= s.len() {
            assert(s.take(from.len() as int) =~= s.subrange(0, from.len() as int));
            assert(!occurs_at(s, from, 0));
        }
        let rest = s.skip(1);
        assert forall|i: int| !occurs_at(rest, from, i) by {
            if occurs_at(rest, from, i) {
                assert(s.subrange(i + 1, i + 1 + from.len()) =~= rest.subrange(i, i + from.len()));
                assert(occurs_at(s, from, i + 1));
            }
        }
        lemma_replace_without_match(rest, from, to);
        assert(s =~= seq![s[0]] + rest);
    }
}

} // verus!
