//! Weighted sums over the entries of a finite count map, and the fact that
//! summing an enumeration of the entries in any order gives that sum.

use vstd::prelude::*;
use vstd::set::fold::{is_fun_commutative, lemma_fold_empty, lemma_fold_insert};

verus! {

/// The step of a weighted sum: adds the weight `g` gives to key `k` with its count in `m`.
pub open spec fn sum_step(
    m: Map<Seq<u16>, nat>,
    g: spec_fn(Seq<u16>, nat) -> nat,
) -> spec_fn(nat, Seq<u16>) -> nat {
    |acc: nat, k: Seq<u16>| acc + g(k, m[k])
}

/// The weight of an entry that is its count.
pub open spec fn count_weight() -> spec_fn(Seq<u16>, nat) -> nat {
    |k: Seq<u16>, c: nat| c
}

/// Σ over the keys `k` of `m` of `g(k, m[k])`.
pub open spec fn map_sum(m: Map<Seq<u16>, nat>, g: spec_fn(Seq<u16>, nat) -> nat) -> nat {
    m.dom().fold(0nat, sum_step(m, g))
}

/// Σ over a sequence of (key, count) entries of `g(key, count)`.
pub open spec fn entry_sum(l: Seq<(Seq<u16>, nat)>, g: spec_fn(Seq<u16>, nat) -> nat) -> nat
    decreases l.len(),
{
    if l.len() == 0 {
        0
    } else {
        entry_sum(l.drop_last(), g) + g(l.last().0, l.last().1)
    }
}

/// `l` lists every entry of `m` exactly once, in some order.
pub open spec fn is_enumeration(l: Seq<(Seq<u16>, nat)>, m: Map<Seq<u16>, nat>) -> bool {
    &&& l.len() == m.dom().len()
    &&& forall|i: int|
        0 <= i < l.len() ==> #[trigger] m.contains_key(l[i].0) && m[l[i].0] == l[i].1
    &&& forall|i: int, j: int|
        0 <= i < l.len() && 0 <= j < l.len() && i != j ==> #[trigger] l[i].0 != #[trigger] l[j].0
    &&& forall|k: Seq<u16>|
        #[trigger] m.contains_key(k) ==> exists|i: int| 0 <= i < l.len() && #[trigger] l[i].0 == k
}

/// The (key, count) entries of a vector handed out by a map, taken by their views.
pub open spec fn entry_views(l: Seq<(Vec<u16>, usize)>) -> Seq<(Seq<u16>, nat)> {
    l.map_values(|e: (Vec<u16>, usize)| (e.0@, e.1 as nat))
}

/// The keys listed by the first `n` entries of `l`.
pub open spec fn listed_keys(l: Seq<(Seq<u16>, nat)>, n: int) -> Set<Seq<u16>> {
    Set::new(|k: Seq<u16>| exists|i: int| 0 <= i < n && #[trigger] l[i].0 == k)
}

proof fn lemma_step_commutes(m: Map<Seq<u16>, nat>, g: spec_fn(Seq<u16>, nat) -> nat)
    ensures
        is_fun_commutative(sum_step(m, g)),
{
}

proof fn lemma_prefix_sum(l: Seq<(Seq<u16>, nat)>, m: Map<Seq<u16>, nat>, g: spec_fn(Seq<u16>, nat) -> nat, n: int)
    requires
        0 <= n <= l.len(),
        forall|i: int| 0 <= i < l.len() ==> #[trigger] m.contains_key(l[i].0) && m[l[i].0] == l[i].1,
        forall|i: int, j: int|
            0 <= i < l.len() && 0 <= j < l.len() && i != j ==> #[trigger] l[i].0 != #[trigger] l[j].0,
    ensures
        listed_keys(l, n).finite(),
        listed_keys(l, n).len() == n,
        entry_sum(l.take(n), g) == listed_keys(l, n).fold(0nat, sum_step(m, g)),
    decreases n,
{
    lemma_step_commutes(m, g);
    if n == 0 {
        assert(listed_keys(l, 0) =~= Set::<Seq<u16>>::empty());
        lemma_fold_empty(0nat, sum_step(m, g));
        assert(l.take(0).len() == 0);
    } else {
        lemma_prefix_sum(l, m, g, n - 1);
        let s = listed_keys(l, n - 1);
        let k = l[n - 1].0;
        assert(listed_keys(l, n) =~= s.insert(k));
        assert(!s.contains(k));
        lemma_fold_insert(s, 0nat, sum_step(m, g), k);
        assert(l.take(n).drop_last() =~= l.take(n - 1));
        assert(l.take(n).last() == l[n - 1]);
        assert(m.contains_key(l[n - 1].0));
        assert(m[k] == l[n - 1].1);
        assert(sum_step(m, g)(s.fold(0nat, sum_step(m, g)), k) == s.fold(0nat, sum_step(m, g)) + g(k, m[k]));
    }
}

/// Summing over any enumeration of the entries of a finite map gives the
/// map's sum, whatever the order of the enumeration.
pub proof fn lemma_enumeration_sum(l: Seq<(Seq<u16>, nat)>, m: Map<Seq<u16>, nat>, g: spec_fn(Seq<u16>, nat) -> nat)
    requires
        m.dom().finite(),
        is_enumeration(l, m),
    ensures
        entry_sum(l, g) == map_sum(m, g),
{
    lemma_prefix_sum(l, m, g, l.len() as int);
    assert(listed_keys(l, l.len() as int) =~= m.dom());
    assert(l.take(l.len() as int) =~= l);
}

/// A sum over a prefix is at most the sum over the whole list.
pub proof fn lemma_entry_sum_prefix(l: Seq<(Seq<u16>, nat)>, g: spec_fn(Seq<u16>, nat) -> nat, n: int)
    requires
        0 <= n <= l.len(),
    ensures
        entry_sum(l.take(n), g) <= entry_sum(l, g),
    decreases l.len() - n,
{
    if n < l.len() {
        lemma_entry_sum_prefix(l, g, n + 1);
        assert(l.take(n + 1).drop_last() =~= l.take(n));
    } else {
        assert(l.take(n) =~= l);
    }
}

/// A term of a sum is at most the sum, and a sum is below its bound when each
/// term is below the term of a larger weight.
pub proof fn lemma_map_sum_term(m: Map<Seq<u16>, nat>, g: spec_fn(Seq<u16>, nat) -> nat, k: Seq<u16>)
    requires
        m.dom().finite(),
        m.contains_key(k),
    ensures
        g(k, m[k]) <= map_sum(m, g),
{
    lemma_step_commutes(m, g);
    let s = m.dom().remove(k);
    assert(m.dom() =~= s.insert(k));
    lemma_fold_insert(s, 0nat, sum_step(m, g), k);
}

proof fn lemma_fold_le(
    s: Set<Seq<u16>>,
    m: Map<Seq<u16>, nat>,
    g1: spec_fn(Seq<u16>, nat) -> nat,
    g2: spec_fn(Seq<u16>, nat) -> nat,
)
    requires
        s.finite(),
        forall|k: Seq<u16>| s.contains(k) ==> g1(k, m[k]) <= g2(k, m[k]),
    ensures
        s.fold(0nat, sum_step(m, g1)) <= s.fold(0nat, sum_step(m, g2)),
    decreases s.len(),
{
    lemma_step_commutes(m, g1);
    lemma_step_commutes(m, g2);
    if s.len() == 0 {
        assert(s =~= Set::<Seq<u16>>::empty());
        lemma_fold_empty(0nat, sum_step(m, g1));
        lemma_fold_empty(0nat, sum_step(m, g2));
    } else {
        let k = s.choose();
        let r = s.remove(k);
        assert(s =~= r.insert(k));
        lemma_fold_le(r, m, g1, g2);
        lemma_fold_insert(r, 0nat, sum_step(m, g1), k);
        lemma_fold_insert(r, 0nat, sum_step(m, g2), k);
    }
}

proof fn lemma_fold_zero(s: Set<Seq<u16>>, m: Map<Seq<u16>, nat>, g: spec_fn(Seq<u16>, nat) -> nat)
    requires
        s.finite(),
        forall|k: Seq<u16>| s.contains(k) ==> g(k, m[k]) == 0,
    ensures
        s.fold(0nat, sum_step(m, g)) == 0,
    decreases s.len(),
{
    lemma_step_commutes(m, g);
    if s.len() == 0 {
        assert(s =~= Set::<Seq<u16>>::empty());
        lemma_fold_empty(0nat, sum_step(m, g));
    } else {
        let k = s.choose();
        let r = s.remove(k);
        assert(s =~= r.insert(k));
        lemma_fold_zero(r, m, g);
        lemma_fold_insert(r, 0nat, sum_step(m, g), k);
    }
}

/// A sum with a single nonzero term is that term; a sum with none is zero.
pub proof fn lemma_map_sum_single(m: Map<Seq<u16>, nat>, g: spec_fn(Seq<u16>, nat) -> nat, k: Seq<u16>)
    requires
        m.dom().finite(),
        forall|j: Seq<u16>| m.contains_key(j) && j != k ==> g(j, m[j]) == 0,
    ensures
        map_sum(m, g) == if m.contains_key(k) {
            g(k, m[k])
        } else {
            0
        },
{
    lemma_step_commutes(m, g);
    if m.contains_key(k) {
        let s = m.dom().remove(k);
        assert(m.dom() =~= s.insert(k));
        lemma_fold_zero(s, m, g);
        lemma_fold_insert(s, 0nat, sum_step(m, g), k);
    } else {
        lemma_fold_zero(m.dom(), m, g);
    }
}

proof fn lemma_fold_agree(
    s: Set<Seq<u16>>,
    m1: Map<Seq<u16>, nat>,
    m2: Map<Seq<u16>, nat>,
    g: spec_fn(Seq<u16>, nat) -> nat,
)
    requires
        s.finite(),
        forall|k: Seq<u16>| s.contains(k) ==> m1[k] == m2[k],
    ensures
        s.fold(0nat, sum_step(m1, g)) == s.fold(0nat, sum_step(m2, g)),
    decreases s.len(),
{
    lemma_step_commutes(m1, g);
    lemma_step_commutes(m2, g);
    if s.len() == 0 {
        assert(s =~= Set::<Seq<u16>>::empty());
        lemma_fold_empty(0nat, sum_step(m1, g));
        lemma_fold_empty(0nat, sum_step(m2, g));
    } else {
        let k = s.choose();
        let r = s.remove(k);
        assert(s =~= r.insert(k));
        lemma_fold_agree(r, m1, m2, g);
        lemma_fold_insert(r, 0nat, sum_step(m1, g), k);
        lemma_fold_insert(r, 0nat, sum_step(m2, g), k);
    }
}

/// Writing `v` under `k` changes a sum by the new term less the old one.
pub proof fn lemma_map_sum_insert(m: Map<Seq<u16>, nat>, g: spec_fn(Seq<u16>, nat) -> nat, k: Seq<u16>, v: nat)
    requires
        m.dom().finite(),
    ensures
        map_sum(m.insert(k, v), g) + (if m.contains_key(k) {
            g(k, m[k])
        } else {
            0
        }) == map_sum(m, g) + g(k, v),
{
    let m2 = m.insert(k, v);
    lemma_step_commutes(m, g);
    lemma_step_commutes(m2, g);
    let s = m.dom().remove(k);
    assert(m2.dom() =~= s.insert(k));
    lemma_fold_agree(s, m, m2, g);
    lemma_fold_insert(s, 0nat, sum_step(m2, g), k);
    if m.contains_key(k) {
        assert(m.dom() =~= s.insert(k));
        lemma_fold_insert(s, 0nat, sum_step(m, g), k);
    } else {
        assert(m.dom() =~= s);
    }
}

/// A sum grows with its weights.
pub proof fn lemma_map_sum_le(
    m: Map<Seq<u16>, nat>,
    g1: spec_fn(Seq<u16>, nat) -> nat,
    g2: spec_fn(Seq<u16>, nat) -> nat,
)
    requires
        m.dom().finite(),
        forall|k: Seq<u16>| m.contains_key(k) ==> g1(k, m[k]) <= g2(k, m[k]),
    ensures
        map_sum(m, g1) <= map_sum(m, g2),
{
    lemma_fold_le(m.dom(), m, g1, g2);
}

/// Two weights that agree on every entry of a finite map give the same sum.
pub proof fn lemma_map_sum_agree(m: Map<Seq<u16>, nat>, g1: spec_fn(Seq<u16>, nat) -> nat, g2: spec_fn(Seq<u16>, nat) -> nat)
    requires
        m.dom().finite(),
        forall|k: Seq<u16>| m.contains_key(k) ==> g1(k, m[k]) == g2(k, m[k]),
    ensures
        map_sum(m, g1) == map_sum(m, g2),
{
    lemma_map_sum_le(m, g1, g2);
    lemma_map_sum_le(m, g2, g1);
}

} // verus!
