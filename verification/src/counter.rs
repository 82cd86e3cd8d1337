//! A multiset of token sequences with a cached most common entry.
//!
//! The cache is kept by the counting operations themselves: whenever a
//! count grows past the cached count, that key becomes the cached entry.
//! Writing a count directly with [`Counter::set`] or [`Counter::add_to`]
//! leaves the cache as it was.

use crate::fx_map::{fx_clone, fx_eq, fx_contents, fx_entries, fx_get, fx_insert, fx_len, fx_new, fx_with_capacity, TokenMap};
use crate::sums::{lemma_map_sum_insert, lemma_map_sum_single, entry_sum, entry_views, is_enumeration, lemma_entry_sum_prefix, lemma_enumeration_sum, listed_keys, map_sum, count_weight};
use crate::tokens::Token;
use vstd::prelude::*;

verus! {

/// The abstract state of a counter: its counts and its cached entry.
pub type CounterState = (Map<Seq<u16>, nat>, Option<(Seq<u16>, nat)>);

/// The count of `k` in `m`, zero when absent.
pub open spec fn count_of(m: Map<Seq<u16>, nat>, k: Seq<u16>) -> nat {
    if m.contains_key(k) {
        m[k]
    } else {
        0
    }
}

/// The cache after `k` reached the count `v`: `k` takes over when `v` is
/// larger than the cached count or when nothing is cached.
pub open spec fn check_max(cm: Option<(Seq<u16>, nat)>, k: Seq<u16>, v: nat) -> Option<
    (Seq<u16>, nat),
> {
    match cm {
        Some(e) => if v > e.1 {
            Some((k, v))
        } else {
            cm
        },
        None => Some((k, v)),
    }
}

/// Counting `k` with weight `w`.
pub open spec fn add_one(st: CounterState, k: Seq<u16>, w: nat) -> CounterState {
    let v = count_of(st.0, k) + w;
    (st.0.insert(k, v), check_max(st.1, k, v))
}

/// Counting each of `items` in order, each with weight `w`.
pub open spec fn add_items(st: CounterState, items: Seq<Seq<u16>>, w: nat) -> CounterState
    decreases items.len(),
{
    if items.len() == 0 {
        st
    } else {
        add_one(add_items(st, items.drop_last(), w), items.last(), w)
    }
}

/// Counting each key of `l` in order with its own weight.
pub open spec fn add_entries(st: CounterState, l: Seq<(Seq<u16>, nat)>) -> CounterState
    decreases l.len(),
{
    if l.len() == 0 {
        st
    } else {
        add_one(add_entries(st, l.drop_last()), l.last().0, l.last().1)
    }
}

/// How often `k` occurs in `s`.
pub open spec fn occurrences(s: Seq<Seq<u16>>, k: Seq<u16>) -> nat
    decreases s.len(),
{
    if s.len() == 0 {
        0
    } else {
        occurrences(s.drop_last(), k) + if s.last() == k {
            1nat
        } else {
            0nat
        }
    }
}

/// The cached entry is a most common key with its count, and nothing is
/// cached exactly when nothing is counted.
pub open spec fn max_consistent(st: CounterState) -> bool {
    match st.1 {
        None => st.0.dom().is_empty(),
        Some(e) => {
            &&& st.0.contains_key(e.0)
            &&& st.0[e.0] == e.1
            &&& forall|j: Seq<u16>| #[trigger] st.0.contains_key(j) ==> st.0[j] <= e.1
        },
    }
}

/// The token sequences of a vector of tokens.
pub open spec fn token_views(items: Seq<Vec<u16>>) -> Seq<Seq<u16>> {
    items.map_values(|t: Vec<u16>| t@)
}

/// No count passes `usize::MAX` when `items` are counted with weight `w`.
pub open spec fn fits_after(m: Map<Seq<u16>, nat>, items: Seq<Seq<u16>>, w: nat) -> bool {
    forall|k: Seq<u16>| count_of(m, k) + w * #[trigger] occurrences(items, k) <= usize::MAX
}

/// A cached entry taken by its views.
pub open spec fn cached_view(cm: Option<(Token, usize)>) -> Option<(Seq<u16>, nat)> {
    match cm {
        Some(e) => Some((e.0@, e.1 as nat)),
        None => None,
    }
}

/// Occurrences in a prefix never exceed those in the whole.
pub proof fn lemma_occurrences_prefix(s: Seq<Seq<u16>>, n: int, k: Seq<u16>)
    requires
        0 <= n <= s.len(),
    ensures
        occurrences(s.take(n), k) <= occurrences(s, k),
    decreases s.len() - n,
{
    if n < s.len() {
        lemma_occurrences_prefix(s, n + 1, k);
        assert(s.take(n + 1).drop_last() =~= s.take(n));
    } else {
        assert(s.take(n) =~= s);
    }
}

/// Counting a list of items, each with weight `w`, adds `w` times their
/// number to the total count.
pub proof fn lemma_add_items_total(st: CounterState, items: Seq<Seq<u16>>, w: nat)
    requires
        st.0.dom().finite(),
    ensures
        add_items(st, items, w).0.dom().finite(),
        map_sum(add_items(st, items, w).0, count_weight()) == map_sum(st.0, count_weight()) + w * items.len(),
    decreases items.len(),
{
    if items.len() == 0 {
        assert(w * 0 == 0) by (nonlinear_arith);
    } else {
        let pre = items.drop_last();
        lemma_add_items_total(st, pre, w);
        let m = add_items(st, pre, w).0;
        let k = items.last();
        lemma_map_sum_insert(m, count_weight(), k, count_of(m, k) + w);
        let n = pre.len();
        assert(w * (n + 1) == w * n + w) by (nonlinear_arith);
    }
}

/// Counting a list of items adds, to each key, the weight times its
/// number of occurrences; the keys are the old ones and the items.
pub proof fn lemma_add_items(st: CounterState, items: Seq<Seq<u16>>, w: nat)
    ensures
        forall|k: Seq<u16>|
            #[trigger] count_of(add_items(st, items, w).0, k) == count_of(st.0, k) + w * occurrences(
                items,
                k,
            ),
        forall|k: Seq<u16>|
            #[trigger] add_items(st, items, w).0.contains_key(k) <==> st.0.contains_key(k)
                || items.contains(k),
        st.0.dom().finite() ==> add_items(st, items, w).0.dom().finite(),
    decreases items.len(),
{
    if items.len() == 0 {
        assert forall|k: Seq<u16>| #[trigger]
            count_of(add_items(st, items, w).0, k) == count_of(st.0, k) + w * occurrences(items, k) by {
            assert(occurrences(items, k) == 0);
            assert(w * 0 == 0) by (nonlinear_arith);
        }
    } else {
        let prev = items.drop_last();
        lemma_add_items(st, prev, w);
        assert forall|k: Seq<u16>|
            #[trigger] count_of(add_items(st, items, w).0, k) == count_of(st.0, k) + w
                * occurrences(items, k) by {
            let o = occurrences(prev, k);
            assert(w * (o + 1) == w * o + w) by (nonlinear_arith);
            let s1 = add_items(st, prev, w);
            assert(count_of(s1.0, k) == count_of(st.0, k) + w * o);
            if k == items.last() {
                assert(occurrences(items, k) == o + 1);
                assert(count_of(add_items(st, items, w).0, k) == count_of(s1.0, k) + w);
            } else {
                assert(occurrences(items, k) == o);
                assert(count_of(add_items(st, items, w).0, k) == count_of(s1.0, k));
            }
        }
        assert forall|k: Seq<u16>|
            #[trigger] add_items(st, items, w).0.contains_key(k) <==> st.0.contains_key(k)
                || items.contains(k) by {
            let s1 = add_items(st, prev, w);
            assert(s1.0.contains_key(k) <==> st.0.contains_key(k) || prev.contains(k));
            if prev.contains(k) {
                let i = choose|i: int| 0 <= i < prev.len() && prev[i] == k;
                assert(items[i] == k);
            }
            if items.contains(k) && k != items.last() {
                let i = choose|i: int| 0 <= i < items.len() && items[i] == k;
                assert(prev[i] == k);
            }
        }
    }
}

/// Counting one key keeps the cache a most common entry.
pub proof fn lemma_add_one_consistent(st: CounterState, k: Seq<u16>, w: nat)
    requires
        max_consistent(st),
    ensures
        max_consistent(add_one(st, k, w)),
{
    let n = add_one(st, k, w);
    match st.1 {
        None => {
            assert forall|j: Seq<u16>| #[trigger] n.0.contains_key(j) implies n.0[j] <= count_of(
                st.0,
                k,
            ) + w by {
                if j != k {
                    assert(st.0.dom().contains(j));
                }
            }
        },
        Some(e) => {
            if e.0 == k {
                assert(st.0.contains_key(e.0));
            }
        },
    }
}

/// Counting a list of items keeps the cache a most common entry.
pub proof fn lemma_add_items_consistent(st: CounterState, items: Seq<Seq<u16>>, w: nat)
    requires
        max_consistent(st),
    ensures
        max_consistent(add_items(st, items, w)),
    decreases items.len(),
{
    if items.len() > 0 {
        lemma_add_items_consistent(st, items.drop_last(), w);
        lemma_add_one_consistent(add_items(st, items.drop_last(), w), items.last(), w);
    }
}

/// Counting entries keeps the cache a most common entry.
pub proof fn lemma_add_entries_consistent(st: CounterState, l: Seq<(Seq<u16>, nat)>)
    requires
        max_consistent(st),
    ensures
        max_consistent(add_entries(st, l)),
    decreases l.len(),
{
    if l.len() > 0 {
        lemma_add_entries_consistent(st, l.drop_last());
        lemma_add_one_consistent(add_entries(st, l.drop_last()), l.last().0, l.last().1);
    }
}

/// Counting the first `n` entries of a list with distinct keys adds each
/// listed key's weight once.
pub proof fn lemma_add_entries(st: CounterState, l: Seq<(Seq<u16>, nat)>, m: Map<Seq<u16>, nat>, n: int)
    requires
        0 <= n <= l.len(),
        forall|i: int| 0 <= i < l.len() ==> #[trigger] m.contains_key(l[i].0) && m[l[i].0] == l[i].1,
        forall|i: int, j: int|
            0 <= i < l.len() && 0 <= j < l.len() && i != j ==> #[trigger] l[i].0 != #[trigger] l[j].0,
    ensures
        forall|k: Seq<u16>|
            #[trigger] count_of(add_entries(st, l.take(n)).0, k) == count_of(st.0, k) + if listed_keys(
                l,
                n,
            ).contains(k) {
                m[k]
            } else {
                0
            },
        forall|k: Seq<u16>|
            #[trigger] add_entries(st, l.take(n)).0.contains_key(k) <==> st.0.contains_key(k)
                || listed_keys(l, n).contains(k),
        st.0.dom().finite() ==> add_entries(st, l.take(n)).0.dom().finite(),
    decreases n,
{
    if n == 0 {
        assert(l.take(0) =~= Seq::<(Seq<u16>, nat)>::empty());
    } else {
        lemma_add_entries(st, l, m, n - 1);
        assert(l.take(n).drop_last() =~= l.take(n - 1));
        assert(l.take(n).last() == l[n - 1]);
        assert(m.contains_key(l[n - 1].0));
        assert forall|k: Seq<u16>| #[trigger] listed_keys(l, n).contains(k) <==> listed_keys(
            l,
            n - 1,
        ).contains(k) || k == l[n - 1].0 by {
            if listed_keys(l, n).contains(k) {
                let i = choose|i: int| 0 <= i < n && #[trigger] l[i].0 == k;
                if i < n - 1 {
                    assert(listed_keys(l, n - 1).contains(k));
                }
            }
            if listed_keys(l, n - 1).contains(k) {
                let i = choose|i: int| 0 <= i < n - 1 && #[trigger] l[i].0 == k;
                assert(l[i].0 == k);
            }
            if k == l[n - 1].0 {
                assert(l[n - 1].0 == k);
            }
        }
        assert(!listed_keys(l, n - 1).contains(l[n - 1].0));
        let s1 = add_entries(st, l.take(n - 1));
        let kn = l[n - 1].0;
        assert(add_entries(st, l.take(n)) == add_one(s1, kn, l[n - 1].1));
        assert forall|k: Seq<u16>|
            #[trigger] count_of(add_entries(st, l.take(n)).0, k) == count_of(st.0, k) + if listed_keys(
                l,
                n,
            ).contains(k) {
                m[k]
            } else {
                0
            } by {
            assert(count_of(s1.0, k) == count_of(st.0, k) + if listed_keys(l, n - 1).contains(k) {
                m[k]
            } else {
                0
            });
            if k == kn {
                assert(listed_keys(l, n).contains(k));
            } else {
                assert(listed_keys(l, n).contains(k) == listed_keys(l, n - 1).contains(k));
            }
        }
        assert forall|k: Seq<u16>|
            #[trigger] add_entries(st, l.take(n)).0.contains_key(k) <==> st.0.contains_key(k)
                || listed_keys(l, n).contains(k) by {
            assert(s1.0.contains_key(k) <==> st.0.contains_key(k) || listed_keys(l, n - 1).contains(k));
            assert(listed_keys(l, n).contains(k) <==> listed_keys(l, n - 1).contains(k) || k == kn);
        }
    }
}

/// Every count of `m` multiplied by `r`.
pub open spec fn scaled(m: Map<Seq<u16>, nat>, r: nat) -> Map<Seq<u16>, nat> {
    Map::new(|k: Seq<u16>| m.contains_key(k), |k: Seq<u16>| m[k] * r)
}

/// The counts of `m`, those of the keys in `keys` multiplied by `r`.
pub open spec fn partly_scaled(m: Map<Seq<u16>, nat>, keys: Set<Seq<u16>>, r: nat) -> Map<Seq<u16>, nat> {
    Map::new(|k: Seq<u16>| m.contains_key(k), |k: Seq<u16>| if keys.contains(k) { m[k] * r } else { m[k] })
}

/// A cached entry with its count multiplied by `r`.
pub open spec fn scaled_cache(cm: Option<(Seq<u16>, nat)>, r: nat) -> Option<(Seq<u16>, nat)> {
    match cm {
        Some(e) => Some((e.0, e.1 * r)),
        None => None,
    }
}

/// The count of `k` summed over the maps of `cs`.
pub open spec fn sum_counts(cs: Seq<Map<Seq<u16>, nat>>, k: Seq<u16>) -> nat
    decreases cs.len(),
{
    if cs.len() == 0 {
        0
    } else {
        sum_counts(cs.drop_last(), k) + count_of(cs.last(), k)
    }
}

/// The counts of a list of counters.
pub open spec fn counter_views(cs: Seq<Counter>) -> Seq<Map<Seq<u16>, nat>> {
    cs.map_values(|c: Counter| c@)
}

/// Step `j` of summing counters: `states[j]` is `states[j - 1]` with the
/// entries of counter `j` added, in the order of some enumeration of it.
pub open spec fn summing_step(states: Seq<CounterState>, cs: Seq<Counter>, j: int) -> bool {
    exists|l: Seq<(Seq<u16>, nat)>| is_enumeration(l, cs[j]@) && #[trigger] add_entries(states[j - 1], l) == states[j]
}

/// `states` are the states met while summing `cs`: the first counter as it
/// is, then each later counter added to the state before.
pub open spec fn sum_states(states: Seq<CounterState>, cs: Seq<Counter>) -> bool {
    &&& states.len() == cs.len()
    &&& cs.len() > 0 ==> states[0] == cs[0].state()
    &&& forall|j: int| 1 <= j < cs.len() ==> #[trigger] summing_step(states, cs, j)
}

/// Counting batches of items one after another, each batch's items with
/// its own weight, as [`Counter::update_weighted`] counts them.
pub open spec fn add_batches(st: CounterState, batches: Seq<(Seq<Seq<u16>>, nat)>) -> CounterState
    decreases batches.len(),
{
    if batches.len() == 0 {
        st
    } else {
        add_items(add_batches(st, batches.drop_last()), batches.last().0, batches.last().1)
    }
}

/// How many items a list of batches holds, each counted with its batch's weight.
pub open spec fn batches_weight(batches: Seq<(Seq<Seq<u16>>, nat)>) -> nat
    decreases batches.len(),
{
    if batches.len() == 0 {
        0
    } else {
        batches_weight(batches.drop_last()) + batches.last().1 * batches.last().0.len()
    }
}

/// The total of a counter built from an empty one by a run of updates is
/// the number of items counted, each with its weight: a plain update counts
/// each of its items once, a weighted one as often as its weight.
pub proof fn lemma_batches_total(batches: Seq<(Seq<Seq<u16>>, nat)>)
    ensures
        add_batches((Map::empty(), None), batches).0.dom().finite(),
        map_sum(add_batches((Map::empty(), None), batches).0, count_weight()) == batches_weight(batches),
    decreases batches.len(),
{
    if batches.len() == 0 {
        lemma_map_sum_single(Map::<Seq<u16>, nat>::empty(), count_weight(), Seq::empty());
    } else {
        let pre = batches.drop_last();
        lemma_batches_total(pre);
        lemma_add_items_total(add_batches((Map::empty(), None), pre), batches.last().0, batches.last().1);
    }
}

/// Sums over a prefix of the maps are at most the sum over all of them.
pub proof fn lemma_sum_counts_prefix(cs: Seq<Map<Seq<u16>, nat>>, n: int, k: Seq<u16>)
    requires
        0 <= n <= cs.len(),
    ensures
        sum_counts(cs.take(n), k) <= sum_counts(cs, k),
    decreases cs.len() - n,
{
    if n < cs.len() {
        lemma_sum_counts_prefix(cs, n + 1, k);
        assert(cs.take(n + 1).drop_last() =~= cs.take(n));
    } else {
        assert(cs.take(n) =~= cs);
    }
}

/// Scaling every count by the same factor keeps a most common entry most common.
pub proof fn lemma_scaled_consistent(st: CounterState, r: nat)
    requires
        max_consistent(st),
    ensures
        max_consistent((scaled(st.0, r), scaled_cache(st.1, r))),
{
    match st.1 {
        None => {
            assert(scaled(st.0, r).dom() =~= st.0.dom());
        },
        Some(e) => {
            assert forall|j: Seq<u16>| #[trigger] scaled(st.0, r).contains_key(j) implies scaled(
                st.0,
                r,
            )[j] <= e.1 * r by {
                let a = st.0[j];
                let b = e.1;
                assert(a * r <= b * r) by (nonlinear_arith)
                    requires
                        a <= b,
                ;
            }
        },
    }
}

/// A multiset of token sequences, counting how often each was seen.
#[derive(Debug)]
pub struct Counter {
    map: TokenMap,
    /// Cache of the current most common entry. It is kept up to date by the
    /// counting operations; writing counts with [`Counter::set`] or
    /// [`Counter::add_to`] does not touch it, and [`Counter::set_most_common`]
    /// overwrites it.
    current_max: Option<(Token, usize)>,
}

impl View for Counter {
    type V = Map<Seq<u16>, nat>;

    open spec fn view(&self) -> Map<Seq<u16>, nat> {
        self.counts()
    }
}

impl Counter {
    /// The count of each key.
    pub closed spec fn counts(&self) -> Map<Seq<u16>, nat> {
        fx_contents(self.map)
    }

    /// The cached most common entry.
    pub closed spec fn cached(&self) -> Option<(Seq<u16>, nat)> {
        cached_view(self.current_max)
    }

    /// Counts and cached entry together.
    pub open spec fn state(&self) -> CounterState {
        (self.counts(), self.cached())
    }

    /// A counter holds finitely many keys, each no longer than a vector can
    /// be, each count fitting a `usize`.
    pub open spec fn wf(&self) -> bool {
        &&& self.counts().dom().finite()
        &&& forall|k: Seq<u16>| #[trigger] self.counts().contains_key(k) ==> self.counts()[k] <= usize::MAX
            && k.len() <= usize::MAX
    }

    /// The cached entry is a most common key, with its count.
    pub open spec fn consistent(&self) -> bool {
        max_consistent(self.state())
    }

    /// An empty counter.
    pub fn new() -> (r: Self)
        ensures
            r.wf(),
            r@ == Map::<Seq<u16>, nat>::empty(),
            r.cached() is None,
            r.consistent(),
            map_sum(r@, count_weight()) == 0,
    {
        let r = Counter { map: fx_new(), current_max: None };
        proof {
            lemma_map_sum_single(r@, count_weight(), Seq::empty());
        }
        r
    }

    /// An empty counter with room for `capacity` keys.
    pub fn with_capacity(capacity: usize) -> (r: Self)
        ensures
            r.wf(),
            r@ == Map::<Seq<u16>, nat>::empty(),
            r.cached() is None,
            r.consistent(),
            map_sum(r@, count_weight()) == 0,
    {
        let r = Counter { map: fx_with_capacity(capacity), current_max: None };
        proof {
            lemma_map_sum_single(r@, count_weight(), Seq::empty());
        }
        r
    }

    /// The count of `key`, zero when it was never counted.
    pub fn get(&self, key: &[u16]) -> (r: usize)
        ensures
            r as nat == count_of(self@, key@),
    {
        match fx_get(&self.map, key) {
            Some(v) => *v,
            None => 0,
        }
    }

    /// Writes the count of `key`; the cached entry is left as it was.
    pub fn set(&mut self, key: Token, value: usize)
        requires
            old(self).wf(),
        ensures
            final(self).wf(),
            final(self)@ == old(self)@.insert(key@, value as nat),
            final(self).cached() == old(self).cached(),
    {
        let n = key.len();
        assert(key@.len() == n);
        fx_insert(&mut self.map, key, value);
    }

    /// Adds `amount` to the count of `key`; the cached entry is left as it was.
    pub fn add_to(&mut self, key: Token, amount: usize)
        requires
            old(self).wf(),
            count_of(old(self)@, key@) + amount <= usize::MAX,
        ensures
            final(self).wf(),
            final(self)@ == old(self)@.insert(key@, count_of(old(self)@, key@) + amount as nat),
            final(self).cached() == old(self).cached(),
    {
        let cur = self.get(&key);
        let n = key.len();
        assert(key@.len() == n);
        fx_insert(&mut self.map, key, cur + amount);
    }

    /// Overwrites the cached most common entry; the counts stay as they were.
    pub fn set_most_common(&mut self, entry: Option<(Token, usize)>)
        ensures
            final(self)@ == old(self)@,
            final(self).cached() == cached_view(entry),
    {
        self.current_max = entry;
    }

    /// Counts `key` with weight `amount`, keeping the cache.
    fn count_one(&mut self, key: &Token, amount: usize)
        requires
            old(self).wf(),
            count_of(old(self)@, key@) + amount <= usize::MAX,
        ensures
            final(self).wf(),
            final(self).state() == add_one(old(self).state(), key@, amount as nat),
    {
        let value = self.get(key) + amount;
        let k = key.clone();
        assert(k@ =~= key@);
        fx_insert(&mut self.map, k, value);
        private_check_current_max(&mut self.current_max, key, value);
    }

    /// Counts each of `items` once, in order.
    pub fn update(&mut self, items: Vec<Token>)
        requires
            old(self).wf(),
            fits_after(old(self)@, token_views(items@), 1),
        ensures
            final(self).wf(),
            final(self).state() == add_items(old(self).state(), token_views(items@), 1),
            old(self).consistent() ==> final(self).consistent(),
            map_sum(final(self)@, count_weight()) == map_sum(old(self)@, count_weight()) + items@.len(),
    {
        self.update_weighted(items, 1);
    }

    /// Counts each of `items` with weight `weight`, in order.
    pub fn update_weighted(&mut self, items: Vec<Token>, weight: usize)
        requires
            old(self).wf(),
            fits_after(old(self)@, token_views(items@), weight as nat),
        ensures
            final(self).wf(),
            final(self).state() == add_items(old(self).state(), token_views(items@), weight as nat),
            old(self).consistent() ==> final(self).consistent(),
            map_sum(final(self)@, count_weight()) == map_sum(old(self)@, count_weight()) + weight * items@.len(),
    {
        let ghost st0 = self.state();
        let ghost views = token_views(items@);
        let mut i: usize = 0;
        assert(views.take(0) =~= Seq::<Seq<u16>>::empty());
        while i < items.len()
            invariant
                self.wf(),
                0 <= i <= items@.len(),
                views == token_views(items@),
                self.state() == add_items(st0, views.take(i as int), weight as nat),
                fits_after(st0.0, views, weight as nat),
            decreases items@.len() - i,
        {
            let item = &items[i];
            proof {
                lemma_add_items(st0, views.take(i as int), weight as nat);
                lemma_occurrences_prefix(views, i + 1, item@);
                assert(views.take(i + 1).drop_last() =~= views.take(i as int));
                assert(views[i as int] == item@);
                let a = occurrences(views.take(i + 1), item@);
                let b = occurrences(views, item@);
                assert(weight * a <= weight * b) by (nonlinear_arith)
                    requires
                        a <= b,
                ;
                assert(count_of(st0.0, item@) + weight * b <= usize::MAX);
                let a0 = occurrences(views.take(i as int), item@);
                assert(a == a0 + 1);
                assert(weight * (a0 + 1) == weight * a0 + weight) by (nonlinear_arith);
                assert(self@ == add_items(st0, views.take(i as int), weight as nat).0);
                assert(count_of(add_items(st0, views.take(i as int), weight as nat).0, item@)
                    == count_of(st0.0, item@) + weight * a0);
            }
            self.count_one(item, weight);
            i += 1;
        }
        assert(views.take(i as int) =~= views);
        proof {
            lemma_add_items_total(st0, views, weight as nat);
            if max_consistent(st0) {
                lemma_add_items_consistent(st0, views, weight as nat);
            }
        }
    }

    /// The cached most common entry: when the cache is consistent, a key of
    /// greatest count with that count, and `None` exactly when nothing is counted.
    pub fn most_common(&self) -> (r: Option<(Token, usize)>)
        ensures
            cached_view(r) == self.cached(),
            self.consistent() ==> match r {
                None => self@.dom().is_empty(),
                Some(e) => self@.contains_key(e.0@) && self@[e.0@] == e.1 && forall|j: Seq<u16>|
                    #[trigger] self@.contains_key(j) ==> self@[j] <= e.1,
            },
    {
        match &self.current_max {
            Some(e) => {
                let k = e.0.clone();
                assert(k@ =~= e.0@);
                Some((k, e.1))
            },
            None => None,
        }
    }

    /// Number of distinct keys.
    pub fn len(&self) -> (r: usize)
        ensures
            r as nat == self@.dom().len(),
    {
        fx_len(&self.map)
    }

    /// Whether no key is counted.
    pub fn is_empty(&self) -> (r: bool)
        requires
            self.wf(),
        ensures
            r == self@.dom().is_empty(),
    {
        let n = fx_len(&self.map);
        proof {
            if n == 0 {
                assert(self@.dom() =~= Set::<Seq<u16>>::empty());
            } else {
                let k = self@.dom().choose();
                assert(self@.dom().contains(k));
            }
        }
        n == 0
    }

    /// Every entry once, in the map's order (which is not stated).
    pub fn entries(&self) -> (r: Vec<(Token, usize)>)
        requires
            self.wf(),
        ensures
            is_enumeration(entry_views(r@), self@),
    {
        let r = fx_entries(&self.map);
        proof {
            let l = entry_views(r@);
            assert forall|i: int| 0 <= i < l.len() implies #[trigger] self@.contains_key(l[i].0)
                && self@[l[i].0] == l[i].1 by {
                assert(fx_contents(self.map).contains_key(r@[i].0@));
            }
            assert forall|i: int, j: int|
                0 <= i < l.len() && 0 <= j < l.len() && i != j implies #[trigger] l[i].0
                != #[trigger] l[j].0 by {
                assert(r@[i].0@ != r@[j].0@);
            }
            assert forall|k: Seq<u16>| #[trigger] self@.contains_key(k) implies exists|i: int|
                0 <= i < l.len() && #[trigger] l[i].0 == k by {
                assert(fx_contents(self.map).contains_key(k));
                let i = choose|i: int| 0 <= i < r@.len() && #[trigger] r@[i].0@ == k;
                assert(l[i].0 == k);
            }
        }
        r
    }

    /// Every entry once, consuming the counter.
    pub fn into_vec(self) -> (r: Vec<(Token, usize)>)
        requires
            self.wf(),
        ensures
            is_enumeration(entry_views(r@), self@),
    {
        self.entries()
    }

    /// Adds every count of `rhs` to this counter, one key of `rhs` at a time
    /// in the order of `rhs`'s map, keeping the cache as each count grows.
    pub fn add_assign(&mut self, rhs: Counter)
        requires
            old(self).wf(),
            rhs.wf(),
            forall|k: Seq<u16>| count_of(old(self)@, k) + #[trigger] count_of(rhs@, k) <= usize::MAX,
        ensures
            final(self).wf(),
            forall|k: Seq<u16>| #[trigger] count_of(final(self)@, k) == count_of(old(self)@, k) + count_of(rhs@, k),
            forall|k: Seq<u16>| #[trigger] final(self)@.contains_key(k) <==> old(self)@.contains_key(k) || rhs@.contains_key(k),
            exists|l: Seq<(Seq<u16>, nat)>| is_enumeration(l, rhs@) && final(self).state() == add_entries(old(self).state(), l),
            old(self).consistent() ==> final(self).consistent(),
    {
        let es = rhs.entries();
        let ghost l = entry_views(es@);
        let ghost st0 = self.state();
        let mut i: usize = 0;
        assert(l.take(0) =~= Seq::<(Seq<u16>, nat)>::empty());
        while i < es.len()
            invariant
                self.wf(),
                rhs.wf(),
                i <= es@.len(),
                l == entry_views(es@),
                is_enumeration(l, rhs@),
                self.state() == add_entries(st0, l.take(i as int)),
                forall|k: Seq<u16>| count_of(st0.0, k) + #[trigger] count_of(rhs@, k) <= usize::MAX,
            decreases es@.len() - i,
        {
            proof {
                lemma_add_entries(st0, l, rhs@, i as int);
                let k = l[i as int].0;
                assert(l[i as int].0 == es@[i as int].0@);
                assert(l[i as int].1 == es@[i as int].1 as nat);
                assert(rhs@.contains_key(k));
                assert(!listed_keys(l, i as int).contains(k)) by {
                    if listed_keys(l, i as int).contains(k) {
                        let j = choose|j: int| 0 <= j < i && #[trigger] l[j].0 == k;
                        assert(l[j].0 != l[i as int].0);
                    }
                }
                assert(self@ == add_entries(st0, l.take(i as int)).0);
                assert(count_of(add_entries(st0, l.take(i as int)).0, k) == count_of(st0.0, k));
                assert(count_of(rhs@, k) == l[i as int].1);
                assert(l.take(i + 1).drop_last() =~= l.take(i as int));
                assert(l.take(i + 1).last() == l[i as int]);
            }
            self.count_one(&es[i].0, es[i].1);
            i += 1;
        }
        proof {
            let n = l.len() as int;
            assert(l.take(n) =~= l);
            lemma_add_entries(st0, l, rhs@, n);
            assert forall|k: Seq<u16>| #[trigger] listed_keys(l, n).contains(k) <==> rhs@.contains_key(k) by {
                if rhs@.contains_key(k) {
                    let j = choose|j: int| 0 <= j < l.len() && #[trigger] l[j].0 == k;
                    assert(l[j].0 == k);
                }
                if listed_keys(l, n).contains(k) {
                    let j = choose|j: int| 0 <= j < n && #[trigger] l[j].0 == k;
                    assert(rhs@.contains_key(l[j].0));
                }
            }
            assert forall|k: Seq<u16>| #[trigger] count_of(self@, k) == count_of(st0.0, k) + count_of(rhs@, k) by {
                assert(count_of(add_entries(st0, l.take(n)).0, k) == count_of(st0.0, k) + if listed_keys(l, n).contains(k) {
                    rhs@[k]
                } else {
                    0
                });
            }
            assert forall|k: Seq<u16>| #[trigger] self@.contains_key(k) <==> st0.0.contains_key(k) || rhs@.contains_key(k) by {
                assert(add_entries(st0, l.take(n)).0.contains_key(k) <==> st0.0.contains_key(k)
                    || listed_keys(l, n).contains(k));
            }
            if max_consistent(st0) {
                lemma_add_entries_consistent(st0, l);
            }
        }
    }

    /// Multiplies every count, and the cached count, by `rhs`.
    pub fn mul_assign(&mut self, rhs: usize)
        requires
            old(self).wf(),
            forall|k: Seq<u16>| #[trigger] old(self)@.contains_key(k) ==> old(self)@[k] * rhs <= usize::MAX,
            match old(self).cached() {
                Some(e) => e.1 * rhs <= usize::MAX,
                None => true,
            },
        ensures
            final(self).wf(),
            final(self)@ == scaled(old(self)@, rhs as nat),
            final(self).cached() == scaled_cache(old(self).cached(), rhs as nat),
            old(self).consistent() ==> final(self).consistent(),
    {
        let ghost m0 = self@;
        let es = self.entries();
        let ghost l = entry_views(es@);
        let mut i: usize = 0;
        assert(self@ =~= partly_scaled(m0, listed_keys(l, 0), rhs as nat));
        while i < es.len()
            invariant
                self.wf(),
                i <= es@.len(),
                l == entry_views(es@),
                is_enumeration(l, m0),
                forall|k: Seq<u16>| #[trigger] m0.contains_key(k) ==> m0[k] * rhs <= usize::MAX,
                self.cached() == old(self).cached(),
                self@ == partly_scaled(m0, listed_keys(l, i as int), rhs as nat),
            decreases es@.len() - i,
        {
            let key = es[i].0.clone();
            let v = es[i].1;
            proof {
                assert(key@ =~= es@[i as int].0@);
                assert(l[i as int].0 == key@);
                assert(m0.contains_key(key@));
                assert(m0[key@] == v);
            }
            fx_insert(&mut self.map, key, v * rhs);
            proof {
                assert forall|k: Seq<u16>| #[trigger] listed_keys(l, i + 1).contains(k) <==> listed_keys(l, i as int).contains(k) || k == l[i as int].0 by {
                    if listed_keys(l, i + 1).contains(k) {
                        let j = choose|j: int| 0 <= j < i + 1 && #[trigger] l[j].0 == k;
                        if j < i {
                            assert(listed_keys(l, i as int).contains(k));
                        }
                    }
                    if listed_keys(l, i as int).contains(k) {
                        let j = choose|j: int| 0 <= j < i && #[trigger] l[j].0 == k;
                        assert(l[j].0 == k);
                    }
                    if k == l[i as int].0 {
                        assert(l[i as int].0 == k);
                    }
                }
                assert(self@ =~= partly_scaled(m0, listed_keys(l, i + 1), rhs as nat));
            }
            i += 1;
        }
        proof {
            assert forall|k: Seq<u16>| #[trigger] m0.contains_key(k) implies listed_keys(l, i as int).contains(k) by {
                let j = choose|j: int| 0 <= j < l.len() && #[trigger] l[j].0 == k;
                assert(l[j].0 == k);
            }
            assert(self@ =~= scaled(m0, rhs as nat));
        }
        let cm = match &self.current_max {
            Some(e) => {
                let k = e.0.clone();
                assert(k@ =~= e.0@);
                Some((k, e.1 * rhs))
            },
            None => None,
        };
        self.current_max = cm;
        proof {
            if max_consistent(old(self).state()) {
                lemma_scaled_consistent(old(self).state(), rhs as nat);
            }
        }
    }

    /// This counter with every count, and the cached count, multiplied by `rhs`.
    pub fn mul(self, rhs: usize) -> (r: Counter)
        requires
            self.wf(),
            forall|k: Seq<u16>| #[trigger] self@.contains_key(k) ==> self@[k] * rhs <= usize::MAX,
            match self.cached() {
                Some(e) => e.1 * rhs <= usize::MAX,
                None => true,
            },
        ensures
            r.wf(),
            r@ == scaled(self@, rhs as nat),
            r.cached() == scaled_cache(self.cached(), rhs as nat),
            self.consistent() ==> r.consistent(),
    {
        let mut c = self;
        c.mul_assign(rhs);
        c
    }

    /// The sum of a list of counters: the first one with each later one added
    /// to it in turn, as [`Counter::add_assign`] adds, cached entry included
    /// (see [`sum_states`]); an empty list gives an empty counter.
    pub fn sum(counters: Vec<Counter>) -> (r: Counter)
        requires
            forall|i: int| 0 <= i < counters@.len() ==> (#[trigger] counters@[i]).wf(),
            forall|k: Seq<u16>| #[trigger] sum_counts(counter_views(counters@), k) <= usize::MAX,
        ensures
            r.wf(),
            forall|k: Seq<u16>| #[trigger] count_of(r@, k) == sum_counts(counter_views(counters@), k),
            forall|k: Seq<u16>| #[trigger] r@.contains_key(k) <==> exists|i: int|
                0 <= i < counters@.len() && (#[trigger] counters@[i])@.contains_key(k),
            (forall|i: int| 0 <= i < counters@.len() ==> (#[trigger] counters@[i]).consistent()) ==> r.consistent(),
            counters@.len() == 0 ==> r.state() == (Map::<Seq<u16>, nat>::empty(), None::<(Seq<u16>, nat)>),
            exists|states: Seq<CounterState>|
                #[trigger] sum_states(states, counters@) && (counters@.len() > 0 ==> r.state() == states.last()),
    {
        let ghost cs = counters@;
        let ghost vs = counter_views(cs);
        let ghost all_consistent = forall|i: int| 0 <= i < cs.len() ==> (#[trigger] cs[i]).consistent();
        let mut counters = counters;
        if counters.len() == 0 {
            let r = Counter::new();
            assert forall|k: Seq<u16>| #[trigger] count_of(r@, k) == sum_counts(vs, k) by {}
            assert(r@ =~= Map::<Seq<u16>, nat>::empty());
            assert(sum_states(Seq::<CounterState>::empty(), cs));
            return r;
        }
        let n = counters.len();
        let mut result = counters.remove(0);
        let mut j: usize = 1;
        let ghost mut states: Seq<CounterState> = seq![result.state()];
        proof {
            assert(vs.take(1).drop_last() =~= Seq::<Map<Seq<u16>, nat>>::empty());
            assert(counters@ =~= cs.subrange(1, cs.len() as int));
            assert(result == cs[0]);
            assert(vs[0] == cs[0]@);
            assert(vs.take(1).last() == result@);
            assert forall|k: Seq<u16>| #[trigger] count_of(result@, k) == sum_counts(vs.take(1), k) by {
                assert(sum_counts(vs.take(1).drop_last(), k) == 0);
            }
            assert forall|k: Seq<u16>| #[trigger] result@.contains_key(k) <==> exists|i: int|
                0 <= i < 1 && (#[trigger] cs[i])@.contains_key(k) by {
                if result@.contains_key(k) {
                    assert(cs[0]@.contains_key(k));
                }
            }
        }
        while counters.len() > 0
            invariant
                1 <= j <= cs.len(),
                cs.len() == n,
                vs == counter_views(cs),
                counters@ == cs.subrange(j as int, cs.len() as int),
                forall|i: int| 0 <= i < cs.len() ==> (#[trigger] cs[i]).wf(),
                forall|k: Seq<u16>| #[trigger] sum_counts(vs, k) <= usize::MAX,
                result.wf(),
                forall|k: Seq<u16>| #[trigger] count_of(result@, k) == sum_counts(vs.take(j as int), k),
                forall|k: Seq<u16>| #[trigger] result@.contains_key(k) <==> exists|i: int|
                    0 <= i < j && (#[trigger] cs[i])@.contains_key(k),
                all_consistent == (forall|i: int| 0 <= i < cs.len() ==> (#[trigger] cs[i]).consistent()),
                all_consistent ==> result.consistent(),
                states.len() == j,
                states[0] == cs[0].state(),
                forall|jj: int| 1 <= jj < j ==> #[trigger] summing_step(states, cs, jj),
                states.last() == result.state(),
            decreases cs.len() - j,
        {
            let c = counters.remove(0);
            proof {
                assert(c == cs[j as int]);
                assert(vs.take(j + 1).drop_last() =~= vs.take(j as int));
                assert(vs.take(j + 1).last() == c@);
                assert forall|k: Seq<u16>| count_of(result@, k) + #[trigger] count_of(c@, k) <= usize::MAX by {
                    lemma_sum_counts_prefix(vs, j + 1, k);
                }
            }
            let ghost before = result.state();
            result.add_assign(c);
            proof {
                let states2 = states.push(result.state());
                assert forall|jj: int| 1 <= jj < j + 1 implies #[trigger] summing_step(states2, cs, jj) by {
                    assert(states2[jj] == if jj < j { states[jj] } else { result.state() });
                    assert(states2[jj - 1] == states[jj - 1]);
                    if jj < j {
                        assert(summing_step(states, cs, jj));
                    } else {
                        let l = choose|l: Seq<(Seq<u16>, nat)>| is_enumeration(l, c@) && result.state() == add_entries(before, l);
                        assert(cs[jj] == c);
                        assert(add_entries(states2[jj - 1], l) == states2[jj]);
                    }
                }
                states = states2;
                assert forall|k: Seq<u16>| #[trigger] result@.contains_key(k) <==> exists|i: int|
                    0 <= i < j + 1 && (#[trigger] cs[i])@.contains_key(k) by {
                    if result@.contains_key(k) && !c@.contains_key(k) {
                        let i = choose|i: int| 0 <= i < j && (#[trigger] cs[i])@.contains_key(k);
                        assert(cs[i]@.contains_key(k));
                    }
                    if c@.contains_key(k) {
                        assert(cs[j as int]@.contains_key(k));
                    }
                }
                assert(counters@ =~= cs.subrange(j + 1, cs.len() as int));
            }
            j += 1;
        }
        assert(vs.take(j as int) =~= vs);
        assert(sum_states(states, cs));
        result
    }

    /// A counter of `items`, each counted once in order.
    pub fn from_items(items: Vec<Token>) -> (r: Counter)
        requires
            fits_after(Map::empty(), token_views(items@), 1),
        ensures
            r.wf(),
            r.state() == add_items((Map::empty(), None), token_views(items@), 1),
            r.consistent(),
    {
        let mut counter = Counter::new();
        counter.update(items);
        counter
    }

    /// Total number of items which have been counted: the sum of all counts.
    pub fn total(&self) -> (r: usize)
        requires
            self.wf(),
            map_sum(self@, count_weight()) <= usize::MAX,
        ensures
            r as nat == map_sum(self@, count_weight()),
    {
        let ghost g = count_weight();
        let es = self.entries();
        let ghost l = entry_views(es@);
        proof {
            lemma_enumeration_sum(l, self@, g);
        }
        let mut sum: usize = 0;
        let mut i: usize = 0;
        while i < es.len()
            invariant
                i <= es@.len(),
                l == entry_views(es@),
                g == count_weight(),
                sum as nat == entry_sum(l.take(i as int), g),
                entry_sum(l, g) <= usize::MAX,
            decreases es@.len() - i,
        {
            proof {
                lemma_entry_sum_prefix(l, g, i + 1);
                assert(l.take(i + 1).drop_last() =~= l.take(i as int));
                assert(l.take(i + 1).last() == l[i as int]);
                assert(l[i as int].1 == es@[i as int].1 as nat);
                assert(count_weight()(l[i as int].0, l[i as int].1) == l[i as int].1);
            }
            sum = sum + es[i].1;
            i += 1;
        }
        assert(l.take(i as int) =~= l);
        sum
    }
}

impl Clone for Counter {
    /// A counter with the same counts and the same cached entry.
    fn clone(&self) -> (r: Self)
        ensures
            r@ == self@,
            r.cached() == self.cached(),
    {
        let cm = match &self.current_max {
            Some(e) => {
                let k = e.0.clone();
                assert(k@ =~= e.0@);
                Some((k, e.1))
            },
            None => None,
        };
        Counter { map: fx_clone(&self.map), current_max: cm }
    }
}

impl PartialEq for Counter {
    /// Two counters are equal when they hold the same counts; the cached
    /// entries are not compared.
    fn eq(&self, other: &Self) -> (r: bool) {
        fx_eq(&self.map, &other.map)
    }
}

impl vstd::std_specs::cmp::PartialEqSpecImpl for Counter {
    open spec fn obeys_eq_spec() -> bool {
        true
    }

    open spec fn eq_spec(&self, other: &Self) -> bool {
        self@ == other@
    }
}

/// Restores the cache after `key` reached the count `value`.
fn private_check_current_max(current_max: &mut Option<(Token, usize)>, key: &Token, value: usize)
    ensures
        cached_view(*final(current_max)) == check_max(cached_view(*old(current_max)), key@, value as nat),
{
    let take_over = match &*current_max {
        Some(e) => value > e.1,
        None => true,
    };
    if take_over {
        let k = key.clone();
        assert(k@ =~= key@);
        *current_max = Some((k, value));
    }
}

} // verus!
