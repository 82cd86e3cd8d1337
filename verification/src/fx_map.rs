//! The hash map of `rustc_hash` that backs a [`crate::counter::Counter`],
//! reached only through the trusted wrappers below.

use rustc_hash::{FxBuildHasher, FxHashMap};
use vstd::prelude::*;

verus! {

/// The hasher builder of `rustc_hash`: a unit value that builds the Fx
/// hasher, used here only as the map's hasher type.
#[verifier::external_type_specification]
#[verifier::external_body]
pub struct ExFxBuildHasher(FxBuildHasher);

/// The map type that backs a counter: token sequences to counts.
pub type TokenMap = FxHashMap<Vec<u16>, usize>;

/// What an `FxHashMap` from token sequences to counts holds: each key taken
/// by its sequence of token ids, each count as a natural number.
pub uninterp spec fn fx_contents(m: TokenMap) -> Map<Seq<u16>, nat>;

/// The map that holds no key.
pub open spec fn no_counts() -> Map<Seq<u16>, nat> {
    Map::empty()
}

/// `<FxHashMap as Default>::default`: claims that the new map holds nothing.
#[verifier::external_body]
pub(crate) fn fx_new() -> (m: TokenMap)
    ensures
        fx_contents(m) == no_counts(),
{
    TokenMap::default()
}

/// `HashMap::with_capacity_and_hasher` with rustc_hash's hasher builder:
/// claims that the new map holds nothing (the capacity is not observable).
#[verifier::external_body]
pub(crate) fn fx_with_capacity(capacity: usize) -> (m: TokenMap)
    ensures
        fx_contents(m) == no_counts(),
{
    TokenMap::with_capacity_and_hasher(capacity, FxBuildHasher)
}

/// `HashMap::get`: claims that the count stored under `key` comes back,
/// and `None` exactly when the map holds no such key.
#[verifier::external_body]
pub(crate) fn fx_get<'a>(m: &'a TokenMap, key: &[u16]) -> (r: Option<&'a usize>)
    ensures
        match r {
            Some(v) => fx_contents(*m).contains_key(key@) && fx_contents(*m)[key@] == *v as nat,
            None => !fx_contents(*m).contains_key(key@),
        },
{
    m.get(key)
}

/// `HashMap::insert`: claims that afterwards `key` maps to `value` and every
/// other key keeps its count.
#[verifier::external_body]
pub(crate) fn fx_insert(m: &mut TokenMap, key: Vec<u16>, value: usize)
    ensures
        fx_contents(*final(m)) == fx_contents(*old(m)).insert(key@, value as nat),
{
    m.insert(key, value);
}

/// `HashMap::len`: claims that the number of keys comes back.
#[verifier::external_body]
pub(crate) fn fx_len(m: &TokenMap) -> (r: usize)
    ensures
        r as nat == fx_contents(*m).dom().len(),
{
    m.len()
}

/// `HashMap::iter`, each entry copied out: claims that every key comes back
/// exactly once with its count; the order is the map's own and is not stated.
#[verifier::external_body]
pub(crate) fn fx_entries(m: &TokenMap) -> (r: Vec<(Vec<u16>, usize)>)
    ensures
        r@.len() == fx_contents(*m).dom().len(),
        forall|i: int|
            0 <= i < r@.len() ==> #[trigger] fx_contents(*m).contains_key(r@[i].0@)
                && fx_contents(*m)[r@[i].0@] == r@[i].1 as nat,
        forall|i: int, j: int|
            0 <= i < r@.len() && 0 <= j < r@.len() && i != j ==> #[trigger] r@[i].0@ != #[trigger] r@[j].0@,
        forall|k: Seq<u16>|
            #[trigger] fx_contents(*m).contains_key(k) ==> exists|i: int|
                0 <= i < r@.len() && #[trigger] r@[i].0@ == k,
{
    m.iter().map(|(k, v)| (k.clone(), *v)).collect()
}

/// `HashMap`'s `==`: claims `true` exactly when both maps hold the same counts.
#[verifier::external_body]
pub(crate) fn fx_eq(a: &TokenMap, b: &TokenMap) -> (r: bool)
    ensures
        r == (fx_contents(*a) == fx_contents(*b)),
{
    a == b
}

/// `HashMap::clone`: claims that the copy holds the same counts.
#[verifier::external_body]
pub(crate) fn fx_clone(m: &TokenMap) -> (r: TokenMap)
    ensures
        fx_contents(r) == fx_contents(*m),
{
    m.clone()
}

} // verus!
