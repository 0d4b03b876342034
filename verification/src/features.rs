//! Helpers for reasoning about feature sets held in a `HashSet<u64>`.
use std::collections::HashSet;
use vstd::prelude::*;
use vstd::std_specs::iter::IteratorSpec;

verus! {

/// The contents of a `HashSet` are finite.
pub proof fn lemma_hash_set_finite(set: &HashSet<u64>)
    ensures
        set@.finite(),
{
    let keys = vstd::std_specs::hash::spec_hash_keys_iter(set).remaining();
    assert(keys.unref().to_set() == set@);
}

/// The elements of `set`, each exactly once, in the set's iteration order.
pub fn set_elements(set: &HashSet<u64>) -> (elems: Vec<u64>)
    ensures
        elems@.to_set() == set@,
        elems@.no_duplicates(),
        elems@.len() == set@.len(),
{
    let mut elems: Vec<u64> = Vec::new();
    let ghost keys = vstd::std_specs::hash::spec_hash_keys_iter(set).remaining();
    for x in it: set.iter()
        invariant
            it.seq() == keys,
            elems@ == keys.take(it.index()).map_values(|r: &u64| *r),
    {
        elems.push(*x);
    }
    proof {
        assert(elems@ =~= keys.unref());
    }
    elems
}

} // verus!

verus! {

/// How many of the first `k` elements of `s` satisfy `p`.
pub open spec fn count_prefix(s: Seq<u64>, p: spec_fn(u64) -> bool, k: int) -> nat
    decreases k,
{
    if k <= 0 {
        0
    } else if p(s[k - 1]) {
        count_prefix(s, p, k - 1) + 1
    } else {
        count_prefix(s, p, k - 1)
    }
}

/// Counting over a sequence without duplicates counts the elements of its set.
pub proof fn lemma_count_prefix_set(s: Seq<u64>, p: spec_fn(u64) -> bool, k: int)
    requires
        s.no_duplicates(),
        0 <= k <= s.len(),
    ensures
        count_prefix(s, p, k) == s.take(k).to_set().filter(p).len(),
        count_prefix(s, p, k) <= k,
    decreases k,
{
    if k == 0 {
        assert(s.take(0).to_set().filter(p) =~= Set::<u64>::empty());
    } else {
        lemma_count_prefix_set(s, p, k - 1);
        let prev = s.take(k - 1);
        let x = s[k - 1];
        assert(s.take(k) =~= prev.push(x));
        prev.lemma_push_to_set_commute(x);
        assert(!prev.to_set().contains(x)) by {
            if prev.to_set().contains(x) {
                let i = choose|i: int| 0 <= i < prev.len() && prev[i] == x;
                assert(s[i] == s[k - 1]);
            }
        }
        if p(x) {
            assert(s.take(k).to_set().filter(p) =~= prev.to_set().filter(p).insert(x));
        } else {
            assert(s.take(k).to_set().filter(p) =~= prev.to_set().filter(p));
        }
    }
}

/// Counting all of a duplicate-free sequence counts the elements of its set.
pub proof fn lemma_count_set(s: Seq<u64>, p: spec_fn(u64) -> bool)
    requires
        s.no_duplicates(),
    ensures
        count_prefix(s, p, s.len() as int) == s.to_set().filter(p).len(),
{
    lemma_count_prefix_set(s, p, s.len() as int);
    assert(s.take(s.len() as int) =~= s);
}

} // verus!
