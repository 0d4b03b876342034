//! MinHash signature generation and Jaccard similarity estimation.
use std::collections::HashSet;
use vstd::bytes::{spec_u32_to_le_bytes, spec_u64_to_le_bytes, u32_to_le_bytes, u64_to_le_bytes};
use vstd::prelude::*;

use crate::digest::{digest_prefix_u64, spec_digest_prefix_u64};
use crate::features::set_elements;
use crate::ratio::Ratio;

verus! {

/// Number of hash permutations in the MinHash signature.
pub const DEFAULT_NUM_HASHES: usize = 128;

/// A MinHash signature over a set of 64-bit feature keys.
#[derive(Debug, Clone, PartialEq, Eq)]
pub struct MinHashSignature {
    pub values: Vec<u64>,
}

impl MinHashSignature {
    /// A copy of this signature.
    pub fn duplicate(&self) -> (copy: MinHashSignature)
        ensures
            copy.values@ == self.values@,
    {
        MinHashSignature { values: self.values.clone() }
    }
}

/// Hash number `seed` of `value`: the first eight bytes of the SHA-256 digest
/// of the little-endian bytes of `value` followed by those of `seed`.
pub open spec fn spec_permuted_hash(value: u64, seed: u32) -> u64 {
    spec_digest_prefix_u64(spec_u64_to_le_bytes(value) + spec_u32_to_le_bytes(seed))
}

/// `v` is the minimum of hash number `seed` over `features`, or `u64::MAX`
/// when `features` is empty.
pub open spec fn spec_slot_min(features: Set<u64>, seed: u32, v: u64) -> bool {
    &&& forall|x: u64| #[trigger] features.contains(x) ==> v <= spec_permuted_hash(x, seed)
    &&& features.is_empty() ==> v == u64::MAX
    &&& !features.is_empty() ==> exists|x: u64|
        #[trigger] features.contains(x) && v == spec_permuted_hash(x, seed)
}

/// `values` is the MinHash signature of `features` with `values.len()` slots:
/// slot `i` holds the minimum of hash number `i` (as a `u32`) over the features.
pub open spec fn spec_is_signature(features: Set<u64>, values: Seq<u64>) -> bool {
    forall|i: int| 0 <= i < values.len() ==> spec_slot_min(features, i as u32, #[trigger] values[i])
}

/// Slot `seed` of the MinHash signature of `features`: the value that is
/// the minimum of hash number `seed` over the features.
pub open spec fn spec_slot_value(features: Set<u64>, seed: u32) -> u64 {
    choose|v: u64| spec_slot_min(features, seed, v)
}

/// The MinHash signature of `features` with `num_hashes` slots.
pub open spec fn spec_signature(features: Set<u64>, num_hashes: nat) -> Seq<u64> {
    Seq::new(num_hashes, |i: int| spec_slot_value(features, i as u32))
}

/// A signature is determined by its feature set and its length.
pub proof fn lemma_signature_determined(features: Set<u64>, values: Seq<u64>)
    requires
        spec_is_signature(features, values),
    ensures
        values == spec_signature(features, values.len()),
{
    assert forall|i: int| 0 <= i < values.len() implies values[i] == spec_slot_value(
        features,
        i as u32,
    ) by {
        assert(spec_slot_min(features, i as u32, values[i]));
        lemma_slot_min_unique(features, i as u32, values[i], spec_slot_value(features, i as u32));
    }
    assert(values =~= spec_signature(features, values.len()));
}

fn permuted_hash(value: u64, seed: u32) -> (h: u64)
    ensures
        h == spec_permuted_hash(value, seed),
{
    let mut bytes = u64_to_le_bytes(value);
    let mut seed_bytes = u32_to_le_bytes(seed);
    bytes.append(&mut seed_bytes);
    digest_prefix_u64(bytes.as_slice())
}

/// Build a MinHash signature from a set of feature hashes.
pub fn compute_signature(features: &HashSet<u64>, num_hashes: usize) -> (sig: MinHashSignature)
    ensures
        sig.values@.len() == num_hashes,
        spec_is_signature(features@, sig.values@),
        sig.values@ == spec_signature(features@, num_hashes as nat),
{
    let elems = set_elements(features);
    let mut values: Vec<u64> = vec![u64::MAX; num_hashes];
    let mut k: usize = 0;
    while k < elems.len()
        invariant
            elems@.to_set() == features@,
            elems@.no_duplicates(),
            k <= elems@.len(),
            values@.len() == num_hashes,
            forall|i: int|
                0 <= i < num_hashes ==> spec_slot_min(
                    elems@.take(k as int).to_set(),
                    i as u32,
                    #[trigger] values@[i],
                ),
        decreases elems@.len() - k,
    {
        let feature = elems[k];
        let ghost seen = elems@.take(k as int).to_set();
        let ghost now = elems@.take(k + 1).to_set();
        proof {
            assert(elems@.take(k + 1) =~= elems@.take(k as int).push(feature));
            elems@.take(k as int).lemma_push_to_set_commute(feature);
            assert(now == seen.insert(feature));
        }
        let mut i: usize = 0;
        while i < num_hashes
            invariant
                values@.len() == num_hashes,
                i <= num_hashes,
                now == seen.insert(feature),
                forall|j: int|
                    0 <= j < i ==> spec_slot_min(now, j as u32, #[trigger] values@[j]),
                forall|j: int|
                    i <= j < num_hashes ==> spec_slot_min(seen, j as u32, #[trigger] values@[j]),
            decreases num_hashes - i,
        {
            let hash = permuted_hash(feature, i as u32);
            let old_v = values[i];
            proof {
                assert(spec_slot_min(seen, i as u32, old_v));
            }
            if hash < old_v {
                values.set(i, hash);
            }
            proof {
                let v = values@[i as int];
                assert(now.contains(feature));
                if seen.is_empty() {
                    assert(now =~= Set::<u64>::empty().insert(feature));
                } else {
                    let x = choose|x: u64| #[trigger] seen.contains(x) && old_v == spec_permuted_hash(x, i as u32);
                    assert(now.contains(x));
                }
                assert(spec_slot_min(now, i as u32, v));
            }
            i = i + 1;
        }
        k = k + 1;
    }
    proof {
        assert(elems@.take(elems@.len() as int) =~= elems@);
        lemma_signature_determined(features@, values@);
    }
    MinHashSignature { values }
}

/// Number of positions among the first `n` where `a` and `b` agree.
pub open spec fn spec_match_count(a: Seq<u64>, b: Seq<u64>, n: int) -> nat
    decreases n,
{
    if n <= 0 {
        0
    } else if a[n - 1] == b[n - 1] {
        spec_match_count(a, b, n - 1) + 1
    } else {
        spec_match_count(a, b, n - 1)
    }
}

/// The MinHash estimate of the Jaccard similarity of the sets behind two
/// signatures: the fraction of slots on which they agree, or zero when the
/// signatures differ in length or are empty.
pub open spec fn spec_estimate_jaccard(a: Seq<u64>, b: Seq<u64>) -> Ratio {
    if a.len() != b.len() || a.len() == 0 {
        Ratio { numerator: 0, denominator: 1 }
    } else {
        Ratio { numerator: spec_match_count(a, b, a.len() as int) as usize, denominator: a.len() as usize }
    }
}

proof fn lemma_match_count_bound(a: Seq<u64>, b: Seq<u64>, n: int)
    requires
        0 <= n,
    ensures
        spec_match_count(a, b, n) <= n,
    decreases n,
{
    if n > 0 {
        lemma_match_count_bound(a, b, n - 1);
    }
}

/// Estimate Jaccard similarity from two MinHash signatures.
pub fn estimate_jaccard(a: &MinHashSignature, b: &MinHashSignature) -> (score: Ratio)
    ensures
        score == spec_estimate_jaccard(a.values@, b.values@),
{
    let n = a.values.len();
    if n != b.values.len() || n == 0 {
        return Ratio::zero();
    }
    let mut matches: usize = 0;
    let mut i: usize = 0;
    while i < n
        invariant
            n == a.values@.len(),
            n == b.values@.len(),
            i <= n,
            matches == spec_match_count(a.values@, b.values@, i as int),
        decreases n - i,
    {
        proof {
            lemma_match_count_bound(a.values@, b.values@, i as int);
        }
        if a.values[i] == b.values[i] {
            matches = matches + 1;
        }
        i = i + 1;
    }
    Ratio { numerator: matches, denominator: n }
}

/// The exact Jaccard similarity of two feature sets: one when both are
/// empty, otherwise the size of their intersection over that of their union.
pub open spec fn spec_exact_jaccard(a: Set<u64>, b: Set<u64>) -> Ratio {
    if a.is_empty() && b.is_empty() {
        Ratio { numerator: 1, denominator: 1 }
    } else {
        Ratio {
            numerator: a.intersect(b).len() as usize,
            denominator: a.union(b).len() as usize,
        }
    }
}

/// Exact Jaccard similarity between two feature sets.
pub fn exact_jaccard(a: &HashSet<u64>, b: &HashSet<u64>) -> (score: Ratio)
    requires
        a@.union(b@).len() <= usize::MAX,
    ensures
        score == spec_exact_jaccard(a@, b@),
{
    if a.is_empty() && b.is_empty() {
        return Ratio::one();
    }
    let elems = set_elements(a);
    let ghost in_b = |x: u64| b@.contains(x);
    let mut intersection: usize = 0;
    let mut k: usize = 0;
    while k < elems.len()
        invariant
            elems@.to_set() == a@,
            elems@.no_duplicates(),
            k <= elems@.len(),
            in_b == (|x: u64| b@.contains(x)),
            intersection == crate::features::count_prefix(elems@, in_b, k as int),
        decreases elems@.len() - k,
    {
        proof {
            crate::features::lemma_count_prefix_set(elems@, in_b, k as int);
        }
        if b.contains(&elems[k]) {
            intersection = intersection + 1;
        }
        k = k + 1;
    }
    proof {
        crate::features::lemma_count_set(elems@, in_b);
        crate::features::lemma_hash_set_finite(a);
        crate::features::lemma_hash_set_finite(b);
        assert(a@.filter(in_b) =~= a@.intersect(b@));
        vstd::set_lib::lemma_set_intersect_union_lens(a@, b@);
        assert(a@.union(b@) == a@ + b@);
        vstd::set_lib::lemma_len_intersect(b@, a@);
        assert(a@.intersect(b@) =~= b@.intersect(a@));
        assert(b.len() == b@.len());
        assert(a.len() == a@.len());
    }
    let union = a.len() + (b.len() - intersection);
    Ratio { numerator: intersection, denominator: union }
}

} // verus!

verus! {

proof fn lemma_match_count_symmetric(a: Seq<u64>, b: Seq<u64>, n: int)
    ensures
        spec_match_count(a, b, n) == spec_match_count(b, a, n),
    decreases n,
{
    if n > 0 {
        lemma_match_count_symmetric(a, b, n - 1);
    }
}

proof fn lemma_match_count_self(a: Seq<u64>, n: int)
    requires
        0 <= n,
    ensures
        spec_match_count(a, a, n) == n,
    decreases n,
{
    if n > 0 {
        lemma_match_count_self(a, n - 1);
    }
}

/// A signature agrees with itself on every slot: its estimate against
/// itself is exactly one.
pub proof fn lemma_estimate_self(s: Seq<u64>)
    requires
        0 < s.len() <= usize::MAX,
    ensures
        spec_estimate_jaccard(s, s) == (Ratio { numerator: s.len() as usize, denominator: s.len() as usize }),
{
    lemma_match_count_self(s, s.len() as int);
}

/// The MinHash estimate is symmetric and lies between zero and one: its
/// numerator never exceeds its positive denominator.
pub proof fn lemma_estimate_jaccard_symmetric_bounded(a: Seq<u64>, b: Seq<u64>)
    requires
        a.len() <= usize::MAX,
    ensures
        spec_estimate_jaccard(a, b) == spec_estimate_jaccard(b, a),
        spec_estimate_jaccard(a, b).denominator > 0,
        spec_estimate_jaccard(a, b).numerator <= spec_estimate_jaccard(a, b).denominator,
{
    lemma_match_count_symmetric(a, b, a.len() as int);
    lemma_match_count_bound(a, b, a.len() as int);
}

/// A slot minimum is unique: two values that are both the minimum of the
/// same hash over the same set are equal.
pub proof fn lemma_slot_min_unique(features: Set<u64>, seed: u32, v: u64, w: u64)
    requires
        spec_slot_min(features, seed, v),
        spec_slot_min(features, seed, w),
    ensures
        v == w,
{
    if !features.is_empty() {
        let x = choose|x: u64| #[trigger] features.contains(x) && v == spec_permuted_hash(x, seed);
        let y = choose|y: u64| #[trigger] features.contains(y) && w == spec_permuted_hash(y, seed);
        assert(v <= spec_permuted_hash(y, seed));
        assert(w <= spec_permuted_hash(x, seed));
    }
}

/// Equal feature sets give equal signatures of the same length, and the
/// estimate of a non-empty signature against one equal to it is exactly one.
pub proof fn lemma_equal_sets_estimate_one(features: Set<u64>, a: Seq<u64>, b: Seq<u64>)
    requires
        spec_is_signature(features, a),
        spec_is_signature(features, b),
        a.len() == b.len(),
        0 < a.len() <= usize::MAX,
    ensures
        a == b,
        spec_estimate_jaccard(a, b) == (Ratio { numerator: a.len() as usize, denominator: a.len() as usize }),
{
    assert forall|i: int| 0 <= i < a.len() implies a[i] == b[i] by {
        lemma_slot_min_unique(features, i as u32, a[i], b[i]);
    }
    assert(a =~= b);
    lemma_match_count_self(a, a.len() as int);
}

/// The exact Jaccard similarity is symmetric, lies between zero and one,
/// and is exactly one for a set against itself.
pub proof fn lemma_exact_jaccard_symmetric_bounded(a: Set<u64>, b: Set<u64>)
    requires
        a.finite(),
        b.finite(),
        a.union(b).len() <= usize::MAX,
    ensures
        spec_exact_jaccard(a, b) == spec_exact_jaccard(b, a),
        spec_exact_jaccard(a, b).denominator > 0,
        spec_exact_jaccard(a, b).numerator <= spec_exact_jaccard(a, b).denominator,
        spec_exact_jaccard(a, a).numerator == spec_exact_jaccard(a, a).denominator,
{
    assert(a.intersect(b) =~= b.intersect(a));
    assert(a.union(b) =~= b.union(a));
    assert(a.intersect(a) =~= a);
    assert(a.union(a) =~= a);
    if !(a.is_empty() && b.is_empty()) {
        vstd::set_lib::lemma_len_subset(a.intersect(b), a.union(b));
        if a.is_empty() {
            assert(b.len() > 0) by {
                if b.len() == 0 {
                    vstd::set_lib::lemma_set_empty_equivalency_len(b);
                }
            }
            vstd::set_lib::lemma_len_subset(b, a.union(b));
        } else {
            assert(a.len() > 0) by {
                if a.len() == 0 {
                    vstd::set_lib::lemma_set_empty_equivalency_len(a);
                }
            }
            vstd::set_lib::lemma_len_subset(a, a.union(b));
        }
    }
}

/// A finite feature set has a minimum for every hash.
proof fn lemma_slot_min_exists(features: Set<u64>, seed: u32)
    requires
        features.finite(),
    ensures
        spec_slot_min(features, seed, spec_slot_value(features, seed)),
    decreases features.len(),
{
    if features.is_empty() {
        assert(spec_slot_min(features, seed, u64::MAX));
    } else {
        let x = features.choose();
        let rest = features.remove(x);
        let hx = spec_permuted_hash(x, seed);
        lemma_slot_min_exists(rest, seed);
        let w = spec_slot_value(rest, seed);
        let v = if rest.is_empty() || hx <= w {
            hx
        } else {
            w
        };
        assert forall|y: u64| #[trigger] features.contains(y) implies v <= spec_permuted_hash(y, seed) by {
            if y != x {
                assert(rest.contains(y));
            }
        }
        if v != hx {
            let y = choose|y: u64| #[trigger] rest.contains(y) && w == spec_permuted_hash(y, seed);
            assert(features.contains(y));
        }
        assert(spec_slot_min(features, seed, v));
    }
}

/// The minimum of a hash over the union of two sets is the smaller of its
/// minima over each.
proof fn lemma_slot_min_union(a: Set<u64>, b: Set<u64>, seed: u32, va: u64, vb: u64)
    requires
        spec_slot_min(a, seed, va),
        spec_slot_min(b, seed, vb),
    ensures
        spec_slot_min(a.union(b), seed, if va <= vb { va } else { vb }),
{
    let u = a.union(b);
    let v = if va <= vb { va } else { vb };
    assert forall|x: u64| #[trigger] u.contains(x) implies v <= spec_permuted_hash(x, seed) by {
        if a.contains(x) {
            assert(va <= spec_permuted_hash(x, seed));
        } else {
            assert(vb <= spec_permuted_hash(x, seed));
        }
    }
    if u.is_empty() {
        assert(a =~= Set::<u64>::empty());
        assert(b =~= Set::<u64>::empty());
    } else if (v == va && !a.is_empty()) || b.is_empty() {
        if b.is_empty() {
            assert(!a.is_empty()) by {
                assert(u =~= a);
            }
        }
        let x = choose|x: u64| #[trigger] a.contains(x) && va == spec_permuted_hash(x, seed);
        assert(u.contains(x));
    } else {
        let x = choose|x: u64| #[trigger] b.contains(x) && vb == spec_permuted_hash(x, seed);
        assert(u.contains(x));
        if v != vb {
            assert(a.is_empty());
            assert(va == u64::MAX);
        }
    }
}

/// The MinHash signature of the union of two finite feature sets is, slot
/// by slot, the smaller of the two sets' signatures; so a set never has a
/// larger slot than a subset of it.
pub proof fn lemma_signature_union(a: Set<u64>, b: Set<u64>, num_hashes: nat)
    requires
        a.finite(),
        b.finite(),
    ensures
        forall|i: int|
            0 <= i < num_hashes ==> #[trigger] spec_signature(a.union(b), num_hashes)[i] == (if spec_signature(
                a,
                num_hashes,
            )[i] <= spec_signature(b, num_hashes)[i] {
                spec_signature(a, num_hashes)[i]
            } else {
                spec_signature(b, num_hashes)[i]
            }),
        a.subset_of(b) ==> forall|i: int|
            0 <= i < num_hashes ==> #[trigger] spec_signature(b, num_hashes)[i] <= spec_signature(
                a,
                num_hashes,
            )[i],
{
    let u = a.union(b);
    assert forall|i: int| 0 <= i < num_hashes implies #[trigger] spec_signature(u, num_hashes)[i] == (
    if spec_signature(a, num_hashes)[i] <= spec_signature(b, num_hashes)[i] {
        spec_signature(a, num_hashes)[i]
    } else {
        spec_signature(b, num_hashes)[i]
    }) by {
        let seed = i as u32;
        lemma_slot_min_exists(a, seed);
        lemma_slot_min_exists(b, seed);
        lemma_slot_min_exists(u, seed);
        let va = spec_slot_value(a, seed);
        let vb = spec_slot_value(b, seed);
        lemma_slot_min_union(a, b, seed, va, vb);
        lemma_slot_min_unique(u, seed, spec_slot_value(u, seed), if va <= vb { va } else { vb });
    }
    if a.subset_of(b) {
        assert(u =~= b);
        assert forall|i: int| 0 <= i < num_hashes implies #[trigger] spec_signature(b, num_hashes)[i]
            <= spec_signature(a, num_hashes)[i] by {
            assert(spec_signature(u, num_hashes)[i] == spec_signature(b, num_hashes)[i]);
        }
    }
}

proof fn lemma_match_count_update(a: Seq<u64>, b: Seq<u64>, j: int, v: u64, n: int)
    requires
        0 <= j < b.len(),
        0 <= n <= b.len(),
    ensures
        spec_match_count(a, b.update(j, v), n) + (if j < n && a[j] == b[j] { 1int } else { 0int })
            == spec_match_count(a, b, n) + (if j < n && a[j] == v { 1int } else { 0int }),
    decreases n,
{
    if n > 0 {
        lemma_match_count_update(a, b, j, v, n - 1);
    }
}

/// Changing one slot of a signature changes its estimate against another
/// by that slot alone: the count of agreeing slots loses one if the slot
/// agreed before and gains one if it agrees after.
pub proof fn lemma_estimate_one_slot(a: Seq<u64>, b: Seq<u64>, j: int, v: u64)
    requires
        a.len() == b.len(),
        b.len() <= usize::MAX,
        0 <= j < b.len(),
    ensures
        spec_estimate_jaccard(a, b.update(j, v)).denominator == spec_estimate_jaccard(a, b).denominator,
        spec_estimate_jaccard(a, b.update(j, v)).numerator + (if a[j] == b[j] { 1int } else { 0int })
            == spec_estimate_jaccard(a, b).numerator + (if a[j] == v { 1int } else { 0int }),
{
    let n = a.len() as int;
    lemma_match_count_update(a, b, j, v, n);
    lemma_match_count_bound(a, b, n);
    lemma_match_count_bound(a, b.update(j, v), n);
}

} // verus!
