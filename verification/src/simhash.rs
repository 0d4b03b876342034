//! SimHash fingerprint generation for program bytecode features.
use std::collections::HashSet;
use vstd::bytes::{spec_u64_to_le_bytes, u64_to_le_bytes};
use vstd::prelude::*;

use crate::digest::{digest_prefix_u64, spec_digest_prefix_u64};
use crate::features::{count_prefix, lemma_count_prefix_set, lemma_count_set, set_elements};
use crate::ratio::Ratio;

verus! {

/// A 64-bit SimHash fingerprint.
#[derive(Debug, Clone, Copy, PartialEq, Eq, Hash, Structural)]
pub struct SimHash(pub u64);

/// The 64-bit hash of a feature: the first eight bytes of the SHA-256 digest
/// of its little-endian bytes.
pub open spec fn spec_feature_hash(value: u64) -> u64 {
    spec_digest_prefix_u64(spec_u64_to_le_bytes(value))
}

/// Whether bit `b` of `x` is set.
pub open spec fn spec_bit(x: u64, b: u64) -> bool {
    (x >> b) & 1 == 1
}

/// Whether bit `b` of a feature's hash is set.
pub open spec fn spec_hash_bit(b: u64) -> spec_fn(u64) -> bool {
    |x: u64| spec_bit(spec_feature_hash(x), b)
}

/// Strictly more features of `features` have bit `b` set in their hash
/// than have it clear.
pub open spec fn spec_majority(features: Set<u64>, b: u64) -> bool {
    2 * features.filter(spec_hash_bit(b)).len() > features.len()
}

/// `fingerprint` is the SimHash of `features`: bit `b` is set exactly when
/// the features whose hash has bit `b` set are a strict majority.
pub open spec fn spec_is_simhash(features: Set<u64>, fingerprint: u64) -> bool {
    forall|b: u64| b < 64 ==> (#[trigger] spec_bit(fingerprint, b) <==> spec_majority(features, b))
}

/// The SimHash of `features`: the fingerprint whose bits are the majority
/// votes of the features' hashes.
pub open spec fn spec_simhash(features: Set<u64>) -> u64 {
    choose|fingerprint: u64| spec_is_simhash(features, fingerprint)
}

proof fn lemma_high_bits_agree(a: u64, b: u64, k: u64)
    requires
        k <= 64,
        forall|i: u64| k <= i < 64 ==> (#[trigger] spec_bit(a, i) <==> spec_bit(b, i)),
    ensures
        a >> k == b >> k,
    decreases 64 - k,
{
    if k == 64 {
        assert(a >> 64u64 == 0u64 && b >> 64u64 == 0u64) by (bit_vector);
    } else {
        lemma_high_bits_agree(a, b, (k + 1) as u64);
        let k1 = (k + 1) as u64;
        assert(spec_bit(a, k) <==> spec_bit(b, k));
        assert(a >> k == b >> k) by (bit_vector)
            requires
                k < 64,
                k1 == k + 1,
                a >> k1 == b >> k1,
                ((a >> k) & 1 == 1) <==> ((b >> k) & 1 == 1),
        ;
    }
}

/// A SimHash is determined by its feature set.
pub proof fn lemma_simhash_determined(features: Set<u64>, fingerprint: u64)
    requires
        spec_is_simhash(features, fingerprint),
    ensures
        fingerprint == spec_simhash(features),
{
    let other = spec_simhash(features);
    assert(spec_is_simhash(features, other));
    assert forall|i: u64| 0 <= i < 64 implies (#[trigger] spec_bit(fingerprint, i) <==> spec_bit(
        other,
        i,
    )) by {
        assert(spec_bit(fingerprint, i) <==> spec_majority(features, i));
        assert(spec_bit(other, i) <==> spec_majority(features, i));
    }
    lemma_high_bits_agree(fingerprint, other, 0);
    assert(fingerprint >> 0u64 == fingerprint && other >> 0u64 == other) by (bit_vector);
}

fn feature_hash(value: u64) -> (h: u64)
    ensures
        h == spec_feature_hash(value),
{
    let bytes = u64_to_le_bytes(value);
    digest_prefix_u64(bytes.as_slice())
}

proof fn lemma_set_bit(fp: u64, b: u64, c: u64)
    requires
        b < 64,
        c < 64,
    ensures
        spec_bit(fp | (1u64 << b), c) <==> (spec_bit(fp, c) || c == b),
{
    assert(((fp | (1u64 << b)) >> c) & 1 == 1 <==> (((fp >> c) & 1 == 1) || c == b))
        by (bit_vector)
        requires
            b < 64,
            c < 64,
    ;
}

proof fn lemma_zero_bits(c: u64)
    requires
        c < 64,
    ensures
        !spec_bit(0u64, c),
{
    assert(((0u64 >> c) & 1) == 0) by (bit_vector);
}

/// Compute a SimHash fingerprint from a set of feature hashes.
pub fn compute_simhash(features: &HashSet<u64>) -> (sim: SimHash)
    ensures
        spec_is_simhash(features@, sim.0),
        sim.0 == spec_simhash(features@),
{
    if features.is_empty() {
        proof {
            assert forall|b: u64| b < 64 implies (#[trigger] spec_bit(0u64, b) <==> spec_majority(
                features@,
                b,
            )) by {
                lemma_zero_bits(b);
                assert(features@.filter(spec_hash_bit(b)) =~= Set::<u64>::empty());
            }
            lemma_simhash_determined(features@, 0u64);
        }
        return SimHash(0);
    }
    let elems = set_elements(features);
    let n = elems.len();
    let mut ones: Vec<usize> = vec![0usize; 64];
    let mut k: usize = 0;
    while k < n
        invariant
            n == elems@.len(),
            elems@.no_duplicates(),
            k <= n,
            ones@.len() == 64,
            forall|b: int|
                0 <= b < 64 ==> #[trigger] ones@[b] == count_prefix(
                    elems@,
                    spec_hash_bit(b as u64),
                    k as int,
                ),
        decreases n - k,
    {
        let hash = feature_hash(elems[k]);
        let mut b: usize = 0;
        while b < 64
            invariant
                n == elems@.len(),
                elems@.no_duplicates(),
                k < n,
                b <= 64,
                ones@.len() == 64,
                hash == spec_feature_hash(elems@[k as int]),
                forall|c: int|
                    0 <= c < b ==> #[trigger] ones@[c] == count_prefix(
                        elems@,
                        spec_hash_bit(c as u64),
                        k + 1,
                    ),
                forall|c: int|
                    b <= c < 64 ==> #[trigger] ones@[c] == count_prefix(
                        elems@,
                        spec_hash_bit(c as u64),
                        k as int,
                    ),
            decreases 64 - b,
        {
            proof {
                lemma_count_prefix_set(elems@, spec_hash_bit(b as u64), k as int);
            }
            if (hash >> (b as u64)) & 1 == 1 {
                ones.set(b, ones[b] + 1);
            }
            b = b + 1;
        }
        k = k + 1;
    }
    let mut fingerprint: u64 = 0;
    proof {
        assert forall|c: u64| 0 <= c < 64 implies !#[trigger] spec_bit(fingerprint, c) by {
            lemma_zero_bits(c);
        }
    }
    let mut b: usize = 0;
    while b < 64
        invariant
            n == elems@.len(),
            elems@.no_duplicates(),
            elems@.to_set() == features@,
            n == features@.len(),
            b <= 64,
            ones@.len() == 64,
            forall|c: int|
                0 <= c < 64 ==> #[trigger] ones@[c] == count_prefix(
                    elems@,
                    spec_hash_bit(c as u64),
                    n as int,
                ),
            forall|c: u64| c < b ==> (#[trigger] spec_bit(fingerprint, c) <==> spec_majority(features@, c)),
            forall|c: u64| b <= c < 64 ==> !#[trigger] spec_bit(fingerprint, c),
        decreases 64 - b,
    {
        proof {
            lemma_count_set(elems@, spec_hash_bit(b as u64));
            lemma_count_prefix_set(elems@, spec_hash_bit(b as u64), n as int);
            assert(elems@.take(n as int) =~= elems@);
        }
        if ones[b] > n - ones[b] {
            let ghost old_fp = fingerprint;
            fingerprint = fingerprint | (1u64 << (b as u64));
            proof {
                assert forall|c: u64| c < 64 implies (#[trigger] spec_bit(fingerprint, c) <==> (
                spec_bit(old_fp, c) || c == b as u64)) by {
                    lemma_set_bit(old_fp, b as u64, c);
                }
            }
        }
        b = b + 1;
    }
    proof {
        lemma_simhash_determined(features@, fingerprint);
    }
    SimHash(fingerprint)
}

/// Number of set bits among bits `0..k` of `x`.
pub open spec fn spec_bits_set(x: u64, k: nat) -> nat
    decreases k,
{
    if k == 0 {
        0
    } else if spec_bit(x, (k - 1) as u64) {
        spec_bits_set(x, (k - 1) as nat) + 1
    } else {
        spec_bits_set(x, (k - 1) as nat)
    }
}

/// Number of bit positions in which `a` and `b` differ.
pub open spec fn spec_hamming(a: u64, b: u64) -> nat {
    spec_bits_set(a ^ b, 64)
}

proof fn lemma_bits_set_bound(x: u64, k: nat)
    ensures
        spec_bits_set(x, k) <= k,
    decreases k,
{
    if k > 0 {
        lemma_bits_set_bound(x, (k - 1) as nat);
    }
}

/// Hamming distance between two SimHash values.
pub fn hamming_distance(a: SimHash, b: SimHash) -> (dist: u32)
    ensures
        dist == spec_hamming(a.0, b.0),
{
    let x = a.0 ^ b.0;
    let mut count: u32 = 0;
    let mut i: u64 = 0;
    while i < 64
        invariant
            i <= 64,
            x == a.0 ^ b.0,
            count == spec_bits_set(x, i as nat),
        decreases 64 - i,
    {
        proof {
            lemma_bits_set_bound(x, i as nat);
        }
        if (x >> i) & 1 == 1 {
            count = count + 1;
        }
        i = i + 1;
    }
    count
}

/// Similarity score in `[0, 1]` derived from Hamming distance: the fraction
/// of the 64 bits on which the two fingerprints agree.
pub fn similarity_from_simhash(a: SimHash, b: SimHash) -> (score: Ratio)
    ensures
        score == (Ratio { numerator: (64 - spec_hamming(a.0, b.0)) as usize, denominator: 64 }),
{
    let dist = hamming_distance(a, b);
    proof {
        lemma_bits_set_bound(a.0 ^ b.0, 64);
    }
    Ratio { numerator: 64 - dist as usize, denominator: 64 }
}

} // verus!

verus! {

proof fn lemma_bits_set_triangle(a: u64, b: u64, c: u64, k: nat)
    requires
        k <= 64,
    ensures
        spec_bits_set(a ^ c, k) <= spec_bits_set(a ^ b, k) + spec_bits_set(b ^ c, k),
    decreases k,
{
    if k > 0 {
        lemma_bits_set_triangle(a, b, c, (k - 1) as nat);
        let i = (k - 1) as u64;
        assert(((a ^ c) >> i) & 1 == 1 ==> (((a ^ b) >> i) & 1 == 1 || ((b ^ c) >> i) & 1 == 1))
            by (bit_vector);
    }
}

proof fn lemma_bits_set_zero(k: nat)
    requires
        k <= 64,
    ensures
        spec_bits_set(0u64, k) == 0,
    decreases k,
{
    if k > 0 {
        lemma_bits_set_zero((k - 1) as nat);
        lemma_zero_bits((k - 1) as u64);
    }
}

proof fn lemma_bits_set_zero_clear(x: u64, k: nat)
    requires
        k <= 64,
        spec_bits_set(x, k) == 0,
    ensures
        forall|i: u64| i < k ==> !#[trigger] spec_bit(x, i),
    decreases k,
{
    if k > 0 {
        lemma_bits_set_zero_clear(x, (k - 1) as nat);
    }
}

/// The Hamming distance between SimHash fingerprints is a metric on the
/// 64-bit values: it is at most 64, zero exactly between a fingerprint and
/// itself, symmetric, and obeys the triangle inequality.
pub proof fn lemma_hamming_metric(a: u64, b: u64, c: u64)
    ensures
        spec_hamming(a, b) <= 64,
        spec_hamming(a, a) == 0,
        spec_hamming(a, b) == 0 ==> a == b,
        spec_hamming(a, b) == spec_hamming(b, a),
        spec_hamming(a, c) <= spec_hamming(a, b) + spec_hamming(b, c),
{
    if spec_hamming(a, b) == 0 {
        lemma_bits_set_zero_clear(a ^ b, 64);
        assert forall|i: u64| 0 <= i < 64 implies (#[trigger] spec_bit(a, i) <==> spec_bit(b, i)) by {
            assert(!spec_bit(a ^ b, i));
            assert(((a ^ b) >> i) & 1 != 1 ==> (((a >> i) & 1 == 1) <==> ((b >> i) & 1 == 1)))
                by (bit_vector);
        }
        lemma_high_bits_agree(a, b, 0);
        assert(a >> 0u64 == a && b >> 0u64 == b) by (bit_vector);
    }
    lemma_bits_set_bound(a ^ b, 64);
    assert(a ^ a == 0u64) by (bit_vector);
    lemma_bits_set_zero(64);
    assert(a ^ b == b ^ a) by (bit_vector);
    lemma_bits_set_triangle(a, b, c, 64);
}

} // verus!
