use std::collections::HashSet;

use sha2::Digest;
use solana_program_fingerprint::minhash::{compute_signature, estimate_jaccard, exact_jaccard, MinHashSignature};
use solana_program_fingerprint::ratio::Ratio;
use solana_program_fingerprint::simhash::{compute_simhash, hamming_distance, similarity_from_simhash, SimHash};

fn value(r: Ratio) -> f64 {
    r.numerator as f64 / r.denominator as f64
}

fn digest_prefix(bytes: &[u8]) -> u64 {
    let digest = sha2::Sha256::digest(bytes);
    u64::from_le_bytes(digest[..8].try_into().unwrap())
}

#[test]
fn identical_sets_have_high_similarity() {
    let set: HashSet<u64> = (0..100).collect();
    let sig_a = compute_signature(&set, 64);
    let sig_b = compute_signature(&set, 64);
    let sim = value(estimate_jaccard(&sig_a, &sig_b));
    assert!((sim - 1.0).abs() < 0.01);
}

#[test]
fn disjoint_sets_have_low_similarity() {
    let a: HashSet<u64> = (0..50).collect();
    let b: HashSet<u64> = (100..150).collect();
    let sig_a = compute_signature(&a, 128);
    let sig_b = compute_signature(&b, 128);
    let sim = value(estimate_jaccard(&sig_a, &sig_b));
    assert!(sim < 0.1);
}

#[test]
fn identical_features_produce_same_simhash() {
    let set: HashSet<u64> = (0..50).collect();
    let a = compute_simhash(&set);
    let b = compute_simhash(&set);
    assert_eq!(a, b);
}

#[test]
fn hamming_distance_is_zero_for_equal_hashes() {
    let h = SimHash(0xDEAD_BEEF_CAFE_BABE);
    assert_eq!(hamming_distance(h, h), 0);
}

#[test]
fn signature_slot_is_minimum_of_seeded_digests() {
    let set: HashSet<u64> = [3u64, 17, 99].into_iter().collect();
    let sig = compute_signature(&set, 4);
    for seed in 0..4u32 {
        let expected = set
            .iter()
            .map(|v| {
                let mut bytes = v.to_le_bytes().to_vec();
                bytes.extend_from_slice(&seed.to_le_bytes());
                digest_prefix(&bytes)
            })
            .min()
            .unwrap();
        assert_eq!(sig.values[seed as usize], expected);
    }
}

#[test]
fn empty_set_signature_is_all_max() {
    let sig = compute_signature(&HashSet::new(), 5);
    assert_eq!(sig.values, vec![u64::MAX; 5]);
}

#[test]
fn simhash_of_one_feature_is_its_digest() {
    let set: HashSet<u64> = [42u64].into_iter().collect();
    let sim = compute_simhash(&set);
    assert_eq!(sim.0, digest_prefix(&42u64.to_le_bytes()));
    assert_eq!(compute_simhash(&HashSet::new()), SimHash(0));
}

#[test]
fn estimate_counts_agreeing_slots() {
    let a = MinHashSignature { values: vec![1, 2, 3, 4] };
    let b = MinHashSignature { values: vec![1, 9, 3, 9] };
    let est = estimate_jaccard(&a, &b);
    assert_eq!((est.numerator, est.denominator), (2, 4));
    let short = MinHashSignature { values: vec![1, 2] };
    let zero = estimate_jaccard(&a, &short);
    assert_eq!(zero.numerator, 0);
    let empty = MinHashSignature { values: vec![] };
    assert_eq!(estimate_jaccard(&empty, &empty).numerator, 0);
}

#[test]
fn estimate_is_symmetric() {
    let a = compute_signature(&(0..30).collect(), 32);
    let b = compute_signature(&(10..50).collect(), 32);
    assert_eq!(estimate_jaccard(&a, &b), estimate_jaccard(&b, &a));
}

#[test]
fn exact_jaccard_is_intersection_over_union() {
    let a: HashSet<u64> = (0..10).collect();
    let b: HashSet<u64> = (5..15).collect();
    let j = exact_jaccard(&a, &b);
    assert_eq!((j.numerator, j.denominator), (5, 15));
    assert_eq!(exact_jaccard(&b, &a), j);
    let none: HashSet<u64> = HashSet::new();
    let both_empty = exact_jaccard(&none, &none);
    assert_eq!((both_empty.numerator, both_empty.denominator), (1, 1));
    let one_empty = exact_jaccard(&a, &none);
    assert_eq!((one_empty.numerator, one_empty.denominator), (0, 10));
}

#[test]
fn hamming_distance_is_a_metric() {
    let a = SimHash(0b1011);
    let b = SimHash(0b0110);
    let c = SimHash(u64::MAX);
    assert_eq!(hamming_distance(a, b), 3);
    assert_eq!(hamming_distance(b, a), 3);
    assert!(hamming_distance(a, c) <= hamming_distance(a, b) + hamming_distance(b, c));
    assert_eq!(hamming_distance(SimHash(0), c), 64);
}

#[test]
fn simhash_similarity_counts_agreeing_bits() {
    let s = similarity_from_simhash(SimHash(0b1011), SimHash(0b0110));
    assert_eq!((s.numerator, s.denominator), (61, 64));
}

#[test]
fn union_signature_is_slotwise_minimum() {
    let a: HashSet<u64> = [1u64, 5, 9].into_iter().collect();
    let b: HashSet<u64> = [2u64, 5, 40].into_iter().collect();
    let u: HashSet<u64> = a.union(&b).copied().collect();
    let sa = compute_signature(&a, 24);
    let sb = compute_signature(&b, 24);
    let su = compute_signature(&u, 24);
    for i in 0..24 {
        assert_eq!(su.values[i], sa.values[i].min(sb.values[i]));
        assert!(su.values[i] <= sa.values[i]);
    }
}

#[test]
fn hamming_distance_zero_only_for_equal_hashes() {
    assert_eq!(hamming_distance(SimHash(0xdead_beef), SimHash(0xdead_beef)), 0);
    assert_eq!(hamming_distance(SimHash(0xdead_beef), SimHash(0xdead_beee)), 1);
    assert_eq!(hamming_distance(SimHash(0), SimHash(u64::MAX)), 64);
}
