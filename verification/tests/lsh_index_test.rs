use std::collections::HashSet;

use solana_program_fingerprint::lsh_index::{LshConfig, LshIndex};
use solana_program_fingerprint::minhash::{self, MinHashSignature};
use solana_program_fingerprint::ratio::Ratio;

#[test]
fn identical_signatures_share_buckets() {
    let features: HashSet<u64> = (0..50).collect();
    let sig = minhash::compute_signature(&features, 64);
    let mut index = LshIndex::new(64, 8).unwrap();
    index.insert("prog_a", sig.clone());
    let hits = index.query(&sig);
    assert!(hits.iter().any(|h| h.program_id == "prog_a"));
}

#[test]
fn disjoint_sets_rarely_collide() {
    let a: HashSet<u64> = (0..50).collect();
    let b: HashSet<u64> = (1000..1050).collect();
    let sig_a = minhash::compute_signature(&a, 64);
    let sig_b = minhash::compute_signature(&b, 64);
    let mut index = LshIndex::new(64, 8).unwrap();
    index.insert("a", sig_a.clone());
    let scored = index.query_with_scores(&sig_b, Ratio { numerator: 1, denominator: 2 });
    assert!(scored.is_empty());
}

#[test]
fn banding_requires_divisible_length() {
    let config = LshConfig::from_signature_len(64, 8).unwrap();
    assert_eq!((config.bands, config.rows_per_band), (8, 8));
    let err = LshConfig::from_signature_len(64, 5).unwrap_err();
    assert_eq!(err, "signature length 64 must be divisible by bands 5");
    let err0 = LshConfig::from_signature_len(10, 0).unwrap_err();
    assert_eq!(err0, "signature length 10 must be divisible by bands 0");
    assert!(LshIndex::new(12, 5).is_err());
}

#[test]
fn query_reports_first_shared_band() {
    let mut index = LshIndex::new(4, 2).unwrap();
    index.insert("x", MinHashSignature { values: vec![1, 2, 3, 4] });
    let hits = index.query(&MinHashSignature { values: vec![9, 9, 3, 4] });
    assert_eq!(hits.len(), 1);
    assert_eq!(hits[0].program_id, "x");
    assert_eq!(hits[0].band_index, 1);
    let none = index.query(&MinHashSignature { values: vec![9, 9, 9, 9] });
    assert!(none.is_empty());
}

#[test]
fn reinserting_a_program_replaces_its_signature() {
    let mut index = LshIndex::new(4, 2).unwrap();
    index.insert("x", MinHashSignature { values: vec![1, 2, 3, 4] });
    index.insert("x", MinHashSignature { values: vec![1, 2, 7, 8] });
    assert_eq!(index.len(), 1);
    let scored = index.query_with_scores(
        &MinHashSignature { values: vec![1, 2, 7, 8] },
        Ratio { numerator: 0, denominator: 1 },
    );
    assert_eq!(scored.len(), 1);
    assert_eq!(scored[0].1, Ratio { numerator: 4, denominator: 4 });
}

#[test]
fn scores_come_best_first() {
    let mut index = LshIndex::new(4, 4).unwrap();
    index.insert("half", MinHashSignature { values: vec![1, 2, 0, 0] });
    index.insert("full", MinHashSignature { values: vec![1, 2, 3, 4] });
    index.insert("quarter", MinHashSignature { values: vec![1, 0, 0, 0] });
    assert_eq!(index.len(), 3);
    assert!(!index.is_empty());
    let scored = index.query_with_scores(
        &MinHashSignature { values: vec![1, 2, 3, 4] },
        Ratio { numerator: 1, denominator: 2 },
    );
    let names: Vec<&str> = scored.iter().map(|(id, _)| id.as_str()).collect();
    assert_eq!(names, vec!["full", "half"]);
    assert_eq!(scored[1].1, Ratio { numerator: 2, denominator: 4 });
}

#[test]
fn equal_scores_follow_first_shared_band() {
    let mut index = LshIndex::new(4, 4).unwrap();
    index.insert("late", MinHashSignature { values: vec![9, 2, 3, 9] });
    index.insert("early", MinHashSignature { values: vec![1, 9, 9, 4] });
    let scored = index.query_with_scores(
        &MinHashSignature { values: vec![1, 2, 3, 4] },
        Ratio { numerator: 1, denominator: 4 },
    );
    let names: Vec<&str> = scored.iter().map(|(id, _)| id.as_str()).collect();
    assert_eq!(names, vec!["early", "late"]);
    assert_eq!(scored[0].1, scored[1].1);
}

#[test]
fn inserting_only_adds_query_results() {
    let mut index = LshIndex::new(4, 2).unwrap();
    index.insert("a", MinHashSignature { values: vec![1, 2, 3, 4] });
    let probe = MinHashSignature { values: vec![1, 2, 5, 6] };
    let before: Vec<String> = index.query(&probe).into_iter().map(|c| c.program_id).collect();
    index.insert("b", MinHashSignature { values: vec![7, 8, 5, 6] });
    let after: Vec<String> = index.query(&probe).into_iter().map(|c| c.program_id).collect();
    assert_eq!(before, vec!["a".to_string()]);
    assert!(before.iter().all(|id| after.contains(id)));
    assert!(after.contains(&"b".to_string()));
    assert_eq!(index.len(), 2);
    index.insert("b", MinHashSignature { values: vec![1, 1, 1, 1] });
    assert_eq!(index.len(), 2);
    let again: Vec<String> = index.query(&probe).into_iter().map(|c| c.program_id).collect();
    assert!(again.contains(&"b".to_string()));
}
