use solana_program_fingerprint::bytecode_normalize::{compression_ratio, normalize_bytecode, NormalizeConfig};
use solana_program_fingerprint::cluster::cluster_directory;
use solana_program_fingerprint::elf_loader::{text_of_image, ElfImage, LoadError, SectionInfo};
use solana_program_fingerprint::fingerprint_db::{
    default_program_id, fingerprint_file_entry, format_db_summary, merge_databases, FingerprintDb,
    StoredFingerprint,
};
use solana_program_fingerprint::lsh_index::{self, LshIndex};
use solana_program_fingerprint::paths::same_path;
use solana_program_fingerprint::ratio::{Ratio, WideRatio};
use solana_program_fingerprint::similarity_report::{
    self, batch_compare, classify_similarity, compare_stored, quick_compare, SimilarityTier,
};
use solana_program_fingerprint::{
    fingerprint_bytes, fingerprint_bytes_with_config, fingerprint_file, minhash, opcode_ngram,
    ProgramFile,
};

fn push_u16(buf: &mut Vec<u8>, val: u16) {
    buf.extend_from_slice(&val.to_le_bytes());
}

fn push_u32(buf: &mut Vec<u8>, val: u32) {
    buf.extend_from_slice(&val.to_le_bytes());
}

fn push_u64(buf: &mut Vec<u8>, val: u64) {
    buf.extend_from_slice(&val.to_le_bytes());
}

/// Build a minimal valid ELF64 executable with a .text section whose flags
/// are `text_flags`.
fn build_elf_with_flags(text: &[u8], text_flags: u64) -> Vec<u8> {
    let mut elf = Vec::new();
    const SHOFF: u64 = 256;
    const TEXT_OFFSET: u64 = 512;
    const SHSTRTAB_OFFSET: u64 = 768;

    elf.extend_from_slice(&[0x7f, b'E', b'L', b'F', 2, 1, 1, 0, 0, 0, 0, 0, 0, 0, 0, 0]);
    push_u16(&mut elf, 2);
    push_u16(&mut elf, 247);
    push_u32(&mut elf, 1);
    push_u64(&mut elf, 0);
    push_u64(&mut elf, 0);
    push_u64(&mut elf, SHOFF);
    push_u32(&mut elf, 0);
    push_u16(&mut elf, 64);
    push_u16(&mut elf, 0);
    push_u16(&mut elf, 0);
    push_u16(&mut elf, 64);
    push_u16(&mut elf, 3);
    push_u16(&mut elf, 2);

    while elf.len() < SHOFF as usize {
        elf.push(0);
    }

    elf.extend_from_slice(&[0u8; 64]);

    push_u32(&mut elf, 1);
    push_u32(&mut elf, 1);
    push_u64(&mut elf, text_flags);
    push_u64(&mut elf, 0);
    push_u64(&mut elf, TEXT_OFFSET);
    push_u64(&mut elf, text.len() as u64);
    push_u32(&mut elf, 0);
    push_u32(&mut elf, 0);
    push_u64(&mut elf, 8);
    push_u64(&mut elf, 0);

    push_u32(&mut elf, 7);
    push_u32(&mut elf, 3);
    push_u64(&mut elf, 0);
    push_u64(&mut elf, 0);
    push_u64(&mut elf, SHSTRTAB_OFFSET);
    push_u64(&mut elf, 15);
    push_u32(&mut elf, 0);
    push_u32(&mut elf, 0);
    push_u64(&mut elf, 1);
    push_u64(&mut elf, 0);

    while elf.len() < TEXT_OFFSET as usize {
        elf.push(0);
    }

    elf.extend_from_slice(text);

    while elf.len() < SHSTRTAB_OFFSET as usize {
        elf.push(0);
    }
    elf.extend_from_slice(b"\0.text\0.shstrtab\0");

    elf
}

/// Build a minimal valid ELF64 executable with a .text section for testing.
fn build_test_elf(text: &[u8]) -> Vec<u8> {
    build_elf_with_flags(text, 0x6)
}

fn sample_bytecode(seed: u8) -> Vec<u8> {
    (0..32u8)
        .map(|i| {
            let opcode = (seed.wrapping_add(i)) % 0x20;
            [opcode, (i % 16) | ((i % 16) << 4), 0, 0, 0, 0, 0, 0]
        })
        .flatten()
        .collect()
}

fn value(r: Ratio) -> f64 {
    r.numerator as f64 / r.denominator as f64
}

#[test]
fn bytecode_normalize_strips_nops() {
    let mut text = sample_bytecode(1);
    text[0..8].copy_from_slice(&[0xb7, 0, 0, 0, 0, 0, 0, 0]);
    let result = normalize_bytecode(&text, NormalizeConfig::default());
    assert!(result.removed_instructions >= 1);
    assert!(value(compression_ratio(&result)) <= 1.0);
}

#[test]
fn lsh_index_finds_similar_program() {
    let text = sample_bytecode(42);
    let ngrams = opcode_ngram::extract_ngrams(&text, 3);
    let sig = minhash::compute_signature(&ngrams, 64);
    let mut index = LshIndex::new(64, 8).unwrap();
    index.insert("target", sig.clone());
    let hits = index.query_with_scores(&sig, Ratio { numerator: 9, denominator: 10 });
    assert!(!hits.is_empty());
}

#[test]
fn similarity_report_tiers_identical() {
    let text = sample_bytecode(7);
    let fp_a = fingerprint_bytes(&text).unwrap();
    let fp_b = fingerprint_bytes(&text).unwrap();
    let report = similarity_report::SimilarityReport::from_fingerprints("a", "b", &fp_a, &fp_b);
    assert_eq!(report.tier, SimilarityTier::Identical);
}

#[test]
fn fingerprint_db_scan_and_query() {
    let text = sample_bytecode(20);
    let files = vec![ProgramFile { path: "dir/prog.so".to_string(), data: build_test_elf(&text) }];
    let db = FingerprintDb::scan_directory(&files, 3, 64).unwrap();
    assert_eq!(db.len(), 1);
    let index = lsh_index::build_index_from_db(&db, 8).unwrap();
    assert_eq!(index.len(), 1);
}

#[test]
fn similarity_report_from_files() {
    let text = sample_bytecode(15);
    let a = build_test_elf(&text);
    let b = build_test_elf(&text);
    let report = similarity_report::compare_paths("dir/a.so", &a, "dir/b.so", &b).unwrap();
    assert!((value(report.jaccard_exact) - 1.0).abs() < f64::EPSILON);
}

#[test]
fn normalized_fingerprint_differs_with_policy() {
    let mut text = sample_bytecode(3);
    text[0..8].copy_from_slice(&[0xb7, 0, 0, 0, 0, 0, 0, 0]);
    let raw = fingerprint_bytes(&text).unwrap();
    let norm = fingerprint_bytes_with_config(
        &text,
        NormalizeConfig { strip_nops: true, ..Default::default() },
    )
    .unwrap();
    assert_ne!(raw.ngram_count, norm.ngram_count);
}

/// Program text whose register byte counts up with the instruction.
fn sample_text(seed: u8) -> Vec<u8> {
    (0..32)
        .map(|i| {
            let opcode = seed.wrapping_add(i as u8) % 0x20;
            [opcode, i as u8, 0, 0, 0, 0, 0, 0]
        })
        .flatten()
        .collect()
}

/// A minimal ELF64 file whose string-table section header is written
/// without its address field, so that the table has no names.
fn build_unnamed_elf(text: &[u8]) -> Vec<u8> {
    let mut elf = Vec::new();
    const SHOFF: u64 = 256;
    const TEXT_OFFSET: u64 = 512;
    const SHSTRTAB_OFFSET: u64 = 768;

    elf.extend_from_slice(&[0x7f, b'E', b'L', b'F', 2, 1, 1, 0, 0, 0, 0, 0, 0, 0, 0, 0]);
    push_u16(&mut elf, 2);
    push_u16(&mut elf, 247);
    push_u32(&mut elf, 1);
    push_u64(&mut elf, 0);
    push_u64(&mut elf, 0);
    push_u64(&mut elf, SHOFF);
    push_u32(&mut elf, 0);
    push_u16(&mut elf, 64);
    push_u16(&mut elf, 0);
    push_u16(&mut elf, 0);
    push_u16(&mut elf, 64);
    push_u16(&mut elf, 3);
    push_u16(&mut elf, 2);

    while elf.len() < SHOFF as usize {
        elf.push(0);
    }

    elf.extend_from_slice(&[0u8; 64]);
    push_u32(&mut elf, 1);
    push_u32(&mut elf, 1);
    push_u64(&mut elf, 0x6);
    push_u64(&mut elf, 0);
    push_u64(&mut elf, TEXT_OFFSET);
    push_u64(&mut elf, text.len() as u64);
    push_u32(&mut elf, 0);
    push_u32(&mut elf, 0);
    push_u64(&mut elf, 8);
    push_u64(&mut elf, 0);

    push_u32(&mut elf, 7);
    push_u32(&mut elf, 3);
    push_u64(&mut elf, 0);
    push_u64(&mut elf, SHSTRTAB_OFFSET);
    push_u64(&mut elf, 15);
    push_u32(&mut elf, 0);
    push_u32(&mut elf, 0);
    push_u64(&mut elf, 1);
    push_u64(&mut elf, 0);

    while elf.len() < TEXT_OFFSET as usize {
        elf.push(0);
    }
    elf.extend_from_slice(text);
    while elf.len() < SHSTRTAB_OFFSET as usize {
        elf.push(0);
    }
    elf.extend_from_slice(b"\0.text\0.shstrtab\0");
    elf
}

#[test]
fn scan_directory_builds_entries() {
    let files = vec![
        ProgramFile { path: "dir/alpha.so".to_string(), data: build_unnamed_elf(&sample_text(1)) },
        ProgramFile { path: "dir/beta.so".to_string(), data: build_unnamed_elf(&sample_text(50)) },
    ];
    let db = FingerprintDb::scan_directory(&files, opcode_ngram::DEFAULT_NGRAM_SIZE, 64).unwrap();
    assert_eq!(db.len(), 2);
}

#[test]
fn scan_passes_over_files_that_are_not_programs() {
    let files = vec![
        ProgramFile { path: "dir/readme.txt".to_string(), data: b"hello".to_vec() },
        ProgramFile { path: "dir/alpha.so".to_string(), data: build_test_elf(&sample_bytecode(1)) },
        ProgramFile { path: "other/alpha.so".to_string(), data: build_test_elf(&sample_bytecode(9)) },
    ];
    let db = FingerprintDb::scan_directory(&files, 3, 16).unwrap();
    assert_eq!(db.version, 1);
    assert_eq!(db.len(), 1);
    let entry = db.find_by_id("alpha").unwrap();
    assert_eq!(entry.source_path, "other/alpha.so");
    assert_eq!(entry.minhash.len(), 16);
}

#[test]
fn scan_stops_at_program_without_ngrams() {
    let files = vec![
        ProgramFile { path: "dir/tiny.so".to_string(), data: build_test_elf(&sample_bytecode(1)[..16]) },
        ProgramFile { path: "dir/alpha.so".to_string(), data: build_test_elf(&sample_bytecode(1)) },
    ];
    let err = FingerprintDb::scan_directory(&files, 3, 16).unwrap_err();
    assert_eq!(err, "no ngrams extracted from dir/tiny.so");
}

#[test]
fn entry_records_normalized_fingerprint() {
    let mut text = sample_bytecode(2);
    text[0..8].copy_from_slice(&[0xb7, 0, 0, 0, 0, 0, 0, 0]);
    let data = build_test_elf(&text);
    let entry = fingerprint_file_entry("p", "dir/p.so", &data, 3, 32).unwrap();
    let normalized = normalize_bytecode(&text, NormalizeConfig::default());
    let ngrams = opcode_ngram::extract_ngrams(&normalized.normalized, 3);
    assert_eq!(entry.program_id, "p");
    assert_eq!(entry.source_path, "dir/p.so");
    assert_eq!(entry.normalized_len, normalized.normalized.len());
    assert_eq!(entry.ngram_count, ngrams.len());
    assert_eq!(entry.ngram_sample, ngrams);
    assert_eq!(entry.minhash, minhash::compute_signature(&ngrams, 32).values);
    assert!(fingerprint_file_entry("p", "dir/p.so", &[0u8; 3], 3, 32).unwrap_err().starts_with("not a valid elf: "));
}

#[test]
fn inserted_record_is_found_by_id() {
    let mut db = FingerprintDb::new();
    assert!(db.is_empty());
    let first = build_test_elf(&sample_bytecode(1));
    let second = build_test_elf(&sample_bytecode(2));
    db.insert_from_file("p", "a/p.so", &first, 3, 8).unwrap();
    db.insert_from_file("q", "a/q.so", &second, 3, 8).unwrap();
    db.insert_from_file("p", "b/p.so", &second, 3, 8).unwrap();
    assert_eq!(db.len(), 2);
    assert_eq!(db.entries[0].program_id, "p");
    assert_eq!(db.find_by_id("p").unwrap().source_path, "b/p.so");
    assert_eq!(db.find_by_id("q").unwrap().source_path, "a/q.so");
    assert!(db.find_by_id("r").is_none());
    let err = db.insert_from_file("r", "a/r.so", &[0u8; 4], 3, 8);
    assert!(err.is_err());
    assert_eq!(db.len(), 2);
}

#[test]
fn merge_prefers_secondary_records() {
    let mut primary = FingerprintDb::new();
    primary.insert_from_file("p", "old/p.so", &build_test_elf(&sample_bytecode(1)), 3, 8).unwrap();
    primary.insert_from_file("q", "old/q.so", &build_test_elf(&sample_bytecode(2)), 3, 8).unwrap();
    let mut secondary = FingerprintDb::new();
    secondary.version = 7;
    secondary.insert_from_file("q", "new/q.so", &build_test_elf(&sample_bytecode(3)), 3, 8).unwrap();
    secondary.insert_from_file("r", "new/r.so", &build_test_elf(&sample_bytecode(4)), 3, 8).unwrap();
    let merged = merge_databases(&primary, &secondary);
    assert_eq!(merged.version, 1);
    let ids: Vec<&str> = merged.entries.iter().map(|e| e.program_id.as_str()).collect();
    assert_eq!(ids, vec!["p", "q", "r"]);
    assert_eq!(merged.find_by_id("p").unwrap().source_path, "old/p.so");
    assert_eq!(merged.find_by_id("q").unwrap().source_path, "new/q.so");
    assert_eq!(merged.find_by_id("q").unwrap(), secondary.find_by_id("q").unwrap());
    let unchanged = merge_databases(&primary, &FingerprintDb::new());
    assert_eq!(unchanged, primary);
}

#[test]
fn program_id_is_the_file_stem() {
    assert_eq!(default_program_id("dir/alpha.so"), "alpha");
    assert_eq!(default_program_id("/x/y/archive.tar.gz"), "archive.tar");
    assert_eq!(default_program_id("dir/.hidden"), ".hidden");
    assert_eq!(default_program_id("dir/name."), "name");
    assert_eq!(default_program_id("dir/plain/"), "plain");
    assert_eq!(default_program_id("dir/plain/."), "plain");
    assert_eq!(default_program_id("dir/.."), "unknown");
    assert_eq!(default_program_id("/"), "unknown");
    assert_eq!(default_program_id(""), "unknown");
    assert_eq!(default_program_id("..x"), ".");
}

#[test]
fn summary_lists_every_record() {
    let mut db = FingerprintDb::new();
    db.insert_from_file("p", "a/p.so", &build_test_elf(&sample_bytecode(1)), 3, 8).unwrap();
    let entry = db.find_by_id("p").unwrap();
    let expected = format!(
        "fingerprint_db version=1 entries=1\n  p ngrams={} simhash={:016x} path=a/p.so",
        entry.ngram_count, entry.simhash
    );
    assert_eq!(format_db_summary(&db), expected);
    let empty = FingerprintDb { version: 12, entries: Vec::new() };
    assert_eq!(format_db_summary(&empty), "fingerprint_db version=12 entries=0");
}

#[test]
fn records_can_be_duplicated() {
    let data = build_test_elf(&sample_bytecode(5));
    let entry = fingerprint_file_entry("p", "a/p.so", &data, 3, 8).unwrap();
    let copy: StoredFingerprint = entry.duplicate();
    assert_eq!(copy, entry);
}

#[test]
fn index_directory_indexes_every_program() {
    let files = vec![
        ProgramFile { path: "d/a.so".to_string(), data: build_test_elf(&sample_bytecode(1)) },
        ProgramFile { path: "d/b.so".to_string(), data: build_test_elf(&sample_bytecode(1)) },
        ProgramFile { path: "d/c.txt".to_string(), data: vec![0; 10] },
    ];
    let index = lsh_index::index_directory(&files, 8, 3, 64).unwrap();
    assert_eq!(index.len(), 2);
    let fp = fingerprint_file_entry("x", "d/a.so", &files[0].data, 3, 64).unwrap();
    let hits = index.query(&minhash::MinHashSignature { values: fp.minhash.clone() });
    let mut names: Vec<&str> = hits.iter().map(|h| h.program_id.as_str()).collect();
    names.sort();
    assert_eq!(names, vec!["a", "b"]);
    let empty = lsh_index::build_index_from_db(&FingerprintDb::new(), 16).unwrap();
    assert!(empty.is_empty());
    assert!(lsh_index::build_index_from_db(&FingerprintDb::new(), 7).is_err());
}

#[test]
fn tiers_follow_thresholds() {
    let r = |n: usize, d: usize| Ratio { numerator: n, denominator: d };
    assert_eq!(classify_similarity(r(49, 50)), SimilarityTier::Identical);
    assert_eq!(classify_similarity(r(97, 100)), SimilarityTier::NearDuplicate);
    assert_eq!(classify_similarity(r(4, 5)), SimilarityTier::NearDuplicate);
    assert_eq!(classify_similarity(r(79, 100)), SimilarityTier::Related);
    assert_eq!(classify_similarity(r(2, 5)), SimilarityTier::Related);
    assert_eq!(classify_similarity(r(39, 100)), SimilarityTier::Distinct);
    assert_eq!(classify_similarity(r(0, 1)), SimilarityTier::Distinct);
}

#[test]
fn report_notes_close_simhash_values() {
    let text = sample_bytecode(7);
    let fp = fingerprint_bytes(&text).unwrap();
    let report = similarity_report::SimilarityReport::from_fingerprints("a", "b", &fp, &fp);
    assert_eq!(report.notes, vec!["simhash hamming distance within clone detection threshold".to_string()]);
    assert_eq!(report.path_a, "a");
    assert_eq!(report.ngram_count_a, fp.ngram_count);
}

#[test]
fn stored_record_comparison_has_no_notes() {
    let data = build_test_elf(&sample_bytecode(6));
    let entry = fingerprint_file_entry("p", "a/p.so", &data, 3, 128).unwrap();
    let live = fingerprint_file(&data).unwrap();
    let report = compare_stored(&entry, &live);
    assert_eq!(report.path_a, "p");
    assert_eq!(report.path_b, "a/p.so");
    assert!(report.notes.is_empty());
    assert_eq!(report.ngram_count_b, live.ngram_count);
}

#[test]
fn quick_compare_matches_compare_paths() {
    let a = build_test_elf(&sample_bytecode(1));
    let b = build_test_elf(&sample_bytecode(2));
    let quick = quick_compare("a.so", &a, "b.so", &b).unwrap();
    let full = similarity_report::compare_paths("a.so", &a, "b.so", &b).unwrap();
    assert_eq!(quick.jaccard_estimate, full.jaccard_estimate);
    assert_eq!(quick.notes, full.notes);
    assert!(quick_compare("a.so", &a, "b.so", &[0u8; 3]).is_err());
}

#[test]
fn batch_skips_the_query_and_sorts_best_first() {
    let query = build_test_elf(&sample_bytecode(1));
    let candidates = vec![
        ProgramFile { path: "d/other.so".to_string(), data: build_test_elf(&sample_bytecode(90)) },
        ProgramFile { path: "./d//q.so".to_string(), data: vec![0; 4] },
        ProgramFile { path: "d/same.so".to_string(), data: build_test_elf(&sample_bytecode(1)) },
        ProgramFile { path: "./d/q.so/".to_string(), data: vec![0; 4] },
    ];
    let result = batch_compare("./d/q.so", &query, &candidates, Ratio { numerator: 0, denominator: 1 }).unwrap();
    assert_eq!(result.query, "./d/q.so");
    assert_eq!(result.matches.len(), 2);
    assert_eq!(result.matches[0].path_b, "d/same.so");
    assert_eq!(result.matches[1].path_b, "d/other.so");
    let strict = batch_compare("./d/q.so", &query, &candidates, Ratio { numerator: 1, denominator: 1 }).unwrap();
    assert_eq!(strict.matches.len(), 1);
    let failing = vec![ProgramFile { path: "d/x.so".to_string(), data: vec![0; 4] }];
    assert!(batch_compare("q.so", &query, &failing, Ratio { numerator: 0, denominator: 1 }).is_err());
}

#[test]
fn paths_compare_by_components() {
    assert!(same_path("a/b", "a//b/"));
    assert!(same_path("./a/./b", "./a/b"));
    assert!(!same_path("./a", "a"));
    assert!(!same_path("/a", "a"));
    assert!(!same_path("a/b", "a/c"));
    assert!(same_path("", ""));
}

#[test]
fn clusters_are_sorted_by_size_with_exact_averages() {
    let twin = build_test_elf(&sample_bytecode(20));
    let files = vec![
        ProgramFile { path: "d/lone.so".to_string(), data: build_test_elf(&sample_bytecode(200)) },
        ProgramFile { path: "d/a.so".to_string(), data: twin.clone() },
        ProgramFile { path: "d/skip.txt".to_string(), data: vec![1, 2, 3] },
        ProgramFile { path: "d/b.so".to_string(), data: twin },
    ];
    let result = cluster_directory(&files, Ratio { numerator: 4, denominator: 5 }, 3, 64).unwrap();
    assert_eq!(result.signatures.len(), 3);
    assert_eq!(result.signatures[0].0, "d/lone.so");
    assert_eq!(result.clusters.len(), 2);
    assert_eq!(result.clusters[0].members, vec!["d/a.so".to_string(), "d/b.so".to_string()]);
    assert_eq!(result.clusters[0].id, 1);
    assert_eq!(result.clusters[0].avg_similarity, WideRatio { numerator: 64, denominator: 64 });
    assert_eq!(result.clusters[1].members, vec!["d/lone.so".to_string()]);
    assert_eq!(result.clusters[1].id, 0);
    assert_eq!(result.clusters[1].avg_similarity, WideRatio { numerator: 1, denominator: 1 });
}

#[test]
fn clustering_links_through_chains() {
    let files: Vec<ProgramFile> = (0..3u8)
        .map(|k| ProgramFile { path: format!("d/{k}.so"), data: build_test_elf(&sample_bytecode(5)) })
        .collect();
    let result = cluster_directory(&files, Ratio { numerator: 1, denominator: 2 }, 3, 8).unwrap();
    assert_eq!(result.clusters.len(), 1);
    assert_eq!(result.clusters[0].members.len(), 3);
    assert_eq!(result.clusters[0].avg_similarity, WideRatio { numerator: 24, denominator: 24 });
    let none = cluster_directory(&[], Ratio { numerator: 1, denominator: 2 }, 3, 8).unwrap();
    assert!(none.clusters.is_empty());
}

#[test]
fn zero_width_reports_the_load_error_of_a_non_program() {
    let err = fingerprint_file_entry("p", "dir/p.txt", b"hello", 0, 16).unwrap_err();
    assert!(err.starts_with("not a valid elf: "));
}

#[test]
fn zero_width_on_a_program_is_refused() {
    let data = build_test_elf(&sample_bytecode(4));
    let err = fingerprint_file_entry("p", "dir/p.so", &data, 0, 16).unwrap_err();
    assert_eq!(err, "n-gram width 0 does not fit the text of dir/p.so");
}

#[test]
fn wide_window_on_short_text_finds_no_ngrams() {
    let data = build_test_elf(&sample_bytecode(4)[..16]);
    assert!(data.len() >= 768);
    let err = fingerprint_file_entry("p", "dir/p.so", &data, 5, 16).unwrap_err();
    assert_eq!(err, "no ngrams extracted from dir/p.so");
}

#[test]
fn wide_window_on_long_text_is_refused() {
    let data = build_test_elf(&sample_bytecode(4));
    let err = fingerprint_file_entry("p", "dir/p.so", &data, 5, 16).unwrap_err();
    assert_eq!(err, "n-gram width 5 does not fit the text of dir/p.so");
    let mut db = FingerprintDb::new();
    assert!(db.insert_from_file("p", "dir/p.so", &data, 5, 16).is_err());
    assert!(db.is_empty());
}

#[test]
fn zero_width_clusters_no_programs_to_nothing() {
    let files = vec![
        ProgramFile { path: "dir/a.txt".to_string(), data: b"hello".to_vec() },
        ProgramFile { path: "dir/b.txt".to_string(), data: vec![0u8; 64] },
    ];
    let result = cluster_directory(&files, Ratio { numerator: 1, denominator: 2 }, 0, 16).unwrap();
    assert!(result.clusters.is_empty());
    assert!(result.signatures.is_empty());
}

#[test]
fn zero_width_clustering_stops_at_the_first_program() {
    let files = vec![
        ProgramFile { path: "dir/a.txt".to_string(), data: b"hello".to_vec() },
        ProgramFile { path: "dir/b.so".to_string(), data: build_test_elf(&sample_bytecode(2)) },
        ProgramFile { path: "dir/c.so".to_string(), data: build_test_elf(&sample_bytecode(3)) },
    ];
    let err = cluster_directory(&files, Ratio { numerator: 1, denominator: 2 }, 0, 16).unwrap_err();
    assert_eq!(err, "n-gram width 0 does not fit the text of dir/b.so");
}

#[test]
fn zero_width_scan_reports_the_first_program() {
    let files = vec![
        ProgramFile { path: "dir/a.txt".to_string(), data: b"hello".to_vec() },
        ProgramFile { path: "dir/b.so".to_string(), data: build_test_elf(&sample_bytecode(2)) },
    ];
    let err = FingerprintDb::scan_directory(&files, 0, 16).unwrap_err();
    assert_eq!(err, "n-gram width 0 does not fit the text of dir/b.so");
}

fn sample_report(notes: Vec<String>) -> similarity_report::SimilarityReport {
    similarity_report::SimilarityReport {
        path_a: "x/a.so".to_string(),
        path_b: "x/b.so".to_string(),
        jaccard_estimate: Ratio { numerator: 3, denominator: 4 },
        jaccard_exact: Ratio { numerator: 1, denominator: 2 },
        simhash_similarity: Ratio { numerator: 60, denominator: 64 },
        hamming_distance: 4,
        ngram_count_a: 12,
        ngram_count_b: 30,
        tier: SimilarityTier::Related,
        notes,
    }
}

#[test]
fn report_text_lists_fields_and_notes() {
    let report = sample_report(vec!["first".to_string(), "second".to_string()]);
    let text = similarity_report::format_report(&report, "0.7500", "0.5000", "0.9375");
    assert_eq!(
        text,
        "similarity report\n  a: x/a.so\n  b: x/b.so\n  tier: related\n  jaccard_estimate: 0.7500\n  jaccard_exact:    0.5000\n  simhash_similarity: 0.9375\n  hamming_distance: 4\n  ngrams: 12 vs 30\n  note: first\n  note: second"
    );
}

#[test]
fn tier_names_follow_the_report_format() {
    assert_eq!(similarity_report::tier_name(SimilarityTier::Identical), "identical");
    assert_eq!(similarity_report::tier_name(SimilarityTier::NearDuplicate), "near_duplicate");
    assert_eq!(similarity_report::tier_name(SimilarityTier::Distinct), "distinct");
    assert_eq!(similarity_report::tier_label(SimilarityTier::NearDuplicate), "NearDuplicate");
}

#[test]
fn batch_text_lists_each_match() {
    let mut second = sample_report(Vec::new());
    second.path_b = "x/c.so".to_string();
    second.tier = SimilarityTier::Identical;
    let result = similarity_report::BatchSimilarityResult {
        query: "x/a.so".to_string(),
        matches: vec![sample_report(Vec::new()), second],
    };
    let text = similarity_report::format_batch(&result, &["0.7500".to_string(), "0.9900".to_string()]);
    assert_eq!(
        text,
        "batch similarity for x/a.so\nmatches: 2\n  [0] x/b.so jaccard=0.7500 tier=Related\n  [1] x/c.so jaccard=0.9900 tier=Identical"
    );
}

fn sample_entry(id: &str, seed: u8) -> StoredFingerprint {
    let data = build_test_elf(&sample_bytecode(seed));
    fingerprint_file_entry(id, &format!("dir/{id}.so"), &data, 3, 16).unwrap()
}

#[test]
fn merging_a_catalog_with_itself_gives_it_back() {
    let db = FingerprintDb { version: 1, entries: vec![sample_entry("a", 1), sample_entry("b", 2)] };
    let ids = |d: &FingerprintDb| d.entries.iter().map(|e| e.program_id.clone()).collect::<Vec<_>>();
    let same = merge_databases(&db, &db);
    assert_eq!(same, db);
    let with_empty = merge_databases(&db, &FingerprintDb::new());
    assert_eq!(with_empty, db);
    let into_empty = merge_databases(&FingerprintDb::new(), &db);
    assert_eq!(ids(&into_empty), ids(&db));
}

#[test]
fn merge_replaces_in_place_then_appends() {
    let primary = FingerprintDb { version: 1, entries: vec![sample_entry("a", 1), sample_entry("b", 2)] };
    let mut newer_a = sample_entry("a", 7);
    newer_a.source_path = "other/a.so".to_string();
    let secondary = FingerprintDb { version: 1, entries: vec![sample_entry("c", 3), newer_a] };
    let merged = merge_databases(&primary, &secondary);
    let ids: Vec<&str> = merged.entries.iter().map(|e| e.program_id.as_str()).collect();
    assert_eq!(ids, vec!["a", "b", "c"]);
    assert_eq!(merged.entries[0].source_path, "other/a.so");
}

#[test]
fn index_from_catalog_holds_one_entry_per_id() {
    let first = sample_entry("a", 1);
    let second = sample_entry("a", 9);
    let third = sample_entry("b", 2);
    let probe = minhash::MinHashSignature { values: first.minhash.clone() };
    let db = FingerprintDb { version: 1, entries: vec![first, second, third] };
    let index = lsh_index::build_index_from_db(&db, 4).unwrap();
    assert_eq!(index.len(), 2);
    for e in &db.entries {
        let sig = minhash::MinHashSignature { values: e.minhash.clone() };
        assert!(index.query(&sig).iter().any(|c| c.program_id == e.program_id));
    }
    assert!(index.query(&probe).iter().any(|c| c.program_id == "a"));
}

#[test]
fn text_comes_from_the_first_executable_section() {
    let data: Vec<u8> = (0u8..32).collect();
    let section = |sh_flags: u64, sh_offset: u64, sh_size: u64| SectionInfo { sh_type: 1, sh_flags, sh_offset, sh_size };
    let image = ElfImage { entry: 5, sections: vec![section(0x2, 0, 4), section(0x6, 8, 8), section(0x6, 16, 8)] };
    let program = text_of_image(&data, &image).unwrap();
    assert_eq!(program.text, (8u8..16).collect::<Vec<u8>>());
    assert_eq!(program.entry_offset, 5);
    let beyond = ElfImage { entry: 0, sections: vec![section(0x6, 24, 16)] };
    assert!(matches!(text_of_image(&data, &beyond), Err(LoadError::NotElf(m)) if m == "text section exceeds file bounds"));
    let none = ElfImage { entry: 0, sections: vec![section(0x2, 0, 4)] };
    assert!(matches!(text_of_image(&data, &none), Err(LoadError::NoTextSection)));
}
