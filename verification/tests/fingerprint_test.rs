use solana_program_fingerprint::cluster::cluster_directory;
use solana_program_fingerprint::elf_loader::{parse_elf_bytes, LoadError};
use solana_program_fingerprint::ratio::Ratio;
use solana_program_fingerprint::{
    compare_files, compare_fingerprints, fingerprint_bytes, fingerprint_file, minhash, opcode_ngram,
    simhash, ProgramFile,
};

fn push_u16(buf: &mut Vec<u8>, val: u16) {
    buf.extend_from_slice(&val.to_le_bytes());
}

fn push_u32(buf: &mut Vec<u8>, val: u32) {
    buf.extend_from_slice(&val.to_le_bytes());
}

fn push_u64(buf: &mut Vec<u8>, val: u64) {
    buf.extend_from_slice(&val.to_le_bytes());
}

/// Build a minimal valid ELF64 executable with a .text section whose flags
/// are `text_flags`.
fn build_elf_with_flags(text: &[u8], text_flags: u64) -> Vec<u8> {
    let mut elf = Vec::new();
    const SHOFF: u64 = 256;
    const TEXT_OFFSET: u64 = 512;
    const SHSTRTAB_OFFSET: u64 = 768;

    elf.extend_from_slice(&[0x7f, b'E', b'L', b'F', 2, 1, 1, 0, 0, 0, 0, 0, 0, 0, 0, 0]);
    push_u16(&mut elf, 2);
    push_u16(&mut elf, 247);
    push_u32(&mut elf, 1);
    push_u64(&mut elf, 0);
    push_u64(&mut elf, 0);
    push_u64(&mut elf, SHOFF);
    push_u32(&mut elf, 0);
    push_u16(&mut elf, 64);
    push_u16(&mut elf, 0);
    push_u16(&mut elf, 0);
    push_u16(&mut elf, 64);
    push_u16(&mut elf, 3);
    push_u16(&mut elf, 2);

    while elf.len() < SHOFF as usize {
        elf.push(0);
    }

    elf.extend_from_slice(&[0u8; 64]);

    push_u32(&mut elf, 1);
    push_u32(&mut elf, 1);
    push_u64(&mut elf, text_flags);
    push_u64(&mut elf, 0);
    push_u64(&mut elf, TEXT_OFFSET);
    push_u64(&mut elf, text.len() as u64);
    push_u32(&mut elf, 0);
    push_u32(&mut elf, 0);
    push_u64(&mut elf, 8);
    push_u64(&mut elf, 0);

    push_u32(&mut elf, 7);
    push_u32(&mut elf, 3);
    push_u64(&mut elf, 0);
    push_u64(&mut elf, 0);
    push_u64(&mut elf, SHSTRTAB_OFFSET);
    push_u64(&mut elf, 15);
    push_u32(&mut elf, 0);
    push_u32(&mut elf, 0);
    push_u64(&mut elf, 1);
    push_u64(&mut elf, 0);

    while elf.len() < TEXT_OFFSET as usize {
        elf.push(0);
    }

    elf.extend_from_slice(text);

    while elf.len() < SHSTRTAB_OFFSET as usize {
        elf.push(0);
    }
    elf.extend_from_slice(b"\0.text\0.shstrtab\0");

    elf
}

/// Build a minimal valid ELF64 executable with a .text section for testing.
fn build_test_elf(text: &[u8]) -> Vec<u8> {
    build_elf_with_flags(text, 0x6)
}

fn sample_bytecode(seed: u8) -> Vec<u8> {
    (0..32u8)
        .map(|i| {
            let opcode = (seed.wrapping_add(i)) % 0x20;
            [opcode, (i % 16) | ((i % 16) << 4), 0, 0, 0, 0, 0, 0]
        })
        .flatten()
        .collect()
}

fn value(r: Ratio) -> f64 {
    r.numerator as f64 / r.denominator as f64
}

#[test]
fn elf_loader_extracts_text_section() {
    let text = sample_bytecode(1);
    let elf = build_test_elf(&text);
    let parsed = parse_elf_bytes(&elf).unwrap();
    assert_eq!(parsed.text, text);
}

#[test]
fn fingerprint_identical_programs() {
    let text = sample_bytecode(42);
    let fp_a = fingerprint_bytes(&text).unwrap();
    let fp_b = fingerprint_bytes(&text).unwrap();
    let cmp = compare_fingerprints(&fp_a, &fp_b);
    assert!((value(cmp.jaccard_exact) - 1.0).abs() < f64::EPSILON);
    assert!((value(cmp.simhash_similarity) - 1.0).abs() < f64::EPSILON);
}

#[test]
fn fingerprint_different_programs() {
    let fp_a = fingerprint_bytes(&sample_bytecode(1)).unwrap();
    let fp_b = fingerprint_bytes(&sample_bytecode(99)).unwrap();
    let cmp = compare_fingerprints(&fp_a, &fp_b);
    assert!(value(cmp.jaccard_exact) < 1.0);
}

#[test]
fn ngram_extraction_produces_features() {
    let text = sample_bytecode(7);
    let ngrams = opcode_ngram::extract_ngrams(&text, 3);
    assert!(!ngrams.is_empty());
}

#[test]
fn minhash_estimates_jaccard() {
    let text = sample_bytecode(10);
    let ngrams = opcode_ngram::extract_ngrams(&text, 3);
    let sig = minhash::compute_signature(&ngrams, 64);
    let est = value(minhash::estimate_jaccard(&sig, &sig));
    assert!((est - 1.0).abs() < 0.05);
}

#[test]
fn simhash_is_deterministic() {
    let text = sample_bytecode(5);
    let ngrams = opcode_ngram::extract_ngrams(&text, 3);
    let a = simhash::compute_simhash(&ngrams);
    let b = simhash::compute_simhash(&ngrams);
    assert_eq!(a, b);
}

#[test]
fn cluster_groups_similar_files() {
    let text_a = sample_bytecode(20);
    let text_b = sample_bytecode(20);
    let text_c = sample_bytecode(200);
    let files = vec![
        ProgramFile { path: "dir/prog_a.so".to_string(), data: build_test_elf(&text_a) },
        ProgramFile { path: "dir/prog_b.so".to_string(), data: build_test_elf(&text_b) },
        ProgramFile { path: "dir/prog_c.so".to_string(), data: build_test_elf(&text_c) },
    ];

    let result = cluster_directory(
        &files,
        Ratio { numerator: 4, denominator: 5 },
        opcode_ngram::DEFAULT_NGRAM_SIZE,
        64,
    )
    .unwrap();

    assert!(!result.clusters.is_empty());
    let total_members: usize = result.clusters.iter().map(|c| c.members.len()).sum();
    assert_eq!(total_members, 3);
}

#[test]
fn compare_files_integration() {
    let text = sample_bytecode(33);
    let a = build_test_elf(&text);
    let b = build_test_elf(&text);
    let result = compare_files(&a, &b).unwrap();
    assert!((value(result.jaccard_exact) - 1.0).abs() < f64::EPSILON);
}

#[test]
fn fingerprint_file_from_disk() {
    let data = build_test_elf(&sample_bytecode(11));
    let fp = fingerprint_file(&data).unwrap();
    assert!(fp.ngram_count > 0);
}

#[test]
fn identical_programs_compare_fully_similar() {
    let data = build_test_elf(&sample_bytecode(8));
    let cmp = compare_files(&data, &data).unwrap();
    assert_eq!(cmp.jaccard_estimate, Ratio { numerator: 128, denominator: 128 });
    assert_eq!(cmp.jaccard_exact.numerator, cmp.jaccard_exact.denominator);
    assert_eq!(cmp.hamming_distance, 0);
    assert_eq!(cmp.simhash_similarity, Ratio { numerator: 64, denominator: 64 });
}

#[test]
fn comparison_is_symmetric() {
    let a = build_test_elf(&sample_bytecode(3));
    let b = build_test_elf(&sample_bytecode(4));
    assert_eq!(compare_files(&a, &b).unwrap(), compare_files(&b, &a).unwrap());
}

#[test]
fn not_an_elf_is_reported() {
    let err = fingerprint_file(&[1, 2, 3, 4]).unwrap_err();
    assert!(err.starts_with("not a valid elf: "));
    assert!(matches!(parse_elf_bytes(&[0u8; 16]), Err(LoadError::NotElf(_))));
}

#[test]
fn missing_text_section_is_reported() {
    let data = build_elf_with_flags(&sample_bytecode(1), 0x2);
    assert!(matches!(parse_elf_bytes(&data), Err(LoadError::NoTextSection)));
    assert_eq!(fingerprint_file(&data).unwrap_err(), "no executable text section found");
}

#[test]
fn empty_text_yields_no_ngrams_error() {
    let data = build_test_elf(&sample_bytecode(1)[..16]);
    assert_eq!(fingerprint_file(&data).unwrap_err(), "no opcode n-grams extracted from bytecode");
    assert_eq!(fingerprint_bytes(&[]).unwrap_err(), "no opcode n-grams extracted from bytecode");
}

#[test]
fn compare_files_reports_first_error() {
    let good = build_test_elf(&sample_bytecode(1));
    let bad_text = build_elf_with_flags(&sample_bytecode(1), 0x2);
    assert_eq!(compare_files(&good, &bad_text).unwrap_err(), "no executable text section found");
    assert!(compare_files(&[0u8; 4], &bad_text).unwrap_err().starts_with("not a valid elf: "));
}

#[test]
fn io_errors_are_described() {
    let err = LoadError::Io(std::io::Error::new(std::io::ErrorKind::NotFound, "missing file"));
    assert_eq!(err.describe(), "io error: missing file");
}

#[test]
fn io_errors_convert_into_load_errors() {
    let err: LoadError = std::io::Error::new(std::io::ErrorKind::PermissionDenied, "denied").into();
    assert!(matches!(err, LoadError::Io(_)));
    assert_eq!(err.describe(), "io error: denied");
}
