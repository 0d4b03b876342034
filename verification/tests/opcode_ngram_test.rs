use solana_program_fingerprint::opcode_ngram::{
    count_ngrams, extract_ngrams, NormalizedOpcode, DEFAULT_NGRAM_SIZE,
};

#[test]
fn normalizes_instruction_fields() {
    let bytes = [0x07, 0x12, 0, 0, 0, 0, 0, 0];
    let op = NormalizedOpcode::from_instruction(&bytes).unwrap();
    assert_eq!(op.opcode, 0x07);
    assert_eq!(op.dst_reg, 0x02);
    assert_eq!(op.src_reg, 0x01);
}

#[test]
fn extracts_ngrams_from_aligned_bytecode() {
    let text: Vec<u8> = (0..24).map(|i| (i % 256) as u8).collect();
    let grams = extract_ngrams(&text, 2);
    assert!(!grams.is_empty());
}

#[test]
fn short_instruction_is_not_decoded() {
    assert!(NormalizedOpcode::from_instruction(&[0x07, 0x12, 0]).is_none());
}

#[test]
fn ngram_keys_pack_tokens_in_order() {
    // Token keys: opcode << 16 | dst << 8 | src, packed 21 bits apart.
    let text = [0x07u8, 0x21, 0, 0, 0, 0, 0, 0, 0x0f, 0x03, 0, 0, 0, 0, 0, 0];
    let grams = extract_ngrams(&text, 2);
    let first: u64 = (0x07 << 16) | (0x1 << 8) | 0x2;
    let second: u64 = (0x0f << 16) | (0x3 << 8);
    assert_eq!(grams.len(), 1);
    assert!(grams.contains(&(first | (second << 21))));
}

#[test]
fn counts_windows_without_deduplication() {
    let text = vec![0u8; 8 * 5];
    assert_eq!(count_ngrams(&text, DEFAULT_NGRAM_SIZE), 3);
    assert_eq!(extract_ngrams(&text, DEFAULT_NGRAM_SIZE).len(), 1);
    assert_eq!(count_ngrams(&text[..16], DEFAULT_NGRAM_SIZE), 0);
    assert!(extract_ngrams(&text[..16], DEFAULT_NGRAM_SIZE).is_empty());
}

#[test]
fn trailing_partial_instruction_is_ignored() {
    let mut text: Vec<u8> = Vec::new();
    for op in [0x07u8, 0x0f, 0x95, 0x61] {
        text.extend_from_slice(&[op, 0x21, 0, 0, 0, 0, 0, 0]);
    }
    let whole = extract_ngrams(&text, 2);
    text.extend_from_slice(&[0x18, 0x33, 0, 0, 0]);
    assert_eq!(extract_ngrams(&text, 2), whole);
    assert_eq!(whole.len(), 3);
    assert!(extract_ngrams(&text, 5).is_empty());
    assert!(!extract_ngrams(&text, 4).is_empty());
}

#[test]
fn one_changed_instruction_alters_at_most_n_ngrams() {
    let mut a: Vec<u8> = Vec::new();
    for i in 0..10u8 {
        a.extend_from_slice(&[0x07 + i, i, 0, 0, 0, 0, 0, 0]);
    }
    let mut b = a.clone();
    b[8 * 4 + 1] = 0x99;
    let na = extract_ngrams(&a, DEFAULT_NGRAM_SIZE);
    let nb = extract_ngrams(&b, DEFAULT_NGRAM_SIZE);
    let changed = na.difference(&nb).count();
    assert_eq!(changed, 3);
    assert!(changed <= DEFAULT_NGRAM_SIZE);
}
