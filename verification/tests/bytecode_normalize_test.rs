use solana_program_fingerprint::bytecode_normalize::{
    compression_ratio, decode_normalized, normalize_bytecode, normalized_ngrams, NormalizeConfig,
};
use solana_program_fingerprint::opcode_ngram;

fn make_mov(dst: u8, imm: u8) -> [u8; 8] {
    let mut bytes = [0u8; 8];
    bytes[0] = 0xb7;
    bytes[1] = dst;
    bytes[4] = imm;
    bytes
}

fn make_insn(opcode: u8, dst: u8, src: u8) -> [u8; 8] {
    [opcode, (src << 4) | dst, 0, 0, 0, 0, 0, 0]
}

#[test]
fn strips_nop_instructions() {
    let text = [make_mov(0, 0), make_mov(1, 5)].concat();
    let result = normalize_bytecode(&text, NormalizeConfig::default());
    assert_eq!(result.removed_instructions, 1);
    assert_eq!(result.normalized.len(), 8);
}

#[test]
fn remaps_registers_canonical_order() {
    let text = [make_mov(3, 1), make_mov(7, 2)].concat();
    let result = normalize_bytecode(&text, NormalizeConfig::default());
    assert!(!result.register_remap.mapping.is_empty());
    let ops = decode_normalized(&result.normalized);
    assert_eq!(ops[0].dst_reg, 0);
    assert_eq!(ops[1].dst_reg, 1);
}

#[test]
fn normalized_ngrams_differ_from_raw_on_nop_strip() {
    let nop = make_mov(0, 0);
    let real = make_mov(1, 9);
    let text = [nop, real, real].concat();
    let raw = opcode_ngram::extract_ngrams(&text, 2);
    let norm = normalized_ngrams(&text, NormalizeConfig::default());
    assert_ne!(raw, norm);
}

#[test]
fn remapping_assigns_registers_in_order_of_first_use() {
    let text = [make_insn(0x0f, 5, 9), make_insn(0x0f, 9, 2)].concat();
    let result = normalize_bytecode(&text, NormalizeConfig::default());
    let ops = decode_normalized(&result.normalized);
    assert_eq!((ops[0].dst_reg, ops[0].src_reg), (0, 1));
    assert_eq!((ops[1].dst_reg, ops[1].src_reg), (1, 2));
    assert_eq!(result.register_remap.lookup(5), 0);
    assert_eq!(result.register_remap.lookup(9), 1);
    assert_eq!(result.register_remap.lookup(2), 2);
    assert_eq!(result.register_remap.lookup(4), 4);
}

#[test]
fn renaming_registers_does_not_change_normalized_stream() {
    // Registers 1 and 2 swapped, register 0 kept.
    let a = [make_insn(0x0f, 1, 2), make_insn(0x1f, 2, 0), make_insn(0x0f, 1, 1)].concat();
    let b = [make_insn(0x0f, 2, 1), make_insn(0x1f, 1, 0), make_insn(0x0f, 2, 2)].concat();
    let na = normalize_bytecode(&a, NormalizeConfig::default());
    let nb = normalize_bytecode(&b, NormalizeConfig::default());
    assert_eq!(na.normalized, nb.normalized);
}

#[test]
fn collapses_wide_loads() {
    let mut lddw = vec![0x18u8, 0x01, 0, 0, 0xaa, 0xbb, 0xcc, 0xdd];
    lddw.extend_from_slice(&[0, 0, 0, 0, 0x11, 0x22, 0x33, 0x44]);
    let result = normalize_bytecode(&lddw, NormalizeConfig::default());
    assert_eq!(result.normalized, vec![0x18, 0x00, 0, 0, 0, 0, 0, 0]);
    let keep = NormalizeConfig { collapse_lddw: false, remap_registers: false, ..NormalizeConfig::default() };
    let kept = normalize_bytecode(&lddw, keep);
    assert_eq!(kept.normalized, lddw);
}

#[test]
fn trailing_partial_instruction_is_dropped() {
    let mut text = make_mov(2, 7).to_vec();
    text.extend_from_slice(&[0xb7u8, 0, 0]);
    let result = normalize_bytecode(&text, NormalizeConfig::default());
    assert_eq!(result.normalized, vec![0xb7, 0x00, 0, 0, 7, 0, 0, 0]);
    assert_eq!(result.removed_instructions, 0);
    assert_eq!(result.original_len, 11);
}

#[test]
fn compression_ratio_is_normalized_over_original_length() {
    let text = [make_mov(0, 0), make_mov(1, 5)].concat();
    let result = normalize_bytecode(&text, NormalizeConfig::default());
    let ratio = compression_ratio(&result);
    assert_eq!((ratio.numerator, ratio.denominator), (8, 16));
    let empty = normalize_bytecode(&[], NormalizeConfig::default());
    let one = compression_ratio(&empty);
    assert_eq!((one.numerator, one.denominator), (1, 1));
}

#[test]
fn without_stripping_nothing_is_removed() {
    let mut text = Vec::new();
    text.extend_from_slice(&make_mov(0, 0));
    text.extend_from_slice(&[0x07, 0x31, 0, 0, 1, 0, 0, 0]);
    text.extend_from_slice(&make_mov(0, 0));
    text.extend_from_slice(&[0x95, 0, 0]);
    let config = NormalizeConfig { strip_nops: false, collapse_lddw: false, remap_registers: false, min_text_len: 8 };
    let result = normalize_bytecode(&text, config);
    assert_eq!(result.removed_instructions, 0);
    assert_eq!(result.normalized.len() / 8 + result.removed_instructions, text.len() / 8);
    assert_eq!(result.normalized, text[..24].to_vec());
}

#[test]
fn stripping_only_keeps_other_instructions_in_order() {
    let mut text = Vec::new();
    let keep_a = [0x07u8, 0x31, 0, 0, 1, 0, 0, 0];
    let keep_b = [0x61u8, 0x12, 4, 0, 0, 0, 0, 0];
    text.extend_from_slice(&make_mov(0, 0));
    text.extend_from_slice(&keep_a);
    text.extend_from_slice(&make_mov(0, 0));
    text.extend_from_slice(&keep_b);
    let config = NormalizeConfig { strip_nops: true, collapse_lddw: false, remap_registers: false, min_text_len: 8 };
    let result = normalize_bytecode(&text, config);
    assert_eq!(result.removed_instructions, 2);
    let mut expected = keep_a.to_vec();
    expected.extend_from_slice(&keep_b);
    assert_eq!(result.normalized, expected);
}

#[test]
fn remap_table_is_canonical() {
    let mut text = Vec::new();
    text.extend_from_slice(&[0x07, 0x75, 0, 0, 1, 0, 0, 0]);
    text.extend_from_slice(&[0x0f, 0x05, 0, 0, 0, 0, 0, 0]);
    text.extend_from_slice(&[0x61, 0x9a, 0, 0, 0, 0, 0, 0]);
    let result = normalize_bytecode(&text, NormalizeConfig::default());
    let mapping = &result.register_remap.mapping;
    assert_eq!(mapping, &vec![(5u8, 0u8), (7, 1), (10, 2), (9, 3)]);
    for k in 0..result.normalized.len() / 8 {
        let b = result.normalized[8 * k + 1];
        assert!(((b & 0x0f) as usize) < mapping.len());
        assert!(((b >> 4) as usize) < mapping.len());
    }
    let empty = normalize_bytecode(&[1, 2, 3], NormalizeConfig::default());
    assert!(empty.register_remap.mapping.is_empty() && empty.normalized.is_empty());
}
