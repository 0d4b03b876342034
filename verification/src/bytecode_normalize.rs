//! Bytecode normalization pipeline for stable fingerprint extraction.
use std::collections::HashSet;
use vstd::prelude::*;

use crate::ratio::Ratio;
use crate::opcode_ngram::{
    self, decode_tokens, spec_ngram_set, spec_tokens, NormalizedOpcode, DEFAULT_NGRAM_SIZE,
    INSTRUCTION_SIZE,
};

verus! {

/// Opcode of `mov64 dst, imm`.
pub const MOV64_IMM: u8 = 0xb7;

/// Opcode of the 16-byte `lddw` wide load.
pub const LDDW: u8 = 0x18;

/// Normalization policy applied before ngram extraction.
#[derive(Debug, Clone, Copy, PartialEq, Eq, Structural)]
pub struct NormalizeConfig {
    pub strip_nops: bool,
    pub collapse_lddw: bool,
    pub remap_registers: bool,
    pub min_text_len: usize,
}

impl Default for NormalizeConfig {
    fn default() -> (config: Self)
        ensures
            config.strip_nops,
            config.collapse_lddw,
            config.remap_registers,
            config.min_text_len == INSTRUCTION_SIZE,
    {
        Self {
            strip_nops: true,
            collapse_lddw: true,
            remap_registers: true,
            min_text_len: INSTRUCTION_SIZE,
        }
    }
}

/// Register renaming map applied during normalization.
#[derive(Debug, Clone, PartialEq, Eq, Default)]
pub struct RegisterRemap {
    pub mapping: Vec<(u8, u8)>,
}

/// Result of normalizing raw text section bytes.
#[derive(Debug, Clone, PartialEq, Eq)]
pub struct NormalizedBytecode {
    pub original_len: usize,
    pub normalized: Vec<u8>,
    pub removed_instructions: usize,
    pub register_remap: RegisterRemap,
}

/// Target of the first entry of `mapping`, at or after index `i`, whose source is `reg`.
pub open spec fn spec_find_from(mapping: Seq<(u8, u8)>, reg: u8, i: int) -> Option<u8>
    decreases mapping.len() - i,
{
    if i < 0 || i >= mapping.len() {
        None
    } else if mapping[i].0 == reg {
        Some(mapping[i].1)
    } else {
        spec_find_from(mapping, reg, i + 1)
    }
}

/// Target of the first entry of `mapping` whose source is `reg`.
pub open spec fn spec_find(mapping: Seq<(u8, u8)>, reg: u8) -> Option<u8> {
    spec_find_from(mapping, reg, 0)
}

/// What `RegisterRemap::lookup` gives for `reg`: its target, or `reg` itself when unmapped.
pub open spec fn spec_lookup(mapping: Seq<(u8, u8)>, reg: u8) -> u8 {
    match spec_find(mapping, reg) {
        Some(to) => to,
        None => reg,
    }
}

/// State of the normalizer between two instructions: the bytes emitted so far,
/// the number of stripped instructions, the register mapping and the next
/// canonical register.
pub type NormState = (Seq<u8>, nat, Seq<(u8, u8)>, u8);

/// The state before the first instruction.
pub open spec fn spec_initial_state() -> NormState {
    (Seq::empty(), 0, Seq::empty(), 0)
}

/// Mapping `reg`: its existing target, or a fresh canonical register that is
/// recorded in the mapping. Gives the new mapping, the new next register and
/// the target.
pub open spec fn spec_map_register(mapping: Seq<(u8, u8)>, next_reg: u8, reg: u8) -> (
    Seq<(u8, u8)>,
    u8,
    u8,
) {
    match spec_find(mapping, reg) {
        Some(to) => (mapping, next_reg, to),
        None => (mapping.push((reg, next_reg)), next_reg.saturating_add(1), next_reg),
    }
}

/// Rewriting the register byte `b1` of an instruction: the destination
/// register (low nibble) is always mapped, the source register (high nibble)
/// only when it is not zero.
pub open spec fn spec_remap_byte(mapping: Seq<(u8, u8)>, next_reg: u8, b1: u8) -> (
    Seq<(u8, u8)>,
    u8,
    u8,
) {
    let dst = b1 & 0x0f;
    let src = (b1 >> 4) & 0x0f;
    let (m1, n1, new_dst) = spec_map_register(mapping, next_reg, dst);
    if src != 0 {
        let (m2, n2, new_src) = spec_map_register(m1, n1, src);
        (m2, n2, new_dst | (new_src << 4u8))
    } else {
        (m1, n1, new_dst | (0u8 << 4u8))
    }
}

/// Emitting the 8-byte instruction `insn` in state `st`.
pub open spec fn spec_append(st: NormState, insn: Seq<u8>, config: NormalizeConfig) -> NormState {
    if config.remap_registers {
        let (m, n, b1) = spec_remap_byte(st.2, st.3, insn[1]);
        (st.0 + insn.update(1, b1), st.1, m, n)
    } else {
        (st.0 + insn, st.1, st.2, st.3)
    }
}

/// Whether the instruction `chunk` is `mov64 r0, 0`.
pub open spec fn spec_is_nop(chunk: Seq<u8>) -> bool {
    chunk[0] == MOV64_IMM && chunk[1] == 0 && chunk[4] == 0 && chunk[5] == 0 && chunk[6] == 0
        && chunk[7] == 0
}

/// The canonical 8-byte form of an `lddw` whose register byte is `b1`.
pub open spec fn spec_lddw_insn(b1: u8) -> Seq<u8> {
    seq![LDDW, b1, 0u8, 0u8, 0u8, 0u8, 0u8, 0u8]
}

/// Normalizing the instructions of `text` from byte `offset` on, in state `st`.
pub open spec fn spec_normalize_from(
    text: Seq<u8>,
    config: NormalizeConfig,
    offset: nat,
    st: NormState,
) -> NormState
    decreases text.len() - offset,
{
    if offset + 8 > text.len() {
        st
    } else {
        let chunk = text.subrange(offset as int, offset + 8int);
        if config.strip_nops && spec_is_nop(chunk) {
            spec_normalize_from(text, config, offset + 8, (st.0, st.1 + 1, st.2, st.3))
        } else if config.collapse_lddw && chunk[0] == LDDW && offset + 16 <= text.len() {
            spec_normalize_from(
                text,
                config,
                offset + 16,
                spec_append(st, spec_lddw_insn(chunk[1]), config),
            )
        } else {
            spec_normalize_from(text, config, offset + 8, spec_append(st, chunk, config))
        }
    }
}

/// The final normalizer state for `text`.
pub open spec fn spec_normalize(text: Seq<u8>, config: NormalizeConfig) -> NormState {
    spec_normalize_from(text, config, 0, spec_initial_state())
}

impl RegisterRemap {
    /// The canonical register that `reg` was renamed to, or `reg` itself
    /// when it was never renamed.
    pub fn lookup(&self, reg: u8) -> (to: u8)
        ensures
            to == spec_lookup(self.mapping@, reg),
    {
        match find_register(&self.mapping, reg) {
            Some(to) => to,
            None => reg,
        }
    }
}

/// Target of the first entry of `mapping` whose source is `reg`.
fn find_register(mapping: &Vec<(u8, u8)>, reg: u8) -> (found: Option<u8>)
    ensures
        found == spec_find(mapping@, reg),
{
    let mut i: usize = 0;
    while i < mapping.len()
        invariant
            i <= mapping@.len(),
            spec_find(mapping@, reg) == spec_find_from(mapping@, reg, i as int),
        decreases mapping@.len() - i,
    {
        let (from, to) = mapping[i];
        if from == reg {
            return Some(to);
        }
        i = i + 1;
    }
    None
}

fn map_register(remap: &mut RegisterRemap, next_reg: &mut u8, reg: u8) -> (assigned: u8)
    ensures
        (final(remap).mapping@, *final(next_reg), assigned) == spec_map_register(
            old(remap).mapping@,
            *old(next_reg),
            reg,
        ),
{
    if let Some(to) = find_register(&remap.mapping, reg) {
        return to;
    }
    let assigned = *next_reg;
    *next_reg = next_reg.saturating_add(1);
    remap.mapping.push((reg, assigned));
    assigned
}

fn append_normalized(
    out: &mut Vec<u8>,
    chunk: &[u8],
    config: NormalizeConfig,
    remap: &mut RegisterRemap,
    next_reg: &mut u8,
)
    requires
        chunk@.len() == 8,
    ensures
        (final(out)@, 0nat, final(remap).mapping@, *final(next_reg)) == spec_append(
            (old(out)@, 0nat, old(remap).mapping@, *old(next_reg)),
            chunk@,
            config,
        ),
{
    let mut b1 = chunk[1];
    if config.remap_registers {
        let dst = b1 & 0x0f;
        let src = (b1 >> 4) & 0x0f;
        let new_dst = map_register(remap, next_reg, dst);
        let new_src = if src != 0 {
            map_register(remap, next_reg, src)
        } else {
            0
        };
        b1 = new_dst | (new_src << 4u8);
    }
    let ghost before = out@;
    out.push(chunk[0]);
    out.push(b1);
    let mut k: usize = 2;
    while k < 8
        invariant
            chunk@.len() == 8,
            2 <= k <= 8,
            out@ == before + seq![chunk@[0], b1] + chunk@.subrange(2, k as int),
        decreases 8 - k,
    {
        out.push(chunk[k]);
        k = k + 1;
    }
    proof {
        if config.remap_registers {
            assert(out@ =~= before + chunk@.update(1, b1));
        } else {
            assert(out@ =~= before + chunk@);
        }
    }
}

fn is_nop_like(opcode: u8, chunk: &[u8]) -> (nop: bool)
    requires
        chunk@.len() == 8,
        opcode == chunk@[0],
    ensures
        nop == spec_is_nop(chunk@),
{
    opcode == MOV64_IMM && chunk[1] == 0 && chunk[4] == 0 && chunk[5] == 0 && chunk[6] == 0
        && chunk[7] == 0
}

/// Normalize bytecode for fingerprinting.
pub fn normalize_bytecode(text: &[u8], config: NormalizeConfig) -> (result: NormalizedBytecode)
    ensures
        result.original_len == text@.len(),
        result.normalized@ == spec_normalize(text@, config).0,
        result.removed_instructions == spec_normalize(text@, config).1,
        result.register_remap.mapping@ == spec_normalize(text@, config).2,
        result.normalized@.len() % 8 == 0,
        result.normalized@.len() + 8 * result.removed_instructions <= text@.len(),
{
    proof {
        lemma_normalize_size(text@, config, 0, spec_initial_state());
    }
    let mut normalized: Vec<u8> = Vec::new();
    let mut removed: usize = 0;
    let mut register_remap = RegisterRemap { mapping: Vec::new() };
    let mut next_reg: u8 = 0;
    let len = text.len();

    let mut offset: usize = 0;
    while len - offset >= INSTRUCTION_SIZE
        invariant
            len == text@.len(),
            offset <= len,
            removed <= offset / 8,
            spec_normalize(text@, config) == spec_normalize_from(
                text@,
                config,
                offset as nat,
                (normalized@, removed as nat, register_remap.mapping@, next_reg),
            ),
        decreases len - offset,
    {
        let chunk = vstd::slice::slice_subrange(text, offset, offset + INSTRUCTION_SIZE);
        let opcode = chunk[0];

        if config.strip_nops && is_nop_like(opcode, chunk) {
            removed = removed + 1;
            offset = offset + INSTRUCTION_SIZE;
            continue;
        }

        if config.collapse_lddw && opcode == LDDW {
            if len - offset >= 16 {
                let insn: [u8; 8] = [LDDW, chunk[1], 0, 0, 0, 0, 0, 0];
                proof {
                    assert(insn@ =~= spec_lddw_insn(chunk@[1]));
                }
                append_normalized(
                    &mut normalized,
                    insn.as_slice(),
                    config,
                    &mut register_remap,
                    &mut next_reg,
                );
                offset = offset + 16;
                continue;
            }
        }

        append_normalized(&mut normalized, chunk, config, &mut register_remap, &mut next_reg);
        offset = offset + INSTRUCTION_SIZE;
    }

    NormalizedBytecode {
        original_len: len,
        normalized,
        removed_instructions: removed,
        register_remap,
    }
}

/// Each step of the normalizer consumes at least the 8 bytes it emits.
proof fn lemma_normalize_size(text: Seq<u8>, config: NormalizeConfig, offset: nat, st: NormState)
    requires
        offset <= text.len(),
        st.0.len() % 8 == 0,
        st.0.len() + 8 * st.1 <= offset,
    ensures
        spec_normalize_from(text, config, offset, st).0.len() % 8 == 0,
        spec_normalize_from(text, config, offset, st).0.len() + 8 * spec_normalize_from(
            text,
            config,
            offset,
            st,
        ).1 <= text.len(),
    decreases text.len() - offset,
{
    if offset + 8 > text.len() {
    } else {
        let chunk = text.subrange(offset as int, offset + 8int);
        if config.strip_nops && spec_is_nop(chunk) {
            lemma_normalize_size(text, config, offset + 8, (st.0, st.1 + 1, st.2, st.3));
        } else if config.collapse_lddw && chunk[0] == LDDW && offset + 16 <= text.len() {
            lemma_normalize_size(
                text,
                config,
                offset + 16,
                spec_append(st, spec_lddw_insn(chunk[1]), config),
            );
        } else {
            lemma_normalize_size(text, config, offset + 8, spec_append(st, chunk, config));
        }
    }
}

/// Extract ngrams from normalized bytecode using default width.
pub fn normalized_ngrams(text: &[u8], config: NormalizeConfig) -> (ngrams: HashSet<u64>)
    ensures
        ngrams@ == spec_ngram_set(spec_normalize(text@, config).0, DEFAULT_NGRAM_SIZE as nat),
{
    let normalized = normalize_bytecode(text, config);
    opcode_ngram::extract_ngrams(normalized.normalized.as_slice(), DEFAULT_NGRAM_SIZE)
}

/// Compression ratio after normalization: the normalized length over the
/// original one, or one for an empty original.
pub fn compression_ratio(result: &NormalizedBytecode) -> (ratio: Ratio)
    ensures
        ratio == (if result.original_len == 0 {
            Ratio { numerator: 1, denominator: 1 }
        } else {
            Ratio { numerator: result.normalized@.len() as usize, denominator: result.original_len }
        }),
{
    if result.original_len == 0 {
        return Ratio::one();
    }
    Ratio { numerator: result.normalized.len(), denominator: result.original_len }
}

/// Decode normalized stream back into opcode tokens for diagnostics.
pub fn decode_normalized(text: &[u8]) -> (ops: Vec<NormalizedOpcode>)
    ensures
        ops@ == spec_tokens(text@),
{
    decode_tokens(text)
}

} // verus!

verus! {

/// A consistent renaming of the sixteen SBF registers: a permutation of
/// `0..16` that keeps register 0 in place.
pub open spec fn is_register_renaming(pi: spec_fn(u8) -> u8) -> bool {
    &&& pi(0) == 0
    &&& forall|r: u8| r < 16 ==> #[trigger] pi(r) < 16
    &&& forall|r: u8, s: u8| r < 16 && s < 16 && #[trigger] pi(r) == #[trigger] pi(s) ==> r == s
}

/// The register byte `b1` with both of its registers renamed by `pi`.
pub open spec fn spec_rename_byte(pi: spec_fn(u8) -> u8, b1: u8) -> u8 {
    pi(b1 & 0x0f) | (pi((b1 >> 4) & 0x0f) << 4u8)
}

/// `text` with the registers of every whole instruction renamed by `pi`; the
/// bytes of a trailing partial instruction are kept as they are.
pub open spec fn spec_rename_registers(text: Seq<u8>, pi: spec_fn(u8) -> u8) -> Seq<u8> {
    Seq::new(
        text.len(),
        |p: int|
            if p % 8 == 1 && p / 8 < text.len() / 8 {
                spec_rename_byte(pi, text[p])
            } else {
                text[p]
            },
    )
}

/// The mapping `mapping` with every source register renamed by `pi`.
pub open spec fn spec_rename_mapping(mapping: Seq<(u8, u8)>, pi: spec_fn(u8) -> u8) -> Seq<(u8, u8)> {
    mapping.map_values(|e: (u8, u8)| (pi(e.0), e.1))
}

/// Two normalizer states that differ only in that the second one saw every
/// register renamed by `pi`.
pub open spec fn renamed_states(st: NormState, st2: NormState, pi: spec_fn(u8) -> u8) -> bool {
    &&& st2.0 == st.0
    &&& st2.1 == st.1
    &&& st2.3 == st.3
    &&& st2.2 == spec_rename_mapping(st.2, pi)
    &&& forall|k: int| 0 <= k < st.2.len() ==> #[trigger] st.2[k].0 < 16
}

proof fn lemma_nibbles(x: u8, y: u8)
    requires
        x < 16,
        y < 16,
    ensures
        (x | (y << 4u8)) & 0x0f == x,
        ((x | (y << 4u8)) >> 4u8) & 0x0f == y,
        (x | (y << 4u8)) == 0 <==> (x == 0 && y == 0),
{
    assert((x | (y << 4u8)) & 0x0f == x) by (bit_vector)
        requires
            x < 16,
            y < 16,
    ;
    assert(((x | (y << 4u8)) >> 4u8) & 0x0f == y) by (bit_vector)
        requires
            x < 16,
            y < 16,
    ;
    assert((x | (y << 4u8)) == 0 <==> (x == 0 && y == 0)) by (bit_vector)
        requires
            x < 16,
            y < 16,
    ;
}

proof fn lemma_split_byte(b: u8)
    ensures
        b & 0x0f < 16,
        (b >> 4u8) & 0x0f < 16,
        b == 0 <==> (b & 0x0f == 0 && (b >> 4u8) & 0x0f == 0),
{
    assert(b & 0x0f < 16) by (bit_vector);
    assert((b >> 4u8) & 0x0f < 16) by (bit_vector);
    assert(b == 0 <==> (b & 0x0f == 0 && (b >> 4u8) & 0x0f == 0)) by (bit_vector);
}

/// The nibbles of a renamed register byte are the renamed nibbles.
proof fn lemma_rename_byte(pi: spec_fn(u8) -> u8, b: u8)
    requires
        is_register_renaming(pi),
    ensures
        spec_rename_byte(pi, b) & 0x0f == pi(b & 0x0f),
        (spec_rename_byte(pi, b) >> 4u8) & 0x0f == pi((b >> 4u8) & 0x0f),
        spec_rename_byte(pi, b) == 0 <==> b == 0,
        ((b >> 4u8) & 0x0f != 0) <==> (pi((b >> 4u8) & 0x0f) != 0),
{
    lemma_split_byte(b);
    let lo = b & 0x0f;
    let hi = (b >> 4u8) & 0x0f;
    lemma_nibbles(pi(lo), pi(hi));
    if pi(lo) == 0 {
        assert(lo == 0);
    }
    if pi(hi) == 0 {
        assert(hi == 0);
    }
}

proof fn lemma_find_renamed(mapping: Seq<(u8, u8)>, pi: spec_fn(u8) -> u8, reg: u8, i: int)
    requires
        is_register_renaming(pi),
        reg < 16,
        0 <= i,
        forall|k: int| 0 <= k < mapping.len() ==> #[trigger] mapping[k].0 < 16,
    ensures
        spec_find_from(spec_rename_mapping(mapping, pi), pi(reg), i) == spec_find_from(
            mapping,
            reg,
            i,
        ),
    decreases mapping.len() - i,
{
    let m2 = spec_rename_mapping(mapping, pi);
    if i >= mapping.len() {
    } else {
        assert(m2[i] == (pi(mapping[i].0), mapping[i].1));
        assert(mapping[i].0 < 16);
        lemma_find_renamed(mapping, pi, reg, i + 1);
    }
}

proof fn lemma_map_register_renamed(
    mapping: Seq<(u8, u8)>,
    next_reg: u8,
    pi: spec_fn(u8) -> u8,
    reg: u8,
)
    requires
        is_register_renaming(pi),
        reg < 16,
        forall|k: int| 0 <= k < mapping.len() ==> #[trigger] mapping[k].0 < 16,
    ensures
        ({
            let (m1, n1, t1) = spec_map_register(mapping, next_reg, reg);
            let (m2, n2, t2) = spec_map_register(spec_rename_mapping(mapping, pi), next_reg, pi(reg));
            &&& m2 == spec_rename_mapping(m1, pi)
            &&& n2 == n1
            &&& t2 == t1
            &&& forall|k: int| 0 <= k < m1.len() ==> #[trigger] m1[k].0 < 16
        }),
{
    lemma_find_renamed(mapping, pi, reg, 0);
    let m1 = spec_map_register(mapping, next_reg, reg).0;
    if spec_find(mapping, reg) is None {
        assert(spec_rename_mapping(m1, pi) =~= spec_rename_mapping(mapping, pi).push(
            (pi(reg), next_reg),
        ));
    }
}

proof fn lemma_append_renamed(
    st: NormState,
    st2: NormState,
    insn: Seq<u8>,
    config: NormalizeConfig,
    pi: spec_fn(u8) -> u8,
)
    requires
        is_register_renaming(pi),
        config.remap_registers,
        insn.len() == 8,
        renamed_states(st, st2, pi),
    ensures
        renamed_states(
            spec_append(st, insn, config),
            spec_append(st2, insn.update(1, spec_rename_byte(pi, insn[1])), config),
            pi,
        ),
{
    let b = insn[1];
    let b2 = spec_rename_byte(pi, b);
    lemma_rename_byte(pi, b);
    lemma_split_byte(b);
    let dst = b & 0x0f;
    let src = (b >> 4u8) & 0x0f;
    lemma_map_register_renamed(st.2, st.3, pi, dst);
    let (m1, n1, t1) = spec_map_register(st.2, st.3, dst);
    if src != 0 {
        lemma_map_register_renamed(m1, n1, pi, src);
    }
    let insn2 = insn.update(1, b2);
    assert(insn2[1] == b2);
    assert(spec_remap_byte(st2.2, st2.3, b2) == ({
        let r = spec_remap_byte(st.2, st.3, b);
        (spec_rename_mapping(r.0, pi), r.1, r.2)
    }));
    assert(insn2.update(1, spec_remap_byte(st2.2, st2.3, b2).2) =~= insn.update(
        1,
        spec_remap_byte(st.2, st.3, b).2,
    ));
}

proof fn lemma_normalize_from_renamed(
    text: Seq<u8>,
    config: NormalizeConfig,
    pi: spec_fn(u8) -> u8,
    offset: nat,
    st: NormState,
    st2: NormState,
)
    requires
        is_register_renaming(pi),
        config.remap_registers,
        offset % 8 == 0,
        renamed_states(st, st2, pi),
    ensures
        renamed_states(
            spec_normalize_from(text, config, offset, st),
            spec_normalize_from(spec_rename_registers(text, pi), config, offset, st2),
            pi,
        ),
    decreases text.len() - offset,
{
    let text2 = spec_rename_registers(text, pi);
    if offset + 8 > text.len() {
    } else {
        let chunk = text.subrange(offset as int, offset + 8int);
        let chunk2 = text2.subrange(offset as int, offset + 8int);
        assert(chunk2 =~= chunk.update(1, spec_rename_byte(pi, chunk[1]))) by {
            assert forall|k: int| 0 <= k < 8 implies chunk2[k] == chunk.update(
                1,
                spec_rename_byte(pi, chunk[1]),
            )[k] by {
                assert((offset + k) % 8 == k % 8);
                assert((offset + k) / 8 < text.len() / 8) by (nonlinear_arith)
                    requires
                        offset % 8 == 0,
                        offset + 8 <= text.len(),
                        0 <= k < 8,
                ;
            }
        }
        lemma_rename_byte(pi, chunk[1]);
        assert(spec_is_nop(chunk2) == spec_is_nop(chunk));
        if config.strip_nops && spec_is_nop(chunk) {
            lemma_normalize_from_renamed(
                text,
                config,
                pi,
                offset + 8,
                (st.0, st.1 + 1, st.2, st.3),
                (st2.0, st2.1 + 1, st2.2, st2.3),
            );
        } else if config.collapse_lddw && chunk[0] == LDDW && offset + 16 <= text.len() {
            let insn = spec_lddw_insn(chunk[1]);
            assert(spec_lddw_insn(chunk2[1]) =~= insn.update(1, spec_rename_byte(pi, insn[1])));
            lemma_append_renamed(st, st2, insn, config, pi);
            lemma_normalize_from_renamed(
                text,
                config,
                pi,
                offset + 16,
                spec_append(st, insn, config),
                spec_append(st2, spec_lddw_insn(chunk2[1]), config),
            );
        } else {
            lemma_append_renamed(st, st2, chunk, config, pi);
            lemma_normalize_from_renamed(
                text,
                config,
                pi,
                offset + 8,
                spec_append(st, chunk, config),
                spec_append(st2, chunk2, config),
            );
        }
    }
}

/// Renaming registers consistently does not change the normalized bytecode:
/// for any permutation of the sixteen registers that keeps `r0` in place,
/// normalizing the renamed program emits the same bytes and strips the same
/// number of instructions as normalizing the program itself, whenever registers
/// are remapped.
pub proof fn lemma_normalize_ignores_register_renaming(
    text: Seq<u8>,
    config: NormalizeConfig,
    pi: spec_fn(u8) -> u8,
)
    requires
        is_register_renaming(pi),
        config.remap_registers,
    ensures
        spec_normalize(spec_rename_registers(text, pi), config).0 == spec_normalize(text, config).0,
        spec_normalize(spec_rename_registers(text, pi), config).1 == spec_normalize(text, config).1,
{
    assert(spec_rename_mapping(Seq::<(u8, u8)>::empty(), pi) =~= Seq::<(u8, u8)>::empty());
    lemma_normalize_from_renamed(text, config, pi, 0, spec_initial_state(), spec_initial_state());
}

proof fn lemma_normalize_counts_from(text: Seq<u8>, config: NormalizeConfig, offset: nat, st: NormState)
    requires
        offset % 8 == 0,
        offset <= text.len(),
        st.0.len() % 8 == 0,
    ensures
        !config.strip_nops ==> spec_normalize_from(text, config, offset, st).1 == st.1,
        !config.collapse_lddw && st.0.len() + 8 * st.1 == offset ==> spec_normalize_from(
            text,
            config,
            offset,
            st,
        ).0.len() + 8 * spec_normalize_from(text, config, offset, st).1 == 8 * (text.len() / 8),
    decreases text.len() - offset,
{
    if offset + 8 > text.len() {
        assert(offset == 8 * (text.len() / 8));
    } else {
        let chunk = text.subrange(offset as int, offset + 8int);
        if config.strip_nops && spec_is_nop(chunk) {
            lemma_normalize_counts_from(text, config, offset + 8, (st.0, st.1 + 1, st.2, st.3));
        } else if config.collapse_lddw && chunk[0] == LDDW && offset + 16 <= text.len() {
            lemma_normalize_counts_from(
                text,
                config,
                offset + 16,
                spec_append(st, spec_lddw_insn(chunk[1]), config),
            );
        } else {
            lemma_normalize_counts_from(text, config, offset + 8, spec_append(st, chunk, config));
        }
    }
}

/// Without NOP stripping no instruction is removed; without `lddw`
/// collapsing every whole instruction of the input is either emitted, as
/// eight bytes, or counted as removed.
pub proof fn lemma_normalize_counts(text: Seq<u8>, config: NormalizeConfig)
    ensures
        !config.strip_nops ==> spec_normalize(text, config).1 == 0,
        !config.collapse_lddw ==> spec_normalize(text, config).0.len() / 8 + spec_normalize(
            text,
            config,
        ).1 == text.len() / 8,
{
    lemma_normalize_counts_from(text, config, 0, spec_initial_state());
    lemma_normalize_size(text, config, 0, spec_initial_state());
    let r = spec_normalize(text, config);
    if !config.collapse_lddw {
        assert(r.0.len() / 8 + r.1 == text.len() / 8) by (nonlinear_arith)
            requires
                r.0.len() % 8 == 0,
                r.0.len() + 8 * r.1 == 8 * (text.len() / 8),
        ;
    }
}

/// The instructions among the first `k` of `text` that are not NOPs,
/// concatenated in order.
pub open spec fn spec_kept_instructions(text: Seq<u8>, k: nat) -> Seq<u8>
    decreases k,
{
    if k == 0 {
        Seq::empty()
    } else {
        let chunk = text.subrange(8 * (k - 1), 8 * k as int);
        if spec_is_nop(chunk) {
            spec_kept_instructions(text, (k - 1) as nat)
        } else {
            spec_kept_instructions(text, (k - 1) as nat) + chunk
        }
    }
}

/// The number of NOPs among the first `k` instructions of `text`.
pub open spec fn spec_nop_count(text: Seq<u8>, k: nat) -> nat
    decreases k,
{
    if k == 0 {
        0
    } else if spec_is_nop(text.subrange(8 * (k - 1), 8 * k as int)) {
        spec_nop_count(text, (k - 1) as nat) + 1
    } else {
        spec_nop_count(text, (k - 1) as nat)
    }
}

proof fn lemma_strip_only_from(text: Seq<u8>, config: NormalizeConfig, j: nat, st: NormState)
    requires
        config.strip_nops,
        !config.collapse_lddw,
        !config.remap_registers,
        8 * j <= text.len(),
        st.0 == spec_kept_instructions(text, j),
        st.1 == spec_nop_count(text, j),
    ensures
        spec_normalize_from(text, config, 8 * j, st).0 == spec_kept_instructions(text, text.len() / 8),
        spec_normalize_from(text, config, 8 * j, st).1 == spec_nop_count(text, text.len() / 8),
    decreases text.len() - 8 * j,
{
    if 8 * j + 8 > text.len() {
        assert(j == text.len() / 8);
    } else {
        let chunk = text.subrange(8 * j as int, 8 * j + 8int);
        assert(chunk == text.subrange(8 * ((j + 1) - 1), 8 * (j + 1) as int));
        if spec_is_nop(chunk) {
            lemma_strip_only_from(text, config, j + 1, (st.0, st.1 + 1, st.2, st.3));
        } else {
            lemma_strip_only_from(text, config, j + 1, spec_append(st, chunk, config));
        }
    }
}

/// With only NOP stripping enabled, the output is every instruction that is
/// not a NOP, in order, and the removed count is the number of NOPs.
pub proof fn lemma_normalize_strip_only(text: Seq<u8>, config: NormalizeConfig)
    requires
        config.strip_nops,
        !config.collapse_lddw,
        !config.remap_registers,
    ensures
        spec_normalize(text, config).0 == spec_kept_instructions(text, text.len() / 8),
        spec_normalize(text, config).1 == spec_nop_count(text, text.len() / 8),
{
    lemma_strip_only_from(text, config, 0, spec_initial_state());
}

/// Entry `i` of `mapping` sends a register below sixteen to the canonical
/// register `i`.
pub open spec fn spec_canonical_entry(mapping: Seq<(u8, u8)>, i: int) -> bool {
    mapping[i].1 == i && mapping[i].0 < 16
}

/// Every entry of `mapping` is canonical and no register is sent twice.
pub open spec fn spec_canonical_mapping(mapping: Seq<(u8, u8)>) -> bool {
    &&& forall|i: int| 0 <= i < mapping.len() ==> #[trigger] spec_canonical_entry(mapping, i)
    &&& forall|i: int, j: int|
        0 <= i < j < mapping.len() ==> (#[trigger] mapping[i]).0 != (#[trigger] mapping[j]).0
}

/// The register byte of instruction `k` of `out`.
pub open spec fn spec_register_byte(out: Seq<u8>, k: int) -> u8 {
    out[8 * k + 1]
}

/// Every whole instruction of `out` names registers below `bound`, as
/// destination (low nibble) and as source (high nibble).
pub open spec fn spec_registers_below(out: Seq<u8>, bound: nat) -> bool {
    forall|k: int|
        0 <= k < out.len() / 8 ==> (#[trigger] spec_register_byte(out, k) & 0x0f) < bound && (
        spec_register_byte(out, k) >> 4u8) < bound
}

/// The shape a remapping normalizer state keeps.
pub open spec fn spec_remap_state(st: NormState) -> bool {
    &&& spec_canonical_mapping(st.2)
    &&& st.2.len() <= 16
    &&& st.3 == st.2.len()
    &&& st.0.len() % 8 == 0
    &&& (st.2.len() == 0 <==> st.0.len() == 0)
    &&& spec_registers_below(st.0, st.2.len())
}

proof fn lemma_find_canonical(mapping: Seq<(u8, u8)>, reg: u8, i: int)
    requires
        spec_canonical_mapping(mapping),
        0 <= i,
    ensures
        spec_find_from(mapping, reg, i) matches Some(to) ==> to < mapping.len(),
        spec_find_from(mapping, reg, i) is None ==> forall|j: int|
            i <= j < mapping.len() ==> (#[trigger] mapping[j]).0 != reg,
    decreases mapping.len() - i,
{
    if i < mapping.len() {
        assert(spec_canonical_entry(mapping, i));
        lemma_find_canonical(mapping, reg, i + 1);
    }
}

/// A canonical mapping that lacks a register below sixteen has fewer than
/// sixteen entries.
proof fn lemma_canonical_room(mapping: Seq<(u8, u8)>, reg: u8)
    requires
        spec_canonical_mapping(mapping),
        reg < 16,
        forall|j: int| 0 <= j < mapping.len() ==> (#[trigger] mapping[j]).0 != reg,
    ensures
        mapping.len() < 16,
{
    let srcs = Seq::new(mapping.len(), |j: int| mapping[j].0 as int);
    assert(srcs.no_duplicates()) by {
        assert forall|i: int, j: int| 0 <= i < srcs.len() && 0 <= j < srcs.len() && i != j implies srcs[i]
            != srcs[j] by {
            if i < j {
                assert(mapping[i].0 != mapping[j].0);
            } else {
                assert(mapping[j].0 != mapping[i].0);
            }
        }
    }
    srcs.unique_seq_to_set();
    let room = vstd::set_lib::set_int_range(0, 16).remove(reg as int);
    vstd::set_lib::lemma_int_range(0, 16);
    assert(srcs.to_set().subset_of(room)) by {
        assert forall|x: int| srcs.to_set().contains(x) implies room.contains(x) by {
            let j = choose|j: int| 0 <= j < srcs.len() && srcs[j] == x;
            assert(spec_canonical_entry(mapping, j));
            assert(mapping[j].0 != reg);
        }
    }
    vstd::set_lib::lemma_len_subset(srcs.to_set(), room);
}

proof fn lemma_map_register_canonical(mapping: Seq<(u8, u8)>, next_reg: u8, reg: u8)
    requires
        spec_canonical_mapping(mapping),
        mapping.len() <= 16,
        next_reg == mapping.len(),
        reg < 16,
    ensures
        ({
            let (m, n, to) = spec_map_register(mapping, next_reg, reg);
            &&& spec_canonical_mapping(m)
            &&& m.len() <= 16
            &&& n == m.len()
            &&& to < m.len()
            &&& mapping.len() <= m.len()
        }),
{
    lemma_find_canonical(mapping, reg, 0);
    if spec_find(mapping, reg) is None {
        lemma_canonical_room(mapping, reg);
        let m = mapping.push((reg, next_reg));
        assert forall|i: int| 0 <= i < m.len() implies #[trigger] spec_canonical_entry(m, i) by {
            if i < mapping.len() {
                assert(spec_canonical_entry(mapping, i));
            }
        }
        assert forall|i: int, j: int| 0 <= i < j < m.len() implies (#[trigger] m[i]).0 != (
        #[trigger] m[j]).0 by {
            if j < mapping.len() {
                assert(mapping[i].0 != mapping[j].0);
            } else {
                assert(mapping[i].0 != reg);
            }
        }
    }
}

proof fn lemma_append_remap_state(st: NormState, insn: Seq<u8>, config: NormalizeConfig)
    requires
        config.remap_registers,
        spec_remap_state(st),
        insn.len() == 8,
    ensures
        spec_remap_state(spec_append(st, insn, config)),
{
    let b = insn[1];
    let dst = b & 0x0f;
    let src = (b >> 4) & 0x0f;
    assert(dst < 16 && src < 16) by (bit_vector)
        requires
            dst == b & 0x0f,
            src == (b >> 4) & 0x0f,
    ;
    lemma_map_register_canonical(st.2, st.3, dst);
    let (m1, n1, nd) = spec_map_register(st.2, st.3, dst);
    let (m, n, b1) = spec_remap_byte(st.2, st.3, b);
    if src != 0 {
        lemma_map_register_canonical(m1, n1, src);
        let ns = spec_map_register(m1, n1, src).2;
        assert((nd | (ns << 4u8)) & 0x0f == nd && (nd | (ns << 4u8)) >> 4u8 == ns) by (bit_vector)
            requires
                nd < 16,
                ns < 16,
        ;
        assert(b1 == nd | (ns << 4u8));
        assert(m == spec_map_register(m1, n1, src).0);
        assert(nd < m1.len() && m1.len() <= m.len() && ns < m.len());
    } else {
        assert((nd | (0u8 << 4u8)) & 0x0f == nd && (nd | (0u8 << 4u8)) >> 4u8 == 0) by (bit_vector)
            requires
                nd < 16,
        ;
        assert(b1 == nd | (0u8 << 4u8) && m == m1);
    }
    assert((b1 & 0x0f) < m.len() && (b1 >> 4u8) < m.len());
    assert(st.2.len() <= m.len() && 1 <= m.len() && spec_canonical_mapping(m) && m.len() <= 16);
    let out = st.0 + insn.update(1, b1);
    let c = st.0.len() / 8;
    assert(st.0.len() == 8 * c);
    assert(out.len() / 8 == c + 1);
    assert forall|k: int| 0 <= k < out.len() / 8 implies (#[trigger] spec_register_byte(out, k) & 0x0f)
        < m.len() && (spec_register_byte(out, k) >> 4u8) < m.len() by {
        if k < c {
            assert(spec_register_byte(out, k) == spec_register_byte(st.0, k));
            assert((spec_register_byte(st.0, k) & 0x0f) < st.2.len());
        } else {
            assert(spec_register_byte(out, k) == b1);
        }
    }
}

proof fn lemma_normalize_remap_state(text: Seq<u8>, config: NormalizeConfig, offset: nat, st: NormState)
    requires
        config.remap_registers,
        spec_remap_state(st),
    ensures
        spec_remap_state(spec_normalize_from(text, config, offset, st)),
    decreases text.len() - offset,
{
    if offset + 8 <= text.len() {
        let chunk = text.subrange(offset as int, offset + 8int);
        if config.strip_nops && spec_is_nop(chunk) {
            lemma_normalize_remap_state(text, config, offset + 8, (st.0, st.1 + 1, st.2, st.3));
        } else if config.collapse_lddw && chunk[0] == LDDW && offset + 16 <= text.len() {
            let insn = spec_lddw_insn(chunk[1]);
            lemma_append_remap_state(st, insn, config);
            lemma_normalize_remap_state(text, config, offset + 16, spec_append(st, insn, config));
        } else {
            lemma_append_remap_state(st, chunk, config);
            lemma_normalize_remap_state(text, config, offset + 8, spec_append(st, chunk, config));
        }
    }
}

/// With register remapping, the mapping that normalization reports sends
/// distinct registers below sixteen to the canonical registers 0, 1, 2, ...
/// in order, so it has at most sixteen entries; it is empty exactly when
/// nothing is emitted, and every emitted instruction names only canonical
/// registers that the mapping holds.
pub proof fn lemma_remap_table_shape(text: Seq<u8>, config: NormalizeConfig)
    requires
        config.remap_registers,
    ensures
        spec_canonical_mapping(spec_normalize(text, config).2),
        spec_normalize(text, config).2.len() <= 16,
        spec_normalize(text, config).2.len() == 0 <==> spec_normalize(text, config).0.len() == 0,
        spec_registers_below(spec_normalize(text, config).0, spec_normalize(text, config).2.len()),
{
    lemma_normalize_remap_state(text, config, 0, spec_initial_state());
}

/// A single instruction is stripped exactly when NOP stripping is on and it
/// is `mov64 r0, 0` with a zero immediate (bytes `b7 00 _ _ 00 00 00 00`);
/// otherwise all eight bytes are emitted, unchanged but for the register
/// byte when registers are remapped, and nothing is counted as removed.
pub proof fn lemma_single_instruction(text: Seq<u8>, config: NormalizeConfig)
    requires
        text.len() == 8,
    ensures
        ({
            let nop = config.strip_nops && text[0] == 0xb7 && text[1] == 0 && text[4] == 0 && text[5]
                == 0 && text[6] == 0 && text[7] == 0;
            let r = spec_normalize(text, config);
            &&& r.1 == (if nop { 1nat } else { 0nat })
            &&& r.0.len() == (if nop { 0nat } else { 8nat })
            &&& !nop ==> forall|i: int| 0 <= i < 8 && i != 1 ==> r.0[i] == text[i]
            &&& !nop && !config.remap_registers ==> r.0 == text
        }),
{
    let chunk = text.subrange(0, 8);
    assert(chunk =~= text);
    let st = spec_initial_state();
    assert(st.0 =~= Seq::<u8>::empty());
    if config.strip_nops && spec_is_nop(chunk) {
        assert(spec_normalize(text, config) == spec_normalize_from(text, config, 8, (st.0, st.1 + 1, st.2, st.3)));
    } else {
        let next = spec_append(st, chunk, config);
        assert(spec_normalize(text, config) == spec_normalize_from(text, config, 8, next));
        if config.remap_registers {
            let b1 = spec_remap_byte(st.2, st.3, chunk[1]).2;
            assert(next.0 =~= chunk.update(1, b1));
        } else {
            assert(next.0 =~= chunk);
        }
    }
}

/// A 16-byte `lddw` (opcode `0x18`) collapses, when that is on, into one
/// 8-byte `lddw` whose offset and immediate are zero and whose register
/// byte is kept (or remapped), with no instruction counted as removed;
/// with collapsing and stripping off and no remapping, both halves are
/// emitted unchanged.
pub proof fn lemma_wide_load(text: Seq<u8>, config: NormalizeConfig)
    requires
        text.len() == 16,
        text[0] == 0x18,
    ensures
        config.collapse_lddw ==> {
            let r = spec_normalize(text, config);
            &&& r.1 == 0
            &&& r.0.len() == 8
            &&& r.0[0] == 0x18
            &&& forall|i: int| 2 <= i < 8 ==> r.0[i] == 0
            &&& !config.remap_registers ==> r.0[1] == text[1]
        },
        !config.collapse_lddw && !config.strip_nops && !config.remap_registers ==> spec_normalize(
            text,
            config,
        ) == (text, 0nat, Seq::<(u8, u8)>::empty(), 0u8),
{
    let st = spec_initial_state();
    let chunk = text.subrange(0, 8);
    assert(st.0 =~= Seq::<u8>::empty());
    assert(chunk[0] == 0x18);
    if config.collapse_lddw {
        let insn = spec_lddw_insn(chunk[1]);
        let next = spec_append(st, insn, config);
        assert(spec_normalize(text, config) == spec_normalize_from(text, config, 16, next));
        if config.remap_registers {
            let b1 = spec_remap_byte(st.2, st.3, insn[1]).2;
            assert(next.0 =~= insn.update(1, b1));
        } else {
            assert(next.0 =~= insn);
        }
    } else if !config.strip_nops && !config.remap_registers {
        let second = text.subrange(8, 16);
        let next = spec_append(st, chunk, config);
        assert(spec_normalize(text, config) == spec_normalize_from(text, config, 8, next));
        let last = spec_append(next, second, config);
        assert(spec_normalize_from(text, config, 8, next) == spec_normalize_from(text, config, 16, last));
        assert(last.0 =~= text);
    }
}

} // verus!
