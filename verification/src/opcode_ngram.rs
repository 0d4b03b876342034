//! Extract normalized opcode n-grams from SBF bytecode.
use std::collections::HashSet;
use vstd::prelude::*;

verus! {

/// Size of a single SBF instruction in bytes.
pub const INSTRUCTION_SIZE: usize = 8;

/// Default n-gram width for opcode sequences.
pub const DEFAULT_NGRAM_SIZE: usize = 3;

/// Bit width that each token occupies inside a packed n-gram key.
pub const TOKEN_BITS: u64 = 21;

/// A normalized opcode token derived from one SBF instruction.
#[derive(Debug, Clone, Copy, PartialEq, Eq, Hash, Structural)]
pub struct NormalizedOpcode {
    pub opcode: u8,
    pub dst_reg: u8,
    pub src_reg: u8,
}

/// The token of an instruction whose first two bytes are `b0` and `b1`:
/// the opcode, the destination register (low nibble of `b1`) and the
/// source register (high nibble of `b1`).
pub open spec fn spec_decode(b0: u8, b1: u8) -> NormalizedOpcode {
    NormalizedOpcode { opcode: b0, dst_reg: b1 & 0x0f, src_reg: (b1 >> 4) & 0x0f }
}

/// Number of whole instructions in `text`.
pub open spec fn spec_instruction_count(text: Seq<u8>) -> nat {
    text.len() / 8
}

/// The token of the `k`-th whole instruction of `text`.
pub open spec fn spec_token_at(text: Seq<u8>, k: int) -> NormalizedOpcode {
    spec_decode(text[8 * k], text[8 * k + 1])
}

/// The tokens of all whole instructions of `text`; a trailing partial
/// instruction yields no token.
pub open spec fn spec_tokens(text: Seq<u8>) -> Seq<NormalizedOpcode> {
    Seq::new(spec_instruction_count(text), |k: int| spec_token_at(text, k))
}

impl NormalizedOpcode {
    /// The 32-bit key of a token: `(opcode << 16) | (dst << 8) | src`.
    pub open spec fn spec_key(self) -> u32 {
        (self.opcode as u32) << 16u32 | (self.dst_reg as u32) << 8u32 | self.src_reg as u32
    }

    /// Decode and normalize an 8-byte SBF instruction.
    ///
    /// Immediate operands and branch offsets are stripped so that
    /// structurally similar instructions hash to the same token.
    pub fn from_instruction(bytes: &[u8]) -> (res: Option<Self>)
        ensures
            bytes@.len() < 8 ==> res is None,
            bytes@.len() >= 8 ==> res == Some(spec_decode(bytes@[0], bytes@[1])),
    {
        if bytes.len() < INSTRUCTION_SIZE {
            return None;
        }
        let opcode = bytes[0];
        let dst_reg = bytes[1] & 0x0f;
        let src_reg = (bytes[1] >> 4) & 0x0f;
        Some(Self { opcode, dst_reg, src_reg })
    }

    /// Packed 32-bit key of this token.
    pub fn to_key(self) -> (key: u32)
        ensures
            key == self.spec_key(),
    {
        (self.opcode as u32) << 16u32 | (self.dst_reg as u32) << 8u32 | self.src_reg as u32
    }
}

/// Packed key of the `len` tokens of `toks` starting at `start`: token `t`
/// of the window is shifted left by `21 * t` bits and all are or-ed together.
pub open spec fn spec_window_key(toks: Seq<NormalizedOpcode>, start: int, len: nat) -> u64
    decreases len,
{
    if len == 0 {
        0
    } else {
        spec_window_key(toks, start, (len - 1) as nat) | ((toks[start + len - 1].spec_key() as u64)
            << (((len - 1) * 21) as u64))
    }
}

/// Number of windows of width `n` over `m` tokens.
pub open spec fn spec_window_count(m: nat, n: nat) -> nat {
    if m < n {
        0
    } else {
        (m - n + 1) as nat
    }
}

/// The set of packed n-gram keys of `text` for width `n`.
pub open spec fn spec_ngram_set(text: Seq<u8>, n: nat) -> Set<u64> {
    let toks = spec_tokens(text);
    Seq::new(spec_window_count(toks.len(), n), |j: int| spec_window_key(toks, j, n)).to_set()
}

/// Whether `extract_ngrams` can run on `text` with width `n` without the
/// window width being zero or a token being shifted past bit 63.
pub open spec fn ngram_width_ok(text: Seq<u8>, n: nat) -> bool {
    1 <= n && (n <= 4 || spec_instruction_count(text) < n)
}

/// Whether `extract_ngrams` can run on `text` with width `n`.
pub fn ngram_width_fits(text: &[u8], n: usize) -> (ok: bool)
    ensures
        ok == ngram_width_ok(text@, n as nat),
{
    n >= 1 && (n <= 4 || text.len() / INSTRUCTION_SIZE < n)
}

/// Decode every whole instruction of `text` into its token.
pub fn decode_tokens(text: &[u8]) -> (toks: Vec<NormalizedOpcode>)
    ensures
        toks@ == spec_tokens(text@),
{
    let count = text.len() / INSTRUCTION_SIZE;
    let mut toks: Vec<NormalizedOpcode> = Vec::new();
    let mut k: usize = 0;
    while k < count
        invariant
            count == text@.len() / 8,
            k <= count,
            toks@ =~= spec_tokens(text@).take(k as int),
        decreases count - k,
    {
        assert(8 * k + 8 <= text@.len()) by (nonlinear_arith)
            requires
                k < count,
                count == text@.len() / 8,
        ;
        assert(text@.len() == text.len());
        let b0 = text[8 * k];
        let b1 = text[8 * k + 1];
        let tok = NormalizedOpcode { opcode: b0, dst_reg: b1 & 0x0f, src_reg: (b1 >> 4) & 0x0f };
        toks.push(tok);
        k = k + 1;
    }
    assert(spec_tokens(text@).take(count as int) =~= spec_tokens(text@));
    toks
}

/// Packed key of the `n` tokens of `toks` starting at `start`.
pub fn window_key(toks: &Vec<NormalizedOpcode>, start: usize, n: usize) -> (key: u64)
    requires
        n <= 4,
        start + n <= toks@.len(),
    ensures
        key == spec_window_key(toks@, start as int, n as nat),
{
    let mut key: u64 = 0;
    let mut i: usize = 0;
    while i < n
        invariant
            n <= 4,
            start + n <= toks@.len(),
            i <= n,
            key == spec_window_key(toks@, start as int, i as nat),
        decreases n - i,
    {
        assert(start + i < toks@.len());
        assert(toks@.len() == toks.len());
        let shift: u64 = (i as u64) * 21;
        key = key | ((toks[start + i].to_key() as u64) << shift);
        i = i + 1;
    }
    key
}

/// Extract unique normalized opcode n-grams from raw text section bytes.
pub fn extract_ngrams(text: &[u8], n: usize) -> (ngrams: HashSet<u64>)
    requires
        ngram_width_ok(text@, n as nat),
    ensures
        ngrams@ == spec_ngram_set(text@, n as nat),
{
    let toks = decode_tokens(text);
    let mut ngrams: HashSet<u64> = HashSet::new();
    let ghost windows = Seq::new(
        spec_window_count(toks@.len(), n as nat),
        |j: int| spec_window_key(toks@, j, n as nat),
    );
    if toks.len() < n {
        assert(windows =~= Seq::<u64>::empty());
        assert(ngrams@ =~= windows.to_set());
        return ngrams;
    }
    let count = toks.len() - n + 1;
    let mut j: usize = 0;
    while j < count
        invariant
            1 <= n <= 4,
            count == toks@.len() - n + 1,
            toks@ == spec_tokens(text@),
            windows == Seq::new(count as nat, |j: int| spec_window_key(toks@, j, n as nat)),
            j <= count,
            ngrams@ =~= windows.take(j as int).to_set(),
        decreases count - j,
    {
        let key = window_key(&toks, j, n);
        ngrams.insert(key);
        assert(windows.take(j + 1) =~= windows.take(j as int).push(key));
        proof {
            windows.take(j as int).lemma_push_to_set_commute(key);
        }
        j = j + 1;
    }
    assert(windows.take(count as int) =~= windows);
    ngrams
}

/// Count total n-grams without deduplication (for diagnostics).
pub fn count_ngrams(text: &[u8], n: usize) -> (count: usize)
    ensures
        count == spec_window_count(spec_instruction_count(text@), n as nat),
{
    let m = text.len() / INSTRUCTION_SIZE;
    if m < n {
        0
    } else {
        m - n + 1
    }
}

} // verus!

verus! {

/// An n-gram set is finite and has at most one element per whole instruction.
pub proof fn lemma_ngram_set_bounded(text: Seq<u8>, n: nat)
    requires
        n >= 1,
    ensures
        spec_ngram_set(text, n).finite(),
        spec_ngram_set(text, n).len() <= spec_instruction_count(text),
{
    let toks = spec_tokens(text);
    let windows = Seq::new(spec_window_count(toks.len(), n), |j: int| spec_window_key(toks, j, n));
    windows.lemma_cardinality_of_set();
}

/// Whether instruction `k` of `a` and of `b` have the same opcode byte and
/// the same register byte.
pub open spec fn spec_same_operation(a: Seq<u8>, b: Seq<u8>, k: int) -> bool {
    a[8 * k] == b[8 * k] && a[8 * k + 1] == b[8 * k + 1]
}

/// Instructions that agree in opcode and register byte give the same
/// n-grams: offsets and immediates play no part.
pub proof fn lemma_ngrams_ignore_operands(a: Seq<u8>, b: Seq<u8>, n: nat)
    requires
        spec_instruction_count(a) == spec_instruction_count(b),
        forall|k: int| 0 <= k < spec_instruction_count(a) ==> #[trigger] spec_same_operation(a, b, k),
    ensures
        spec_ngram_set(a, n) == spec_ngram_set(b, n),
{
    assert forall|k: int| 0 <= k < spec_instruction_count(a) implies spec_token_at(a, k)
        == spec_token_at(b, k) by {
        assert(spec_same_operation(a, b, k));
    }
    assert(spec_tokens(a) =~= spec_tokens(b));
}

/// The n-grams of a text come from its whole instructions alone: cutting
/// off a trailing partial instruction changes nothing, and the set is empty
/// exactly when the text holds fewer instructions than the width.
pub proof fn lemma_ngram_set_shape(text: Seq<u8>, n: nat)
    ensures
        spec_ngram_set(text, n).is_empty() <==> spec_instruction_count(text) < n,
        spec_ngram_set(text, n) == spec_ngram_set(
            text.subrange(0, 8 * spec_instruction_count(text) as int),
            n,
        ),
{
    let c = spec_instruction_count(text);
    let whole = text.subrange(0, 8 * c as int);
    assert(8 * c <= text.len());
    assert(spec_instruction_count(whole) == c);
    assert forall|k: int| 0 <= k < c implies #[trigger] spec_same_operation(text, whole, k) by {
        assert(8 * k + 1 < 8 * c);
    }
    lemma_ngrams_ignore_operands(text, whole, n);
    let toks = spec_tokens(text);
    let windows = Seq::new(spec_window_count(toks.len(), n), |j: int| spec_window_key(toks, j, n));
    if c < n {
        assert(windows.to_set() =~= Set::<u64>::empty());
    } else {
        assert(windows.to_set().contains(windows[0]));
    }
}

proof fn lemma_window_key_same_tokens(
    ta: Seq<NormalizedOpcode>,
    tb: Seq<NormalizedOpcode>,
    start: int,
    len: nat,
)
    requires
        forall|i: int| start <= i < start + len ==> ta[i] == tb[i],
    ensures
        spec_window_key(ta, start, len) == spec_window_key(tb, start, len),
    decreases len,
{
    if len > 0 {
        lemma_window_key_same_tokens(ta, tb, start, (len - 1) as nat);
    }
}

/// Changing one instruction changes at most `n` of the n-grams: every n-gram
/// of `a` that `b` lacks is the key of one of the at most `n` windows of `a`
/// that cover the changed instruction.
pub proof fn lemma_one_instruction_change(a: Seq<u8>, b: Seq<u8>, k: int, n: nat)
    requires
        spec_instruction_count(a) == spec_instruction_count(b),
        0 <= k < spec_instruction_count(a),
        forall|j: int|
            0 <= j < spec_instruction_count(a) && j != k ==> #[trigger] spec_same_operation(a, b, j),
    ensures
        spec_ngram_set(a, n).difference(spec_ngram_set(b, n)).len() <= n,
{
    let c = spec_instruction_count(a);
    let ta = spec_tokens(a);
    let tb = spec_tokens(b);
    let w = spec_window_count(c, n);
    let wa = Seq::new(w, |j: int| spec_window_key(ta, j, n));
    let wb = Seq::new(w, |j: int| spec_window_key(tb, j, n));
    assert(spec_ngram_set(a, n) == wa.to_set());
    assert(spec_ngram_set(b, n) == wb.to_set());
    let lo: int = if k - n + 1 > 0 { k - n + 1 } else { 0 };
    let top: int = if k + 1 < w { k + 1 } else { w as int };
    let hi: int = if lo <= top { top } else { lo };
    assert(lo <= w);
    let covering = wa.subrange(lo, hi);
    let diff = wa.to_set().difference(wb.to_set());
    assert(diff.subset_of(covering.to_set())) by {
        assert forall|x: u64| diff.contains(x) implies covering.to_set().contains(x) by {
            let j = choose|j: int| 0 <= j < wa.len() && wa[j] == x;
            if j > k || k >= j + n {
                assert forall|i: int| j <= i < j + n implies ta[i] == tb[i] by {
                    assert(spec_same_operation(a, b, i));
                }
                lemma_window_key_same_tokens(ta, tb, j, n);
                assert(wb[j] == x);
                assert(wb.to_set().contains(x));
            }
            assert(covering[j - lo] == x);
        }
    }
    covering.lemma_cardinality_of_set();
    vstd::set_lib::lemma_len_subset(diff, covering.to_set());
}

/// Texts of one length that agree in the opcode and register byte of every
/// whole instruction give the same n-grams: offsets, immediates and the
/// bytes of a trailing partial instruction play no part.
pub proof fn lemma_ngrams_ignore_operand_bytes(a: Seq<u8>, b: Seq<u8>, n: nat)
    requires
        a.len() == b.len(),
        forall|i: int| 0 <= i < 8 * spec_instruction_count(a) && i % 8 < 2 ==> #[trigger] a[i] == b[i],
    ensures
        spec_ngram_set(a, n) == spec_ngram_set(b, n),
{
    let c = spec_instruction_count(a);
    assert forall|k: int| 0 <= k < c implies #[trigger] spec_same_operation(a, b, k) by {
        assert((8 * k) % 8 == 0 && (8 * k + 1) % 8 == 1);
        assert(a[8 * k] == b[8 * k]);
        assert(a[8 * k + 1] == b[8 * k + 1]);
    }
    lemma_ngrams_ignore_operands(a, b, n);
}

/// The token of each whole instruction holds its full opcode byte, the low
/// nibble of its register byte as destination and the high nibble as source.
pub proof fn lemma_token_fields(text: Seq<u8>, k: int)
    requires
        0 <= k < text.len() / 8,
    ensures
        spec_tokens(text)[k].opcode == text[8 * k],
        spec_tokens(text)[k].dst_reg == text[8 * k + 1] & 0x0f,
        spec_tokens(text)[k].src_reg == text[8 * k + 1] >> 4u8,
{
    let b = text[8 * k + 1];
    assert((b >> 4u8) & 0x0f == b >> 4u8) by (bit_vector);
}

/// The n-grams of width one of a single instruction tell its opcode byte
/// and its register byte apart: two instructions give the same set exactly
/// when they agree on both bytes.
pub proof fn lemma_single_token_ngrams(a: Seq<u8>, b: Seq<u8>)
    requires
        a.len() == 8,
        b.len() == 8,
    ensures
        spec_ngram_set(a, 1) == spec_ngram_set(b, 1) <==> (a[0] == b[0] && a[1] == b[1]),
{
    let ta = spec_tokens(a);
    let tb = spec_tokens(b);
    let wa = Seq::new(spec_window_count(ta.len(), 1), |j: int| spec_window_key(ta, j, 1));
    let wb = Seq::new(spec_window_count(tb.len(), 1), |j: int| spec_window_key(tb, j, 1));
    assert(wa.len() == 1 && wb.len() == 1);
    assert(wa.to_set() =~= set![wa[0]]) by {
        assert(wa.to_set().contains(wa[0]));
    }
    assert(wb.to_set() =~= set![wb[0]]) by {
        assert(wb.to_set().contains(wb[0]));
    }
    lemma_token_fields(a, 0);
    lemma_token_fields(b, 0);
    let (a0, a1, b0, b1) = (a[0], a[1], b[0], b[1]);
    let ka = wa[0];
    let kb = wb[0];
    reveal_with_fuel(spec_window_key, 2);
    assert(ka == spec_window_key(ta, 0, 1));
    assert(spec_window_key(ta, 0, 0) == 0u64);
    assert(ka == 0u64 | ((ta[0].spec_key() as u64) << 0u64));
    assert(kb == spec_window_key(tb, 0, 1));
    assert(spec_window_key(tb, 0, 0) == 0u64);
    assert(kb == 0u64 | ((tb[0].spec_key() as u64) << 0u64));
    assert(ka == 0u64 | (((a0 as u32) << 16u32 | ((a1 & 0x0f) as u32) << 8u32 | ((a1 >> 4u8) as u32)) as u64)
        << 0u64);
    assert(kb == 0u64 | (((b0 as u32) << 16u32 | ((b1 & 0x0f) as u32) << 8u32 | ((b1 >> 4u8) as u32)) as u64)
        << 0u64);
    assert(((0u64 | (((a0 as u32) << 16u32 | ((a1 & 0x0f) as u32) << 8u32 | ((a1 >> 4u8) as u32)) as u64)
        << 0u64) == (0u64 | (((b0 as u32) << 16u32 | ((b1 & 0x0f) as u32) << 8u32 | ((b1 >> 4u8) as u32)) as u64)
        << 0u64)) <==> (a0 == b0 && a1 == b1)) by (bit_vector);
    if ka == kb {
        assert(wa.to_set() == wb.to_set());
    } else {
        assert(!wb.to_set().contains(ka));
    }
}

/// The 32-bit key of an instruction whose opcode byte is `b0` and whose
/// register byte is `b1`: the opcode in bits 16 to 23, the destination
/// register in bits 8 to 11 and the source register in bits 0 to 3.
pub open spec fn spec_instruction_key(b0: u8, b1: u8) -> u64 {
    ((b0 as u32) << 16u32 | ((b1 & 0x0f) as u32) << 8u32 | ((b1 >> 4u8) as u32)) as u64
}

/// A text of two instructions has one n-gram of width two: the key of the
/// first instruction or-ed with that of the second shifted left by 21 bits.
pub proof fn lemma_two_instruction_window(text: Seq<u8>)
    requires
        text.len() == 16,
    ensures
        spec_ngram_set(text, 2) == set![
            spec_instruction_key(text[0], text[1]) | (spec_instruction_key(text[8], text[9]) << 21u64)
        ],
{
    let t = spec_tokens(text);
    lemma_token_fields(text, 0);
    lemma_token_fields(text, 1);
    let w = Seq::new(spec_window_count(t.len(), 2), |j: int| spec_window_key(t, j, 2));
    assert(w.len() == 1);
    reveal_with_fuel(spec_window_key, 3);
    let k0 = spec_instruction_key(text[0], text[1]);
    let k1 = spec_instruction_key(text[8], text[9]);
    assert(t[0].spec_key() as u64 == k0);
    assert(t[1].spec_key() as u64 == k1);
    assert(spec_window_key(t, 0, 1) == 0u64 | (k0 << 0u64));
    assert(0u64 | (k0 << 0u64) == k0) by (bit_vector);
    assert(w[0] == spec_window_key(t, 0, 1) | (k1 << 21u64));
    assert(w.to_set() =~= set![w[0]]) by {
        assert(w.to_set().contains(w[0]));
    }
}

} // verus!
