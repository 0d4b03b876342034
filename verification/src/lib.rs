//! Bytecode similarity engine for Solana programs.
//!
//! Extracts normalized opcode n-grams from SBF ELF binaries and computes
//! MinHash and SimHash fingerprints for similarity comparison and clustering.
pub mod bytecode_normalize;
pub mod cluster;
pub mod digest;
pub mod elf_loader;
pub mod features;
pub mod fingerprint_db;
pub mod lsh_index;
pub mod minhash;
pub mod opcode_ngram;
pub mod paths;
pub mod ratio;
pub mod similarity_report;
pub mod simhash;
pub mod text;

use std::collections::HashSet;
use vstd::prelude::*;
use vstd::string::*;

use crate::bytecode_normalize::{normalize_bytecode, spec_normalize, NormalizeConfig};
use crate::elf_loader::{parse_elf_bytes, spec_parse_elf, LoadError};
use crate::minhash::{
    compute_signature, estimate_jaccard, exact_jaccard, spec_estimate_jaccard, spec_exact_jaccard,
    spec_signature, MinHashSignature, DEFAULT_NUM_HASHES,
};
use crate::opcode_ngram::{extract_ngrams, spec_ngram_set, DEFAULT_NGRAM_SIZE};
use crate::ratio::Ratio;
use crate::simhash::{
    compute_simhash, hamming_distance, similarity_from_simhash, spec_hamming, spec_simhash, SimHash,
};

verus! {

/// Combined fingerprint for a Solana program binary.
#[derive(Debug)]
pub struct ProgramFingerprint {
    pub ngram_count: usize,
    pub minhash: MinHashSignature,
    pub simhash: SimHash,
    pub ngrams: HashSet<u64>,
}

/// A program file: the path it was found at and its contents.
pub struct ProgramFile {
    pub path: String,
    pub data: Vec<u8>,
}

/// The path and contents of every file of `files`, in order.
pub open spec fn spec_files(files: Seq<ProgramFile>) -> Seq<(Seq<char>, Seq<u8>)> {
    files.map_values(|f: ProgramFile| (f.path@, f.data@))
}

/// Comparison result between two program binaries.
#[derive(Debug, Clone, Copy, PartialEq, Eq, Structural)]
pub struct ComparisonResult {
    pub jaccard_estimate: Ratio,
    pub jaccard_exact: Ratio,
    pub simhash_similarity: Ratio,
    pub hamming_distance: u32,
}

/// Error text when a program yields no n-gram.
pub open spec fn spec_no_ngrams_text() -> Seq<char> {
    "no opcode n-grams extracted from bytecode"@
}

/// `fp` is the fingerprint of the n-gram set `ngrams`: it holds the set, its
/// size, its MinHash signature with the default number of hashes and its
/// SimHash.
pub open spec fn spec_fingerprint_of(ngrams: Set<u64>, fp: ProgramFingerprint) -> bool {
    &&& fp.ngrams@ == ngrams
    &&& fp.ngram_count == ngrams.len()
    &&& fp.minhash.values@ == spec_signature(ngrams, DEFAULT_NUM_HASHES as nat)
    &&& fp.simhash.0 == spec_simhash(ngrams)
}

/// `res` is the outcome of fingerprinting a program whose n-gram set is
/// `ngrams`: a fingerprint of the set when it is not empty, the
/// "no n-grams" error otherwise.
pub open spec fn spec_fingerprint_result(ngrams: Set<u64>, res: Result<ProgramFingerprint, String>) -> bool {
    match res {
        Ok(fp) => !ngrams.is_empty() && spec_fingerprint_of(ngrams, fp),
        Err(msg) => ngrams.is_empty() && msg@ == spec_no_ngrams_text(),
    }
}

/// Text of a load error: `Some(msg)` stands for `NotElf(msg)`, `None` for
/// `NoTextSection`.
pub open spec fn spec_load_error_text(err: Option<Seq<char>>) -> Seq<char> {
    match err {
        Some(msg) => "not a valid elf: "@ + msg,
        None => "no executable text section found"@,
    }
}

/// The raw n-gram set of the text section of the ELF file `data`, or the
/// error fingerprinting the file reports: the loader's, or the "no n-grams"
/// error when the set is empty.
pub open spec fn spec_file_ngrams(data: Seq<u8>) -> Result<Set<u64>, Seq<char>> {
    match spec_parse_elf(data) {
        Ok((text, _)) => {
            let ngrams = spec_ngram_set(text, DEFAULT_NGRAM_SIZE as nat);
            if ngrams.is_empty() {
                Err(spec_no_ngrams_text())
            } else {
                Ok(ngrams)
            }
        },
        Err(e) => Err(spec_load_error_text(e)),
    }
}

/// The outcome of fingerprinting the ELF file `data` with the raw n-grams of
/// its text section.
pub open spec fn spec_file_result(data: Seq<u8>, res: Result<ProgramFingerprint, String>) -> bool {
    match spec_file_ngrams(data) {
        Ok(ngrams) => res matches Ok(fp) && spec_fingerprint_of(ngrams, fp),
        Err(e) => res matches Err(msg) && msg@ == e,
    }
}

fn fingerprint_ngrams(ngrams: HashSet<u64>) -> (res: Result<ProgramFingerprint, String>)
    ensures
        spec_fingerprint_result(ngrams@, res),
{
    if ngrams.is_empty() {
        return Err(String::from_str("no opcode n-grams extracted from bytecode"));
    }
    let minhash = compute_signature(&ngrams, DEFAULT_NUM_HASHES);
    let simhash = compute_simhash(&ngrams);
    Ok(ProgramFingerprint { ngram_count: ngrams.len(), minhash, simhash, ngrams })
}

/// Build a full fingerprint from the contents of an ELF program file.
pub fn fingerprint_file(data: &[u8]) -> (res: Result<ProgramFingerprint, String>)
    ensures
        spec_file_result(data@, res),
{
    match parse_elf_bytes(data) {
        Ok(bytecode) => fingerprint_bytes(bytecode.text.as_slice()),
        Err(e) => {
            let msg = e.describe();
            Err(msg)
        },
    }
}

/// Build a full fingerprint from raw text section bytes.
pub fn fingerprint_bytes(text: &[u8]) -> (res: Result<ProgramFingerprint, String>)
    ensures
        spec_fingerprint_result(spec_ngram_set(text@, DEFAULT_NGRAM_SIZE as nat), res),
{
    let ngrams = extract_ngrams(text, DEFAULT_NGRAM_SIZE);
    fingerprint_ngrams(ngrams)
}

/// Build a fingerprint using a custom normalization policy.
pub fn fingerprint_bytes_with_config(text: &[u8], config: NormalizeConfig) -> (res: Result<
    ProgramFingerprint,
    String,
>)
    ensures
        spec_fingerprint_result(
            spec_ngram_set(spec_normalize(text@, config).0, DEFAULT_NGRAM_SIZE as nat),
            res,
        ),
{
    let normalized = normalize_bytecode(text, config);
    let ngrams = extract_ngrams(normalized.normalized.as_slice(), DEFAULT_NGRAM_SIZE);
    fingerprint_ngrams(ngrams)
}

/// The comparison of two fingerprints whose n-gram sets are `a` and `b`,
/// MinHash signatures `sig_a` and `sig_b` and SimHash values `sim_a` and `sim_b`.
pub open spec fn spec_comparison(
    a: Set<u64>,
    b: Set<u64>,
    sig_a: Seq<u64>,
    sig_b: Seq<u64>,
    sim_a: u64,
    sim_b: u64,
) -> ComparisonResult {
    ComparisonResult {
        jaccard_estimate: spec_estimate_jaccard(sig_a, sig_b),
        jaccard_exact: spec_exact_jaccard(a, b),
        simhash_similarity: Ratio {
            numerator: (64 - spec_hamming(sim_a, sim_b)) as usize,
            denominator: 64,
        },
        hamming_distance: spec_hamming(sim_a, sim_b) as u32,
    }
}

/// The comparison of two programs whose n-gram sets are `a` and `b`.
pub open spec fn spec_comparison_of(a: Set<u64>, b: Set<u64>) -> ComparisonResult {
    spec_comparison(
        a,
        b,
        spec_signature(a, DEFAULT_NUM_HASHES as nat),
        spec_signature(b, DEFAULT_NUM_HASHES as nat),
        spec_simhash(a),
        spec_simhash(b),
    )
}

/// Compare two precomputed fingerprints.
pub fn compare_fingerprints(a: &ProgramFingerprint, b: &ProgramFingerprint) -> (cmp: ComparisonResult)
    requires
        a.ngrams@.union(b.ngrams@).len() <= usize::MAX,
    ensures
        cmp == spec_comparison(
            a.ngrams@,
            b.ngrams@,
            a.minhash.values@,
            b.minhash.values@,
            a.simhash.0,
            b.simhash.0,
        ),
{
    let jaccard_estimate = estimate_jaccard(&a.minhash, &b.minhash);
    let jaccard_exact = exact_jaccard(&a.ngrams, &b.ngrams);
    let simhash_similarity = similarity_from_simhash(a.simhash, b.simhash);
    let hamming_distance = hamming_distance(a.simhash, b.simhash);
    ComparisonResult { jaccard_estimate, jaccard_exact, simhash_similarity, hamming_distance }
}

/// Compare two program files, given their contents, and return similarity metrics.
pub fn compare_files(data_a: &[u8], data_b: &[u8]) -> (res: Result<ComparisonResult, String>)
    ensures
        match (spec_file_ngrams(data_a@), spec_file_ngrams(data_b@)) {
            (Ok(a), Ok(b)) => res == Ok::<ComparisonResult, String>(spec_comparison_of(a, b)),
            (Err(e), _) => res matches Err(msg) && msg@ == e,
            (Ok(_), Err(e)) => res matches Err(msg) && msg@ == e,
        },
{
    let fp_a = match fingerprint_file(data_a) {
        Ok(fp) => fp,
        Err(msg) => {
            return Err(msg);
        },
    };
    let fp_b = match fingerprint_file(data_b) {
        Ok(fp) => fp,
        Err(msg) => {
            return Err(msg);
        },
    };
    proof {
        lemma_file_ngrams_bounded(data_a@, fp_a);
        lemma_file_ngrams_bounded(data_b@, fp_b);
        vstd::set_lib::lemma_len_union(fp_a.ngrams@, fp_b.ngrams@);
        assert(data_a@.len() == data_a.len());
        assert(data_b@.len() == data_b.len());
    }
    Ok(compare_fingerprints(&fp_a, &fp_b))
}

/// A file's n-gram set has at most one element per eight bytes of the file.
pub(crate) proof fn lemma_file_ngrams_bounded(data: Seq<u8>, fp: ProgramFingerprint)
    requires
        spec_file_result(data, Ok(fp)),
    ensures
        fp.ngrams@.finite(),
        fp.ngrams@.len() <= data.len() / 8,
{
    if let Ok((text, _)) = spec_parse_elf(data) {
        crate::opcode_ngram::lemma_ngram_set_bounded(text, DEFAULT_NGRAM_SIZE as nat);
        crate::elf_loader::lemma_parse_elf_text_within(data);
        assert(text.len() / 8 <= data.len() / 8) by (nonlinear_arith)
            requires
                text.len() <= data.len(),
        ;
    }
}

} // verus!

verus! {

/// A program compared with itself is found fully similar: the MinHash
/// estimate and the exact Jaccard similarity are one, the SimHash values
/// agree on all 64 bits.
pub proof fn lemma_compare_self(ngrams: Set<u64>)
    requires
        ngrams.finite(),
        ngrams.len() <= usize::MAX,
    ensures
        spec_comparison_of(ngrams, ngrams).jaccard_estimate == (Ratio {
            numerator: DEFAULT_NUM_HASHES,
            denominator: DEFAULT_NUM_HASHES,
        }),
        spec_comparison_of(ngrams, ngrams).jaccard_exact.numerator == spec_comparison_of(
            ngrams,
            ngrams,
        ).jaccard_exact.denominator,
        spec_comparison_of(ngrams, ngrams).jaccard_exact.denominator > 0,
        spec_comparison_of(ngrams, ngrams).hamming_distance == 0,
        spec_comparison_of(ngrams, ngrams).simhash_similarity == (Ratio {
            numerator: 64,
            denominator: 64,
        }),
{
    crate::minhash::lemma_estimate_self(spec_signature(ngrams, DEFAULT_NUM_HASHES as nat));
    assert(ngrams.union(ngrams) =~= ngrams);
    crate::minhash::lemma_exact_jaccard_symmetric_bounded(ngrams, ngrams);
    crate::simhash::lemma_hamming_metric(spec_simhash(ngrams), spec_simhash(ngrams), spec_simhash(ngrams));
}

/// Comparing two programs gives the same scores in either order.
pub proof fn lemma_compare_symmetric(a: Set<u64>, b: Set<u64>)
    requires
        a.finite(),
        b.finite(),
        a.union(b).len() <= usize::MAX,
    ensures
        spec_comparison_of(a, b) == spec_comparison_of(b, a),
{
    crate::minhash::lemma_estimate_jaccard_symmetric_bounded(
        spec_signature(a, DEFAULT_NUM_HASHES as nat),
        spec_signature(b, DEFAULT_NUM_HASHES as nat),
    );
    crate::minhash::lemma_exact_jaccard_symmetric_bounded(a, b);
    crate::simhash::lemma_hamming_metric(spec_simhash(a), spec_simhash(b), spec_simhash(a));
}

} // verus!
