//! Detailed similarity reports for program comparisons.
use vstd::prelude::*;
use vstd::string::*;

use crate::fingerprint_db::StoredFingerprint;
use crate::minhash::{estimate_jaccard, exact_jaccard, MinHashSignature};
use crate::paths::{same_path, spec_same_path};
use crate::ratio::Ratio;
use crate::simhash::{hamming_distance, similarity_from_simhash, SimHash};
use crate::text::{decimal_text, spec_decimal};
use crate::{
    compare_files, compare_fingerprints, fingerprint_file, spec_comparison, spec_comparison_of,
    spec_file_ngrams, spec_files, ComparisonResult, ProgramFile, ProgramFingerprint,
};

verus! {

/// Severity tier for similarity based on estimated Jaccard score.
#[derive(Debug, Clone, Copy, PartialEq, Eq, Structural)]
pub enum SimilarityTier {
    Identical,
    NearDuplicate,
    Related,
    Distinct,
}

/// Full comparison report between two programs.
#[derive(Debug)]
pub struct SimilarityReport {
    pub path_a: String,
    pub path_b: String,
    pub jaccard_estimate: Ratio,
    pub jaccard_exact: Ratio,
    pub simhash_similarity: Ratio,
    pub hamming_distance: u32,
    pub ngram_count_a: usize,
    pub ngram_count_b: usize,
    pub tier: SimilarityTier,
    pub notes: Vec<String>,
}

/// The contents of a report: the two labels, the four scores, the two
/// n-gram counts, the tier and the notes.
pub type ReportView = (Seq<char>, Seq<char>, ComparisonResult, usize, usize, SimilarityTier, Seq<
    Seq<char>,
>);

/// The contents of `r`.
pub open spec fn spec_report_view(r: SimilarityReport) -> ReportView {
    (
        r.path_a@,
        r.path_b@,
        ComparisonResult {
            jaccard_estimate: r.jaccard_estimate,
            jaccard_exact: r.jaccard_exact,
            simhash_similarity: r.simhash_similarity,
            hamming_distance: r.hamming_distance,
        },
        r.ngram_count_a,
        r.ngram_count_b,
        r.tier,
        r.notes@.map_values(|s: String| s@),
    )
}

/// The tier of an estimated Jaccard score: identical from 0.98 on, near
/// duplicate from 0.80, related from 0.40, distinct below.
pub open spec fn spec_tier(jaccard: Ratio) -> SimilarityTier {
    if jaccard.spec_at_least(Ratio { numerator: 49, denominator: 50 }) {
        SimilarityTier::Identical
    } else if jaccard.spec_at_least(Ratio { numerator: 4, denominator: 5 }) {
        SimilarityTier::NearDuplicate
    } else if jaccard.spec_at_least(Ratio { numerator: 2, denominator: 5 }) {
        SimilarityTier::Related
    } else {
        SimilarityTier::Distinct
    }
}

/// Classify an estimated Jaccard score into a tier.
pub fn classify_similarity(jaccard: Ratio) -> (tier: SimilarityTier)
    requires
        jaccard.denominator > 0,
    ensures
        tier == spec_tier(jaccard),
{
    if jaccard.at_least(&Ratio { numerator: 49, denominator: 50 }) {
        SimilarityTier::Identical
    } else if jaccard.at_least(&Ratio { numerator: 4, denominator: 5 }) {
        SimilarityTier::NearDuplicate
    } else if jaccard.at_least(&Ratio { numerator: 2, denominator: 5 }) {
        SimilarityTier::Related
    } else {
        SimilarityTier::Distinct
    }
}

/// The rank of a tier, from distinct (0) to identical (3).
pub open spec fn spec_tier_rank(tier: SimilarityTier) -> int {
    match tier {
        SimilarityTier::Identical => 3,
        SimilarityTier::NearDuplicate => 2,
        SimilarityTier::Related => 1,
        SimilarityTier::Distinct => 0,
    }
}

/// A higher score never falls in a lower tier.
pub proof fn lemma_tier_monotone(a: Ratio, b: Ratio)
    requires
        a.denominator > 0,
        b.denominator > 0,
        a.spec_at_least(b),
    ensures
        spec_tier_rank(spec_tier(a)) >= spec_tier_rank(spec_tier(b)),
{
    let t1 = Ratio { numerator: 49, denominator: 50 };
    let t2 = Ratio { numerator: 4, denominator: 5 };
    let t3 = Ratio { numerator: 2, denominator: 5 };
    crate::ratio::lemma_at_least_total_preorder(a, b, t1);
    crate::ratio::lemma_at_least_total_preorder(a, b, t2);
    crate::ratio::lemma_at_least_total_preorder(a, b, t3);
}

/// The tiers by the estimate `n / d`: identical from 0.98 on, near
/// duplicate from 0.80, related from 0.40, distinct below 0.40.
pub proof fn lemma_tier_thresholds(jaccard: Ratio)
    requires
        jaccard.denominator > 0,
    ensures
        ({
            let n = jaccard.numerator as int;
            let d = jaccard.denominator as int;
            &&& spec_tier(jaccard) == SimilarityTier::Identical <==> 50 * n >= 49 * d
            &&& spec_tier(jaccard) == SimilarityTier::NearDuplicate <==> 5 * n >= 4 * d && 50 * n < 49 * d
            &&& spec_tier(jaccard) == SimilarityTier::Related <==> 5 * n >= 2 * d && 5 * n < 4 * d
            &&& spec_tier(jaccard) == SimilarityTier::Distinct <==> 5 * n < 2 * d
        }),
{
    let n = jaccard.numerator as int;
    let d = jaccard.denominator as int;
    assert(50 * n >= 49 * d ==> 5 * n >= 4 * d);
    assert(5 * n >= 4 * d ==> 5 * n >= 2 * d);
}

/// The note for SimHash values within the clone detection distance.
pub open spec fn spec_clone_note() -> Seq<char> {
    "simhash hamming distance within clone detection threshold"@
}

/// The note for an estimate far below the exact similarity.
pub open spec fn spec_divergence_note() -> Seq<char> {
    "minhash estimate diverges from exact jaccard; increase hash count"@
}

/// The note for a program without n-grams.
pub open spec fn spec_empty_note() -> Seq<char> {
    "one program produced empty ngram set"@
}

/// The notes of a comparison: SimHash values at most 3 bits apart; an exact
/// similarity of at least 0.9 with an estimate below 0.7; a program without
/// n-grams.
pub open spec fn spec_notes(cmp: ComparisonResult, count_a: usize, count_b: usize) -> Seq<
    Seq<char>,
> {
    (if cmp.hamming_distance <= 3 {
        seq![spec_clone_note()]
    } else {
        Seq::empty()
    }) + (if cmp.jaccard_exact.spec_at_least(Ratio { numerator: 9, denominator: 10 })
        && !cmp.jaccard_estimate.spec_at_least(Ratio { numerator: 7, denominator: 10 }) {
        seq![spec_divergence_note()]
    } else {
        Seq::empty()
    }) + (if count_a == 0 || count_b == 0 {
        seq![spec_empty_note()]
    } else {
        Seq::empty()
    })
}

/// The report on a comparison `cmp` of programs labelled `label_a` and
/// `label_b` with `count_a` and `count_b` n-grams.
pub open spec fn spec_report(
    label_a: Seq<char>,
    label_b: Seq<char>,
    cmp: ComparisonResult,
    count_a: usize,
    count_b: usize,
) -> ReportView {
    (
        label_a,
        label_b,
        cmp,
        count_a,
        count_b,
        spec_tier(cmp.jaccard_estimate),
        spec_notes(cmp, count_a, count_b),
    )
}

impl SimilarityReport {
    /// Compare two fingerprints and report on them under the given labels.
    pub fn from_fingerprints(
        path_a: &str,
        path_b: &str,
        fp_a: &ProgramFingerprint,
        fp_b: &ProgramFingerprint,
    ) -> (report: Self)
        requires
            fp_a.ngrams@.union(fp_b.ngrams@).len() <= usize::MAX,
        ensures
            spec_report_view(report) == spec_report(
                path_a@,
                path_b@,
                spec_comparison(
                    fp_a.ngrams@,
                    fp_b.ngrams@,
                    fp_a.minhash.values@,
                    fp_b.minhash.values@,
                    fp_a.simhash.0,
                    fp_b.simhash.0,
                ),
                fp_a.ngram_count,
                fp_b.ngram_count,
            ),
    {
        let cmp = compare_fingerprints(fp_a, fp_b);
        proof {
            assert(fp_a.minhash.values.len() == fp_a.minhash.values@.len());
            assert(cmp.jaccard_estimate.denominator > 0);
        }
        let tier = classify_similarity(cmp.jaccard_estimate);
        let mut notes: Vec<String> = Vec::new();
        let ghost n1 = if cmp.hamming_distance <= 3 {
            seq![spec_clone_note()]
        } else {
            Seq::<Seq<char>>::empty()
        };
        let ghost n2 = if cmp.jaccard_exact.spec_at_least(Ratio { numerator: 9, denominator: 10 })
            && !cmp.jaccard_estimate.spec_at_least(Ratio { numerator: 7, denominator: 10 }) {
            seq![spec_divergence_note()]
        } else {
            Seq::<Seq<char>>::empty()
        };
        let ghost n3 = if fp_a.ngram_count == 0 || fp_b.ngram_count == 0 {
            seq![spec_empty_note()]
        } else {
            Seq::<Seq<char>>::empty()
        };
        if cmp.hamming_distance <= 3 {
            notes.push(String::from_str("simhash hamming distance within clone detection threshold"));
        }
        assert(notes@.map_values(|s: String| s@) =~= n1);
        let ghost after1 = notes@;
        if cmp.jaccard_exact.at_least(&Ratio { numerator: 9, denominator: 10 })
            && !cmp.jaccard_estimate.at_least(&Ratio { numerator: 7, denominator: 10 }) {
            notes.push(
                String::from_str("minhash estimate diverges from exact jaccard; increase hash count"),
            );
        }
        assert(notes@.map_values(|s: String| s@) =~= n1 + n2);
        if fp_a.ngram_count == 0 || fp_b.ngram_count == 0 {
            notes.push(String::from_str("one program produced empty ngram set"));
        }
        assert(notes@.map_values(|s: String| s@) =~= n1 + n2 + n3);
        Self {
            path_a: String::from_str(path_a),
            path_b: String::from_str(path_b),
            jaccard_estimate: cmp.jaccard_estimate,
            jaccard_exact: cmp.jaccard_exact,
            simhash_similarity: cmp.simhash_similarity,
            hamming_distance: cmp.hamming_distance,
            ngram_count_a: fp_a.ngram_count,
            ngram_count_b: fp_b.ngram_count,
            tier,
            notes,
        }
    }
}

/// The report on two programs whose n-gram sets are `a` and `b`, under the
/// labels `label_a` and `label_b`.
pub open spec fn spec_report_of(label_a: Seq<char>, label_b: Seq<char>, a: Set<u64>, b: Set<u64>) -> ReportView {
    spec_report(label_a, label_b, spec_comparison_of(a, b), a.len() as usize, b.len() as usize)
}

/// `res` is the outcome of reporting on the program files `data_a` and
/// `data_b` under the labels `label_a` and `label_b`.
pub open spec fn spec_paths_result(
    label_a: Seq<char>,
    data_a: Seq<u8>,
    label_b: Seq<char>,
    data_b: Seq<u8>,
    res: Result<SimilarityReport, String>,
) -> bool {
    match (spec_file_ngrams(data_a), spec_file_ngrams(data_b)) {
        (Ok(a), Ok(b)) => res matches Ok(r) && spec_report_view(r) == spec_report_of(
            label_a,
            label_b,
            a,
            b,
        ),
        (Err(e), _) => res matches Err(msg) && msg@ == e,
        (Ok(_), Err(e)) => res matches Err(msg) && msg@ == e,
    }
}

/// Compare two program files, given their paths and contents, and build a
/// detailed report labelled with the paths.
pub fn compare_paths(path_a: &str, data_a: &[u8], path_b: &str, data_b: &[u8]) -> (res: Result<
    SimilarityReport,
    String,
>)
    ensures
        spec_paths_result(path_a@, data_a@, path_b@, data_b@, res),
{
    let fp_a = match fingerprint_file(data_a) {
        Ok(fp) => fp,
        Err(msg) => {
            return Err(msg);
        },
    };
    let fp_b = match fingerprint_file(data_b) {
        Ok(fp) => fp,
        Err(msg) => {
            return Err(msg);
        },
    };
    proof {
        crate::lemma_file_ngrams_bounded(data_a@, fp_a);
        crate::lemma_file_ngrams_bounded(data_b@, fp_b);
        vstd::set_lib::lemma_len_union(fp_a.ngrams@, fp_b.ngrams@);
        assert(data_a@.len() == data_a.len());
        assert(data_b@.len() == data_b.len());
    }
    Ok(SimilarityReport::from_fingerprints(path_a, path_b, &fp_a, &fp_b))
}

/// Compare a stored catalog record against a live fingerprint; the report is
/// labelled with the record's program id and source path, and has no notes.
pub fn compare_stored(stored: &StoredFingerprint, live: &ProgramFingerprint) -> (report:
    SimilarityReport)
    requires
        stored.ngram_sample@.union(live.ngrams@).len() <= usize::MAX,
    ensures
        spec_report_view(report) == (
            stored.program_id@,
            stored.source_path@,
            spec_comparison(
                stored.ngram_sample@,
                live.ngrams@,
                stored.minhash@,
                live.minhash.values@,
                stored.simhash,
                live.simhash.0,
            ),
            stored.ngram_count,
            live.ngram_count,
            spec_tier(
                spec_comparison(
                    stored.ngram_sample@,
                    live.ngrams@,
                    stored.minhash@,
                    live.minhash.values@,
                    stored.simhash,
                    live.simhash.0,
                ).jaccard_estimate,
            ),
            Seq::<Seq<char>>::empty(),
        ),
{
    let sig_a = MinHashSignature { values: stored.minhash.clone() };
    let jaccard_estimate = estimate_jaccard(&sig_a, &live.minhash);
    let jaccard_exact = exact_jaccard(&stored.ngram_sample, &live.ngrams);
    let sim_a = SimHash(stored.simhash);
    let simhash_similarity = similarity_from_simhash(sim_a, live.simhash);
    let hamming_distance = hamming_distance(sim_a, live.simhash);
    let tier = classify_similarity(jaccard_estimate);
    let notes: Vec<String> = Vec::new();
    assert(notes@.map_values(|s: String| s@) =~= Seq::<Seq<char>>::empty());
    SimilarityReport {
        path_a: stored.program_id.clone(),
        path_b: stored.source_path.clone(),
        jaccard_estimate,
        jaccard_exact,
        simhash_similarity,
        hamming_distance,
        ngram_count_a: stored.ngram_count,
        ngram_count_b: live.ngram_count,
        tier,
        notes,
    }
}

/// Convenience wrapper: compare two program files, given their paths and
/// contents, and build their report.
pub fn quick_compare(path_a: &str, data_a: &[u8], path_b: &str, data_b: &[u8]) -> (res: Result<
    SimilarityReport,
    String,
>)
    ensures
        spec_paths_result(path_a@, data_a@, path_b@, data_b@, res),
{
    match compare_files(data_a, data_b) {
        Ok(_) => {},
        Err(msg) => {
            return Err(msg);
        },
    }
    compare_paths(path_a, data_a, path_b, data_b)
}

/// Batch comparison of one query program against many candidates.
#[derive(Debug)]
pub struct BatchSimilarityResult {
    pub query: String,
    pub matches: Vec<SimilarityReport>,
}

/// The reports, in candidate order, on the query program `query` (labelled
/// `query_path`, with n-gram set `q`) against each candidate of `candidates`
/// (path and contents) whose estimate is at least `min_jaccard`; candidates
/// with the query's path are passed over, and the first candidate whose
/// fingerprint fails stops the batch with its error.
pub open spec fn spec_batch_reports(
    query_path: Seq<char>,
    q: Set<u64>,
    candidates: Seq<(Seq<char>, Seq<u8>)>,
    min_jaccard: Ratio,
) -> Result<Seq<ReportView>, Seq<char>>
    decreases candidates.len(),
{
    if candidates.len() == 0 {
        Ok(Seq::empty())
    } else {
        let (path, data) = candidates[0];
        let rest = spec_batch_reports(query_path, q, candidates.drop_first(), min_jaccard);
        if spec_same_path(path, query_path) {
            rest
        } else {
            match spec_file_ngrams(data) {
                Err(e) => Err(e),
                Ok(g) => match rest {
                    Err(e) => Err(e),
                    Ok(reports) => {
                        let r = spec_report_of(query_path, path, q, g);
                        if r.2.jaccard_estimate.spec_at_least(min_jaccard) {
                            Ok(seq![r] + reports)
                        } else {
                            Ok(reports)
                        }
                    },
                },
            }
        }
    }
}

/// `perm` places the reports of `reports` in `sorted`: `sorted[i]` is
/// `reports[perm[i]]`, each report is placed once, best estimate first, and
/// reports with equal estimates keep the order they have in `reports`.
pub open spec fn spec_sorting_perm(perm: Seq<int>, sorted: Seq<ReportView>, reports: Seq<ReportView>) -> bool {
    &&& perm.len() == sorted.len() == reports.len()
    &&& forall|i: int|
        0 <= i < sorted.len() ==> 0 <= #[trigger] perm[i] < reports.len() && sorted[i]
            == reports[perm[i]]
    &&& forall|i: int, j: int| 0 <= i < j < perm.len() ==> #[trigger] perm[i] != #[trigger] perm[j]
    &&& forall|i: int, j: int|
        0 <= i < j < sorted.len() ==> (#[trigger] sorted[i]).2.jaccard_estimate.spec_at_least(
            (#[trigger] sorted[j]).2.jaccard_estimate,
        )
    &&& forall|i: int, j: int|
        0 <= i < j < sorted.len() && (#[trigger] sorted[i]).2.jaccard_estimate.spec_same_value(
            (#[trigger] sorted[j]).2.jaccard_estimate,
        ) ==> perm[i] < perm[j]
}

/// `sorted` holds the reports of `reports`, each once, best estimate first,
/// and reports with equal estimates in the order they have in `reports`.
pub open spec fn spec_sorted_by_estimate(sorted: Seq<ReportView>, reports: Seq<ReportView>) -> bool {
    exists|perm: Seq<int>| #[trigger] spec_sorting_perm(perm, sorted, reports)
}

/// Insert `report` into the best-first list `matches`, after every report
/// that scores at least as high; gives the position it took.
fn insert_report(matches: &mut Vec<SimilarityReport>, report: SimilarityReport) -> (pos: Ghost<int>)
    requires
        report.jaccard_estimate.denominator > 0,
        forall|i: int| 0 <= i < old(matches)@.len() ==> (#[trigger] old(matches)@[i]).jaccard_estimate.denominator > 0,
        forall|i: int, j: int|
            0 <= i < j < old(matches)@.len() ==> (#[trigger] old(matches)@[i]).jaccard_estimate.spec_at_least(
                (#[trigger] old(matches)@[j]).jaccard_estimate,
            ),
    ensures
        0 <= pos@ <= old(matches)@.len(),
        final(matches)@ == old(matches)@.insert(pos@, report),
        forall|i: int| 0 <= i < pos@ ==> (#[trigger] old(matches)@[i]).jaccard_estimate.spec_at_least(report.jaccard_estimate),
        forall|i: int| pos@ <= i < old(matches)@.len() ==> !(#[trigger] old(matches)@[i]).jaccard_estimate.spec_at_least(report.jaccard_estimate),
        forall|i: int| 0 <= i < final(matches)@.len() ==> (#[trigger] final(matches)@[i]).jaccard_estimate.denominator > 0,
        forall|i: int, j: int|
            0 <= i < j < final(matches)@.len() ==> (#[trigger] final(matches)@[i]).jaccard_estimate.spec_at_least(
                (#[trigger] final(matches)@[j]).jaccard_estimate,
            ),
{
    let ghost before = matches@;
    let ghost x = report.jaccard_estimate;
    let mut p: usize = 0;
    while p < matches.len() && matches[p].jaccard_estimate.at_least(&report.jaccard_estimate)
        invariant
            p <= matches@.len(),
            matches@ == before,
            x == report.jaccard_estimate,
            forall|i: int| 0 <= i < p ==> (#[trigger] matches@[i]).jaccard_estimate.spec_at_least(x),
        decreases matches@.len() - p,
    {
        p = p + 1;
    }
    proof {
        assert forall|i: int| p <= i < before.len() implies !(#[trigger] before[i]).jaccard_estimate.spec_at_least(x) by {
            if i > p {
                crate::ratio::lemma_at_least_total_preorder(before[p as int].jaccard_estimate, before[i].jaccard_estimate, x);
            }
        }
    }
    matches.insert(p, report);
    proof {
        assert forall|i: int, j: int|
            0 <= i < j < matches@.len() implies (#[trigger] matches@[i]).jaccard_estimate.spec_at_least(
                (#[trigger] matches@[j]).jaccard_estimate,
            ) by {
            if j < p {
                assert(matches@[i] == before[i] && matches@[j] == before[j]);
            } else if j == p {
                assert(matches@[i] == before[i]);
            } else if i < p {
                assert(matches@[i] == before[i] && matches@[j] == before[j - 1]);
                crate::ratio::lemma_at_least_total_preorder(before[j - 1].jaccard_estimate, x, x);
                crate::ratio::lemma_at_least_total_preorder(before[i].jaccard_estimate, x, before[j - 1].jaccard_estimate);
            } else if i == p {
                assert(matches@[j] == before[j - 1]);
                crate::ratio::lemma_at_least_total_preorder(x, before[j - 1].jaccard_estimate, x);
            } else {
                assert(matches@[i] == before[i - 1] && matches@[j] == before[j - 1]);
            }
        }
    }
    Ghost(p as int)
}

/// Compare one query program against many candidates, given their paths and
/// contents: every candidate with another path is reported on, and the
/// reports whose estimate is at least `min_jaccard` are kept, best first.
pub fn batch_compare(
    query_path: &str,
    query_data: &[u8],
    candidates: &[ProgramFile],
    min_jaccard: Ratio,
) -> (res: Result<BatchSimilarityResult, String>)
    requires
        min_jaccard.denominator > 0,
    ensures
        match spec_file_ngrams(query_data@) {
            Err(e) => res matches Err(msg) && msg@ == e,
            Ok(q) => match spec_batch_reports(query_path@, q, spec_files(candidates@), min_jaccard) {
                Err(e) => res matches Err(msg) && msg@ == e,
                Ok(reports) => res matches Ok(batch) && batch.query@ == query_path@
                    && spec_sorted_by_estimate(
                    batch.matches@.map_values(|r: SimilarityReport| spec_report_view(r)),
                    reports,
                ),
            },
        },
{
    let query_fp = match fingerprint_file(query_data) {
        Ok(fp) => fp,
        Err(msg) => {
            return Err(msg);
        },
    };
    proof {
        crate::lemma_file_ngrams_bounded(query_data@, query_fp);
        assert(query_data@.len() == query_data.len());
    }
    let ghost q = query_fp.ngrams@;
    let ghost all = spec_files(candidates@);
    let ghost views = |r: SimilarityReport| spec_report_view(r);
    let mut matches: Vec<SimilarityReport> = Vec::new();
    let ghost mut kept: Seq<ReportView> = Seq::empty();
    let ghost mut perm: Seq<int> = Seq::empty();
    let mut i: usize = 0;
    assert(all.skip(0) =~= all);
    while i < candidates.len()
        invariant
            i <= candidates@.len(),
            all == spec_files(candidates@),
            q == query_fp.ngrams@,
            spec_fingerprint_of_query(query_data@, q, query_fp),
            q.finite(),
            q.len() <= usize::MAX / 8,
            spec_batch_reports(query_path@, q, all, min_jaccard) == match spec_batch_reports(
                query_path@,
                q,
                all.skip(i as int),
                min_jaccard,
            ) {
                Err(e) => Err(e),
                Ok(rest) => Ok(kept + rest),
            },
            perm.len() == matches@.len() == kept.len(),
            forall|k: int| 0 <= k < matches@.len() ==> (#[trigger] matches@[k]).jaccard_estimate.denominator > 0,
            forall|k: int|
                0 <= k < matches@.len() ==> 0 <= #[trigger] perm[k] < kept.len() && spec_report_view(
                    matches@[k],
                ) == kept[perm[k]],
            forall|k: int, l: int| 0 <= k < l < perm.len() ==> #[trigger] perm[k] != #[trigger] perm[l],
            forall|k: int, l: int|
                0 <= k < l < matches@.len() ==> (#[trigger] matches@[k]).jaccard_estimate.spec_at_least(
                    (#[trigger] matches@[l]).jaccard_estimate,
                ),
            forall|k: int, l: int|
                0 <= k < l < matches@.len() && (#[trigger] matches@[k]).jaccard_estimate.spec_same_value(
                    (#[trigger] matches@[l]).jaccard_estimate,
                ) ==> perm[k] < perm[l],
        decreases candidates@.len() - i,
    {
        let candidate = &candidates[i];
        let ghost cand = all.skip(i as int)[0];
        proof {
            assert(cand == (candidate.path@, candidate.data@));
            assert(all.skip(i as int).drop_first() =~= all.skip(i + 1));
        }
        if same_path(candidate.path.as_str(), query_path) {
            assert(spec_batch_reports(query_path@, q, all.skip(i as int), min_jaccard)
                == spec_batch_reports(query_path@, q, all.skip(i + 1), min_jaccard));
            i = i + 1;
            continue;
        }
        let fp = match fingerprint_file(candidate.data.as_slice()) {
            Ok(fp) => fp,
            Err(msg) => {
                assert(spec_batch_reports(query_path@, q, all.skip(i as int), min_jaccard) == Err::<
                    Seq<ReportView>,
                    Seq<char>,
                >(msg@));
                return Err(msg);
            },
        };
        proof {
            crate::lemma_file_ngrams_bounded(candidate.data@, fp);
            vstd::set_lib::lemma_len_union(q, fp.ngrams@);
            assert(candidate.data@.len() == candidate.data.len());
        }
        let report = SimilarityReport::from_fingerprints(query_path, candidate.path.as_str(), &query_fp, &fp);
        let ghost r = spec_report_view(report);
        proof {
            assert(r == spec_report_of(query_path@, candidate.path@, q, fp.ngrams@));
            crate::minhash::lemma_estimate_jaccard_symmetric_bounded(
                query_fp.minhash.values@,
                fp.minhash.values@,
            );
        }
        let ghost rest_reports = spec_batch_reports(query_path@, q, all.skip(i + 1), min_jaccard);
        assert(spec_batch_reports(query_path@, q, all.skip(i as int), min_jaccard) == match rest_reports {
            Err(e) => Err(e),
            Ok(reports) => if r.2.jaccard_estimate.spec_at_least(min_jaccard) {
                Ok(seq![r] + reports)
            } else {
                Ok(reports)
            },
        });
        if report.jaccard_estimate.at_least(&min_jaccard) {
            let ghost before = matches@;
            let ghost old_kept = kept;
            let ghost old_perm = perm;
            let ghost idx = kept.len() as int;
            let pos = insert_report(&mut matches, report);
            proof {
                let p = pos@;
                perm = old_perm.insert(p, idx);
                kept = kept.push(r);
                assert forall|k: int|
                    0 <= k < matches@.len() implies 0 <= #[trigger] perm[k] < kept.len() && spec_report_view(
                        matches@[k],
                    ) == kept[perm[k]] by {
                    if k < p {
                        assert(matches@[k] == before[k] && perm[k] == old_perm[k]);
                    } else if k > p {
                        assert(matches@[k] == before[k - 1] && perm[k] == old_perm[k - 1]);
                    }
                }
                assert forall|k: int, l: int| 0 <= k < l < perm.len() implies #[trigger] perm[k]
                    != #[trigger] perm[l] by {
                    let bk = if k < p { k } else { k - 1 };
                    let bl = if l < p { l } else { l - 1 };
                    if k != p && l != p {
                        assert(perm[k] == old_perm[bk] && perm[l] == old_perm[bl]);
                    } else if k == p {
                        assert(perm[l] == old_perm[bl]);
                    } else {
                        assert(perm[k] == old_perm[bk]);
                    }
                }
                assert forall|k: int, l: int|
                    0 <= k < l < matches@.len() && (#[trigger] matches@[k]).jaccard_estimate.spec_same_value(
                        (#[trigger] matches@[l]).jaccard_estimate,
                    ) implies perm[k] < perm[l] by {
                    if l < p {
                        assert(matches@[k] == before[k] && matches@[l] == before[l]);
                        assert(perm[k] == old_perm[k] && perm[l] == old_perm[l]);
                    } else if l == p {
                        assert(perm[k] == old_perm[k]);
                    } else if k < p {
                        assert(matches@[k] == before[k] && matches@[l] == before[l - 1]);
                        assert(perm[k] == old_perm[k] && perm[l] == old_perm[l - 1]);
                    } else if k == p {
                        assert(matches@[l] == before[l - 1]);
                        assert(!before[l - 1].jaccard_estimate.spec_at_least(matches@[k].jaccard_estimate));
                    } else {
                        assert(matches@[k] == before[k - 1] && matches@[l] == before[l - 1]);
                        assert(perm[k] == old_perm[k - 1] && perm[l] == old_perm[l - 1]);
                    }
                }
                match spec_batch_reports(query_path@, q, all.skip(i + 1), min_jaccard) {
                    Ok(rs) => {
                        assert(old_kept + (seq![r] + rs) =~= kept + rs);
                    },
                    Err(_) => {},
                }
            }
        }
        i = i + 1;
    }
    proof {
        assert(all.skip(candidates@.len() as int) =~= Seq::<(Seq<char>, Seq<u8>)>::empty());
        assert(kept + Seq::<ReportView>::empty() =~= kept);
        let sorted = matches@.map_values(|r: SimilarityReport| spec_report_view(r));
        assert forall|k: int| 0 <= k < sorted.len() implies 0 <= #[trigger] perm[k] < kept.len() && sorted[k]
            == kept[perm[k]] by {
            assert(sorted[k] == spec_report_view(matches@[k]));
        }
        assert forall|k: int, l: int|
            0 <= k < l < sorted.len() implies (#[trigger] sorted[k]).2.jaccard_estimate.spec_at_least(
                (#[trigger] sorted[l]).2.jaccard_estimate,
            ) by {
            assert(sorted[k].2.jaccard_estimate == matches@[k].jaccard_estimate);
            assert(sorted[l].2.jaccard_estimate == matches@[l].jaccard_estimate);
        }
        assert forall|k: int, l: int|
            0 <= k < l < sorted.len() && (#[trigger] sorted[k]).2.jaccard_estimate.spec_same_value(
                (#[trigger] sorted[l]).2.jaccard_estimate,
            ) implies perm[k] < perm[l] by {
            assert(sorted[k].2.jaccard_estimate == matches@[k].jaccard_estimate);
            assert(sorted[l].2.jaccard_estimate == matches@[l].jaccard_estimate);
        }
        assert(spec_sorting_perm(perm, sorted, kept));
    }
    Ok(BatchSimilarityResult { query: String::from_str(query_path), matches })
}

/// `fp` is the fingerprint of the query file `data`, whose n-gram set is `q`.
pub open spec fn spec_fingerprint_of_query(data: Seq<u8>, q: Set<u64>, fp: ProgramFingerprint) -> bool {
    spec_file_ngrams(data) == Ok::<Set<u64>, Seq<char>>(q) && crate::spec_fingerprint_of(q, fp)
}

} // verus!

verus! {

/// The name a report gives a tier.
pub open spec fn spec_tier_name(tier: SimilarityTier) -> Seq<char> {
    match tier {
        SimilarityTier::Identical => "identical"@,
        SimilarityTier::NearDuplicate => "near_duplicate"@,
        SimilarityTier::Related => "related"@,
        SimilarityTier::Distinct => "distinct"@,
    }
}

/// The name of a tier as a report gives it.
pub fn tier_name(tier: SimilarityTier) -> (name: &'static str)
    ensures
        name@ == spec_tier_name(tier),
{
    proof {
        reveal_strlit("identical");
        reveal_strlit("near_duplicate");
        reveal_strlit("related");
        reveal_strlit("distinct");
    }
    match tier {
        SimilarityTier::Identical => "identical",
        SimilarityTier::NearDuplicate => "near_duplicate",
        SimilarityTier::Related => "related",
        SimilarityTier::Distinct => "distinct",
    }
}

/// The label a batch listing gives a tier: the variant's own name.
pub open spec fn spec_tier_label(tier: SimilarityTier) -> Seq<char> {
    match tier {
        SimilarityTier::Identical => "Identical"@,
        SimilarityTier::NearDuplicate => "NearDuplicate"@,
        SimilarityTier::Related => "Related"@,
        SimilarityTier::Distinct => "Distinct"@,
    }
}

/// The label of a tier as a batch listing gives it.
pub fn tier_label(tier: SimilarityTier) -> (label: &'static str)
    ensures
        label@ == spec_tier_label(tier),
{
    proof {
        reveal_strlit("Identical");
        reveal_strlit("NearDuplicate");
        reveal_strlit("Related");
        reveal_strlit("Distinct");
    }
    match tier {
        SimilarityTier::Identical => "Identical",
        SimilarityTier::NearDuplicate => "NearDuplicate",
        SimilarityTier::Related => "Related",
        SimilarityTier::Distinct => "Distinct",
    }
}

/// The fixed lines of the text of report `r`, whose three scores are
/// rendered as `estimate`, `exact` and `simhash`.
pub open spec fn spec_report_head(
    r: ReportView,
    estimate: Seq<char>,
    exact: Seq<char>,
    simhash: Seq<char>,
) -> Seq<char> {
    "similarity report"@ + "\n  a: "@ + r.0 + "\n  b: "@ + r.1 + "\n  tier: "@ + spec_tier_name(r.5)
        + "\n  jaccard_estimate: "@ + estimate + "\n  jaccard_exact:    "@ + exact
        + "\n  simhash_similarity: "@ + simhash + "\n  hamming_distance: "@ + spec_decimal(
        r.2.hamming_distance as nat,
    ) + "\n  ngrams: "@ + spec_decimal(r.3 as nat) + " vs "@ + spec_decimal(r.4 as nat)
}

/// `head` followed by one line per note.
pub open spec fn spec_note_lines(head: Seq<char>, notes: Seq<Seq<char>>) -> Seq<char>
    decreases notes.len(),
{
    if notes.len() == 0 {
        head
    } else {
        spec_note_lines(head, notes.drop_last()) + "\n  note: "@ + notes.last()
    }
}

/// The text of report `r`, one field per line, then its notes.
pub open spec fn spec_report_text(
    r: ReportView,
    estimate: Seq<char>,
    exact: Seq<char>,
    simhash: Seq<char>,
) -> Seq<char> {
    spec_note_lines(spec_report_head(r, estimate, exact, simhash), r.6)
}

/// The report as text, one field per line, with the estimated Jaccard
/// score, the exact one and the SimHash similarity rendered as given.
pub fn format_report(
    report: &SimilarityReport,
    jaccard_estimate: &str,
    jaccard_exact: &str,
    simhash_similarity: &str,
) -> (text: String)
    ensures
        text@ == spec_report_text(
            spec_report_view(*report),
            jaccard_estimate@,
            jaccard_exact@,
            simhash_similarity@,
        ),
{
    let ghost r = spec_report_view(*report);
    let mut out = String::from_str("similarity report");
    out.append("\n  a: ");
    out.append(report.path_a.as_str());
    out.append("\n  b: ");
    out.append(report.path_b.as_str());
    out.append("\n  tier: ");
    out.append(tier_name(report.tier));
    out.append("\n  jaccard_estimate: ");
    out.append(jaccard_estimate);
    out.append("\n  jaccard_exact:    ");
    out.append(jaccard_exact);
    out.append("\n  simhash_similarity: ");
    out.append(simhash_similarity);
    out.append("\n  hamming_distance: ");
    out.append(decimal_text(report.hamming_distance as usize).as_str());
    out.append("\n  ngrams: ");
    out.append(decimal_text(report.ngram_count_a).as_str());
    out.append(" vs ");
    out.append(decimal_text(report.ngram_count_b).as_str());
    let ghost head = spec_report_head(r, jaccard_estimate@, jaccard_exact@, simhash_similarity@);
    proof {
        reveal_strlit("similarity report");
        reveal_strlit("\n  a: ");
        reveal_strlit("\n  b: ");
        reveal_strlit("\n  tier: ");
        reveal_strlit("\n  jaccard_estimate: ");
        reveal_strlit("\n  jaccard_exact:    ");
        reveal_strlit("\n  simhash_similarity: ");
        reveal_strlit("\n  hamming_distance: ");
        reveal_strlit("\n  ngrams: ");
        reveal_strlit(" vs ");
        assert(out@ =~= head);
    }
    let ghost notes = r.6;
    assert(notes.take(0) =~= Seq::<Seq<char>>::empty());
    let mut i: usize = 0;
    while i < report.notes.len()
        invariant
            i <= report.notes@.len(),
            notes == report.notes@.map_values(|s: String| s@),
            out@ == spec_note_lines(head, notes.take(i as int)),
        decreases report.notes@.len() - i,
    {
        let ghost before = out@;
        out.append("\n  note: ");
        out.append(report.notes[i].as_str());
        proof {
            reveal_strlit("\n  note: ");
            assert(notes.take(i + 1).drop_last() =~= notes.take(i as int));
            assert(notes[i as int] == report.notes@[i as int]@);
            assert(out@ =~= before + "\n  note: "@ + notes[i as int]);
        }
        i = i + 1;
    }
    assert(notes.take(notes.len() as int) =~= notes);
    out
}

/// The line of a batch listing for match number `idx`, report `r`, whose
/// estimate is rendered as `estimate`.
pub open spec fn spec_batch_line(idx: nat, r: ReportView, estimate: Seq<char>) -> Seq<char> {
    "\n  ["@ + spec_decimal(idx) + "] "@ + r.1 + " jaccard="@ + estimate + " tier="@
        + spec_tier_label(r.5)
}

/// `head` followed by the line of each report of `reports`, the estimate of
/// report `k` rendered as `estimates[k]`.
pub open spec fn spec_batch_lines(
    head: Seq<char>,
    reports: Seq<ReportView>,
    estimates: Seq<Seq<char>>,
) -> Seq<char>
    decreases reports.len(),
{
    if reports.len() == 0 {
        head
    } else {
        let k = reports.len() - 1;
        spec_batch_lines(head, reports.drop_last(), estimates) + spec_batch_line(
            k as nat,
            reports[k],
            estimates[k],
        )
    }
}

/// The listing of a batch on `query` with the reports `reports`: the query,
/// the number of matches, and one line per match.
pub open spec fn spec_batch_text(
    query: Seq<char>,
    reports: Seq<ReportView>,
    estimates: Seq<Seq<char>>,
) -> Seq<char> {
    spec_batch_lines(
        "batch similarity for "@ + query + "\nmatches: "@ + spec_decimal(reports.len()),
        reports,
        estimates,
    )
}

/// The batch result as text: the query, the number of matches, and one line
/// per match with its path, its estimated Jaccard score rendered as
/// `estimates` gives it, and its tier.
pub fn format_batch(result: &BatchSimilarityResult, estimates: &[String]) -> (text: String)
    requires
        estimates@.len() == result.matches@.len(),
    ensures
        text@ == spec_batch_text(
            result.query@,
            result.matches@.map_values(|r: SimilarityReport| spec_report_view(r)),
            estimates@.map_values(|s: String| s@),
        ),
{
    let ghost reports = result.matches@.map_values(|r: SimilarityReport| spec_report_view(r));
    let ghost shown = estimates@.map_values(|s: String| s@);
    let mut out = String::from_str("batch similarity for ");
    out.append(result.query.as_str());
    out.append("\nmatches: ");
    out.append(decimal_text(result.matches.len()).as_str());
    let ghost head = "batch similarity for "@ + result.query@ + "\nmatches: "@ + spec_decimal(
        reports.len(),
    );
    proof {
        reveal_strlit("batch similarity for ");
        reveal_strlit("\nmatches: ");
        assert(out@ =~= head);
        assert(reports.take(0) =~= Seq::<ReportView>::empty());
    }
    let mut i: usize = 0;
    while i < result.matches.len()
        invariant
            i <= result.matches@.len(),
            estimates@.len() == result.matches@.len(),
            reports == result.matches@.map_values(|r: SimilarityReport| spec_report_view(r)),
            shown == estimates@.map_values(|s: String| s@),
            out@ == spec_batch_lines(head, reports.take(i as int), shown),
        decreases result.matches@.len() - i,
    {
        let report = &result.matches[i];
        let ghost before = out@;
        out.append("\n  [");
        out.append(decimal_text(i).as_str());
        out.append("] ");
        out.append(report.path_b.as_str());
        out.append(" jaccard=");
        out.append(estimates[i].as_str());
        out.append(" tier=");
        out.append(tier_label(report.tier));
        proof {
            reveal_strlit("\n  [");
            reveal_strlit("] ");
            reveal_strlit(" jaccard=");
            reveal_strlit(" tier=");
            let taken = reports.take(i + 1);
            assert(taken.drop_last() =~= reports.take(i as int));
            assert(taken[i as int] == spec_report_view(*report));
            assert(shown[i as int] == estimates@[i as int]@);
            assert(out@ =~= before + spec_batch_line(i as nat, taken[i as int], shown[i as int]));
        }
        i = i + 1;
    }
    assert(reports.take(reports.len() as int) =~= reports);
    out
}

} // verus!
