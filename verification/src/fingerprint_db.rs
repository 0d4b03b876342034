//! Fingerprint database for program similarity catalogs.
use std::collections::HashSet;
use vstd::prelude::*;
use vstd::string::*;

use crate::bytecode_normalize::{normalize_bytecode, spec_normalize, NormalizeConfig};
use crate::elf_loader::{parse_elf_bytes, spec_parse_elf};
use crate::minhash::{compute_signature, spec_signature};
use crate::opcode_ngram::{extract_ngrams, ngram_width_fits, ngram_width_ok, spec_ngram_set};
use crate::simhash::{compute_simhash, spec_simhash};
use crate::{spec_files, spec_load_error_text, ProgramFile};
use crate::features::set_elements;
use crate::paths::{chars_of, spec_trailing_run, trailing_run_start};
use crate::text::{decimal_text, hex16_text, spec_decimal, spec_hex_digits};

verus! {

/// One stored program fingerprint record.
#[derive(Debug, PartialEq, Eq)]
pub struct StoredFingerprint {
    pub program_id: String,
    pub source_path: String,
    pub ngram_count: usize,
    pub simhash: u64,
    pub minhash: Vec<u64>,
    pub ngram_sample: HashSet<u64>,
    pub normalized_len: usize,
}

/// The contents of a record: program id, source path, n-gram count, SimHash,
/// MinHash values, n-gram set and normalized length.
pub type RecordView = (Seq<char>, Seq<char>, usize, u64, Seq<u64>, Set<u64>, usize);

/// The contents of `e`.
pub open spec fn spec_record(e: StoredFingerprint) -> RecordView {
    (
        e.program_id@,
        e.source_path@,
        e.ngram_count,
        e.simhash,
        e.minhash@,
        e.ngram_sample@,
        e.normalized_len,
    )
}

/// The contents of every record of `entries`, in order.
pub open spec fn spec_records(entries: Seq<StoredFingerprint>) -> Seq<RecordView> {
    entries.map_values(|e: StoredFingerprint| spec_record(e))
}

/// A copy of `set`.
fn copy_set(set: &HashSet<u64>) -> (copy: HashSet<u64>)
    ensures
        copy@ == set@,
{
    let elems = set_elements(set);
    let mut copy: HashSet<u64> = HashSet::new();
    let mut i: usize = 0;
    while i < elems.len()
        invariant
            i <= elems@.len(),
            copy@ == elems@.take(i as int).to_set(),
        decreases elems@.len() - i,
    {
        let x = elems[i];
        copy.insert(x);
        proof {
            assert(elems@.take(i + 1) =~= elems@.take(i as int).push(x));
            elems@.take(i as int).lemma_push_to_set_commute(x);
        }
        i = i + 1;
    }
    proof {
        assert(elems@.take(elems@.len() as int) =~= elems@);
    }
    copy
}

impl StoredFingerprint {
    /// A copy of this record.
    pub fn duplicate(&self) -> (copy: StoredFingerprint)
        ensures
            spec_record(copy) == spec_record(*self),
    {
        StoredFingerprint {
            program_id: self.program_id.clone(),
            source_path: self.source_path.clone(),
            ngram_count: self.ngram_count,
            simhash: self.simhash,
            minhash: self.minhash.clone(),
            ngram_sample: copy_set(&self.ngram_sample),
            normalized_len: self.normalized_len,
        }
    }
}

/// Fingerprint catalog.
#[derive(Debug, PartialEq, Eq)]
pub struct FingerprintDb {
    pub version: u32,
    pub entries: Vec<StoredFingerprint>,
}

impl Default for FingerprintDb {
    fn default() -> (db: Self)
        ensures
            db.version == 1,
            db.entries@.len() == 0,
    {
        Self { version: 1, entries: Vec::new() }
    }
}

/// Index of the first record of `records` whose program id is `id`, looking
/// from index `i` on.
pub open spec fn spec_first_index_from(records: Seq<RecordView>, id: Seq<char>, i: int) -> Option<
    int,
>
    decreases records.len() - i,
{
    if i < 0 || i >= records.len() {
        None
    } else if records[i].0 == id {
        Some(i)
    } else {
        spec_first_index_from(records, id, i + 1)
    }
}

/// Index of the first record of `records` whose program id is `id`.
pub open spec fn spec_first_index(records: Seq<RecordView>, id: Seq<char>) -> Option<int> {
    spec_first_index_from(records, id, 0)
}

/// `records` after storing `r`: it replaces the first record with the same
/// program id, or is appended when there is none.
pub open spec fn spec_upsert_record(records: Seq<RecordView>, r: RecordView) -> Seq<RecordView> {
    match spec_first_index(records, r.0) {
        Some(k) => records.update(k, r),
        None => records.push(r),
    }
}

/// `primary` after storing every record of `secondary`, in order.
pub open spec fn spec_merge_records(primary: Seq<RecordView>, secondary: Seq<RecordView>) -> Seq<
    RecordView,
>
    decreases secondary.len(),
{
    if secondary.len() == 0 {
        primary
    } else {
        spec_upsert_record(spec_merge_records(primary, secondary.drop_last()), secondary.last())
    }
}

/// The policy `NormalizeConfig::default` gives.
pub open spec fn spec_default_config() -> NormalizeConfig {
    NormalizeConfig { strip_nops: true, collapse_lddw: true, remap_registers: true, min_text_len: 8 }
}

/// The message reported when n-grams of width `ngram_size` cannot be taken
/// of the text of the program at `source_path`: the width is zero, or it is
/// above four while the text holds at least that many instructions.
pub open spec fn spec_width_error(ngram_size: usize, source_path: Seq<char>) -> Seq<char> {
    "n-gram width "@ + spec_decimal(ngram_size as nat) + " does not fit the text of "@
        + source_path
}

/// The message of `spec_width_error`.
pub(crate) fn width_error(ngram_size: usize, source_path: &str) -> (msg: String)
    ensures
        msg@ == spec_width_error(ngram_size, source_path@),
{
    let mut msg = String::from_str("n-gram width ");
    msg.append(decimal_text(ngram_size).as_str());
    msg.append(" does not fit the text of ");
    msg.append(source_path);
    proof {
        reveal_strlit("n-gram width ");
        reveal_strlit(" does not fit the text of ");
    }
    msg
}

/// The record that `fingerprint_file_entry` builds for `program_id` from
/// the ELF file `data` found at `source_path`, or the error it reports.
pub open spec fn spec_entry(
    program_id: Seq<char>,
    source_path: Seq<char>,
    data: Seq<u8>,
    ngram_size: usize,
    num_hashes: usize,
) -> Result<RecordView, Seq<char>> {
    match spec_parse_elf(data) {
        Err(e) => Err(spec_load_error_text(e)),
        Ok((text, _)) => {
            let normalized = spec_normalize(text, spec_default_config()).0;
            let ngrams = spec_ngram_set(normalized, ngram_size as nat);
            if !ngram_width_ok(normalized, ngram_size as nat) {
                Err(spec_width_error(ngram_size, source_path))
            } else if ngrams.is_empty() {
                Err("no ngrams extracted from "@ + source_path)
            } else {
                Ok(
                    (
                        program_id,
                        source_path,
                        ngrams.len() as usize,
                        spec_simhash(ngrams),
                        spec_signature(ngrams, num_hashes as nat),
                        ngrams,
                        normalized.len() as usize,
                    ),
                )
            }
        },
    }
}

/// Build the stored record of the ELF file `data` found at `source_path`:
/// its text section is normalized with the default policy and its n-grams
/// of width `ngram_size` fingerprinted. It fails when the file does not
/// load, when the width cannot be used on the normalized text (zero, or
/// above four with at least that many instructions), and when no n-gram
/// comes out.
pub fn fingerprint_file_entry(
    program_id: &str,
    source_path: &str,
    data: &[u8],
    ngram_size: usize,
    num_hashes: usize,
) -> (res: Result<StoredFingerprint, String>)
    ensures
        match res {
            Ok(e) => spec_entry(program_id@, source_path@, data@, ngram_size, num_hashes) == Ok::<
                RecordView,
                Seq<char>,
            >(spec_record(e)),
            Err(msg) => spec_entry(program_id@, source_path@, data@, ngram_size, num_hashes)
                == Err::<RecordView, Seq<char>>(msg@),
        },
{
    let bytecode = match parse_elf_bytes(data) {
        Ok(bytecode) => bytecode,
        Err(e) => {
            let msg = e.describe();
            return Err(msg);
        },
    };
    let config = NormalizeConfig::default();
    let normalized = normalize_bytecode(bytecode.text.as_slice(), config);
    assert(config == spec_default_config());
    if !ngram_width_fits(normalized.normalized.as_slice(), ngram_size) {
        return Err(width_error(ngram_size, source_path));
    }
    let ngrams = extract_ngrams(normalized.normalized.as_slice(), ngram_size);
    if ngrams.is_empty() {
        let msg = String::from_str("no ngrams extracted from ").concat(source_path);
        return Err(msg);
    }
    let minhash = compute_signature(&ngrams, num_hashes);
    let sim = compute_simhash(&ngrams);
    proof {
        crate::features::lemma_hash_set_finite(&ngrams);
    }
    Ok(
        StoredFingerprint {
            program_id: String::from_str(program_id),
            source_path: String::from_str(source_path),
            ngram_count: ngrams.len(),
            simhash: sim.0,
            minhash: minhash.values,
            ngram_sample: ngrams,
            normalized_len: normalized.normalized.len(),
        },
    )
}

fn find_entry(entries: &Vec<StoredFingerprint>, id: &str) -> (found: Option<usize>)
    ensures
        match spec_first_index(spec_records(entries@), id@) {
            Some(k) => found matches Some(j) && j == k && k < entries@.len(),
            None => found is None,
        },
        found matches Some(k) ==> k < entries@.len() && entries@[k as int].program_id@ == id@,
{
    proof {
        lemma_first_index_bounds(spec_records(entries@), id@, 0);
    }
    let ghost records = spec_records(entries@);
    let id_string = String::from_str(id);
    let mut i: usize = 0;
    while i < entries.len()
        invariant
            i <= entries@.len(),
            records == spec_records(entries@),
            id_string@ == id@,
            spec_first_index(records, id@) == spec_first_index_from(records, id@, i as int),
        decreases entries@.len() - i,
    {
        assert(records[i as int].0 == entries@[i as int].program_id@);
        if entries[i].program_id == id_string {
            return Some(i);
        }
        i = i + 1;
    }
    None
}

/// Store `entry` in `entries`, replacing the first record with its program id.
fn upsert_entry(entries: &mut Vec<StoredFingerprint>, entry: StoredFingerprint)
    ensures
        spec_records(final(entries)@) == spec_upsert_record(
            spec_records(old(entries)@),
            spec_record(entry),
        ),
{
    let ghost records = spec_records(entries@);
    let ghost r = spec_record(entry);
    match find_entry(entries, entry.program_id.as_str()) {
        Some(k) => {
            entries.set(k, entry);
            assert(spec_records(entries@) =~= records.update(k as int, r));
        },
        None => {
            entries.push(entry);
            assert(spec_records(entries@) =~= records.push(r));
        },
    }
}

/// The first match lies in range and has the program id looked for, and no
/// record before it has that id; when there is no match, no record from
/// index `i` on has it.
pub proof fn lemma_first_index_bounds(records: Seq<RecordView>, id: Seq<char>, i: int)
    requires
        0 <= i,
    ensures
        spec_first_index_from(records, id, i) matches Some(k) ==> i <= k < records.len()
            && records[k].0 == id && forall|j: int| i <= j < k ==> #[trigger] records[j].0 != id,
        spec_first_index_from(records, id, i) is None ==> forall|j: int|
            i <= j < records.len() ==> #[trigger] records[j].0 != id,
    decreases records.len() - i,
{
    if i < records.len() && records[i].0 != id {
        lemma_first_index_bounds(records, id, i + 1);
    }
}

impl FingerprintDb {
    /// An empty catalog of the current version.
    pub fn new() -> (db: Self)
        ensures
            db.version == 1,
            db.entries@.len() == 0,
    {
        Self::default()
    }

    /// Fingerprint the ELF file `data` found at `source_path` and store the
    /// record under `program_id`, replacing the first record with that id.
    pub fn insert_from_file(
        &mut self,
        program_id: &str,
        source_path: &str,
        data: &[u8],
        ngram_size: usize,
        num_hashes: usize,
    ) -> (res: Result<(), String>)
        ensures
            final(self).version == old(self).version,
            match res {
                Ok(()) => spec_entry(program_id@, source_path@, data@, ngram_size, num_hashes) matches Ok(r)
                    && spec_records(final(self).entries@) == spec_upsert_record(
                    spec_records(old(self).entries@),
                    r,
                ),
                Err(msg) => spec_entry(program_id@, source_path@, data@, ngram_size, num_hashes)
                    == Err::<RecordView, Seq<char>>(msg@) && final(self).entries@ == old(
                    self,
                ).entries@,
            },
            spec_ids_unique(spec_records(old(self).entries@)) ==> spec_ids_unique(
                spec_records(final(self).entries@),
            ),
    {
        let entry = fingerprint_file_entry(program_id, source_path, data, ngram_size, num_hashes)?;
        proof {
            lemma_upsert_lookup(spec_records(self.entries@), spec_record(entry), program_id@);
        }
        upsert_entry(&mut self.entries, entry);
        Ok(())
    }

    /// The first record stored under `program_id`.
    pub fn find_by_id(&self, program_id: &str) -> (found: Option<&StoredFingerprint>)
        ensures
            match spec_first_index(spec_records(self.entries@), program_id@) {
                Some(k) => found == Some(&self.entries@[k]),
                None => found is None,
            },
    {
        match find_entry(&self.entries, program_id) {
            Some(k) => Some(&self.entries[k]),
            None => None,
        }
    }

    /// Number of stored records.
    pub fn len(&self) -> (n: usize)
        ensures
            n == self.entries@.len(),
    {
        self.entries.len()
    }

    /// Whether no record is stored.
    pub fn is_empty(&self) -> (empty: bool)
        ensures
            empty == (self.entries@.len() == 0),
    {
        self.entries.len() == 0
    }
}

/// Merge two catalogs: every record of `secondary`, in order, replaces the
/// first record of `primary` with its id, or is appended when there is none.
pub fn merge_databases(primary: &FingerprintDb, secondary: &FingerprintDb) -> (merged: FingerprintDb)
    ensures
        merged.version == primary.version,
        spec_records(merged.entries@) == spec_merge_records(
            spec_records(primary.entries@),
            spec_records(secondary.entries@),
        ),
{
    let ghost p = spec_records(primary.entries@);
    let ghost q = spec_records(secondary.entries@);
    let mut entries: Vec<StoredFingerprint> = Vec::new();
    let mut i: usize = 0;
    while i < primary.entries.len()
        invariant
            i <= primary.entries@.len(),
            p == spec_records(primary.entries@),
            spec_records(entries@) =~= p.take(i as int),
        decreases primary.entries@.len() - i,
    {
        let copy = primary.entries[i].duplicate();
        let ghost before = entries@;
        entries.push(copy);
        proof {
            assert(spec_records(entries@) =~= spec_records(before).push(spec_record(copy)));
            assert(p.take(i + 1) =~= p.take(i as int).push(p[i as int]));
        }
        i = i + 1;
    }
    assert(p.take(p.len() as int) =~= p);
    let mut j: usize = 0;
    while j < secondary.entries.len()
        invariant
            j <= secondary.entries@.len(),
            q == spec_records(secondary.entries@),
            spec_records(entries@) == spec_merge_records(p, q.take(j as int)),
        decreases secondary.entries@.len() - j,
    {
        let copy = secondary.entries[j].duplicate();
        assert(q.take(j + 1).drop_last() =~= q.take(j as int));
        upsert_entry(&mut entries, copy);
        j = j + 1;
    }
    assert(q.take(q.len() as int) =~= q);
    FingerprintDb { version: primary.version, entries }
}

} // verus!

verus! {

/// The record found under `id`: the first one with that program id.
pub open spec fn spec_lookup(records: Seq<RecordView>, id: Seq<char>) -> Option<RecordView> {
    match spec_first_index(records, id) {
        Some(k) => Some(records[k]),
        None => None,
    }
}

/// Whether no two records share a program id.
pub open spec fn spec_ids_unique(records: Seq<RecordView>) -> bool {
    forall|i: int, j: int| 0 <= i < j < records.len() ==> records[i].0 != records[j].0
}

proof fn lemma_first_index_same_ids(s1: Seq<RecordView>, s2: Seq<RecordView>, id: Seq<char>, i: int)
    requires
        s1.len() == s2.len(),
        0 <= i,
        forall|j: int| i <= j < s1.len() ==> (s1[j].0 == id <==> s2[j].0 == id),
    ensures
        spec_first_index_from(s1, id, i) == spec_first_index_from(s2, id, i),
    decreases s1.len() - i,
{
    if i < s1.len() {
        lemma_first_index_same_ids(s1, s2, id, i + 1);
    }
}

proof fn lemma_first_index_push(records: Seq<RecordView>, r: RecordView, id: Seq<char>, i: int)
    requires
        0 <= i <= records.len(),
    ensures
        spec_first_index_from(records.push(r), id, i) == (match spec_first_index_from(
            records,
            id,
            i,
        ) {
            Some(k) => Some(k),
            None => if r.0 == id {
                Some(records.len() as int)
            } else {
                None
            },
        }),
    decreases records.len() - i,
{
    if i < records.len() {
        assert(records.push(r)[i] == records[i]);
        lemma_first_index_push(records, r, id, i + 1);
    } else {
        reveal_with_fuel(spec_first_index_from, 2);
    }
}

/// Storing a record makes it the one found under its program id, leaves
/// what is found under every other id unchanged, and adds a record exactly
/// when the id was not there yet; ids stay unique when they were.
pub proof fn lemma_upsert_lookup(records: Seq<RecordView>, r: RecordView, id: Seq<char>)
    ensures
        spec_lookup(spec_upsert_record(records, r), r.0) == Some(r),
        id != r.0 ==> spec_lookup(spec_upsert_record(records, r), id) == spec_lookup(records, id),
        spec_upsert_record(records, r).len() == records.len() + (if spec_lookup(records, r.0) is Some {
            0int
        } else {
            1int
        }),
        spec_ids_unique(records) ==> spec_ids_unique(spec_upsert_record(records, r)),
{
    let after = spec_upsert_record(records, r);
    lemma_first_index_bounds(records, r.0, 0);
    lemma_first_index_bounds(records, id, 0);
    match spec_first_index(records, r.0) {
        Some(k) => {
            lemma_first_index_same_ids(records, after, r.0, 0);
            lemma_first_index_same_ids(records, after, id, 0);
        },
        None => {
            lemma_first_index_push(records, r, r.0, 0);
            lemma_first_index_push(records, r, id, 0);
            if spec_ids_unique(records) {
                assert forall|i: int, j: int| 0 <= i < j < after.len() implies after[i].0
                    != after[j].0 by {
                    if j == records.len() {
                        assert(records[i].0 != r.0);
                    }
                }
            }
        },
    }
}

/// After a merge, an id is found with the last record of `secondary` that
/// has it, or, when no record of `secondary` has it, with what `primary`
/// has under it.
pub proof fn lemma_merge_lookup(primary: Seq<RecordView>, secondary: Seq<RecordView>, id: Seq<char>)
    ensures
        (forall|i: int| 0 <= i < secondary.len() ==> #[trigger] secondary[i].0 != id) ==> spec_lookup(
            spec_merge_records(primary, secondary),
            id,
        ) == spec_lookup(primary, id),
        forall|i: int|
            0 <= i < secondary.len() && #[trigger] secondary[i].0 == id && (forall|j: int|
                i < j < secondary.len() ==> secondary[j].0 != id) ==> spec_lookup(
                spec_merge_records(primary, secondary),
                id,
            ) == Some(secondary[i]),
    decreases secondary.len(),
{
    if secondary.len() > 0 {
        let rest = secondary.drop_last();
        let r = secondary.last();
        lemma_merge_lookup(primary, rest, id);
        lemma_upsert_lookup(spec_merge_records(primary, rest), r, id);
        if r.0 != id {
            assert forall|i: int|
                0 <= i < secondary.len() && #[trigger] secondary[i].0 == id && (forall|j: int|
                    i < j < secondary.len() ==> secondary[j].0 != id) implies spec_lookup(
                spec_merge_records(primary, secondary),
                id,
            ) == Some(secondary[i]) by {
                assert(rest[i] == secondary[i]);
                assert forall|j: int| i < j < rest.len() implies rest[j].0 != id by {
                    assert(rest[j] == secondary[j]);
                }
            }
            if forall|i: int| 0 <= i < secondary.len() ==> #[trigger] secondary[i].0 != id {
                assert forall|i: int| 0 <= i < rest.len() implies #[trigger] rest[i].0 != id by {
                    assert(rest[i] == secondary[i]);
                }
            }
        } else {
            assert(secondary[secondary.len() - 1].0 == id);
        }
    }
}

/// `primary` with every record whose program id some record of `secondary`
/// has replaced by that record of `secondary`.
pub open spec fn spec_replaced(primary: Seq<RecordView>, secondary: Seq<RecordView>) -> Seq<RecordView> {
    Seq::new(
        primary.len(),
        |i: int|
            match spec_lookup(secondary, primary[i].0) {
                Some(r) => r,
                None => primary[i],
            },
    )
}

/// The records of `secondary`, in order, whose program ids `primary` lacks.
pub open spec fn spec_absent_from(secondary: Seq<RecordView>, primary: Seq<RecordView>) -> Seq<
    RecordView,
>
    decreases secondary.len(),
{
    if secondary.len() == 0 {
        Seq::empty()
    } else {
        let rest = spec_absent_from(secondary.drop_last(), primary);
        if spec_lookup(primary, secondary.last().0) is None {
            rest.push(secondary.last())
        } else {
            rest
        }
    }
}

proof fn lemma_first_index_is(records: Seq<RecordView>, id: Seq<char>, k: int, i: int)
    requires
        0 <= i <= k < records.len(),
        records[k].0 == id,
        forall|j: int| i <= j < k ==> #[trigger] records[j].0 != id,
    ensures
        spec_first_index_from(records, id, i) == Some(k),
    decreases k - i,
{
    if i < k {
        lemma_first_index_is(records, id, k, i + 1);
    }
}

proof fn lemma_absent_from_members(secondary: Seq<RecordView>, primary: Seq<RecordView>)
    ensures
        forall|i: int|
            0 <= i < spec_absent_from(secondary, primary).len() ==> exists|j: int|
                0 <= j < secondary.len() && #[trigger] spec_absent_from(secondary, primary)[i]
                    == secondary[j],
    decreases secondary.len(),
{
    if secondary.len() > 0 {
        let rest = secondary.drop_last();
        lemma_absent_from_members(rest, primary);
        let a = spec_absent_from(secondary, primary);
        assert forall|i: int| 0 <= i < a.len() implies exists|j: int|
            0 <= j < secondary.len() && #[trigger] a[i] == secondary[j] by {
            if i < spec_absent_from(rest, primary).len() {
                let j = choose|j: int|
                    0 <= j < rest.len() && #[trigger] spec_absent_from(rest, primary)[i] == rest[j];
                assert(secondary[j] == rest[j]);
            } else {
                assert(a[i] == secondary[secondary.len() - 1]);
            }
        }
    }
}

/// With program ids distinct within each catalog, a merge gives the records
/// of `primary` in place, each one whose id `secondary` has replaced by the
/// record of `secondary`, followed by the records of `secondary` whose ids
/// `primary` lacks, in their order.
pub proof fn lemma_merge_form(primary: Seq<RecordView>, secondary: Seq<RecordView>)
    requires
        spec_ids_unique(primary),
        spec_ids_unique(secondary),
    ensures
        spec_merge_records(primary, secondary) == spec_replaced(primary, secondary) + spec_absent_from(
            secondary,
            primary,
        ),
    decreases secondary.len(),
{
    let p = primary;
    if secondary.len() == 0 {
        assert(spec_replaced(p, secondary) =~= p);
        assert(spec_replaced(p, secondary) + spec_absent_from(secondary, p) =~= p);
    } else {
        let rest = secondary.drop_last();
        let x = secondary.last();
        assert(spec_ids_unique(rest)) by {
            assert forall|i: int, j: int| 0 <= i < j < rest.len() implies rest[i].0 != rest[j].0 by {
                assert(rest[i] == secondary[i] && rest[j] == secondary[j]);
            }
        }
        lemma_merge_form(p, rest);
        assert(secondary =~= rest.push(x));
        assert forall|j: int| 0 <= j < rest.len() implies #[trigger] rest[j].0 != x.0 by {
            assert(rest[j] == secondary[j]);
            assert(secondary[j].0 != secondary[secondary.len() - 1].0);
        }
        lemma_first_index_bounds(rest, x.0, 0);
        let before = spec_replaced(p, rest) + spec_absent_from(rest, p);
        let after = spec_replaced(p, secondary) + spec_absent_from(secondary, p);
        // Lookups in `secondary` agree with those in `rest`, except for `x`'s id.
        assert forall|id: Seq<char>| #![auto]
            spec_lookup(secondary, id) == (if id == x.0 {
                Some(x)
            } else {
                spec_lookup(rest, id)
            }) by {
            lemma_first_index_push(rest, x, id, 0);
            lemma_first_index_bounds(rest, id, 0);
            if let Some(k) = spec_first_index(rest, id) {
                assert(secondary[k] == rest[k]);
            }
        }
        // The replaced part keeps the ids of `primary`.
        assert forall|i: int| 0 <= i < p.len() implies (#[trigger] spec_replaced(p, rest)[i]).0 == p[i].0 by {
            lemma_first_index_bounds(rest, p[i].0, 0);
        }
        lemma_first_index_bounds(p, x.0, 0);
        match spec_first_index(p, x.0) {
            Some(k) => {
                assert(spec_lookup(p, x.0) is Some);
                assert(spec_absent_from(secondary, p) == spec_absent_from(rest, p));
                assert forall|j: int| 0 <= j < k implies #[trigger] before[j].0 != x.0 by {
                    assert(before[j] == spec_replaced(p, rest)[j]);
                }
                assert(before[k] == spec_replaced(p, rest)[k]);
                lemma_first_index_is(before, x.0, k, 0);
                assert(spec_merge_records(p, secondary) == before.update(k, x));
                assert forall|i: int| 0 <= i < after.len() implies after[i] == before.update(k, x)[i] by {
                    if i < p.len() {
                        if i != k {
                            assert(p[i].0 != x.0) by {
                                if i < k {
                                    assert(p[i].0 != x.0);
                                } else {
                                    assert(p[k].0 != p[i].0);
                                }
                            }
                        }
                    }
                }
                assert(after =~= before.update(k, x));
            },
            None => {
                assert(spec_absent_from(secondary, p) == spec_absent_from(rest, p).push(x));
                assert(spec_replaced(p, secondary) =~= spec_replaced(p, rest)) by {
                    assert forall|i: int| 0 <= i < p.len() implies spec_replaced(p, secondary)[i]
                        == spec_replaced(p, rest)[i] by {
                        assert(p[i].0 != x.0);
                    }
                }
                lemma_absent_from_members(rest, p);
                assert forall|j: int| 0 <= j < before.len() implies #[trigger] before[j].0 != x.0 by {
                    if j < p.len() {
                        assert(before[j] == spec_replaced(p, rest)[j]);
                    } else {
                        let a = spec_absent_from(rest, p);
                        assert(before[j] == a[j - p.len()]);
                        let jj = choose|jj: int| 0 <= jj < rest.len() && #[trigger] a[j - p.len()] == rest[jj];
                        assert(rest[jj].0 != x.0);
                    }
                }
                lemma_first_index_bounds(before, x.0, 0);
                if let Some(k) = spec_first_index(before, x.0) {
                    assert(before[k].0 == x.0);
                }
                assert(spec_merge_records(p, secondary) == before.push(x));
                assert(after =~= before.push(x));
            },
        }
    }
}

proof fn lemma_absent_from_empty(secondary: Seq<RecordView>)
    ensures
        spec_absent_from(secondary, Seq::empty()) == secondary,
    decreases secondary.len(),
{
    if secondary.len() > 0 {
        lemma_absent_from_empty(secondary.drop_last());
        assert(secondary.drop_last().push(secondary.last()) =~= secondary);
    }
}

proof fn lemma_absent_from_self(records: Seq<RecordView>, m: int)
    requires
        0 <= m <= records.len(),
    ensures
        spec_absent_from(records.take(m), records) == Seq::<RecordView>::empty(),
    decreases m,
{
    if m > 0 {
        assert(records.take(m).drop_last() =~= records.take(m - 1));
        lemma_absent_from_self(records, m - 1);
        lemma_first_index_bounds(records, records[m - 1].0, 0);
        if spec_first_index(records, records[m - 1].0) is None {
            assert(records[m - 1].0 != records[m - 1].0);
        }
    }
}

/// With program ids distinct, merging a catalog with itself or with an
/// empty catalog gives its records back, and so does merging it into an
/// empty catalog.
pub proof fn lemma_merge_idempotent(records: Seq<RecordView>)
    requires
        spec_ids_unique(records),
    ensures
        spec_merge_records(records, records) == records,
        spec_merge_records(records, Seq::empty()) == records,
        spec_merge_records(Seq::empty(), records) == records,
{
    let empty = Seq::<RecordView>::empty();
    assert(spec_ids_unique(empty));
    lemma_merge_form(records, records);
    lemma_merge_form(empty, records);
    lemma_absent_from_empty(records);
    assert(spec_replaced(empty, records) =~= empty);
    assert(spec_replaced(empty, records) + records =~= records);
    assert(records.take(records.len() as int) =~= records);
    lemma_absent_from_self(records, records.len() as int);
    assert forall|i: int| 0 <= i < records.len() implies spec_replaced(records, records)[i] == records[i] by {
        lemma_first_index_is(records, records[i].0, i, 0);
    }
    assert(spec_replaced(records, records) =~= records);
    assert(spec_replaced(records, records) + empty =~= records);
}

} // verus!

verus! {

/// The file name of the path `p`, whose components are separated by '/':
/// its last component that is neither empty nor ".", unless that component
/// is ".."; none when there is no such component.
pub open spec fn spec_file_name(p: Seq<char>) -> Option<Seq<char>>
    decreases p.len(),
{
    let piece = spec_trailing_run(p, '/');
    if piece.len() > 0 && piece != seq!['.'] {
        if piece == seq!['.', '.'] {
            None
        } else {
            Some(piece)
        }
    } else if piece.len() >= p.len() {
        None
    } else {
        spec_file_name(p.subrange(0, p.len() - piece.len() - 1))
    }
}

/// The stem of a file name: the part before its last '.', unless there is
/// no '.' or nothing stands before it.
pub open spec fn spec_file_stem(name: Seq<char>) -> Seq<char> {
    let ext = spec_trailing_run(name, '.');
    if ext.len() >= name.len() || name.len() - ext.len() - 1 == 0 {
        name
    } else {
        name.subrange(0, name.len() - ext.len() - 1)
    }
}

/// The program id of a file at `path`: the stem of its file name, or
/// "unknown" when the path has no file name.
pub open spec fn spec_default_program_id(path: Seq<char>) -> Seq<char> {
    match spec_file_name(path) {
        Some(name) => spec_file_stem(name),
        None => "unknown"@,
    }
}

/// Resolve the program id of the file at `path` from the stem of its file
/// name, or "unknown" when the path has none.
pub fn default_program_id(path: &str) -> (id: String)
    ensures
        id@ == spec_default_program_id(path@),
{
    let chars = chars_of(path);
    let mut end: usize = chars.len();
    assert(chars@.subrange(0, end as int) =~= path@);
    loop
        invariant
            chars@ == path@,
            end <= chars@.len(),
            spec_file_name(path@) == spec_file_name(chars@.subrange(0, end as int)),
        decreases end,
    {
        let start = trailing_run_start(chars.as_slice(), end, '/');
        let ghost p = chars@.subrange(0, end as int);
        let ghost piece = chars@.subrange(start as int, end as int);
        let len = end - start;
        let single_dot = len == 1 && chars[start] == '.';
        proof {
            if len == 1 && chars@[start as int] == '.' {
                assert(piece =~= seq!['.']);
            }
            if piece == seq!['.'] {
                assert(piece[0] == '.');
            }
        }
        if len > 0 && !single_dot {
            let double_dot = len == 2 && chars[start] == '.' && chars[start + 1] == '.';
            proof {
                if double_dot {
                    assert(piece =~= seq!['.', '.']);
                }
                if piece == seq!['.', '.'] {
                    assert(piece[0] == '.' && piece[1] == '.');
                }
            }
            if double_dot {
                return String::from_str("unknown");
            }
            let name = vstd::slice::slice_subrange(chars.as_slice(), start, end);
            assert(name@ == piece);
            let dot = trailing_run_start(name, len, '.');
            assert(name@.subrange(0, len as int) =~= name@);
            if dot == 0 || dot - 1 == 0 {
                return String::from_str(path.substring_char(start, end));
            }
            proof {
                assert(path@.subrange(start as int, start + dot - 1) =~= piece.subrange(
                    0,
                    dot - 1,
                ));
            }
            return String::from_str(path.substring_char(start, start + dot - 1));
        }
        if start == 0 {
            return String::from_str("unknown");
        }
        proof {
            assert(p.subrange(0, p.len() - piece.len() - 1) =~= chars@.subrange(0, start - 1));
        }
        end = start - 1;
    }
}

} // verus!

verus! {

/// The summary line of one record.
pub open spec fn spec_summary_line(r: RecordView) -> Seq<char> {
    "  "@ + r.0 + " ngrams="@ + spec_decimal(r.2 as nat) + " simhash="@ + spec_hex_digits(
        r.3 as nat,
        16,
    ) + " path="@ + r.1
}

/// The header line of a catalog summary.
pub open spec fn spec_summary_header(version: u32, count: nat) -> Seq<char> {
    "fingerprint_db version="@ + spec_decimal(version as nat) + " entries="@ + spec_decimal(count)
}

/// `header` followed by the summary line of each record, joined by newlines.
pub open spec fn spec_summary_lines(header: Seq<char>, records: Seq<RecordView>) -> Seq<char>
    decreases records.len(),
{
    if records.len() == 0 {
        header
    } else {
        spec_summary_lines(header, records.drop_last()) + "\n"@ + spec_summary_line(records.last())
    }
}

/// The summary of a catalog.
pub open spec fn spec_summary(db: FingerprintDb) -> Seq<char> {
    spec_summary_lines(
        spec_summary_header(db.version, db.entries@.len()),
        spec_records(db.entries@),
    )
}

/// Export a catalog summary for display: a header line with the version and
/// the number of records, then one line per record.
pub fn format_db_summary(db: &FingerprintDb) -> (summary: String)
    ensures
        summary@ == spec_summary(*db),
{
    let ghost records = spec_records(db.entries@);
    let mut out = String::from_str("fingerprint_db version=");
    out.append(decimal_text(db.version as usize).as_str());
    out.append(" entries=");
    out.append(decimal_text(db.len()).as_str());
    let ghost header = spec_summary_header(db.version, db.entries@.len());
    proof {
        reveal_strlit("fingerprint_db version=");
        reveal_strlit(" entries=");
        assert(out@ =~= header);
        assert(records.take(0) =~= Seq::<RecordView>::empty());
    }
    let mut i: usize = 0;
    while i < db.entries.len()
        invariant
            i <= db.entries@.len(),
            records == spec_records(db.entries@),
            out@ == spec_summary_lines(header, records.take(i as int)),
        decreases db.entries@.len() - i,
    {
        let entry = &db.entries[i];
        let ghost before = out@;
        out.append("\n  ");
        out.append(entry.program_id.as_str());
        out.append(" ngrams=");
        out.append(decimal_text(entry.ngram_count).as_str());
        out.append(" simhash=");
        out.append(hex16_text(entry.simhash).as_str());
        out.append(" path=");
        out.append(entry.source_path.as_str());
        proof {
            reveal_strlit("\n  ");
            reveal_strlit(" ngrams=");
            reveal_strlit(" simhash=");
            reveal_strlit(" path=");
            reveal_strlit("\n");
            reveal_strlit("  ");
            assert(records.take(i + 1).drop_last() =~= records.take(i as int));
            assert(records[i as int] == spec_record(*entry));
            assert(out@ =~= before + "\n"@ + spec_summary_line(records[i as int]));
        }
        i = i + 1;
    }
    proof {
        assert(records.take(records.len() as int) =~= records);
    }
    out
}

} // verus!

verus! {

/// The records after storing, in order, the record of every ELF file of
/// `files` (path and contents) under the program id its path gives; files
/// that are not ELF programs with a text section are passed over, and the
/// first file that yields no record stops the scan with its error.
pub open spec fn spec_scan(
    records: Seq<RecordView>,
    files: Seq<(Seq<char>, Seq<u8>)>,
    ngram_size: usize,
    num_hashes: usize,
) -> Result<Seq<RecordView>, Seq<char>>
    decreases files.len(),
{
    if files.len() == 0 {
        Ok(records)
    } else {
        let (path, data) = files[0];
        if spec_parse_elf(data) is Err {
            spec_scan(records, files.drop_first(), ngram_size, num_hashes)
        } else {
            match spec_entry(spec_default_program_id(path), path, data, ngram_size, num_hashes) {
                Err(msg) => Err(msg),
                Ok(r) => spec_scan(
                    spec_upsert_record(records, r),
                    files.drop_first(),
                    ngram_size,
                    num_hashes,
                ),
            }
        }
    }
}

impl FingerprintDb {
    /// Build a catalog from the files found under a directory: every file
    /// that loads as an ELF program is stored under the stem of its file
    /// name, in the order given.
    pub fn scan_directory(files: &[ProgramFile], ngram_size: usize, num_hashes: usize) -> (res:
        Result<Self, String>)
        ensures
            match res {
                Ok(db) => db.version == 1 && spec_scan(
                    Seq::empty(),
                    spec_files(files@),
                    ngram_size,
                    num_hashes,
                ) == Ok::<Seq<RecordView>, Seq<char>>(spec_records(db.entries@)),
                Err(msg) => spec_scan(Seq::empty(), spec_files(files@), ngram_size, num_hashes)
                    == Err::<Seq<RecordView>, Seq<char>>(msg@),
            },
    {
        let ghost all = spec_files(files@);
        let mut db = FingerprintDb::new();
        assert(spec_records(db.entries@) =~= Seq::<RecordView>::empty());
        assert(all.skip(0) =~= all);
        let mut i: usize = 0;
        while i < files.len()
            invariant
                i <= files@.len(),
                all == spec_files(files@),
                db.version == 1,
                spec_scan(Seq::empty(), all, ngram_size, num_hashes) == spec_scan(
                    spec_records(db.entries@),
                    all.skip(i as int),
                    ngram_size,
                    num_hashes,
                ),
            decreases files@.len() - i,
        {
            let file = &files[i];
            proof {
                assert(all.skip(i as int)[0] == (file.path@, file.data@));
                assert(all.skip(i as int).drop_first() =~= all.skip(i + 1));
            }
            if parse_elf_bytes(file.data.as_slice()).is_ok() {
                let id = default_program_id(file.path.as_str());
                db.insert_from_file(
                    id.as_str(),
                    file.path.as_str(),
                    file.data.as_slice(),
                    ngram_size,
                    num_hashes,
                )?;
            }
            i = i + 1;
        }
        proof {
            assert(all.skip(files@.len() as int) =~= Seq::<(Seq<char>, Seq<u8>)>::empty());
        }
        Ok(db)
    }
}

} // verus!
