//! Locality Sensitive Hash index for fast approximate similarity search.
use vstd::prelude::*;
use vstd::string::*;

use crate::elf_loader::spec_parse_elf;
use crate::fingerprint_db::{
    spec_default_program_id, spec_entry, spec_first_index, spec_record, spec_records,
    spec_scan, spec_upsert_record, FingerprintDb, RecordView,
};
use crate::minhash::{estimate_jaccard, spec_estimate_jaccard, MinHashSignature, DEFAULT_NUM_HASHES};
use crate::{spec_files, ProgramFile};
use crate::ratio::Ratio;
use crate::text::{decimal_text, spec_decimal};

verus! {

/// Number of bands for LSH bucketing (signature length must be divisible).
pub const DEFAULT_BANDS: usize = 16;

/// Initial value of the band hash.
pub const BAND_HASH_OFFSET: u64 = 0xcbf29ce484222325;

/// Multiplier of the band hash.
pub const BAND_HASH_PRIME: u64 = 0x100000001b3;

/// Rows per band derived from signature length and band count.
#[derive(Debug, Clone, Copy, PartialEq, Eq, Structural)]
pub struct LshConfig {
    pub bands: usize,
    pub rows_per_band: usize,
}

/// Text of the error for a signature length that the band count does not divide.
pub open spec fn spec_band_mismatch_text(signature_len: usize, bands: usize) -> Seq<char> {
    "signature length "@ + spec_decimal(signature_len as nat) + " must be divisible by bands "@
        + spec_decimal(bands as nat)
}

/// The outcome of `LshConfig::from_signature_len`.
pub open spec fn spec_config_result(
    signature_len: usize,
    bands: usize,
    res: Result<LshConfig, String>,
) -> bool {
    if bands == 0 || signature_len % bands != 0 {
        res matches Err(msg) && msg@ == spec_band_mismatch_text(signature_len, bands)
    } else {
        res == Ok::<LshConfig, String>(
            LshConfig { bands, rows_per_band: (signature_len / bands) as usize },
        )
    }
}

impl LshConfig {
    pub fn from_signature_len(signature_len: usize, bands: usize) -> (res: Result<Self, String>)
        ensures
            spec_config_result(signature_len, bands, res),
    {
        if bands == 0 || signature_len % bands != 0 {
            let msg = String::from_str("signature length ");
            let msg = msg.concat(decimal_text(signature_len).as_str());
            let msg = msg.concat(" must be divisible by bands ");
            let msg = msg.concat(decimal_text(bands).as_str());
            return Err(msg);
        }
        Ok(Self { bands, rows_per_band: signature_len / bands })
    }
}

/// The band hash of the first `k` values: starting from the offset, each
/// value is xor-ed in and the result multiplied (wrapping) by the prime.
pub open spec fn spec_hash_band_prefix(values: Seq<u64>, k: int) -> u64
    decreases k,
{
    if k <= 0 {
        BAND_HASH_OFFSET
    } else {
        vstd::wrapping::u64_specs::wrapping_mul(
            spec_hash_band_prefix(values, k - 1) ^ values[k - 1],
            BAND_HASH_PRIME,
        )
    }
}

/// The band hash of `values`.
pub open spec fn spec_hash_band(values: Seq<u64>) -> u64 {
    spec_hash_band_prefix(values, values.len() as int)
}

/// Whether a signature with `values` is long enough for every band of `config`.
pub open spec fn spec_fits(values: Seq<u64>, config: LshConfig) -> bool {
    config.bands * config.rows_per_band <= values.len()
}

/// Bucket key of band `band` of a signature: the band hash of its rows.
pub open spec fn spec_band_key(values: Seq<u64>, config: LshConfig, band: int) -> u64 {
    let start = band * config.rows_per_band;
    spec_hash_band(values.subrange(start, start + config.rows_per_band))
}

/// One step of the band hash sends different states to different states.
proof fn lemma_hash_step_injective(x: u64, y: u64, v: u64, w: u64)
    requires
        (x ^ v) != (y ^ w),
    ensures
        vstd::wrapping::u64_specs::wrapping_mul(x ^ v, BAND_HASH_PRIME)
            != vstd::wrapping::u64_specs::wrapping_mul(y ^ w, BAND_HASH_PRIME),
{
    let a = x ^ v;
    let b = y ^ w;
    let m: int = 0x1_0000_0000_0000_0000;
    let p: int = BAND_HASH_PRIME as int;
    let q: int = 0xce965057aff6957b;
    assert((p * q) % m == 1) by (nonlinear_arith)
        requires
            p == 0x100000001b3,
            q == 0xce965057aff6957b,
            m == 0x1_0000_0000_0000_0000,
    ;
    if (a as int * p) % m == (b as int * p) % m {
        vstd::arithmetic::div_mod::lemma_mul_mod_noop_left(a as int * p, q, m);
        vstd::arithmetic::div_mod::lemma_mul_mod_noop_left(b as int * p, q, m);
        vstd::arithmetic::mul::lemma_mul_is_associative(a as int, p, q);
        vstd::arithmetic::mul::lemma_mul_is_associative(b as int, p, q);
        vstd::arithmetic::div_mod::lemma_mul_mod_noop_right(a as int, p * q, m);
        vstd::arithmetic::div_mod::lemma_mul_mod_noop_right(b as int, p * q, m);
        vstd::arithmetic::div_mod::lemma_small_mod(a as nat, m as nat);
        vstd::arithmetic::div_mod::lemma_small_mod(b as nat, m as nat);
        assert(a as int == (a as int * (p * q)) % m);
        assert(b as int == (b as int * (p * q)) % m);
        assert(false);
    }
    vstd::arithmetic::div_mod::lemma_mod_bound(a as int * p, m);
    vstd::arithmetic::div_mod::lemma_mod_bound(b as int * p, m);
}

/// The band hash of two sequences that agree up to position `k` and differ
/// in exactly one position below it differs.
proof fn lemma_hash_prefix_one_change(x: Seq<u64>, y: Seq<u64>, t: int, k: int)
    requires
        x.len() == y.len(),
        0 <= t < k <= x.len(),
        x[t] != y[t],
        forall|i: int| 0 <= i < x.len() && i != t ==> x[i] == y[i],
    ensures
        spec_hash_band_prefix(x, k) != spec_hash_band_prefix(y, k),
    decreases k,
{
    if k == t + 1 {
        lemma_hash_prefix_same(x, y, t);
        let h = spec_hash_band_prefix(x, t);
        let (xt, yt) = (x[t], y[t]);
        assert((h ^ xt) != (h ^ yt)) by (bit_vector)
            requires
                xt != yt,
        ;
        lemma_hash_step_injective(h, h, xt, yt);
    } else {
        lemma_hash_prefix_one_change(x, y, t, k - 1);
        let hx = spec_hash_band_prefix(x, k - 1);
        let hy = spec_hash_band_prefix(y, k - 1);
        let v = x[k - 1];
        assert(y[k - 1] == v);
        assert((hx ^ v) != (hy ^ v)) by (bit_vector)
            requires
                hx != hy,
        ;
        lemma_hash_step_injective(hx, hy, v, v);
    }
}

proof fn lemma_hash_prefix_same(x: Seq<u64>, y: Seq<u64>, k: int)
    requires
        0 <= k <= x.len(),
        k <= y.len(),
        forall|i: int| 0 <= i < k ==> x[i] == y[i],
    ensures
        spec_hash_band_prefix(x, k) == spec_hash_band_prefix(y, k),
    decreases k,
{
    if k > 0 {
        lemma_hash_prefix_same(x, y, k - 1);
    }
}

/// The bucket key of a band depends on every row of the band: two
/// signatures that differ in exactly one row, and that row lies in band
/// `band`, get different keys for that band.
pub proof fn lemma_band_key_sees_every_row(
    a: Seq<u64>,
    b: Seq<u64>,
    config: LshConfig,
    band: int,
    j: int,
)
    requires
        a.len() == b.len(),
        spec_fits(a, config),
        0 <= band < config.bands,
        band * config.rows_per_band <= j < band * config.rows_per_band + config.rows_per_band,
        a[j] != b[j],
        forall|i: int| 0 <= i < a.len() && i != j ==> a[i] == b[i],
    ensures
        spec_band_key(a, config, band) != spec_band_key(b, config, band),
{
    let r = config.rows_per_band as int;
    lemma_band_in_range(band, config.bands as int, r, a.len() as int);
    let start = band * r;
    let x = a.subrange(start, start + r);
    let y = b.subrange(start, start + r);
    assert forall|i: int| 0 <= i < x.len() && i != j - start implies x[i] == y[i] by {
        assert(x[i] == a[start + i] && y[i] == b[start + i]);
    }
    assert(x[j - start] == a[j] && y[j - start] == b[j]);
    lemma_hash_prefix_one_change(x, y, j - start, r);
}

fn hash_band_slice(values: &[u64]) -> (hash: u64)
    ensures
        hash == spec_hash_band(values@),
{
    let mut hash: u64 = BAND_HASH_OFFSET;
    let mut i: usize = 0;
    while i < values.len()
        invariant
            i <= values@.len(),
            hash == spec_hash_band_prefix(values@, i as int),
        decreases values@.len() - i,
    {
        hash = hash ^ values[i];
        hash = hash.wrapping_mul(BAND_HASH_PRIME);
        i = i + 1;
    }
    hash
}

proof fn lemma_band_in_range(band: int, bands: int, rows: int, len: int)
    requires
        0 <= band < bands,
        0 <= rows,
        bands * rows <= len,
    ensures
        0 <= band * rows,
        band * rows + rows <= len,
{
    assert(band * rows + rows <= bands * rows) by (nonlinear_arith)
        requires
            0 <= band < bands,
            0 <= rows,
    ;
    assert(0 <= band * rows) by (nonlinear_arith)
        requires
            0 <= band,
            0 <= rows,
    ;
}

fn band_keys(signature: &MinHashSignature, config: &LshConfig) -> (keys: Vec<u64>)
    requires
        spec_fits(signature.values@, *config),
    ensures
        keys@.len() == config.bands,
        forall|b: int|
            0 <= b < config.bands ==> #[trigger] keys@[b] == spec_band_key(
                signature.values@,
                *config,
                b,
            ),
{
    let mut keys: Vec<u64> = Vec::new();
    let mut band: usize = 0;
    while band < config.bands
        invariant
            spec_fits(signature.values@, *config),
            band <= config.bands,
            keys@.len() == band,
            forall|b: int|
                0 <= b < band ==> #[trigger] keys@[b] == spec_band_key(
                    signature.values@,
                    *config,
                    b,
                ),
        decreases config.bands - band,
    {
        proof {
            lemma_band_in_range(
                band as int,
                config.bands as int,
                config.rows_per_band as int,
                signature.values@.len() as int,
            );
            assert(signature.values@.len() == signature.values.len());
        }
        let start = band * config.rows_per_band;
        let end = start + config.rows_per_band;
        let slice = vstd::slice::slice_subrange(signature.values.as_slice(), start, end);
        keys.push(hash_band_slice(slice));
        band = band + 1;
    }
    keys
}

} // verus!

verus! {

/// Candidate match from LSH bucket lookup.
#[derive(Debug, Clone, PartialEq)]
pub struct LshCandidate {
    pub program_id: String,
    pub band_index: usize,
    pub bucket_key: u64,
}

/// The programs whose band `band` hashed to `key`.
#[derive(Debug)]
struct LshBucket {
    band: usize,
    key: u64,
    ids: Vec<String>,
}

/// A program and its signature.
#[derive(Debug)]
struct IndexedSignature {
    program_id: String,
    signature: MinHashSignature,
}

/// In memory LSH index over MinHash signatures.
#[derive(Debug)]
pub struct LshIndex {
    config: LshConfig,
    buckets: Vec<LshBucket>,
    signatures: Vec<IndexedSignature>,
}

/// The texts of `ids`.
pub open spec fn ids_view(ids: Seq<String>) -> Seq<Seq<char>> {
    ids.map_values(|s: String| s@)
}

/// Whether `entries` has an entry for `id`.
pub open spec fn spec_has_entry(entries: Seq<(Seq<char>, Seq<u64>)>, id: Seq<char>) -> bool {
    exists|k: int| 0 <= k < entries.len() && #[trigger] entries[k].0 == id
}

/// `entries` after recording `values` for `id`: the entry for `id` is
/// replaced in place, or a new entry is appended at the end.
pub open spec fn spec_upsert(
    entries: Seq<(Seq<char>, Seq<u64>)>,
    id: Seq<char>,
    values: Seq<u64>,
) -> Seq<(Seq<char>, Seq<u64>)> {
    if spec_has_entry(entries, id) {
        let k = choose|k: int| 0 <= k < entries.len() && #[trigger] entries[k].0 == id;
        entries.update(k, (id, values))
    } else {
        entries.push((id, values))
    }
}

fn find_signature(signatures: &Vec<IndexedSignature>, id: &String) -> (pos: Option<usize>)
    ensures
        match pos {
            Some(k) => k < signatures@.len() && signatures@[k as int].program_id@ == id@,
            None => forall|k: int|
                0 <= k < signatures@.len() ==> #[trigger] signatures@[k].program_id@ != id@,
        },
{
    let mut k: usize = 0;
    while k < signatures.len()
        invariant
            k <= signatures@.len(),
            forall|j: int| 0 <= j < k ==> #[trigger] signatures@[j].program_id@ != id@,
        decreases signatures@.len() - k,
    {
        if signatures[k].program_id == *id {
            return Some(k);
        }
        k = k + 1;
    }
    None
}

fn find_bucket(buckets: &Vec<LshBucket>, band: usize, key: u64) -> (pos: Option<usize>)
    ensures
        match pos {
            Some(i) => i < buckets@.len() && buckets@[i as int].band == band && buckets@[i as int].key
                == key,
            None => forall|i: int|
                0 <= i < buckets@.len() ==> !(#[trigger] buckets@[i].band == band && buckets@[i].key
                    == key),
        },
{
    let mut i: usize = 0;
    while i < buckets.len()
        invariant
            i <= buckets@.len(),
            forall|j: int| 0 <= j < i ==> !(#[trigger] buckets@[j].band == band && buckets@[j].key == key),
        decreases buckets@.len() - i,
    {
        if buckets[i].band == band && buckets[i].key == key {
            return Some(i);
        }
        i = i + 1;
    }
    None
}

fn contains_id(ids: &Vec<String>, id: &String) -> (found: bool)
    ensures
        found == ids_view(ids@).contains(id@),
{
    let mut k: usize = 0;
    while k < ids.len()
        invariant
            k <= ids@.len(),
            forall|j: int| 0 <= j < k ==> #[trigger] ids@[j]@ != id@,
        decreases ids@.len() - k,
    {
        if ids[k] == *id {
            assert(ids_view(ids@)[k as int] == id@);
            return true;
        }
        k = k + 1;
    }
    proof {
        if ids_view(ids@).contains(id@) {
            let j = choose|j: int| 0 <= j < ids_view(ids@).len() && ids_view(ids@)[j] == id@;
            assert(ids@[j]@ == id@);
        }
    }
    false
}

/// The programs with their signatures held in `signatures`.
spec fn entries_of(signatures: Seq<IndexedSignature>) -> Seq<(Seq<char>, Seq<u64>)> {
    signatures.map_values(|e: IndexedSignature| (e.program_id@, e.signature.values@))
}

/// The programs in the bucket of band `band` with key `key` among `buckets`.
spec fn members_of(buckets: Seq<LshBucket>, band: int, key: u64) -> Set<Seq<char>> {
    Set::new(
        |id: Seq<char>|
            exists|i: int|
                0 <= i < buckets.len() && #[trigger] buckets[i].band == band && buckets[i].key == key
                    && ids_view(buckets[i].ids@).contains(id),
    )
}

/// The parts of a well-formed index: at least one band, one entry per
/// program, one bucket per band and key, each bucket of a band of the index
/// without repeated programs, and every bucketed program indexed.
spec fn parts_ok(
    config: LshConfig,
    buckets: Seq<LshBucket>,
    signatures: Seq<IndexedSignature>,
) -> bool {
    &&& config.bands > 0
    &&& forall|i: int, j: int|
        0 <= i < j < signatures.len() ==> #[trigger] signatures[i].program_id@
            != #[trigger] signatures[j].program_id@
    &&& forall|i: int, j: int|
        0 <= i < j < buckets.len() ==> (#[trigger] buckets[i].band != #[trigger] buckets[j].band
            || buckets[i].key != buckets[j].key)
    &&& forall|i: int|
        0 <= i < buckets.len() ==> {
            &&& #[trigger] buckets[i].band < config.bands
            &&& ids_view(buckets[i].ids@).no_duplicates()
        }
    &&& forall|i: int, id: Seq<char>|
        0 <= i < buckets.len() && #[trigger] ids_view(buckets[i].ids@).contains(id)
            ==> spec_has_entry(entries_of(signatures), id)
}

fn upsert_signature(
    signatures: &mut Vec<IndexedSignature>,
    id: &String,
    signature: MinHashSignature,
)
    requires
        forall|i: int, j: int|
            0 <= i < j < old(signatures)@.len() ==> #[trigger] old(signatures)@[i].program_id@
                != #[trigger] old(signatures)@[j].program_id@,
    ensures
        entries_of(final(signatures)@) == spec_upsert(
            entries_of(old(signatures)@),
            id@,
            signature.values@,
        ),
        forall|i: int, j: int|
            0 <= i < j < final(signatures)@.len() ==> #[trigger] final(signatures)@[i].program_id@
                != #[trigger] final(signatures)@[j].program_id@,
        spec_has_entry(entries_of(final(signatures)@), id@),
        exists|k: int|
            0 <= k < final(signatures)@.len() && #[trigger] entries_of(final(signatures)@)[k] == (
                id@,
                signature.values@,
            ),
        forall|x: Seq<char>|
            spec_has_entry(entries_of(old(signatures)@), x) ==> #[trigger] spec_has_entry(
                entries_of(final(signatures)@),
                x,
            ),
{
    let ghost old_entries = entries_of(signatures@);
    let ghost values = signature.values@;
    let pos = find_signature(signatures, id);
    let entry = IndexedSignature { program_id: id.clone(), signature };
    match pos {
        Some(k) => {
            proof {
                assert(old_entries[k as int].0 == id@);
                let c = choose|c: int| 0 <= c < old_entries.len() && #[trigger] old_entries[c].0 == id@;
                if c != k {
                    if c < k {
                        assert(signatures@[c].program_id@ != signatures@[k as int].program_id@);
                    } else {
                        assert(signatures@[k as int].program_id@ != signatures@[c].program_id@);
                    }
                }
            }
            signatures.set(k, entry);
            proof {
                assert(entries_of(signatures@) =~= spec_upsert(old_entries, id@, values));
                assert(entries_of(signatures@)[k as int].0 == id@);
                assert(entries_of(signatures@)[k as int] == (id@, values));
                assert forall|x: Seq<char>| spec_has_entry(old_entries, x) implies #[trigger] spec_has_entry(
                    entries_of(signatures@),
                    x,
                ) by {
                    let j = choose|j: int| 0 <= j < old_entries.len() && #[trigger] old_entries[j].0 == x;
                    assert(entries_of(signatures@)[j].0 == x);
                }
            }
        },
        None => {
            signatures.push(entry);
            proof {
                assert(!spec_has_entry(old_entries, id@));
                assert(entries_of(signatures@) =~= spec_upsert(old_entries, id@, values));
                assert(entries_of(signatures@)[old_entries.len() as int].0 == id@);
                assert(entries_of(signatures@)[old_entries.len() as int] == (id@, values));
                assert forall|x: Seq<char>| spec_has_entry(old_entries, x) implies #[trigger] spec_has_entry(
                    entries_of(signatures@),
                    x,
                ) by {
                    let j = choose|j: int| 0 <= j < old_entries.len() && #[trigger] old_entries[j].0 == x;
                    assert(entries_of(signatures@)[j].0 == x);
                }
            }
        },
    }
}

fn add_to_bucket(
    buckets: &mut Vec<LshBucket>,
    config: LshConfig,
    band: usize,
    key: u64,
    id: &String,
    Ghost(entries): Ghost<Seq<(Seq<char>, Seq<u64>)>>,
)
    requires
        band < config.bands,
        spec_has_entry(entries, id@),
        forall|i: int, j: int|
            0 <= i < j < old(buckets)@.len() ==> (#[trigger] old(buckets)@[i].band
                != #[trigger] old(buckets)@[j].band || old(buckets)@[i].key != old(buckets)@[j].key),
        forall|i: int|
            0 <= i < old(buckets)@.len() ==> {
                &&& #[trigger] old(buckets)@[i].band < config.bands
                &&& ids_view(old(buckets)@[i].ids@).no_duplicates()
            },
        forall|i: int, x: Seq<char>|
            0 <= i < old(buckets)@.len() && #[trigger] ids_view(old(buckets)@[i].ids@).contains(x)
                ==> spec_has_entry(entries, x),
    ensures
        forall|i: int, j: int|
            0 <= i < j < final(buckets)@.len() ==> (#[trigger] final(buckets)@[i].band
                != #[trigger] final(buckets)@[j].band || final(buckets)@[i].key
                != final(buckets)@[j].key),
        forall|i: int|
            0 <= i < final(buckets)@.len() ==> {
                &&& #[trigger] final(buckets)@[i].band < config.bands
                &&& ids_view(final(buckets)@[i].ids@).no_duplicates()
            },
        forall|i: int, x: Seq<char>|
            0 <= i < final(buckets)@.len() && #[trigger] ids_view(final(buckets)@[i].ids@).contains(x)
                ==> spec_has_entry(entries, x),
        forall|b: int, k: u64| #[trigger]
            members_of(final(buckets)@, b, k) == if b == band && k == key {
                members_of(old(buckets)@, b, k).insert(id@)
            } else {
                members_of(old(buckets)@, b, k)
            },
{
    let ghost before = buckets@;
    match find_bucket(buckets, band, key) {
        Some(i) => {
            if !contains_id(&buckets[i].ids, id) {
                let ghost old_ids = buckets@[i as int].ids@;
                buckets[i].ids.push(id.clone());
                proof {
                    assert(ids_view(buckets@[i as int].ids@) =~= ids_view(old_ids).push(id@));
                    assert forall|j: int| 0 <= j < buckets@.len() && j != i implies #[trigger] buckets@[j] == before[j] by {}
                    assert forall|j: int, x: Seq<char>|
                        0 <= j < buckets@.len() && #[trigger] ids_view(buckets@[j].ids@).contains(x)
                        implies ids_view(before[j].ids@).contains(x) || x == id@ by {
                        if j == i && x != id@ {
                            let m = choose|m: int| 0 <= m < ids_view(buckets@[j].ids@).len() && ids_view(buckets@[j].ids@)[m] == x;
                            assert(ids_view(old_ids)[m] == x);
                        }
                    }
                    assert forall|b: int, k: u64| #[trigger]
                        members_of(buckets@, b, k) == if b == band && k == key {
                            members_of(before, b, k).insert(id@)
                        } else {
                            members_of(before, b, k)
                        } by {
                        let target = if b == band && k == key {
                            members_of(before, b, k).insert(id@)
                        } else {
                            members_of(before, b, k)
                        };
                        assert forall|x: Seq<char>| members_of(buckets@, b, k).contains(x) implies target.contains(x) by {
                            let j = choose|j: int| 0 <= j < buckets@.len() && #[trigger] buckets@[j].band == b && buckets@[j].key == k && ids_view(buckets@[j].ids@).contains(x);
                            if ids_view(before[j].ids@).contains(x) {
                                assert(before[j].band == b);
                            }
                        }
                        assert forall|x: Seq<char>| target.contains(x) implies members_of(buckets@, b, k).contains(x) by {
                            if b == band && k == key && x == id@ {
                                assert(ids_view(buckets@[i as int].ids@).last() == id@);
                                assert(buckets@[i as int].band == b);
                            } else {
                                let j = choose|j: int| 0 <= j < before.len() && #[trigger] before[j].band == b && before[j].key == k && ids_view(before[j].ids@).contains(x);
                                if j == i {
                                    let m = choose|m: int| 0 <= m < ids_view(old_ids).len() && ids_view(old_ids)[m] == x;
                                    assert(ids_view(buckets@[j].ids@)[m] == x);
                                }
                                assert(buckets@[j].band == b);
                            }
                        }
                        assert(members_of(buckets@, b, k) =~= target);
                    }
                }
            } else {
                proof {
                    assert(buckets@[i as int].band == band);
                    assert(members_of(before, band as int, key).contains(id@));
                    assert forall|b: int, k: u64| #[trigger]
                        members_of(buckets@, b, k) == if b == band && k == key {
                            members_of(before, b, k).insert(id@)
                        } else {
                            members_of(before, b, k)
                        } by {
                        assert(members_of(before, band as int, key).insert(id@) =~= members_of(before, band as int, key));
                    }
                }
            }
        },
        None => {
            let mut ids: Vec<String> = Vec::new();
            ids.push(id.clone());
            buckets.push(LshBucket { band, key, ids });
            proof {
                let n = before.len() as int;
                assert(ids_view(buckets@[n].ids@) =~= seq![id@]);
                assert forall|j: int| 0 <= j < n implies #[trigger] buckets@[j] == before[j] by {}
                assert forall|j: int, x: Seq<char>|
                    0 <= j < buckets@.len() && #[trigger] ids_view(buckets@[j].ids@).contains(x)
                    implies (j < n && ids_view(before[j].ids@).contains(x)) || x == id@ by {
                    if j == n {
                        assert(ids_view(buckets@[j].ids@)[0] == id@);
                    }
                }
                assert forall|b: int, k: u64| #[trigger]
                    members_of(buckets@, b, k) == if b == band && k == key {
                        members_of(before, b, k).insert(id@)
                    } else {
                        members_of(before, b, k)
                    } by {
                    let target = if b == band && k == key {
                        members_of(before, b, k).insert(id@)
                    } else {
                        members_of(before, b, k)
                    };
                    assert forall|x: Seq<char>| members_of(buckets@, b, k).contains(x) implies target.contains(x) by {
                        let j = choose|j: int| 0 <= j < buckets@.len() && #[trigger] buckets@[j].band == b && buckets@[j].key == k && ids_view(buckets@[j].ids@).contains(x);
                        if j < n && ids_view(before[j].ids@).contains(x) {
                            assert(before[j].band == b);
                        }
                    }
                    assert forall|x: Seq<char>| target.contains(x) implies members_of(buckets@, b, k).contains(x) by {
                        if b == band && k == key && x == id@ {
                            assert(ids_view(buckets@[n].ids@)[0] == id@);
                            assert(buckets@[n].band == b);
                        } else {
                            let j = choose|j: int| 0 <= j < before.len() && #[trigger] before[j].band == b && before[j].key == k && ids_view(before[j].ids@).contains(x);
                            assert(buckets@[j].band == b);
                        }
                    }
                    assert(members_of(buckets@, b, k) =~= target);
                }
            }
        },
    }
}

/// Whether some candidate of `candidates` is program `id`.
pub open spec fn spec_listed(candidates: Seq<LshCandidate>, id: Seq<char>) -> bool {
    exists|i: int| 0 <= i < candidates.len() && #[trigger] candidates[i].program_id@ == id
}

fn candidate_listed(candidates: &Vec<LshCandidate>, id: &String) -> (listed: bool)
    ensures
        listed == spec_listed(candidates@, id@),
{
    let mut k: usize = 0;
    while k < candidates.len()
        invariant
            k <= candidates@.len(),
            forall|j: int| 0 <= j < k ==> #[trigger] candidates@[j].program_id@ != id@,
        decreases candidates@.len() - k,
    {
        if candidates[k].program_id == *id {
            return true;
        }
        k = k + 1;
    }
    false
}

fn add_bucket_candidates(
    candidates: &mut Vec<LshCandidate>,
    ids: &Vec<String>,
    band: usize,
    key: u64,
)
    requires
        forall|i: int, j: int|
            0 <= i < j < old(candidates)@.len() ==> #[trigger] old(candidates)@[i].program_id@
                != #[trigger] old(candidates)@[j].program_id@,
    ensures
        final(candidates)@.len() >= old(candidates)@.len(),
        forall|i: int|
            0 <= i < old(candidates)@.len() ==> #[trigger] final(candidates)@[i] == old(
                candidates,
            )@[i],
        forall|i: int|
            old(candidates)@.len() <= i < final(candidates)@.len() ==> {
                &&& (#[trigger] final(candidates)@[i]).band_index == band
                &&& final(candidates)@[i].bucket_key == key
                &&& ids_view(ids@).contains(final(candidates)@[i].program_id@)
                &&& !spec_listed(old(candidates)@, final(candidates)@[i].program_id@)
            },
        forall|i: int, j: int|
            0 <= i < j < final(candidates)@.len() ==> #[trigger] final(candidates)@[i].program_id@
                != #[trigger] final(candidates)@[j].program_id@,
        forall|m: int| 0 <= m < ids@.len() ==> spec_listed(final(candidates)@, #[trigger] ids@[m]@),
{
    let ghost start = candidates@;
    let mut j: usize = 0;
    while j < ids.len()
        invariant
            j <= ids@.len(),
            candidates@.len() >= start.len(),
            forall|i: int| 0 <= i < start.len() ==> #[trigger] candidates@[i] == start[i],
            forall|i: int|
                start.len() <= i < candidates@.len() ==> {
                    &&& (#[trigger] candidates@[i]).band_index == band
                    &&& candidates@[i].bucket_key == key
                    &&& ids_view(ids@).contains(candidates@[i].program_id@)
                    &&& !spec_listed(start, candidates@[i].program_id@)
                },
            forall|i: int, k: int|
                0 <= i < k < candidates@.len() ==> #[trigger] candidates@[i].program_id@
                    != #[trigger] candidates@[k].program_id@,
            forall|m: int| 0 <= m < j ==> spec_listed(candidates@, #[trigger] ids@[m]@),
        decreases ids@.len() - j,
    {
        let ghost before = candidates@;
        if !candidate_listed(&candidates, &ids[j]) {
            let id = ids[j].clone();
            proof {
                assert(ids_view(ids@)[j as int] == ids@[j as int]@);
                assert(!spec_listed(start, id@)) by {
                    if spec_listed(start, id@) {
                        let i = choose|i: int| 0 <= i < start.len() && #[trigger] start[i].program_id@ == id@;
                        assert(before[i] == start[i]);
                    }
                }
            }
            candidates.push(LshCandidate { program_id: id, band_index: band, bucket_key: key });
            proof {
                let n = before.len() as int;
                assert(candidates@[n].program_id@ == ids@[j as int]@);
                assert forall|m: int| 0 <= m < j + 1 implies spec_listed(candidates@, #[trigger] ids@[m]@) by {
                    if m < j {
                        let i = choose|i: int| 0 <= i < before.len() && #[trigger] before[i].program_id@ == ids@[m]@;
                        assert(candidates@[i] == before[i]);
                    } else {
                        assert(candidates@[n].program_id@ == ids@[m]@);
                    }
                }
                assert forall|i: int, k: int|
                    0 <= i < k < candidates@.len() implies #[trigger] candidates@[i].program_id@
                        != #[trigger] candidates@[k].program_id@ by {
                    if k == n {
                        assert(candidates@[i] == before[i]);
                    }
                }
            }
        }
        j = j + 1;
    }
}

/// Insert `item` into the best-first list `scored`, after every entry that
/// scores at least as high; gives the position it took.
fn insert_by_score(scored: &mut Vec<(String, Ratio)>, item: (String, Ratio)) -> (pos: Ghost<int>)
    requires
        item.1.denominator > 0,
        forall|i: int| 0 <= i < old(scored)@.len() ==> (#[trigger] old(scored)@[i]).1.denominator > 0,
        forall|i: int, j: int|
            0 <= i < j < old(scored)@.len() ==> (#[trigger] old(scored)@[i]).1.spec_at_least(
                (#[trigger] old(scored)@[j]).1,
            ),
    ensures
        0 <= pos@ <= old(scored)@.len(),
        final(scored)@ == old(scored)@.insert(pos@, item),
        forall|i: int| pos@ <= i < old(scored)@.len() ==> !(#[trigger] old(scored)@[i]).1.spec_at_least(item.1),
        forall|i: int| 0 <= i < final(scored)@.len() ==> (#[trigger] final(scored)@[i]).1.denominator > 0,
        forall|i: int, j: int|
            0 <= i < j < final(scored)@.len() ==> (#[trigger] final(scored)@[i]).1.spec_at_least(
                (#[trigger] final(scored)@[j]).1,
            ),
{
    let ghost before = scored@;
    let mut p: usize = 0;
    while p < scored.len() && scored[p].1.at_least(&item.1)
        invariant
            p <= scored@.len(),
            scored@ == before,
            forall|i: int| 0 <= i < p ==> (#[trigger] scored@[i]).1.spec_at_least(item.1),
        decreases scored@.len() - p,
    {
        p = p + 1;
    }
    let ghost x = item.1;
    scored.insert(p, item);
    proof {
        assert forall|i: int, j: int|
            0 <= i < j < scored@.len() implies (#[trigger] scored@[i]).1.spec_at_least(
                (#[trigger] scored@[j]).1,
            ) by {
            if j < p {
                assert(scored@[i] == before[i] && scored@[j] == before[j]);
            } else if j == p {
                assert(scored@[i] == before[i]);
            } else if i < p {
                assert(scored@[i] == before[i] && scored@[j] == before[j - 1]);
                if p < before.len() {
                    crate::ratio::lemma_at_least_total_preorder(before[i].1, x, before[p as int].1);
                    crate::ratio::lemma_at_least_total_preorder(x, before[p as int].1, before[j - 1].1);
                    crate::ratio::lemma_at_least_total_preorder(before[i].1, before[p as int].1, before[j - 1].1);
                }
            } else if i == p {
                assert(scored@[j] == before[j - 1]);
                crate::ratio::lemma_at_least_total_preorder(x, before[p as int].1, before[j - 1].1);
                if j - 1 > p {
                    assert(before[p as int].1.spec_at_least(before[j - 1].1));
                } else {
                    crate::ratio::lemma_at_least_total_preorder(before[p as int].1, before[p as int].1, x);
                }
            } else {
                assert(scored@[i] == before[i - 1] && scored@[j] == before[j - 1]);
            }
        }
        assert forall|i: int| p <= i < before.len() implies !(#[trigger] before[i]).1.spec_at_least(x) by {
            if before[i].1.spec_at_least(x) {
                assert(before[p as int].1.spec_at_least(before[i].1) || i == p);
                crate::ratio::lemma_at_least_total_preorder(before[p as int].1, before[i].1, x);
            }
        }
    }
    Ghost(p as int)
}

/// The program names of a scored list.
pub open spec fn names_of(scored: Seq<(String, Ratio)>) -> Seq<Seq<char>> {
    scored.map_values(|x: (String, Ratio)| x.0@)
}

proof fn lemma_insert_names(before: Seq<(String, Ratio)>, p: int, item: (String, Ratio))
    requires
        0 <= p <= before.len(),
    ensures
        names_of(before.insert(p, item)) == names_of(before).insert(p, item.0@),
        names_of(before).no_duplicates() && !names_of(before).contains(item.0@) ==> names_of(
            before.insert(p, item),
        ).no_duplicates(),
        forall|x: Seq<char>|
            names_of(before).contains(x) ==> #[trigger] names_of(before.insert(p, item)).contains(
                x,
            ),
{
    let after = names_of(before.insert(p, item));
    let inserted = names_of(before).insert(p, item.0@);
    assert(after =~= inserted);
    assert forall|x: Seq<char>| names_of(before).contains(x) implies #[trigger] after.contains(x) by {
        let i = choose|i: int| 0 <= i < names_of(before).len() && names_of(before)[i] == x;
        if i < p {
            assert(after[i] == x);
        } else {
            assert(after[i + 1] == x);
        }
    }
    if names_of(before).no_duplicates() && !names_of(before).contains(item.0@) {
        assert forall|i: int, j: int| 0 <= i < after.len() && 0 <= j < after.len() && i != j implies after[i]
            != after[j] by {
            let bi = if i < p { i } else { i - 1 };
            let bj = if j < p { j } else { j - 1 };
            if i == p {
                assert(names_of(before)[bj] == after[j]);
            } else if j == p {
                assert(names_of(before)[bi] == after[i]);
            } else {
                assert(names_of(before)[bi] == after[i]);
                assert(names_of(before)[bj] == after[j]);
            }
        }
    }
}

impl LshIndex {
    /// The banding of this index.
    pub closed spec fn spec_config(self) -> LshConfig {
        self.config
    }

    /// The indexed programs with their signatures, one entry per program.
    pub closed spec fn spec_entries(self) -> Seq<(Seq<char>, Seq<u64>)> {
        entries_of(self.signatures@)
    }

    /// The programs in the bucket of band `band` with key `key`.
    pub closed spec fn spec_members(self, band: int, key: u64) -> Set<Seq<char>> {
        members_of(self.buckets@, band, key)
    }

    #[verifier::type_invariant]
    closed spec fn well_formed(self) -> bool {
        parts_ok(self.config, self.buckets@, self.signatures@)
    }

    pub fn new(signature_len: usize, bands: usize) -> (res: Result<Self, String>)
        ensures
            match res {
                Ok(index) => {
                    &&& spec_config_result(signature_len, bands, Ok(index.spec_config()))
                    &&& index.spec_entries() == Seq::<(Seq<char>, Seq<u64>)>::empty()
                    &&& forall|band: int, key: u64| #[trigger]
                        index.spec_members(band, key) == Set::<Seq<char>>::empty()
                },
                Err(msg) => spec_config_result(signature_len, bands, Err(msg)),
            },
    {
        let config = LshConfig::from_signature_len(signature_len, bands)?;
        let index = Self { config, buckets: Vec::new(), signatures: Vec::new() };
        proof {
            assert(index.spec_entries() =~= Seq::<(Seq<char>, Seq<u64>)>::empty());
            assert forall|band: int, key: u64|
                #[trigger] index.spec_members(band, key) == Set::<Seq<char>>::empty() by {
                assert(index.spec_members(band, key) =~= Set::<Seq<char>>::empty());
            }
        }
        Ok(index)
    }

    /// Record `signature` for `program_id`: the program joins the bucket of
    /// each band of the signature, and its stored signature is replaced, or
    /// added when the program is new.
    pub fn insert(&mut self, program_id: &str, signature: MinHashSignature)
        requires
            spec_fits(signature.values@, old(self).spec_config()),
        ensures
            final(self).spec_config() == old(self).spec_config(),
            final(self).spec_entries() == spec_upsert(
                old(self).spec_entries(),
                program_id@,
                signature.values@,
            ),
            forall|band: int, key: u64| #[trigger]
                final(self).spec_members(band, key) == if 0 <= band < old(self).spec_config().bands
                    && key == spec_band_key(signature.values@, old(self).spec_config(), band) {
                    old(self).spec_members(band, key).insert(program_id@)
                } else {
                    old(self).spec_members(band, key)
                },
            final(self).spec_shares_bucket(signature.values@, program_id@),
            final(self).spec_stored(program_id@) == signature.values@,
            old(self).spec_after_insert(*final(self), program_id@, signature.values@),
    {
        proof {
            use_type_invariant(&*self);
        }
        let ghost old_self = *self;
        let mut taken = LshIndex { config: self.config, buckets: Vec::new(), signatures: Vec::new() };
        std::mem::swap(self, &mut taken);
        proof {
            use_type_invariant(&taken);
        }
        let LshIndex { config, mut buckets, mut signatures } = taken;
        let keys = band_keys(&signature, &config);
        let id = String::from_str(program_id);
        let ghost values = signature.values@;
        upsert_signature(&mut signatures, &id, signature);
        let mut band: usize = 0;
        while band < config.bands
            invariant
                config == old_self.config,
                config.bands > 0,
                keys@.len() == config.bands,
                forall|b: int|
                    0 <= b < config.bands ==> #[trigger] keys@[b] == spec_band_key(
                        values,
                        config,
                        b,
                    ),
                entries_of(signatures@) == spec_upsert(old_self.spec_entries(), id@, values),
                parts_ok(config, buckets@, signatures@),
                spec_has_entry(entries_of(signatures@), id@),
                band <= config.bands,
                forall|b: int, key: u64| #[trigger]
                    members_of(buckets@, b, key) == if 0 <= b < band && key == keys@[b] {
                        old_self.spec_members(b, key).insert(id@)
                    } else {
                        old_self.spec_members(b, key)
                    },
            decreases config.bands - band,
        {
            let key = keys[band];
            let ghost before = buckets@;
            add_to_bucket(&mut buckets, config, band, key, &id, Ghost(entries_of(signatures@)));
            proof {
                assert forall|b: int, k: u64| #[trigger]
                    members_of(buckets@, b, k) == if 0 <= b < band + 1 && k == keys@[b] {
                        old_self.spec_members(b, k).insert(id@)
                    } else {
                        old_self.spec_members(b, k)
                    } by {
                    if b == band && k == key {
                    } else {
                        assert(members_of(buckets@, b, k) == members_of(before, b, k));
                    }
                }
            }
            band = band + 1;
        }
        proof {
            assert(members_of(buckets@, 0, keys@[0]).contains(id@));
        }
        *self = LshIndex { config, buckets, signatures };
        proof {
            assert(self.spec_members(0, spec_band_key(values, self.spec_config(), 0)).contains(id@));
            let e = self.spec_entries();
            let k = choose|k: int| 0 <= k < self.signatures@.len() && #[trigger] e[k] == (id@, values);
            let c = choose|c: int| 0 <= c < e.len() && #[trigger] e[c].0 == id@;
            if c != k {
                if c < k {
                    assert(self.signatures@[c].program_id@ != self.signatures@[k].program_id@);
                } else {
                    assert(self.signatures@[k].program_id@ != self.signatures@[c].program_id@);
                }
            }
        }
    }

    /// Whether `next` is this index after recording `values` for program
    /// `id`: the same banding, the entry for `id` replaced or added, and `id`
    /// added to the bucket of each band of `values`.
    pub open spec fn spec_after_insert(self, next: LshIndex, id: Seq<char>, values: Seq<u64>) -> bool {
        &&& next.spec_config() == self.spec_config()
        &&& next.spec_entries() == spec_upsert(self.spec_entries(), id, values)
        &&& forall|band: int, key: u64| #[trigger]
            next.spec_members(band, key) == if 0 <= band < self.spec_config().bands && key
                == spec_band_key(values, self.spec_config(), band) {
                self.spec_members(band, key).insert(id)
            } else {
                self.spec_members(band, key)
            }
    }

    /// Whether band `band` is the first band in which a signature with
    /// `values` shares its bucket with program `id`.
    pub open spec fn spec_first_shared_band(self, values: Seq<u64>, id: Seq<char>, band: int) -> bool {
        &&& 0 <= band < self.spec_config().bands
        &&& self.spec_members(band, spec_band_key(values, self.spec_config(), band)).contains(id)
        &&& forall|b: int|
            0 <= b < band ==> !#[trigger] self.spec_members(
                b,
                spec_band_key(values, self.spec_config(), b),
            ).contains(id)
    }

    /// The first band in which a signature with `values` shares its bucket
    /// with program `id`.
    pub open spec fn spec_first_band(self, values: Seq<u64>, id: Seq<char>) -> int {
        choose|band: int| self.spec_first_shared_band(values, id, band)
    }

    /// The first shared band is the only band with that property.
    pub proof fn lemma_first_band(self, values: Seq<u64>, id: Seq<char>, band: int)
        requires
            self.spec_first_shared_band(values, id, band),
        ensures
            self.spec_first_band(values, id) == band,
    {
        let b = self.spec_first_band(values, id);
        assert(self.spec_first_shared_band(values, id, b));
        if b < band {
            assert(self.spec_members(b, spec_band_key(values, self.spec_config(), b)).contains(id));
        } else if band < b {
            assert(self.spec_members(band, spec_band_key(values, self.spec_config(), band)).contains(id));
        }
    }

    /// Whether a signature with `values` shares the bucket of some band with program `id`.
    pub open spec fn spec_shares_bucket(self, values: Seq<u64>, id: Seq<char>) -> bool {
        exists|band: int|
            0 <= band < self.spec_config().bands && #[trigger] self.spec_members(
                band,
                spec_band_key(values, self.spec_config(), band),
            ).contains(id)
    }

    /// The programs that share a bucket with `signature`, each once, with the
    /// first band in which it does and that band's key, in order of bands.
    pub fn query(&self, signature: &MinHashSignature) -> (candidates: Vec<LshCandidate>)
        requires
            spec_fits(signature.values@, self.spec_config()),
        ensures
            forall|i: int, j: int|
                0 <= i < j < candidates@.len() ==> #[trigger] candidates@[i].program_id@
                    != #[trigger] candidates@[j].program_id@,
            forall|i: int, j: int|
                0 <= i < j < candidates@.len() ==> #[trigger] candidates@[i].band_index
                    <= #[trigger] candidates@[j].band_index,
            forall|i: int|
                0 <= i < candidates@.len() ==> {
                    &&& self.spec_first_shared_band(
                        signature.values@,
                        (#[trigger] candidates@[i]).program_id@,
                        candidates@[i].band_index as int,
                    )
                    &&& candidates@[i].bucket_key == spec_band_key(
                        signature.values@,
                        self.spec_config(),
                        candidates@[i].band_index as int,
                    )
                },
            forall|id: Seq<char>|
                #[trigger] self.spec_shares_bucket(signature.values@, id) ==> exists|i: int|
                    0 <= i < candidates@.len() && #[trigger] candidates@[i].program_id@ == id,
    {
        proof {
            use_type_invariant(self);
        }
        let keys = band_keys(signature, &self.config);
        let ghost values = signature.values@;
        let ghost cfg = self.config;
        let mut candidates: Vec<LshCandidate> = Vec::new();
        let mut band: usize = 0;
        while band < self.config.bands
            invariant
                parts_ok(self.config, self.buckets@, self.signatures@),
                cfg == self.config,
                spec_fits(values, cfg),
                keys@.len() == cfg.bands,
                forall|b: int|
                    0 <= b < cfg.bands ==> #[trigger] keys@[b] == spec_band_key(values, cfg, b),
                band <= cfg.bands,
                forall|i: int, j: int|
                    0 <= i < j < candidates@.len() ==> #[trigger] candidates@[i].program_id@
                        != #[trigger] candidates@[j].program_id@,
                forall|i: int, j: int|
                    0 <= i < j < candidates@.len() ==> #[trigger] candidates@[i].band_index
                        <= #[trigger] candidates@[j].band_index,
                forall|i: int|
                    0 <= i < candidates@.len() ==> {
                        &&& (#[trigger] candidates@[i]).band_index < band
                        &&& self.spec_first_shared_band(
                            values,
                            candidates@[i].program_id@,
                            candidates@[i].band_index as int,
                        )
                        &&& candidates@[i].bucket_key == spec_band_key(
                            values,
                            cfg,
                            candidates@[i].band_index as int,
                        )
                    },
                forall|b: int, id: Seq<char>|
                    0 <= b < band && #[trigger] self.spec_members(b, keys@[b]).contains(id)
                        ==> spec_listed(candidates@, id),
            decreases cfg.bands - band,
        {
            let key = keys[band];
            match find_bucket(&self.buckets, band, key) {
                Some(bi) => {
                    let ghost bucket_ids = ids_view(self.buckets@[bi as int].ids@);
                    proof {
                        assert forall|id: Seq<char>|
                            self.spec_members(band as int, key).contains(id) <==> bucket_ids.contains(id) by {
                            if self.spec_members(band as int, key).contains(id) {
                                let j = choose|j: int| 0 <= j < self.buckets@.len() && #[trigger] self.buckets@[j].band == band && self.buckets@[j].key == key && ids_view(self.buckets@[j].ids@).contains(id);
                                if j != bi {
                                    if j < bi {
                                        assert(self.buckets@[j].band != self.buckets@[bi as int].band || self.buckets@[j].key != self.buckets@[bi as int].key);
                                    } else {
                                        assert(self.buckets@[bi as int].band != self.buckets@[j].band || self.buckets@[bi as int].key != self.buckets@[j].key);
                                    }
                                }
                            }
                            if bucket_ids.contains(id) {
                                assert(self.buckets@[bi as int].band == band);
                            }
                        }
                    }
                    let ghost before = candidates@;
                    add_bucket_candidates(&mut candidates, &self.buckets[bi].ids, band, key);
                    proof {
                        assert forall|i: int|
                            0 <= i < candidates@.len() implies {
                                &&& (#[trigger] candidates@[i]).band_index < band + 1
                                &&& self.spec_first_shared_band(
                                    values,
                                    candidates@[i].program_id@,
                                    candidates@[i].band_index as int,
                                )
                                &&& candidates@[i].bucket_key == spec_band_key(
                                    values,
                                    cfg,
                                    candidates@[i].band_index as int,
                                )
                            } by {
                            if i >= before.len() {
                                let id = candidates@[i].program_id@;
                                assert(self.spec_members(band as int, key).contains(id));
                                assert forall|b: int| 0 <= b < band implies !#[trigger] self.spec_members(b, spec_band_key(values, cfg, b)).contains(id) by {
                                    assert(keys@[b] == spec_band_key(values, cfg, b));
                                    if self.spec_members(b, keys@[b]).contains(id) {
                                        assert(spec_listed(before, id));
                                    }
                                }
                            } else {
                                assert(candidates@[i] == before[i]);
                            }
                        }
                        assert forall|i: int, j: int|
                            0 <= i < j < candidates@.len() implies #[trigger] candidates@[i].band_index
                                <= #[trigger] candidates@[j].band_index by {
                            if j < before.len() {
                                assert(candidates@[i] == before[i]);
                                assert(candidates@[j] == before[j]);
                            } else if i < before.len() {
                                assert(candidates@[i] == before[i]);
                            }
                        }
                        assert forall|b: int, id: Seq<char>|
                            0 <= b < band + 1 && #[trigger] self.spec_members(b, keys@[b]).contains(id)
                            implies spec_listed(candidates@, id) by {
                            if b == band {
                                let m = choose|m: int| 0 <= m < bucket_ids.len() && bucket_ids[m] == id;
                                assert(spec_listed(candidates@, ids_view(self.buckets@[bi as int].ids@)[m]));
                            } else {
                                assert(spec_listed(before, id));
                                let i = choose|i: int| 0 <= i < before.len() && #[trigger] before[i].program_id@ == id;
                                assert(candidates@[i] == before[i]);
                            }
                        }
                    }
                },
                None => {
                    proof {
                        assert forall|b: int, id: Seq<char>|
                            0 <= b < band + 1 && #[trigger] self.spec_members(b, keys@[b]).contains(id)
                            implies spec_listed(candidates@, id) by {
                            if b == band {
                                let j = choose|j: int| 0 <= j < self.buckets@.len() && #[trigger] self.buckets@[j].band == b && self.buckets@[j].key == keys@[b] && ids_view(self.buckets@[j].ids@).contains(id);
                            }
                        }
                    }
                },
            }
            band = band + 1;
        }
        proof {
            assert forall|id: Seq<char>| #[trigger] self.spec_shares_bucket(values, id) implies exists|i: int|
                0 <= i < candidates@.len() && #[trigger] candidates@[i].program_id@ == id by {
                let b = choose|b: int| 0 <= b < cfg.bands && #[trigger] self.spec_members(b, spec_band_key(values, cfg, b)).contains(id);
                assert(keys@[b] == spec_band_key(values, cfg, b));
                assert(spec_listed(candidates@, id));
            }
        }
        candidates
    }

    /// The stored signature of program `id`.
    pub open spec fn spec_stored(self, id: Seq<char>) -> Seq<u64> {
        let entries = self.spec_entries();
        entries[choose|k: int| 0 <= k < entries.len() && #[trigger] entries[k].0 == id].1
    }

    /// Whether `item` may stand in the scored answer to a query with `values`:
    /// its program shares a bucket with them, and its score is the MinHash
    /// estimate against the program's stored signature, at least `min_jaccard`.
    pub open spec fn spec_scored_item(
        self,
        values: Seq<u64>,
        min_jaccard: Ratio,
        item: (String, Ratio),
    ) -> bool {
        &&& self.spec_shares_bucket(values, item.0@)
        &&& item.1 == spec_estimate_jaccard(values, self.spec_stored(item.0@))
        &&& item.1.spec_at_least(min_jaccard)
        &&& item.1.denominator > 0
    }

    /// The MinHash estimate of `signature` against the stored signature of
    /// program `id`, when it is at least `min_jaccard`.
    fn score_of(&self, signature: &MinHashSignature, id: &String, min_jaccard: &Ratio) -> (score:
        Option<Ratio>)
        requires
            spec_has_entry(self.spec_entries(), id@),
        ensures
            match score {
                Some(s) => s == spec_estimate_jaccard(signature.values@, self.spec_stored(id@))
                    && s.spec_at_least(*min_jaccard) && s.denominator > 0,
                None => !spec_estimate_jaccard(
                    signature.values@,
                    self.spec_stored(id@),
                ).spec_at_least(*min_jaccard),
            },
    {
        proof {
            use_type_invariant(self);
        }
        let found = find_signature(&self.signatures, id);
        let k = match found {
            Some(k) => k,
            None => {
                proof {
                    let e = self.spec_entries();
                    let k = choose|k: int| 0 <= k < e.len() && #[trigger] e[k].0 == id@;
                    assert(self.signatures@[k].program_id@ == id@);
                }
                return None;
            },
        };
        proof {
            let e = self.spec_entries();
            let k2 = choose|k2: int| 0 <= k2 < e.len() && #[trigger] e[k2].0 == id@;
            assert(e[k as int].0 == id@);
            if k2 < k {
                assert(self.signatures@[k2].program_id@ != self.signatures@[k as int].program_id@);
            } else if k2 > k {
                assert(self.signatures@[k as int].program_id@ != self.signatures@[k2].program_id@);
            }
            assert(self.spec_stored(id@) == self.signatures@[k as int].signature.values@);
            assert(signature.values@.len() == signature.values.len());
            crate::minhash::lemma_estimate_jaccard_symmetric_bounded(
                signature.values@,
                self.spec_stored(id@),
            );
        }
        let score = estimate_jaccard(signature, &self.signatures[k].signature);
        if score.at_least(min_jaccard) {
            Some(score)
        } else {
            None
        }
    }

    /// The programs that share a bucket with `signature` and whose MinHash
    /// estimate against it is at least `min_jaccard`, each once with that
    /// estimate, best first; programs of equal estimate come in the order of
    /// the first band in which they share a bucket with `signature`.
    pub fn query_with_scores(&self, signature: &MinHashSignature, min_jaccard: Ratio) -> (scored: Vec<
        (String, Ratio),
    >)
        requires
            spec_fits(signature.values@, self.spec_config()),
            min_jaccard.denominator > 0,
        ensures
            forall|i: int, j: int|
                0 <= i < j < scored@.len() ==> (#[trigger] scored@[i]).1.spec_at_least(
                    (#[trigger] scored@[j]).1,
                ),
            forall|i: int, j: int|
                0 <= i < j < scored@.len() ==> (#[trigger] scored@[i]).0@ != (
                #[trigger] scored@[j]).0@,
            forall|i: int|
                0 <= i < scored@.len() ==> {
                    &&& self.spec_shares_bucket(signature.values@, (#[trigger] scored@[i]).0@)
                    &&& scored@[i].1 == spec_estimate_jaccard(
                        signature.values@,
                        self.spec_stored(scored@[i].0@),
                    )
                    &&& scored@[i].1.spec_at_least(min_jaccard)
                },
            forall|id: Seq<char>|
                #[trigger] self.spec_shares_bucket(signature.values@, id) && spec_estimate_jaccard(
                    signature.values@,
                    self.spec_stored(id),
                ).spec_at_least(min_jaccard) ==> exists|i: int|
                    0 <= i < scored@.len() && #[trigger] scored@[i].0@ == id,
            forall|i: int, j: int|
                0 <= i < j < scored@.len() && (#[trigger] scored@[i]).1.spec_same_value(
                    (#[trigger] scored@[j]).1,
                ) ==> self.spec_first_band(signature.values@, scored@[i].0@) <= self.spec_first_band(
                    signature.values@,
                    scored@[j].0@,
                ),
    {
        proof {
            use_type_invariant(self);
        }
        let candidates = self.query(signature);
        let ghost values = signature.values@;
        let ghost ids = candidates@.map_values(|c: LshCandidate| c.program_id@);
        proof {
            assert forall|i: int| 0 <= i < ids.len() implies spec_has_entry(
                self.spec_entries(),
                #[trigger] ids[i],
            ) && self.spec_shares_bucket(values, ids[i]) by {
                let id = candidates@[i].program_id@;
                assert(ids[i] == id);
                let b = candidates@[i].band_index as int;
                assert(self.spec_first_shared_band(values, id, b));
                let key = spec_band_key(values, self.config, b);
                assert(self.spec_members(b, key).contains(id));
                let j = choose|j: int|
                    0 <= j < self.buckets@.len() && #[trigger] self.buckets@[j].band == b
                        && self.buckets@[j].key == key && ids_view(self.buckets@[j].ids@).contains(
                        id,
                    );
            }
            assert forall|k: int| 0 <= k < ids.len() implies self.spec_first_band(values, #[trigger] ids[k])
                == candidates@[k].band_index by {
                assert(ids[k] == candidates@[k].program_id@);
                self.lemma_first_band(values, ids[k], candidates@[k].band_index as int);
            }
            assert(ids.no_duplicates()) by {
                assert forall|i: int, j: int| 0 <= i < ids.len() && 0 <= j < ids.len() && i != j implies ids[i]
                    != ids[j] by {
                    if i < j {
                        assert(candidates@[i].program_id@ != candidates@[j].program_id@);
                    } else {
                        assert(candidates@[j].program_id@ != candidates@[i].program_id@);
                    }
                }
            }
        }
        let mut scored: Vec<(String, Ratio)> = Vec::new();
        let mut c: usize = 0;
        while c < candidates.len()
            invariant
                values == signature.values@,
                ids == candidates@.map_values(|c: LshCandidate| c.program_id@),
                c <= candidates@.len(),
                ids.no_duplicates(),
                forall|i: int|
                    0 <= i < ids.len() ==> spec_has_entry(self.spec_entries(), #[trigger] ids[i])
                        && self.spec_shares_bucket(values, ids[i]),
                forall|i: int|
                    0 <= i < scored@.len() ==> self.spec_scored_item(
                        values,
                        min_jaccard,
                        #[trigger] scored@[i],
                    ),
                forall|i: int, j: int|
                    0 <= i < j < scored@.len() ==> (#[trigger] scored@[i]).1.spec_at_least(
                        (#[trigger] scored@[j]).1,
                    ),
                names_of(scored@).no_duplicates(),
                forall|i: int| 0 <= i < scored@.len() ==> ids.take(c as int).contains(#[trigger] names_of(scored@)[i]),
                forall|k: int|
                    0 <= k < c && spec_estimate_jaccard(
                        values,
                        self.spec_stored(#[trigger] ids[k]),
                    ).spec_at_least(min_jaccard) ==> names_of(scored@).contains(ids[k]),
                forall|k: int| 0 <= k < ids.len() ==> self.spec_first_band(values, #[trigger] ids[k])
                    == candidates@[k].band_index,
                forall|i: int, j: int|
                    0 <= i < j < candidates@.len() ==> #[trigger] candidates@[i].band_index
                        <= #[trigger] candidates@[j].band_index,
                forall|i: int, j: int|
                    0 <= i < j < scored@.len() && (#[trigger] scored@[i]).1.spec_same_value(
                        (#[trigger] scored@[j]).1,
                    ) ==> self.spec_first_band(values, scored@[i].0@) <= self.spec_first_band(
                        values,
                        scored@[j].0@,
                    ),
            decreases candidates@.len() - c,
        {
            let ghost id = candidates@[c as int].program_id@;
            proof {
                assert(ids[c as int] == id);
                assert(spec_has_entry(self.spec_entries(), ids[c as int]));
                assert(ids.take(c + 1) =~= ids.take(c as int).push(id));
                assert(!ids.take(c as int).contains(id)) by {
                    if ids.take(c as int).contains(id) {
                        let k = choose|k: int| 0 <= k < c && ids.take(c as int)[k] == id;
                        assert(ids[k] == ids[c as int]);
                    }
                }
            }
            let ghost before = scored@;
            match self.score_of(signature, &candidates[c].program_id, &min_jaccard) {
                Some(score) => {
                    let item = (candidates[c].program_id.clone(), score);
                    assert(self.spec_scored_item(values, min_jaccard, item));
                    let pos = insert_by_score(&mut scored, item);
                    proof {
                        let p = pos@;
                        lemma_insert_names(before, p, item);
                        assert forall|i: int| 0 <= i < scored@.len() implies self.spec_scored_item(
                            values,
                            min_jaccard,
                            #[trigger] scored@[i],
                        ) by {
                            if i < p {
                                assert(scored@[i] == before[i]);
                            } else if i > p {
                                assert(scored@[i] == before[i - 1]);
                            }
                        }
                        assert forall|i: int| 0 <= i < scored@.len() implies ids.take(
                            c + 1,
                        ).contains(#[trigger] names_of(scored@)[i]) by {
                            let x = names_of(scored@)[i];
                            if i == p {
                                assert(x == id);
                                assert(ids.take(c + 1)[c as int] == id);
                            } else {
                                if i < p {
                                    assert(x == names_of(before)[i]);
                                    assert(ids.take(c as int).contains(names_of(before)[i]));
                                } else {
                                    assert(x == names_of(before)[i - 1]);
                                    assert(ids.take(c as int).contains(names_of(before)[i - 1]));
                                }
                                let k = choose|k: int| 0 <= k < c && ids.take(c as int)[k] == x;
                                assert(ids.take(c + 1)[k] == x);
                            }
                        }
                        assert(names_of(scored@)[p] == id);
                        assert forall|k: int|
                            0 <= k < c + 1 && spec_estimate_jaccard(
                                values,
                                self.spec_stored(#[trigger] ids[k]),
                            ).spec_at_least(min_jaccard) implies names_of(scored@).contains(ids[k]) by {
                            if k < c {
                                assert(names_of(before).contains(ids[k]));
                            }
                        }
                        if names_of(before).contains(id) {
                            let i = choose|i: int| 0 <= i < before.len() && names_of(before)[i] == id;
                            assert(ids.take(c as int).contains(names_of(before)[i]));
                        }
                        assert forall|i: int, j: int|
                            0 <= i < j < scored@.len() && (#[trigger] scored@[i]).1.spec_same_value(
                                (#[trigger] scored@[j]).1,
                            ) implies self.spec_first_band(values, scored@[i].0@) <= self.spec_first_band(
                                values,
                                scored@[j].0@,
                            ) by {
                            if j < p {
                                assert(scored@[i] == before[i] && scored@[j] == before[j]);
                            } else if j == p {
                                assert(scored@[i] == before[i]);
                                let x = names_of(before)[i];
                                assert(x == before[i].0@);
                                assert(ids.take(c as int).contains(x));
                                let k = choose|k: int| 0 <= k < c && ids.take(c as int)[k] == x;
                                assert(ids[k] == x);
                                assert(candidates@[k].band_index <= candidates@[c as int].band_index);
                                assert(self.spec_first_band(values, ids[c as int]) == candidates@[c as int].band_index);
                            } else if i < p {
                                assert(scored@[i] == before[i] && scored@[j] == before[j - 1]);
                            } else if i == p {
                                assert(scored@[j] == before[j - 1]);
                                assert(!before[j - 1].1.spec_at_least(item.1));
                            } else {
                                assert(scored@[i] == before[i - 1] && scored@[j] == before[j - 1]);
                            }
                        }
                    }
                },
                None => {
                    proof {
                        assert(names_of(scored@) == names_of(before));
                    }
                },
            }
            c = c + 1;
        }
        proof {
            assert forall|id: Seq<char>|
                #[trigger] self.spec_shares_bucket(values, id) && spec_estimate_jaccard(
                    values,
                    self.spec_stored(id),
                ).spec_at_least(min_jaccard) implies exists|i: int|
                    0 <= i < scored@.len() && #[trigger] scored@[i].0@ == id by {
                let kk = choose|kk: int|
                    0 <= kk < candidates@.len() && #[trigger] candidates@[kk].program_id@ == id;
                assert(ids[kk] == id);
                assert(self.spec_stored(ids[kk]) == self.spec_stored(id));
                assert(names_of(scored@).contains(id));
                let i = choose|i: int| 0 <= i < scored@.len() && names_of(scored@)[i] == id;
                assert(scored@[i].0@ == id);
            }
            assert forall|i: int, j: int|
                0 <= i < j < scored@.len() implies (#[trigger] scored@[i]).0@ != (
                #[trigger] scored@[j]).0@ by {
                assert(names_of(scored@)[i] == scored@[i].0@);
                assert(names_of(scored@)[j] == scored@[j].0@);
            }
            assert forall|i: int| 0 <= i < scored@.len() implies {
                &&& self.spec_shares_bucket(values, (#[trigger] scored@[i]).0@)
                &&& scored@[i].1 == spec_estimate_jaccard(values, self.spec_stored(scored@[i].0@))
                &&& scored@[i].1.spec_at_least(min_jaccard)
            } by {
                assert(self.spec_scored_item(values, min_jaccard, scored@[i]));
            }
        }
        scored
    }

    /// The banding of this index.
    pub fn banding(&self) -> (config: LshConfig)
        ensures
            config == self.spec_config(),
    {
        self.config
    }

    /// Number of indexed programs.
    pub fn len(&self) -> (n: usize)
        ensures
            n == self.spec_entries().len(),
    {
        self.signatures.len()
    }

    /// Whether no program is indexed.
    pub fn is_empty(&self) -> (empty: bool)
        ensures
            empty == (self.spec_entries().len() == 0),
    {
        self.signatures.len() == 0
    }
}

} // verus!

verus! {

/// The index entries after inserting the signature of every record of
/// `records`, in order, into an index holding `entries`.
pub open spec fn spec_indexed_entries(
    entries: Seq<(Seq<char>, Seq<u64>)>,
    records: Seq<RecordView>,
) -> Seq<(Seq<char>, Seq<u64>)>
    decreases records.len(),
{
    if records.len() == 0 {
        entries
    } else {
        let r = records.last();
        spec_upsert(spec_indexed_entries(entries, records.drop_last()), r.0, r.4)
    }
}

/// Whether some record of `records` is program `id` with a signature whose
/// band `band` under `config` falls in the bucket `key`.
pub open spec fn spec_banded(
    records: Seq<RecordView>,
    config: LshConfig,
    band: int,
    key: u64,
    id: Seq<char>,
) -> bool {
    &&& 0 <= band < config.bands
    &&& exists|i: int|
        0 <= i < records.len() && #[trigger] records[i].0 == id && spec_band_key(
            records[i].4,
            config,
            band,
        ) == key
}

/// The signature length an index over `records` is built for: that of the
/// first record, or the default number of hashes when there is none.
pub open spec fn spec_index_len(records: Seq<RecordView>) -> usize {
    if records.len() == 0 {
        DEFAULT_NUM_HASHES
    } else {
        records[0].4.len() as usize
    }
}

/// Whether every record of `records` has a signature that fits the banding
/// an index over them would get.
pub open spec fn spec_records_fit(records: Seq<RecordView>, bands: usize) -> bool {
    bands > 0 && spec_index_len(records) % bands == 0 ==> forall|i: int|
        0 <= i < records.len() ==> (#[trigger] records[i]).4.len() >= spec_index_len(records)
}

/// `res` is the index built over `records` with `bands` bands: one whose
/// banding the signature length of the records gives, holding the
/// signature of every record and each program in the buckets of its
/// signatures' bands; or the error that banding gives.
pub open spec fn spec_index_built(
    records: Seq<RecordView>,
    bands: usize,
    res: Result<LshIndex, String>,
) -> bool {
    match res {
        Ok(index) => {
            &&& spec_config_result(spec_index_len(records), bands, Ok(index.spec_config()))
            &&& index.spec_entries() == spec_indexed_entries(Seq::empty(), records)
            &&& forall|band: int, key: u64| #[trigger]
                index.spec_members(band, key) == Set::new(
                    |id: Seq<char>| spec_banded(records, index.spec_config(), band, key, id),
                )
        },
        Err(msg) => spec_config_result(spec_index_len(records), bands, Err(msg)),
    }
}

/// Build an LSH index over the signatures of a fingerprint catalog.
pub fn build_index_from_db(db: &FingerprintDb, bands: usize) -> (res: Result<LshIndex, String>)
    requires
        spec_records_fit(spec_records(db.entries@), bands),
    ensures
        spec_index_built(spec_records(db.entries@), bands, res),
{
    let ghost records = spec_records(db.entries@);
    if db.entries.len() == 0 {
        let res = LshIndex::new(DEFAULT_NUM_HASHES, bands);
        proof {
            if let Ok(index) = &res {
                assert forall|band: int, key: u64| #[trigger]
                    index.spec_members(band, key) == Set::new(
                        |id: Seq<char>| spec_banded(records, index.spec_config(), band, key, id),
                    ) by {
                    assert(Set::new(
                        |id: Seq<char>| spec_banded(records, index.spec_config(), band, key, id),
                    ) =~= Set::<Seq<char>>::empty());
                }
            }
        }
        return res;
    }
    let sig_len = db.entries[0].minhash.len();
    let mut index = LshIndex::new(sig_len, bands)?;
    let ghost config = index.spec_config();
    proof {
        assert(records[0].4.len() == sig_len);
        assert(records.take(0) =~= Seq::<RecordView>::empty());
    }
    let mut i: usize = 0;
    while i < db.entries.len()
        invariant
            i <= db.entries@.len(),
            records == spec_records(db.entries@),
            sig_len == spec_index_len(records),
            spec_records_fit(records, bands),
            config == index.spec_config(),
            spec_config_result(sig_len, bands, Ok(config)),
            index.spec_entries() == spec_indexed_entries(Seq::empty(), records.take(i as int)),
            forall|band: int, key: u64| #[trigger]
                index.spec_members(band, key) == Set::new(
                    |id: Seq<char>| spec_banded(records.take(i as int), config, band, key, id),
                ),
        decreases db.entries@.len() - i,
    {
        let entry = &db.entries[i];
        let signature = MinHashSignature { values: entry.minhash.clone() };
        let ghost before = index;
        proof {
            assert(records[i as int] == spec_record(*entry));
            assert(config.bands * config.rows_per_band == sig_len) by (nonlinear_arith)
                requires
                    config.bands > 0,
                    sig_len % config.bands == 0,
                    config.rows_per_band == sig_len / config.bands,
            ;
        }
        index.insert(entry.program_id.as_str(), signature);
        proof {
            let taken = records.take(i + 1);
            assert(taken.drop_last() =~= records.take(i as int));
            assert(taken.last() == records[i as int]);
            assert forall|band: int, key: u64| #[trigger]
                index.spec_members(band, key) == Set::new(
                    |id: Seq<char>| spec_banded(taken, config, band, key, id),
                ) by {
                let target = Set::new(|id: Seq<char>| spec_banded(taken, config, band, key, id));
                let prev = Set::new(
                    |id: Seq<char>| spec_banded(records.take(i as int), config, band, key, id),
                );
                assert forall|id: Seq<char>| target.contains(id) implies index.spec_members(
                    band,
                    key,
                ).contains(id) by {
                    let k = choose|k: int|
                        0 <= k < taken.len() && #[trigger] taken[k].0 == id && spec_band_key(
                            taken[k].4,
                            config,
                            band,
                        ) == key;
                    if k < i {
                        assert(records.take(i as int)[k] == taken[k]);
                        assert(prev.contains(id));
                    }
                }
                assert forall|id: Seq<char>| index.spec_members(band, key).contains(id) implies target.contains(id) by {
                    if before.spec_members(band, key).contains(id) {
                        assert(prev.contains(id));
                        let k = choose|k: int|
                            0 <= k < records.take(i as int).len() && #[trigger] records.take(
                                i as int,
                            )[k].0 == id && spec_band_key(
                                records.take(i as int)[k].4,
                                config,
                                band,
                            ) == key;
                        assert(taken[k] == records.take(i as int)[k]);
                    } else {
                        assert(taken[i as int].0 == id);
                    }
                }
                assert(index.spec_members(band, key) =~= target);
            }
        }
        i = i + 1;
    }
    proof {
        assert(records.take(records.len() as int) =~= records);
    }
    Ok(index)
}

/// Index every program among the files found under a directory: the files
/// are scanned into a fingerprint catalog, which is then indexed.
pub fn index_directory(files: &[ProgramFile], bands: usize, ngram_size: usize, num_hashes: usize) -> (res:
    Result<LshIndex, String>)
    ensures
        match spec_scan(Seq::empty(), spec_files(files@), ngram_size, num_hashes) {
            Ok(records) => spec_index_built(records, bands, res),
            Err(msg) => res matches Err(e) && e@ == msg,
        },
{
    let db = match FingerprintDb::scan_directory(files, ngram_size, num_hashes) {
        Ok(db) => db,
        Err(msg) => {
            return Err(msg);
        },
    };
    proof {
        let empty = Seq::<RecordView>::empty();
        let all = spec_files(files@);
        lemma_scan_signature_lengths(empty, all, ngram_size, num_hashes);
        let records = spec_records(db.entries@);
        let scanned = spec_scan(empty, all, ngram_size, num_hashes);
        assert(scanned == Ok::<Seq<RecordView>, Seq<char>>(records));
        assert(scanned matches Ok(rs) && forall|i: int| 0 <= i < rs.len() ==> (#[trigger] rs[i]).4.len() == num_hashes);
        if records.len() > 0 {
            assert(records[0].4.len() == num_hashes);
        }
    }
    build_index_from_db(&db, bands)
}

/// Every record a scan stores has a signature of `num_hashes` values, when
/// every record it starts from has.
pub proof fn lemma_scan_signature_lengths(
    records: Seq<RecordView>,
    files: Seq<(Seq<char>, Seq<u8>)>,
    ngram_size: usize,
    num_hashes: usize,
)
    requires
        forall|i: int| 0 <= i < records.len() ==> (#[trigger] records[i]).4.len() == num_hashes,
    ensures
        match spec_scan(records, files, ngram_size, num_hashes) {
            Ok(rs) => forall|i: int| 0 <= i < rs.len() ==> (#[trigger] rs[i]).4.len() == num_hashes,
            Err(_) => true,
        },
    decreases files.len(),
{
    if files.len() > 0 {
        let (path, data) = files[0];
        if spec_parse_elf(data) is Err {
            lemma_scan_signature_lengths(records, files.drop_first(), ngram_size, num_hashes);
        } else if let Ok(r) = spec_entry(
            spec_default_program_id(path),
            path,
            data,
            ngram_size,
            num_hashes,
        ) {
            let next = spec_upsert_record(records, r);
            crate::fingerprint_db::lemma_first_index_bounds(records, r.0, 0);
            assert(r.4.len() == num_hashes);
            assert forall|i: int| 0 <= i < next.len() implies (#[trigger] next[i]).4.len()
                == num_hashes by {
                match spec_first_index(records, r.0) {
                    Some(k) => {
                        if i != k {
                            assert(next[i] == records[i]);
                        }
                    },
                    None => {
                        if i < records.len() {
                            assert(next[i] == records[i]);
                        }
                    },
                }
            }
            lemma_scan_signature_lengths(next, files.drop_first(), ngram_size, num_hashes);
        }
    }
}

/// Recording a signature only adds to what queries find: every program
/// that shared a bucket with a signature before still does, the recorded
/// program has an entry, and the index grows by one entry exactly when the
/// program is new.
pub proof fn lemma_insert_only_adds(
    before: LshIndex,
    after: LshIndex,
    id: Seq<char>,
    values: Seq<u64>,
    query: Seq<u64>,
)
    requires
        before.spec_after_insert(after, id, values),
    ensures
        forall|x: Seq<char>| before.spec_shares_bucket(query, x) ==> #[trigger] after.spec_shares_bucket(query, x),
        spec_has_entry(after.spec_entries(), id),
        after.spec_entries().len() == before.spec_entries().len() + (if spec_has_entry(
            before.spec_entries(),
            id,
        ) {
            0int
        } else {
            1int
        }),
{
    let cfg = before.spec_config();
    assert forall|x: Seq<char>| before.spec_shares_bucket(query, x) implies #[trigger] after.spec_shares_bucket(
        query,
        x,
    ) by {
        let b = choose|b: int|
            0 <= b < cfg.bands && #[trigger] before.spec_members(b, spec_band_key(query, cfg, b)).contains(x);
        assert(after.spec_members(b, spec_band_key(query, cfg, b)).contains(x));
    }
    let e = before.spec_entries();
    if spec_has_entry(e, id) {
        let k = choose|k: int| 0 <= k < e.len() && #[trigger] e[k].0 == id;
        assert(after.spec_entries()[k].0 == id);
    } else {
        assert(after.spec_entries()[e.len() as int].0 == id);
    }
}

/// Whether state `k + 1` of `states` is state `k` after recording insert
/// number `k` of `inserts`.
pub open spec fn spec_insert_step(
    states: Seq<LshIndex>,
    inserts: Seq<(Seq<char>, Seq<u64>)>,
    k: int,
) -> bool {
    states[k].spec_after_insert(states[k + 1], inserts[k].0, inserts[k].1)
}

/// Whether one of the first `m` inserts of `inserts` recorded for program
/// `id` a signature whose band `band` under `config` has the key `key`.
pub open spec fn spec_recorded(
    inserts: Seq<(Seq<char>, Seq<u64>)>,
    m: int,
    config: LshConfig,
    band: int,
    key: u64,
    id: Seq<char>,
) -> bool {
    &&& 0 <= band < config.bands
    &&& exists|k: int|
        0 <= k < m && #[trigger] inserts[k].0 == id && spec_band_key(inserts[k].1, config, band) == key
}

proof fn lemma_inserts_prefix(states: Seq<LshIndex>, inserts: Seq<(Seq<char>, Seq<u64>)>, m: int)
    requires
        states.len() == inserts.len() + 1,
        0 <= m <= inserts.len(),
        forall|band: int, key: u64| #[trigger] states[0].spec_members(band, key) == Set::<Seq<char>>::empty(),
        forall|k: int| 0 <= k < inserts.len() ==> #[trigger] spec_insert_step(states, inserts, k),
    ensures
        states[m].spec_config() == states[0].spec_config(),
        forall|band: int, key: u64, id: Seq<char>|
            #[trigger] states[m].spec_members(band, key).contains(id) <==> spec_recorded(
                inserts,
                m,
                states[0].spec_config(),
                band,
                key,
                id,
            ),
    decreases m,
{
    let cfg = states[0].spec_config();
    if m > 0 {
        lemma_inserts_prefix(states, inserts, m - 1);
        assert(spec_insert_step(states, inserts, m - 1));
        let (id0, v0) = inserts[m - 1];
        assert forall|band: int, key: u64, id: Seq<char>|
            #[trigger] states[m].spec_members(band, key).contains(id) <==> spec_recorded(
                inserts,
                m,
                cfg,
                band,
                key,
                id,
            ) by {
            assert(states[m].spec_members(band, key) == if 0 <= band < cfg.bands && key
                == spec_band_key(v0, cfg, band) {
                states[m - 1].spec_members(band, key).insert(id0)
            } else {
                states[m - 1].spec_members(band, key)
            });
            if spec_recorded(inserts, m, cfg, band, key, id) {
                let k = choose|k: int|
                    0 <= k < m && #[trigger] inserts[k].0 == id && spec_band_key(inserts[k].1, cfg, band) == key;
                if k < m - 1 {
                    assert(spec_recorded(inserts, m - 1, cfg, band, key, id));
                }
            }
            if spec_recorded(inserts, m - 1, cfg, band, key, id) {
                let k = choose|k: int|
                    0 <= k < m - 1 && #[trigger] inserts[k].0 == id && spec_band_key(inserts[k].1, cfg, band)
                        == key;
                assert(inserts[k].0 == id);
            }
            if 0 <= band < cfg.bands && key == spec_band_key(v0, cfg, band) && id == id0 {
                assert(inserts[m - 1].0 == id);
            }
        }
    }
}

/// What queries find after a run of inserts into an index that starts with
/// empty buckets: a program shares a bucket with `query` exactly when some
/// signature recorded for it has the key of `query` in the same band.
pub proof fn lemma_inserts_found(
    states: Seq<LshIndex>,
    inserts: Seq<(Seq<char>, Seq<u64>)>,
    query: Seq<u64>,
)
    requires
        states.len() == inserts.len() + 1,
        forall|band: int, key: u64| #[trigger] states[0].spec_members(band, key) == Set::<Seq<char>>::empty(),
        forall|k: int| 0 <= k < inserts.len() ==> #[trigger] spec_insert_step(states, inserts, k),
    ensures
        forall|id: Seq<char>|
            #[trigger] states.last().spec_shares_bucket(query, id) <==> exists|k: int, band: int|
                0 <= k < inserts.len() && 0 <= band < states[0].spec_config().bands && inserts[k].0
                    == id && #[trigger] spec_band_key(inserts[k].1, states[0].spec_config(), band) == spec_band_key(
                    query,
                    states[0].spec_config(),
                    band,
                ),
{
    let m = inserts.len() as int;
    let cfg = states[0].spec_config();
    lemma_inserts_prefix(states, inserts, m);
    let last = states[m];
    assert(states.last() == last);
    assert forall|id: Seq<char>| #[trigger] states.last().spec_shares_bucket(query, id) <==> exists|k: int, band: int|
        0 <= k < m && 0 <= band < cfg.bands && inserts[k].0 == id && #[trigger] spec_band_key(
            inserts[k].1,
            cfg,
            band,
        ) == spec_band_key(query, cfg, band) by {
        if last.spec_shares_bucket(query, id) {
            let b = choose|b: int|
                0 <= b < cfg.bands && #[trigger] last.spec_members(b, spec_band_key(query, cfg, b)).contains(id);
            assert(spec_recorded(inserts, m, cfg, b, spec_band_key(query, cfg, b), id));
            let k = choose|k: int|
                0 <= k < m && #[trigger] inserts[k].0 == id && spec_band_key(inserts[k].1, cfg, b)
                    == spec_band_key(query, cfg, b);
            assert(inserts[k].0 == id);
        }
        if exists|k: int, band: int|
            0 <= k < m && 0 <= band < cfg.bands && inserts[k].0 == id && #[trigger] spec_band_key(
                inserts[k].1,
                cfg,
                band,
            ) == spec_band_key(query, cfg, band) {
            let (k, b) = choose|k: int, band: int|
                0 <= k < m && 0 <= band < cfg.bands && inserts[k].0 == id && #[trigger] spec_band_key(
                    inserts[k].1,
                    cfg,
                    band,
                ) == spec_band_key(query, cfg, band);
            assert(inserts[k].0 == id);
            assert(spec_recorded(inserts, m, cfg, b, spec_band_key(query, cfg, b), id));
            assert(last.spec_members(b, spec_band_key(query, cfg, b)).contains(id));
        }
    }
}

/// The program ids of `entries`, in order.
pub open spec fn spec_entry_ids(entries: Seq<(Seq<char>, Seq<u64>)>) -> Seq<Seq<char>> {
    entries.map_values(|e: (Seq<char>, Seq<u64>)| e.0)
}

/// The program ids of `records`, as a set.
pub open spec fn spec_record_ids(records: Seq<RecordView>) -> Set<Seq<char>> {
    records.map_values(|r: RecordView| r.0).to_set()
}

proof fn lemma_indexed_entries_ids(records: Seq<RecordView>)
    ensures
        spec_entry_ids(spec_indexed_entries(Seq::empty(), records)).no_duplicates(),
        spec_entry_ids(spec_indexed_entries(Seq::empty(), records)).to_set() == spec_record_ids(records),
    decreases records.len(),
{
    let empty = Seq::<(Seq<char>, Seq<u64>)>::empty();
    if records.len() == 0 {
        assert(spec_entry_ids(empty) =~= Seq::<Seq<char>>::empty());
        assert(spec_record_ids(records) =~= Set::<Seq<char>>::empty());
    } else {
        let rest = records.drop_last();
        let r = records.last();
        lemma_indexed_entries_ids(rest);
        let e = spec_indexed_entries(empty, rest);
        let ids = spec_entry_ids(e);
        let after = spec_upsert(e, r.0, r.4);
        assert(records.map_values(|x: RecordView| x.0) =~= rest.map_values(|x: RecordView| x.0).push(r.0));
        rest.map_values(|x: RecordView| x.0).lemma_push_to_set_commute(r.0);
        if spec_has_entry(e, r.0) {
            let k = choose|k: int| 0 <= k < e.len() && #[trigger] e[k].0 == r.0;
            assert(spec_entry_ids(after) =~= ids);
            assert(ids.to_set().contains(r.0)) by {
                assert(ids[k] == r.0);
            }
            assert(ids.to_set().insert(r.0) =~= ids.to_set());
        } else {
            assert(spec_entry_ids(after) =~= ids.push(r.0));
            assert(!ids.contains(r.0)) by {
                if ids.contains(r.0) {
                    let k = choose|k: int| 0 <= k < ids.len() && ids[k] == r.0;
                    assert(e[k].0 == r.0);
                }
            }
            ids.lemma_push_to_set_commute(r.0);
            assert(ids.push(r.0).no_duplicates()) by {
                assert forall|i: int, j: int|
                    0 <= i < ids.len() + 1 && 0 <= j < ids.len() + 1 && i != j implies ids.push(r.0)[i]
                    != ids.push(r.0)[j] by {
                    if i < ids.len() && j < ids.len() {
                    } else if i == ids.len() {
                        assert(ids[j] != r.0);
                    } else {
                        assert(ids[i] != r.0);
                    }
                }
            }
        }
    }
}

/// An index built from a catalog holds one entry per distinct program id,
/// and every record is found by a query with its own signature.
pub proof fn lemma_built_index_holds_catalog(records: Seq<RecordView>, bands: usize, index: LshIndex)
    requires
        spec_index_built(records, bands, Ok(index)),
    ensures
        index.spec_entries().len() == spec_record_ids(records).len(),
        forall|i: int|
            0 <= i < records.len() ==> index.spec_shares_bucket(
                (#[trigger] records[i]).4,
                records[i].0,
            ),
{
    lemma_indexed_entries_ids(records);
    let ids = spec_entry_ids(index.spec_entries());
    ids.unique_seq_to_set();
    let cfg = index.spec_config();
    assert(cfg.bands > 0);
    assert forall|i: int| 0 <= i < records.len() implies index.spec_shares_bucket(
        (#[trigger] records[i]).4,
        records[i].0,
    ) by {
        let key = spec_band_key(records[i].4, cfg, 0);
        assert(spec_banded(records, cfg, 0, key, records[i].0));
        assert(index.spec_members(0, key).contains(records[i].0));
    }
}

} // verus!
