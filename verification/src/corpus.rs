//! Corpus runs: the status of each file, the tallies over a folder and the
//! gate that a corpus manifest sets over them, and the exit code of an error.
use vstd::prelude::*;
use crate::fmt::{decimal_chars, usize_to_string};
use crate::tagged::{code_less, code_lt, lemma_code_order, lemma_code_trans};
use crate::chars::chars_of;
use crate::textscan::{contains_chars, find_chars};
use crate::types::PdfDiffError;

verus! {

broadcast use vstd::seq_lib::group_seq_properties;

/// The process exit code for an error: 3 for an encrypted input, 4 for a
/// broken internal invariant, 2 for every other error.
pub open spec fn exit_code_spec(error: PdfDiffError) -> i32 {
    match error {
        PdfDiffError::UnsupportedPdf(m) => if contains_chars(m@, "UNSUPPORTED_ENCRYPTION"@) {
            3
        } else {
            2
        },
        PdfDiffError::InternalInvariant(_) => 4,
        _ => 2,
    }
}

/// The process exit code for an error.
pub fn exit_code_for_error(error: &PdfDiffError) -> (code: i32)
    ensures
        code == exit_code_spec(*error),
{
    match error {
        PdfDiffError::UnsupportedPdf(message) => {
            let body = chars_of(message.as_str());
            let pat = chars_of("UNSUPPORTED_ENCRYPTION");
            if find_chars(&body, &pat, 0).is_some() {
                3
            } else {
                2
            }
        },
        PdfDiffError::InternalInvariant(_) => 4,
        _ => 2,
    }
}

/// How a corpus file fared.
#[derive(Debug, Clone, Copy, PartialEq, Eq, Structural)]
pub enum CorpusFileStatus {
    Parsed,
    Partial,
    Failed,
}

/// How a diff pair of a corpus manifest fared.
#[derive(Debug, Clone, Copy, PartialEq, Eq, Structural)]
pub enum CorpusDiffPairStatus {
    Diffed,
    Failed,
}

/// The status of a file: failed when it could not be read or parsed,
/// partial when it parsed with diagnostics, parsed otherwise.
pub fn corpus_file_status(parsed: bool, diagnostic_count: usize) -> (s: CorpusFileStatus)
    ensures
        !parsed ==> s == CorpusFileStatus::Failed,
        parsed && diagnostic_count == 0 ==> s == CorpusFileStatus::Parsed,
        parsed && diagnostic_count > 0 ==> s == CorpusFileStatus::Partial,
{
    if !parsed {
        CorpusFileStatus::Failed
    } else if diagnostic_count == 0 {
        CorpusFileStatus::Parsed
    } else {
        CorpusFileStatus::Partial
    }
}

/// How many of the statuses equal `s`.
pub open spec fn status_count(statuses: Seq<CorpusFileStatus>, s: CorpusFileStatus) -> nat
    decreases statuses.len(),
{
    if statuses.len() == 0 {
        0
    } else {
        status_count(statuses.drop_last(), s) + if statuses.last() == s {
            1nat
        } else {
            0nat
        }
    }
}

/// The tallies of a corpus run.
#[derive(Debug, Clone, Copy, PartialEq, Eq, Structural)]
pub struct CorpusTally {
    pub total: usize,
    pub parsed: usize,
    pub partial: usize,
    pub failed: usize,
}

/// Counts the files of a corpus run: every file that parsed (partial ones
/// included), the partial ones, and the failed ones.
pub fn corpus_tally(statuses: &[CorpusFileStatus]) -> (t: CorpusTally)
    ensures
        t.total == statuses@.len(),
        t.parsed == status_count(statuses@, CorpusFileStatus::Parsed) + status_count(
            statuses@,
            CorpusFileStatus::Partial,
        ),
        t.partial == status_count(statuses@, CorpusFileStatus::Partial),
        t.failed == status_count(statuses@, CorpusFileStatus::Failed),
        t.parsed + t.failed == t.total,
{
    let mut full: usize = 0;
    let mut partial: usize = 0;
    let mut failed: usize = 0;
    let mut i: usize = 0;
    while i < statuses.len()
        invariant
            i <= statuses.len(),
            full == status_count(statuses@.take(i as int), CorpusFileStatus::Parsed),
            partial == status_count(statuses@.take(i as int), CorpusFileStatus::Partial),
            failed == status_count(statuses@.take(i as int), CorpusFileStatus::Failed),
            full + partial + failed == i,
        decreases statuses.len() - i,
    {
        proof {
            assert(statuses@.take(i + 1).drop_last() =~= statuses@.take(i as int));
        }
        match statuses[i] {
            CorpusFileStatus::Parsed => full += 1,
            CorpusFileStatus::Partial => partial += 1,
            CorpusFileStatus::Failed => failed += 1,
        }
        i += 1;
    }
    proof {
        assert(statuses@.take(statuses@.len() as int) =~= statuses@);
    }
    CorpusTally { total: statuses.len(), parsed: full + partial, partial, failed }
}

/// The limits that a corpus manifest sets.
#[derive(Debug, Clone, Copy, PartialEq, Eq, Structural)]
pub struct CorpusThresholds {
    pub min_parsed_files: Option<usize>,
    pub max_missing_required_files: usize,
    pub max_failed_files: usize,
    pub max_failed_diff_pairs: usize,
}

/// Whether a folder of files meets the limits of its corpus manifest, and why not.
pub struct CorpusGateReport {
    pub manifest_schema_version: String,
    pub passed: bool,
    pub thresholds: CorpusThresholds,
    pub missing_required_files: Vec<String>,
    pub failures: Vec<String>,
}

/// The texts of a sequence of strings.
pub open spec fn texts(s: Seq<String>) -> Seq<Seq<char>> {
    s.map_values(|x: String| x@)
}

/// The required files, in manifest order, that were not discovered.
pub open spec fn missing_files(required: Seq<String>, discovered: Seq<String>) -> Seq<String> {
    required.filter(|f: String| !texts(discovered).contains(f@))
}

/// The strings are in non-decreasing order of their UTF-8 bytes.
pub open spec fn sorted_texts(s: Seq<String>) -> bool {
    forall|i: int, j: int| 0 <= i < j < s.len() ==> !code_lt(#[trigger] s[j]@, #[trigger] s[i]@)
}

/// The number of failed diff pairs.
pub open spec fn failed_pair_count(statuses: Seq<CorpusDiffPairStatus>) -> nat
    decreases statuses.len(),
{
    if statuses.len() == 0 {
        0
    } else {
        failed_pair_count(statuses.drop_last()) + if statuses.last() == CorpusDiffPairStatus::Failed {
            1nat
        } else {
            0nat
        }
    }
}

/// The failure message for each limit that the run broke, in the order
/// minimum parsed files, missing required files, failed files, failed diff
/// pairs.
pub open spec fn gate_failures(
    t: CorpusThresholds,
    parsed: nat,
    missing: nat,
    failed: nat,
    failed_pairs: nat,
) -> Seq<Seq<char>> {
    let a = match t.min_parsed_files {
        Some(m) => if parsed < m {
            seq![
                "parsed file count "@ + decimal_chars(parsed) + " is below minimum "@
                    + decimal_chars(m as nat),
            ]
        } else {
            Seq::empty()
        },
        None => Seq::empty(),
    };
    let b = if missing > t.max_missing_required_files {
        seq![
            "missing required file count "@ + decimal_chars(missing) + " exceeds maximum "@
                + decimal_chars(t.max_missing_required_files as nat),
        ]
    } else {
        Seq::empty()
    };
    let c = if failed > t.max_failed_files {
        seq![
            "failed file count "@ + decimal_chars(failed) + " exceeds maximum "@ + decimal_chars(
                t.max_failed_files as nat,
            ),
        ]
    } else {
        Seq::empty()
    };
    let d = if failed_pairs > t.max_failed_diff_pairs {
        seq![
            "failed diff pair count "@ + decimal_chars(failed_pairs) + " exceeds maximum "@
                + decimal_chars(t.max_failed_diff_pairs as nat),
        ]
    } else {
        Seq::empty()
    };
    a + b + c + d
}

fn contains_string(list: &Vec<String>, item: &String) -> (r: bool)
    ensures
        r == texts(list@).contains(item@),
{
    let mut k: usize = 0;
    while k < list.len()
        invariant
            k <= list.len(),
            forall|q: int| 0 <= q < k ==> list@[q]@ != item@,
        decreases list.len() - k,
    {
        if list[k] == *item {
            proof {
                assert(texts(list@)[k as int] == item@);
            }
            return true;
        }
        k += 1;
    }
    proof {
        if texts(list@).contains(item@) {
            let q = choose|q: int| 0 <= q < texts(list@).len() && texts(list@)[q] == item@;
            assert(list@[q]@ == item@);
        }
    }
    false
}

/// The required files that were not discovered, in manifest order.
fn missing_in_order(required: &Vec<String>, discovered: &Vec<String>) -> (r: Vec<String>)
    ensures
        r@ == missing_files(required@, discovered@),
{
    let ghost pred = |f: String| !texts(discovered@).contains(f@);
    let mut out: Vec<String> = Vec::new();
    let mut i: usize = 0;
    while i < required.len()
        invariant
            i <= required.len(),
            pred == (|f: String| !texts(discovered@).contains(f@)),
            out@ == required@.take(i as int).filter(pred),
        decreases required.len() - i,
    {
        proof {
            assert(required@.take(i + 1) =~= required@.take(i as int).push(required@[i as int]));
            required@.take(i as int).lemma_filter_push(required@[i as int], pred);
        }
        if !contains_string(discovered, &required[i]) {
            out.push(required[i].clone());
        }
        i += 1;
    }
    proof {
        assert(required@.take(required@.len() as int) =~= required@);
    }
    out
}

/// Sorts strings by their UTF-8 bytes; equal strings keep their order.
fn sort_texts(items: Vec<String>) -> (r: Vec<String>)
    ensures
        sorted_texts(r@),
        r@.to_multiset() == items@.to_multiset(),
        r@.len() == items@.len(),
{
    let mut out: Vec<String> = Vec::new();
    let mut i: usize = 0;
    while i < items.len()
        invariant
            i <= items.len(),
            sorted_texts(out@),
            out@.to_multiset() == items@.take(i as int).to_multiset(),
            out@.len() == i,
        decreases items.len() - i,
    {
        let x = items[i].clone();
        let mut p: usize = 0;
        while p < out.len() && !code_less(&x, &out[p])
            invariant
                p <= out@.len(),
                forall|q: int| 0 <= q < p ==> !code_lt(x@, (#[trigger] out@[q])@),
            decreases out@.len() - p,
        {
            p += 1;
        }
        let ghost before = out@;
        out.insert(p, x);
        proof {
            assert(out@ == before.insert(p as int, x));
            assert(items@.take(i + 1) =~= items@.take(i as int).push(items@[i as int]));
            assert forall|a: int, b: int| 0 <= a < b < out@.len() implies !code_lt(
                (#[trigger] out@[b])@,
                (#[trigger] out@[a])@,
            ) by {
                if b < p {
                    assert(out@[a] == before[a] && out@[b] == before[b]);
                    assert(!code_lt(before[b]@, before[a]@));
                } else if b == p {
                    assert(out@[a] == before[a]);
                    assert(!code_lt(x@, before[a]@));
                } else if a == p {
                    assert(out@[b] == before[b - 1]);
                    assert(code_lt(x@, before[p as int]@));
                    if b - 1 > p {
                        assert(!code_lt(before[b - 1]@, before[p as int]@));
                        lemma_code_trans(before[b - 1]@, x@, before[p as int]@);
                    } else {
                        lemma_code_order(x@, before[p as int]@);
                    }
                } else if a < p {
                    assert(out@[a] == before[a] && out@[b] == before[b - 1]);
                    assert(!code_lt(before[b - 1]@, before[a]@));
                } else {
                    assert(out@[a] == before[a - 1] && out@[b] == before[b - 1]);
                    assert(!code_lt(before[b - 1]@, before[a - 1]@));
                }
            }
        }
        i += 1;
    }
    proof {
        assert(items@.take(items@.len() as int) =~= items@);
    }
    out
}

fn failed_pairs(statuses: &[CorpusDiffPairStatus]) -> (n: usize)
    ensures
        n == failed_pair_count(statuses@),
{
    let mut n: usize = 0;
    let mut i: usize = 0;
    while i < statuses.len()
        invariant
            i <= statuses.len(),
            n == failed_pair_count(statuses@.take(i as int)),
            n <= i,
        decreases statuses.len() - i,
    {
        proof {
            assert(statuses@.take(i + 1).drop_last() =~= statuses@.take(i as int));
        }
        if statuses[i] == CorpusDiffPairStatus::Failed {
            n += 1;
        }
        i += 1;
    }
    proof {
        assert(statuses@.take(statuses@.len() as int) =~= statuses@);
    }
    n
}

fn count_message(lead: &str, count: usize, tail: &str, limit: usize) -> (s: String)
    ensures
        s@ == lead@ + decimal_chars(count as nat) + tail@ + decimal_chars(limit as nat),
{
    let mut s = lead.to_owned();
    let c = usize_to_string(count);
    s.append(c.as_str());
    s.append(tail);
    let l = usize_to_string(limit);
    s.append(l.as_str());
    s
}

/// Holds a folder's tallies to its manifest's limits: the required files
/// that were not discovered, sorted, and a failure message for each limit
/// broken; the folder passes when there is none.
pub fn build_corpus_gate_report(
    schema_version: &String,
    required_files: &Vec<String>,
    thresholds: CorpusThresholds,
    discovered_files: &Vec<String>,
    parsed: usize,
    failed: usize,
    diff_pairs: &[CorpusDiffPairStatus],
) -> (r: CorpusGateReport)
    ensures
        r.manifest_schema_version@ == schema_version@,
        r.thresholds == thresholds,
        sorted_texts(r.missing_required_files@),
        r.missing_required_files@.to_multiset() == missing_files(
            required_files@,
            discovered_files@,
        ).to_multiset(),
        texts(r.failures@) == gate_failures(
            thresholds,
            parsed as nat,
            missing_files(required_files@, discovered_files@).len(),
            failed as nat,
            failed_pair_count(diff_pairs@),
        ),
        r.passed == (r.failures@.len() == 0),
{
    let missing = missing_in_order(required_files, discovered_files);
    let missing = sort_texts(missing);
    let missing_count = missing.len();
    let failed_pair_total = failed_pairs(diff_pairs);
    let mut failures: Vec<String> = Vec::new();
    let ghost t = thresholds;
    let ghost a: Seq<Seq<char>> = match t.min_parsed_files {
        Some(m) => if parsed < m {
            seq!["parsed file count "@ + decimal_chars(parsed as nat) + " is below minimum "@ + decimal_chars(m as nat)]
        } else {
            Seq::empty()
        },
        None => Seq::empty(),
    };
    if let Some(minimum) = thresholds.min_parsed_files {
        if parsed < minimum {
            failures.push(count_message("parsed file count ", parsed, " is below minimum ", minimum));
        }
    }
    proof {
        assert(texts(failures@) =~= a);
    }
    let ghost fa = failures@;
    if missing_count > thresholds.max_missing_required_files {
        failures.push(count_message(
            "missing required file count ",
            missing_count,
            " exceeds maximum ",
            thresholds.max_missing_required_files,
        ));
    }
    let ghost fb = failures@;
    if failed > thresholds.max_failed_files {
        failures.push(count_message(
            "failed file count ",
            failed,
            " exceeds maximum ",
            thresholds.max_failed_files,
        ));
    }
    let ghost fc = failures@;
    if failed_pair_total > thresholds.max_failed_diff_pairs {
        failures.push(count_message(
            "failed diff pair count ",
            failed_pair_total,
            " exceeds maximum ",
            thresholds.max_failed_diff_pairs,
        ));
    }
    proof {
        to_multiset_len_eq(missing@, missing_files(required_files@, discovered_files@));
        assert(texts(failures@) =~= gate_failures(
            thresholds,
            parsed as nat,
            missing_files(required_files@, discovered_files@).len(),
            failed as nat,
            failed_pair_count(diff_pairs@),
        ));
    }
    let passed = failures.len() == 0;
    CorpusGateReport {
        manifest_schema_version: schema_version.clone(),
        passed,
        thresholds,
        missing_required_files: missing,
        failures,
    }
}

proof fn to_multiset_len_eq(a: Seq<String>, b: Seq<String>)
    requires
        a.to_multiset() == b.to_multiset(),
    ensures
        a.len() == b.len(),
{
    vstd::seq_lib::to_multiset_len(a);
    vstd::seq_lib::to_multiset_len(b);
}

} // verus!
