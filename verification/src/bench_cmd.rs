//! The chunk-size measurement as a command: candidate sizes in, a table out.
use vstd::prelude::*;
use vstd::string::*;

use crate::bench::{
    candidate_reported, BaselineOverlap, BenchReport, CandidateReport, FileChunking,
};
use crate::chunking::{ChunkerConfig, ChunkingError};
use crate::config::{has_target, target_refused};
use crate::progress::{lemma_tells, tells};
use crate::ratio::Ratio;
use crate::text::{
    decimal, fixed_point, law_rounding, parsed_number, push_decimal, push_hundredths, push_right,
    push_thousandths, right_aligned, round_ratio, rounded, string_of, trim_chars, trimmed,
};
use crate::units::{law_sizes_read, parse_size_text, size_in_text, size_unit, UnitFault};

verus! {

/// Why candidate sizes cannot be used.
#[derive(Debug, Clone, PartialEq, Eq)]
pub enum SizesError {
    /// A candidate is empty.
    EmptySize,
    /// A candidate is not a size.
    InvalidSize(String),
    /// A candidate is too large a number.
    SizeOverflows(String),
    /// A candidate is a size that no chunker can have.
    Unusable {
        /// The candidate.
        raw: String,
        /// Why.
        source: ChunkingError,
    },
    /// There is no candidate.
    NoCandidates,
    /// The compression measurements take exactly one candidate.
    NotExactlyOne {
        /// How many there are.
        got: usize,
    },
}

/// Whether an error says why a text is not a size.
pub open spec fn size_refused(e: SizesError, s: Seq<char>, f: UnitFault) -> bool {
    match f {
        UnitFault::Empty => e is EmptySize,
        UnitFault::NotANumber => e matches SizesError::InvalidSize(t) && t@ == trimmed(s),
        UnitFault::Overflow => e matches SizesError::SizeOverflows(t) && t@ == trimmed(s),
    }
}

/// Parses a candidate size such as `256K`, `1M` or `4096` into bytes.
pub fn parse_size(s: &str) -> (r: Result<usize, SizesError>)
    ensures
        match r {
            Ok(v) => size_in_text(s@) == Ok::<int, UnitFault>(v as int),
            Err(e) => size_in_text(s@) matches Err(f) && size_refused(e, s@, f),
        },
{
    match parse_size_text(s) {
        Ok(v) => Ok(v),
        Err(UnitFault::Empty) => Err(SizesError::EmptySize),
        Err(UnitFault::NotANumber) => Err(SizesError::InvalidSize(trimmed_text(s))),
        Err(UnitFault::Overflow) => Err(SizesError::SizeOverflows(trimmed_text(s))),
    }
}

fn trimmed_text(s: &str) -> (r: String)
    ensures
        r@ == trimmed(s@),
{
    let chars: Vec<char> = trim_chars(s);
    let out: String = string_of(&chars, 0, chars.len());
    proof {
        assert(out@ =~= trimmed(s@));
    }
    out
}

/// The targets of the first `n` candidates, each once and in order, or the
/// index of the first candidate that cannot be used.
pub open spec fn targets_of(sizes: Seq<String>, n: int) -> Result<Seq<int>, int>
    decreases n,
{
    if n <= 0 {
        Ok(Seq::empty())
    } else {
        match targets_of(sizes, n - 1) {
            Err(at) => Err(at),
            Ok(seen) => match size_in_text(sizes[n - 1]@) {
                Err(_) => Err(n - 1),
                Ok(target) => if seen.contains(target) {
                    Ok(seen)
                } else if crate::chunking::sizes_valid(
                    target / 4,
                    target,
                    crate::chunking::max_for_target(target),
                ) {
                    Ok(seen.push(target))
                } else {
                    Err(n - 1)
                },
            },
        }
    }
}

proof fn lemma_targets_fail(sizes: Seq<String>, n: int, m: int)
    requires
        0 <= n <= m <= sizes.len(),
        targets_of(sizes, n) is Err,
    ensures
        targets_of(sizes, m) == targets_of(sizes, n),
    decreases m,
{
    if n < m {
        lemma_targets_fail(sizes, n, m - 1);
    }
}

/// Makes chunkers of candidate sizes: each size once, in order. Fails on the
/// first candidate that cannot be used, or if there is none.
pub fn candidate_configs(sizes: &[String]) -> (r: Result<Vec<ChunkerConfig>, SizesError>)
    ensures
        match targets_of(sizes@, sizes@.len() as int) {
            Ok(targets) => if targets.len() == 0 {
                r matches Err(e) && e is NoCandidates
            } else {
                &&& r matches Ok(configs) && configs@.len() == targets.len() && forall|i: int|
                    #![trigger configs@[i]]
                    0 <= i < configs@.len() ==> has_target(configs@[i], targets[i])
            },
            Err(at) => {
                &&& r matches Err(e) && match size_in_text(sizes@[at]@) {
                    Err(f) => size_refused(e, sizes@[at]@, f),
                    Ok(target) => {
                        e matches SizesError::Unusable { raw, source } && raw@ == sizes@[at]@
                            && target_refused(source, target)
                    },
                }
            },
        },
{
    let mut seen: Vec<usize> = Vec::new();
    let mut configs: Vec<ChunkerConfig> = Vec::new();
    let ghost mut targets: Seq<int> = Seq::empty();
    let mut i: usize = 0;
    while i < sizes.len()
        invariant
            i <= sizes@.len(),
            targets_of(sizes@, i as int) == Ok::<Seq<int>, int>(targets),
            seen@.len() == targets.len(),
            configs@.len() == targets.len(),
            forall|k: int| #![trigger seen@[k]] 0 <= k < seen@.len() ==> seen@[k] == targets[k],
            forall|k: int|
                #![trigger configs@[k]]
                0 <= k < configs@.len() ==> has_target(configs@[k], targets[k]),
        decreases sizes@.len() - i,
    {
        let target: usize = match parse_size(sizes[i].as_str()) {
            Ok(t) => t,
            Err(e) => {
                proof {
                    lemma_targets_fail(sizes@, i + 1, sizes@.len() as int);
                }
                return Err(e);
            },
        };
        let mut known: bool = false;
        let mut k: usize = 0;
        while k < seen.len()
            invariant
                k <= seen@.len(),
                known == exists|j: int| 0 <= j < k && #[trigger] seen@[j] == target,
            decreases seen@.len() - k,
        {
            if seen[k] == target {
                known = true;
            }
            k = k + 1;
        }
        proof {
            if known {
                let j = choose|j: int| 0 <= j < k && #[trigger] seen@[j] == target;
                assert(targets[j] == target);
            } else if targets.contains(target as int) {
                let j = choose|j: int| 0 <= j < targets.len() && targets[j] == target;
                assert(seen@[j] == target);
            }
            assert(known == targets.contains(target as int));
        }
        if !known {
            seen.push(target);
            match ChunkerConfig::with_target(target) {
                Ok(c) => {
                    configs.push(c);
                    proof {
                        targets = targets.push(target as int);
                    }
                },
                Err(source) => {
                    proof {
                        lemma_targets_fail(sizes@, i + 1, sizes@.len() as int);
                    }
                    return Err(SizesError::Unusable { raw: sizes[i].clone(), source });
                },
            }
        }
        i = i + 1;
    }
    if configs.len() == 0 {
        return Err(SizesError::NoCandidates);
    }
    Ok(configs)
}

/// Checks that there is exactly one candidate, as the compression measurements
/// need.
pub fn check_single_candidate(got: usize) -> (r: Result<(), SizesError>)
    ensures
        match r {
            Ok(()) => got == 1,
            Err(e) => got != 1 && e == (SizesError::NotExactlyOne { got }),
        },
{
    if got != 1 {
        return Err(SizesError::NotExactlyOne { got });
    }
    Ok(())
}

/// A size in its shortest exact form.
pub open spec fn size_text(bytes: nat) -> Seq<char> {
    if bytes >= 1_048_576 && bytes % 1_048_576 == 0 {
        decimal(bytes / 1_048_576).push('M')
    } else if bytes >= 1024 && bytes % 1024 == 0 {
        decimal(bytes / 1024).push('K')
    } else {
        decimal(bytes).push('B')
    }
}

/// A size in its shortest exact form: mebibytes, kibibytes or bytes.
#[must_use]
pub fn size_label(bytes: u64) -> (r: String)
    ensures
        r@ == size_text(bytes as nat),
{
    let mut out: String = String::new();
    if bytes >= 1_048_576 && bytes % 1_048_576 == 0 {
        push_decimal(&mut out, (bytes / 1_048_576) as u128);
        out.push('M');
    } else if bytes >= 1024 && bytes % 1024 == 0 {
        push_decimal(&mut out, (bytes / 1024) as u128);
        out.push('K');
    } else {
        push_decimal(&mut out, bytes as u128);
        out.push('B');
    }
    proof {
        assert(out@ =~= size_text(bytes as nat));
    }
    out
}

/// 1024 to a small power.
pub open spec fn pow1024(n: nat) -> nat
    decreases n,
{
    if n == 0 {
        1
    } else {
        1024 * pow1024((n - 1) as nat)
    }
}

/// The largest unit, from `k` on, in which the quantity is at least one; there
/// are five.
pub open spec fn unit_from(num: int, den: int, k: nat) -> nat
    decreases 4 - k,
{
    if k >= 4 || num < 1024 * den * pow1024(k) {
        k
    } else {
        unit_from(num, den, k + 1)
    }
}

/// The name of a unit.
pub open spec fn unit_name(k: nat) -> Seq<char> {
    if k == 0 {
        "B"@
    } else if k == 1 {
        "KiB"@
    } else if k == 2 {
        "MiB"@
    } else if k == 3 {
        "GiB"@
    } else {
        "TiB"@
    }
}

/// A quantity of bytes for people: whole bytes, or two decimals of the largest
/// binary unit that it fills.
pub open spec fn human_text(num: int, den: int) -> Seq<char> {
    let k = unit_from(num, den, 0);
    if k == 0 {
        decimal(rounded(num, den) as nat) + seq![' '] + unit_name(0)
    } else {
        fixed_point(rounded(100 * num, den * pow1024(k)) as nat, 2) + seq![' '] + unit_name(k)
    }
}

/// A quantity of bytes for people.
#[must_use]
pub fn human_bytes(bytes: Ratio) -> (r: String)
    requires
        bytes.den > 0,
    ensures
        r@ == human_text(bytes.num as int, bytes.den as int),
{
    let num: u128 = bytes.num as u128;
    let mut den: u128 = bytes.den as u128;
    let mut k: usize = 0;
    proof {
        reveal_with_fuel(pow1024, 5);
    }
    while k < 4 && num >= 1024 * den
        invariant
            k <= 4,
            bytes.den > 0,
            num == bytes.num,
            den == bytes.den * pow1024(k as nat),
            pow1024(k as nat) <= 1_099_511_627_776,
            unit_from(bytes.num as int, bytes.den as int, 0) == unit_from(
                bytes.num as int,
                bytes.den as int,
                k as nat,
            ),
            den <= 0xffff_ffff_ffff_ffff * 1_099_511_627_776,
            0 < den,
        decreases 4 - k,
    {
        proof {
            reveal_with_fuel(pow1024, 5);
            let (d, p) = (bytes.den as int, pow1024(k as nat) as int);
            assert(1024 * (d * p) == 1024 * d * p) by (nonlinear_arith);
            assert(d * (1024 * p) == 1024 * (d * p)) by (nonlinear_arith);
            let q = pow1024((k + 1) as nat) as int;
            assert(q == 1024 * p);
            assert(q <= 1_099_511_627_776);
            assert(d * q <= 0xffff_ffff_ffff_ffff * 1_099_511_627_776) by (nonlinear_arith)
                requires
                    0 < d <= 0xffff_ffff_ffff_ffff,
                    0 <= q <= 1_099_511_627_776,
            ;
        }
        den = 1024 * den;
        k = k + 1;
    }
    proof {
        let (d, p) = (bytes.den as int, pow1024(k as nat) as int);
        assert(1024 * (d * p) == 1024 * d * p) by (nonlinear_arith);
        assert(unit_from(bytes.num as int, bytes.den as int, k as nat) == k);
    }
    let mut out: String = String::new();
    if k == 0 {
        proof {
            reveal_with_fuel(pow1024, 2);
            assert(bytes.den as int * 1 == bytes.den as int) by (nonlinear_arith);
        }
        push_decimal(&mut out, round_ratio(num, den));
        out.push(' ');
        out.push_str("B");
    } else {
        push_hundredths(&mut out, round_ratio(100 * num, den));
        out.push(' ');
        if k == 1 {
            out.push_str("KiB");
        } else if k == 2 {
            out.push_str("MiB");
        } else if k == 3 {
            out.push_str("GiB");
        } else {
            out.push_str("TiB");
        }
    }
    proof {
        assert(out@ =~= human_text(bytes.num as int, bytes.den as int));
    }
    out
}

/// What the reader is told about the dedup figures.
pub open spec fn note_text(has_baseline: bool) -> Seq<char> {
    if has_baseline {
        "overlap% measures real chunk overlap against the baseline tree — the honest proxy for cross-snapshot dedup."@
    } else {
        "no --baseline given: dedup figures are intra-snapshot only and understate versioned savings."@
    }
}

/// What the reader is told about the dedup figures: that they are within one
/// snapshot, unless there is a baseline.
#[must_use]
pub fn dedup_note(report: &BenchReport) -> (r: &'static str)
    ensures
        r@ == note_text(report.baseline_root is Some),
{
    if report.baseline_root.is_some() {
        "overlap% measures real chunk overlap against the baseline tree — the honest proxy for cross-snapshot dedup."
    } else {
        "no --baseline given: dedup figures are intra-snapshot only and understate versioned savings."
    }
}

/// The table's header line.
pub open spec fn header_line(has_baseline: bool) -> Seq<char> {
    let columns = right_aligned("target"@, 8) + seq![' '] + right_aligned("chunks"@, 10) + seq![' ']
        + right_aligned("unique"@, 10) + seq![' '] + right_aligned("dedup"@, 7) + seq![' ']
        + right_aligned("mean"@, 11) + seq![' '] + right_aligned("p50"@, 11) + seq![' ']
        + right_aligned("p95"@, 11) + seq![' '] + right_aligned("index"@, 11) + seq![' ']
        + right_aligned("manifest/snap"@, 14) + seq![' '] + right_aligned("bookkeeping"@, 14);
    if has_baseline {
        columns + seq![' '] + right_aligned("overlap%"@, 9)
    } else {
        columns
    }
}

/// A candidate's line, before the mark of the recommended one.
pub open spec fn candidate_columns(c: CandidateReport) -> Seq<char> {
    right_aligned(size_text(c.target_size as nat), 8) + seq![' '] + right_aligned(
        decimal(c.total_chunks as nat),
        10,
    ) + seq![' '] + right_aligned(decimal(c.unique_chunks as nat), 10) + seq![' ']
        + right_aligned(
        fixed_point(rounded(1000 * c.dedup_ratio.num, c.dedup_ratio.den as int) as nat, 3),
        7,
    ) + seq![' '] + right_aligned(
        human_text(c.mean_chunk_size.num as int, c.mean_chunk_size.den as int),
        11,
    ) + seq![' '] + right_aligned(human_text(c.median_chunk_size as int, 1), 11) + seq![' ']
        + right_aligned(human_text(c.p95_chunk_size as int, 1), 11) + seq![' '] + right_aligned(
        human_text(c.index_bytes as int, 1),
        11,
    ) + seq![' '] + right_aligned(human_text(c.manifest_bytes_per_snapshot as int, 1), 14)
        + seq![' '] + right_aligned(human_text(c.projected_bookkeeping_bytes as int, 1), 14)
}

/// The overlap column of a candidate's line.
pub open spec fn overlap_column(b: Option<BaselineOverlap>) -> Seq<char> {
    match b {
        None => Seq::empty(),
        Some(o) => seq![' '] + right_aligned(
            fixed_point(rounded(10_000 * o.overlap.num, o.overlap.den as int) as nat, 2),
            9,
        ),
    }
}

/// A candidate's line.
pub open spec fn candidate_line(c: CandidateReport, recommended: Option<u64>) -> Seq<char> {
    candidate_columns(c) + overlap_column(c.baseline) + if recommended == Some(c.target_size) {
        "  <== recommended"@
    } else {
        Seq::empty()
    }
}

/// The lines of the first `n` candidates.
pub open spec fn candidate_lines(
    candidates: Seq<CandidateReport>,
    recommended: Option<u64>,
    n: int,
) -> Seq<char>
    decreases n,
{
    if n <= 0 {
        Seq::empty()
    } else {
        (candidate_lines(candidates, recommended, n - 1) + candidate_line(
            candidates[n - 1],
            recommended,
        )).push('\n')
    }
}

/// The line that names the baseline.
pub open spec fn baseline_line(baseline_root: Option<String>) -> Seq<char> {
    match baseline_root {
        Some(b) => ("baseline: "@ + b@).push('\n'),
        None => Seq::empty(),
    }
}

/// What stands above the table.
pub open spec fn table_head(report: BenchReport) -> Seq<char> {
    (((("bench-chunking: "@ + report.root@ + " — "@ + decimal(report.files_scanned as nat)
        + " files, "@ + human_text(report.total_bytes as int, 1)).push('\n') + baseline_line(
        report.baseline_root,
    ) + "bookkeeping projected for N = "@ + decimal(report.snapshots_projected as nat)
        + " retained snapshots"@).push('\n')).push('\n') + header_line(
        report.baseline_root is Some,
    )).push('\n')
}

/// The line that names the recommended size.
pub open spec fn recommended_line(recommended: Option<u64>) -> Seq<char> {
    match recommended {
        Some(t) => ("recommended: "@ + size_text(t as nat)
            + " (lowest unique_bytes + projected bookkeeping; see --help for the heuristic — the choice stays with you)"@).push(
        '\n'),
        None => Seq::empty(),
    }
}

/// What stands below the table.
pub open spec fn table_foot(report: BenchReport, recommended: Option<u64>) -> Seq<char> {
    ("\n"@ + recommended_line(recommended) + "note: "@ + note_text(
        report.baseline_root is Some,
    )).push('\n')
}

/// The whole table.
pub open spec fn table_text(report: BenchReport, recommended: Option<u64>) -> Seq<char> {
    table_head(report) + candidate_lines(
        report.candidates@,
        recommended,
        report.candidates@.len() as int,
    ) + table_foot(report, recommended)
}

/// Whether a report's quotients can be written: none divides by zero.
pub open spec fn quotients_finite(candidates: Seq<CandidateReport>) -> bool {
    forall|i: int|
        #![trigger candidates[i]]
        0 <= i < candidates.len() ==> {
            &&& candidates[i].dedup_ratio.den > 0
            &&& candidates[i].mean_chunk_size.den > 0
            &&& candidates[i].baseline matches Some(b) ==> b.overlap.den > 0
        }
}

fn push_column(out: &mut String, text: &str, width: usize)
    ensures
        final(out)@ == old(out)@ + seq![' '] + right_aligned(text@, width as int),
{
    out.push(' ');
    push_right(out, text, width);
    proof {
        assert(old(out)@.push(' ') =~= old(out)@ + seq![' ']);
    }
}

fn aligned(text: &str, width: usize) -> (r: String)
    ensures
        r@ == right_aligned(text@, width as int),
{
    let mut out: String = String::new();
    push_right(&mut out, text, width);
    proof {
        assert(out@ =~= right_aligned(text@, width as int));
    }
    out
}

fn count_text(n: u64) -> (r: String)
    ensures
        r@ == decimal(n as nat),
{
    let mut out: String = String::new();
    push_decimal(&mut out, n as u128);
    proof {
        assert(out@ =~= decimal(n as nat));
    }
    out
}

fn bytes_text(n: u64) -> (r: String)
    ensures
        r@ == human_text(n as int, 1),
{
    human_bytes(Ratio { num: n, den: 1 })
}

fn header_text(has_baseline: bool) -> (r: String)
    ensures
        r@ == header_line(has_baseline),
{
    let mut out: String = aligned("target", 8);
    push_column(&mut out, "chunks", 10);
    push_column(&mut out, "unique", 10);
    push_column(&mut out, "dedup", 7);
    push_column(&mut out, "mean", 11);
    push_column(&mut out, "p50", 11);
    push_column(&mut out, "p95", 11);
    push_column(&mut out, "index", 11);
    push_column(&mut out, "manifest/snap", 14);
    push_column(&mut out, "bookkeeping", 14);
    if has_baseline {
        push_column(&mut out, "overlap%", 9);
    }
    out
}

fn ratio_text(r: Ratio) -> (out: String)
    requires
        r.den > 0,
    ensures
        out@ == fixed_point(rounded(1000 * r.num, r.den as int) as nat, 3),
{
    let mut out: String = String::new();
    push_thousandths(&mut out, round_ratio(1000 * (r.num as u128), r.den as u128));
    proof {
        assert(out@ =~= fixed_point(rounded(1000 * r.num, r.den as int) as nat, 3));
    }
    out
}

fn columns_text(c: &CandidateReport) -> (r: String)
    requires
        c.dedup_ratio.den > 0,
        c.mean_chunk_size.den > 0,
    ensures
        r@ == candidate_columns(*c),
{
    let mut out: String = aligned(size_label(c.target_size).as_str(), 8);
    push_column(&mut out, count_text(c.total_chunks).as_str(), 10);
    push_column(&mut out, count_text(c.unique_chunks).as_str(), 10);
    push_column(&mut out, ratio_text(c.dedup_ratio).as_str(), 7);
    push_column(&mut out, human_bytes(c.mean_chunk_size).as_str(), 11);
    push_column(&mut out, bytes_text(c.median_chunk_size).as_str(), 11);
    push_column(&mut out, bytes_text(c.p95_chunk_size).as_str(), 11);
    push_column(&mut out, bytes_text(c.index_bytes).as_str(), 11);
    push_column(&mut out, bytes_text(c.manifest_bytes_per_snapshot).as_str(), 14);
    push_column(&mut out, bytes_text(c.projected_bookkeeping_bytes).as_str(), 14);
    out
}

fn overlap_text(baseline: Option<BaselineOverlap>) -> (r: String)
    requires
        baseline matches Some(b) ==> b.overlap.den > 0,
    ensures
        r@ == overlap_column(baseline),
{
    let mut out: String = String::new();
    match baseline {
        Some(b) => {
            let mut text: String = String::new();
            push_hundredths(
                &mut text,
                round_ratio(10_000 * (b.overlap.num as u128), b.overlap.den as u128),
            );
            proof {
                assert(text@ =~= fixed_point(
                    rounded(10_000 * b.overlap.num, b.overlap.den as int) as nat,
                    2,
                ));
            }
            push_column(&mut out, text.as_str(), 9);
        },
        None => {},
    }
    proof {
        assert(out@ =~= overlap_column(baseline));
    }
    out
}

fn candidate_text(c: &CandidateReport, recommended: Option<u64>) -> (r: String)
    requires
        c.dedup_ratio.den > 0,
        c.mean_chunk_size.den > 0,
        c.baseline matches Some(b) ==> b.overlap.den > 0,
    ensures
        r@ == candidate_line(*c, recommended),
{
    let mut out: String = columns_text(c);
    out.push_str(overlap_text(c.baseline).as_str());
    let marked: bool = match recommended {
        Some(t) => t == c.target_size,
        None => false,
    };
    if marked {
        out.push_str("  <== recommended");
    } else {
        proof {
            assert(out@ =~= out@ + Seq::<char>::empty());
        }
    }
    out
}

fn candidates_text(candidates: &Vec<CandidateReport>, recommended: Option<u64>) -> (r: String)
    requires
        quotients_finite(candidates@),
    ensures
        r@ == candidate_lines(candidates@, recommended, candidates@.len() as int),
{
    let mut out: String = String::new();
    let mut i: usize = 0;
    proof {
        assert(out@ =~= candidate_lines(candidates@, recommended, 0));
    }
    while i < candidates.len()
        invariant
            i <= candidates@.len(),
            quotients_finite(candidates@),
            out@ == candidate_lines(candidates@, recommended, i as int),
        decreases candidates@.len() - i,
    {
        out.push_str(candidate_text(&candidates[i], recommended).as_str());
        out.push('\n');
        i = i + 1;
    }
    out
}

fn head_text(report: &BenchReport) -> (r: String)
    ensures
        r@ == table_head(*report),
{
    let mut baseline: String = String::new();
    let mut has_baseline: bool = false;
    match &report.baseline_root {
        Some(b) => {
            has_baseline = true;
            baseline = "baseline: ".to_owned();
            baseline.push_str(b.as_str());
            baseline.push('\n');
        },
        None => {
            proof {
                assert(baseline@ =~= Seq::<char>::empty());
            }
        },
    }
    let mut out: String = "bench-chunking: ".to_owned();
    out.push_str(report.root.as_str());
    out.push_str(" — ");
    out.push_str(count_text(report.files_scanned).as_str());
    out.push_str(" files, ");
    out.push_str(bytes_text(report.total_bytes).as_str());
    out.push('\n');
    out.push_str(baseline.as_str());
    out.push_str("bookkeeping projected for N = ");
    out.push_str(count_text(report.snapshots_projected).as_str());
    out.push_str(" retained snapshots");
    out.push('\n');
    out.push('\n');
    out.push_str(header_text(has_baseline).as_str());
    out.push('\n');
    out
}

fn foot_text(report: &BenchReport, recommended: Option<u64>) -> (r: String)
    ensures
        r@ == table_foot(*report, recommended),
{
    let mut line: String = String::new();
    match recommended {
        Some(t) => {
            line = "recommended: ".to_owned();
            line.push_str(size_label(t).as_str());
            line.push_str(
                " (lowest unique_bytes + projected bookkeeping; see --help for the heuristic — the choice stays with you)",
            );
            line.push('\n');
        },
        None => {
            proof {
                assert(line@ =~= Seq::<char>::empty());
            }
        },
    }
    let mut out: String = "\n".to_owned();
    out.push_str(line.as_str());
    out.push_str("note: ");
    out.push_str(dedup_note(report));
    out.push('\n');
    out
}

/// Renders the table for people.
#[must_use]
pub fn render_table(report: &BenchReport, recommended: Option<u64>) -> (r: String)
    requires
        quotients_finite(report.candidates@),
    ensures
        r@ == table_text(*report, recommended),
{
    let mut out: String = head_text(report);
    out.push_str(candidates_text(&report.candidates, recommended).as_str());
    out.push_str(foot_text(report, recommended).as_str());
    out
}

/// A report that was built can be written: none of its quotients divides by
/// zero.
pub proof fn law_built_reports_render(
    report: BenchReport,
    files: Seq<FileChunking>,
    configs: Seq<ChunkerConfig>,
    snapshots: int,
    baseline: Option<Seq<FileChunking>>,
)
    requires
        report.candidates@.len() == configs.len(),
        forall|ci: int|
            #![trigger report.candidates@[ci]]
            0 <= ci < configs.len() ==> candidate_reported(
                report.candidates@[ci],
                files,
                ci,
                configs[ci],
                snapshots,
                baseline,
            ),
    ensures
        quotients_finite(report.candidates@),
{
}

/// A target size can be used just from 256 bytes to four mebibytes.
pub proof fn law_usable_targets(target: int)
    requires
        0 <= target,
    ensures
        crate::chunking::sizes_valid(
            target / 4,
            target,
            crate::chunking::max_for_target(target),
        ) <==> 256 <= target <= 4_194_304,
{
}

/// Whether a candidate is a size from 256 bytes to four mebibytes.
pub open spec fn usable(size: String) -> bool {
    size_in_text(size@) matches Ok(t) && 256 <= t <= 4_194_304
}

/// The targets are the candidates' sizes, each once; every candidate is a size
/// from 256 bytes to four mebibytes. Otherwise the first that is not is the one
/// reported.
pub proof fn law_targets_are_the_sizes(sizes: Seq<String>, n: int)
    requires
        0 <= n <= sizes.len(),
    ensures
        match targets_of(sizes, n) {
            Ok(targets) => {
                &&& targets.no_duplicates()
                &&& forall|i: int| 0 <= i < n ==> usable(#[trigger] sizes[i])
                &&& forall|t: int| #[trigger]
                    targets.contains(t) <==> exists|i: int|
                        0 <= i < n && size_in_text((#[trigger] sizes[i])@) == Ok::<
                            int,
                            UnitFault,
                        >(t)
            },
            Err(at) => {
                &&& 0 <= at < n
                &&& !usable(sizes[at])
                &&& forall|i: int| 0 <= i < at ==> usable(#[trigger] sizes[i])
            },
        },
    decreases n,
{
    if n > 0 {
        law_targets_are_the_sizes(sizes, n - 1);
        let last = sizes[n - 1];
        lemma_sizes_count(last@);
        if targets_of(sizes, n - 1) is Ok && size_in_text(last@) is Ok {
            let seen = targets_of(sizes, n - 1)->Ok_0;
            let t = size_in_text(last@)->Ok_0;
            law_usable_targets(t);
            if targets_of(sizes, n) is Ok {
                let targets = targets_of(sizes, n)->Ok_0;
                if seen.contains(t) {
                    let i = choose|i: int|
                        0 <= i < n - 1 && size_in_text((#[trigger] sizes[i])@) == Ok::<
                            int,
                            UnitFault,
                        >(t);
                    assert(usable(sizes[i]));
                }
                assert forall|u: int| #[trigger] targets.contains(u) <==> exists|i: int|
                    0 <= i < n && size_in_text((#[trigger] sizes[i])@) == Ok::<int, UnitFault>(
                        u,
                    ) by {
                    lemma_contains_pushed(seen, t, u);
                    if seen.contains(u) {
                        let i = choose|i: int|
                            0 <= i < n - 1 && size_in_text((#[trigger] sizes[i])@) == Ok::<
                                int,
                                UnitFault,
                            >(u);
                        assert(size_in_text(sizes[i]@) == Ok::<int, UnitFault>(u));
                    }
                    if u == t {
                        assert(size_in_text(sizes[n - 1]@) == Ok::<int, UnitFault>(u));
                    }
                }
            }
        }
    }
}

proof fn lemma_contains_pushed(s: Seq<int>, t: int, u: int)
    ensures
        s.push(t).contains(u) <==> s.contains(u) || u == t,
{
    if s.contains(u) {
        let k = choose|k: int| 0 <= k < s.len() && s[k] == u;
        assert(s.push(t)[k] == u);
    }
    assert(s.push(t)[s.len() as int] == t);
    if s.push(t).contains(u) {
        let k = choose|k: int| 0 <= k < s.push(t).len() && s.push(t)[k] == u;
        if k < s.len() {
            assert(s[k] == u);
        }
    }
}

/// Targets come in the order of the candidates: one more candidate adds its
/// size behind those that are there, unless it is there.
pub proof fn law_targets_keep_their_order(sizes: Seq<String>, n: int)
    requires
        0 <= n < sizes.len(),
        targets_of(sizes, n + 1) is Ok,
    ensures
        targets_of(sizes, n) is Ok,
        ({
            let before = targets_of(sizes, n)->Ok_0;
            let t = size_in_text(sizes[n]@)->Ok_0;
            targets_of(sizes, n + 1)->Ok_0 == if before.contains(t) {
                before
            } else {
                before.push(t)
            }
        }),
        targets_of(sizes, 0) == Ok::<Seq<int>, int>(Seq::empty()),
{
}

proof fn lemma_sizes_count(s: Seq<char>)
    ensures
        size_in_text(s) matches Ok(t) ==> t >= 0,
{
    let t = trimmed(s);
    if t.len() > 0 && size_in_text(s) is Ok {
        let body = if size_unit(t.last()) is Some {
            t.drop_last()
        } else {
            t
        };
        let v = parsed_number(body, usize::MAX as int)->0;
        assert(v >= 0);
        assert(v * 1024 >= 0 && v * 1_048_576 >= 0);
    }
}

/// A size label is exact: a label in kibibytes or mebibytes reads back as the
/// size, and any other is the number of bytes.
pub proof fn law_size_labels_are_exact(bytes: nat)
    requires
        bytes <= usize::MAX,
    ensures
        bytes > 0 && bytes % 1024 == 0 ==> size_in_text(size_text(bytes)) == Ok::<int, UnitFault>(
            bytes as int,
        ),
        bytes == 0 || bytes % 1024 != 0 ==> size_text(bytes) == decimal(bytes) + seq!['B'],
        size_text(bytes).last() == 'M' <==> bytes > 0 && bytes % 1_048_576 == 0,
{
    let (k, m) = (bytes / 1024, bytes / 1_048_576);
    if bytes >= 1_048_576 && bytes % 1_048_576 == 0 {
        assert(bytes == 1_048_576 * m);
        assert(bytes % 1024 == 0);
        lemma_label_reads(m);
    } else if bytes >= 1024 && bytes % 1024 == 0 {
        assert(bytes == 1024 * k);
        lemma_label_reads(k);
    } else {
        lemma_label_ends(bytes, 'B');
    }
}

proof fn lemma_label_ends(n: nat, unit: char)
    ensures
        decimal(n).push(unit) == decimal(n) + seq![unit],
        decimal(n).push(unit).last() == unit,
{
    assert(decimal(n).push(unit) =~= decimal(n) + seq![unit]);
}

proof fn lemma_label_reads(n: nat)
    ensures
        n * 1024 <= usize::MAX ==> size_in_text(decimal(n).push('K')) == Ok::<int, UnitFault>(
            (n * 1024) as int,
        ),
        n * 1_048_576 <= usize::MAX ==> size_in_text(decimal(n).push('M')) == Ok::<
            int,
            UnitFault,
        >((n * 1_048_576) as int),
        decimal(n).push('K').last() == 'K',
        decimal(n).push('M').last() == 'M',
{
    law_sizes_read(n);
    lemma_label_ends(n, 'K');
    lemma_label_ends(n, 'M');
}

/// A quantity is shown in the largest binary unit that it fills, up to the
/// fourth, and whole bytes below the first.
pub proof fn law_units_are_filled(num: int, den: int)
    requires
        num >= 0,
        den > 0,
    ensures
        ({
            let k = unit_from(num, den, 0);
            &&& k <= 4
            &&& k == 0 ==> num < 1024 * den
            &&& k == 1 ==> 1024 * den <= num < 1_048_576 * den
            &&& k == 2 ==> 1_048_576 * den <= num < 1_073_741_824 * den
            &&& k == 3 ==> 1_073_741_824 * den <= num < 1_099_511_627_776 * den
            &&& k == 4 ==> 1_099_511_627_776 * den <= num
        }),
        pow1024(0) == 1,
        pow1024(1) == 1024,
        pow1024(2) == 1_048_576,
        pow1024(3) == 1_073_741_824,
        pow1024(4) == 1_099_511_627_776,
{
    reveal_with_fuel(pow1024, 6);
    reveal_with_fuel(unit_from, 6);
    let (p, q, r) = (pow1024(1) as int, pow1024(2) as int, pow1024(3) as int);
    assert(p == 1024 && q == 1_048_576 && r == 1_073_741_824);
    assert(1024 * den * 1 == 1024 * den);
    assert(1024 * den * p == 1_048_576 * den) by (nonlinear_arith)
        requires
            p == 1024,
    ;
    assert(1024 * den * q == 1_073_741_824 * den) by (nonlinear_arith)
        requires
            q == 1_048_576,
    ;
    assert(1024 * den * r == 1_099_511_627_776 * den) by (nonlinear_arith)
        requires
            r == 1_073_741_824,
    ;
    assert(unit_from(num, den, 4) == 4);
    assert(unit_from(num, den, 3) == if num < 1024 * den * r {
        3nat
    } else {
        4
    });
    assert(unit_from(num, den, 2) == if num < 1024 * den * q {
        2
    } else {
        unit_from(num, den, 3)
    });
    assert(unit_from(num, den, 1) == if num < 1024 * den * p {
        1
    } else {
        unit_from(num, den, 2)
    });
    assert(unit_from(num, den, 0) == if num < 1024 * den * 1 {
        0
    } else {
        unit_from(num, den, 1)
    });
}

/// A quantity below a kibibyte is shown as whole bytes, off by at most a half;
/// from there on in hundredths of its unit, off by at most half of one.
pub proof fn law_quantities_are_near(num: int, den: int)
    requires
        num >= 0,
        den > 0,
    ensures
        num < 1024 * den ==> exists|v: nat|
            human_text(num, den) == #[trigger] decimal(v) + " B"@ && -den <= 2 * (v * den - num)
                <= den,
        1024 * den <= num < 1_048_576 * den ==> shown_as(num, den, 1024, " KiB"@),
        1_048_576 * den <= num < 1_073_741_824 * den ==> shown_as(num, den, 1_048_576, " MiB"@),
        1_073_741_824 * den <= num < 1_099_511_627_776 * den ==> shown_as(
            num,
            den,
            1_073_741_824,
            " GiB"@,
        ),
        1_099_511_627_776 * den <= num ==> shown_as(num, den, 1_099_511_627_776, " TiB"@),
{
    law_units_are_filled(num, den);
    reveal_strlit("B");
    reveal_strlit("KiB");
    reveal_strlit("MiB");
    reveal_strlit("GiB");
    reveal_strlit("TiB");
    reveal_strlit(" B");
    reveal_strlit(" KiB");
    reveal_strlit(" MiB");
    reveal_strlit(" GiB");
    reveal_strlit(" TiB");
    assert(seq![' '] + "B"@ =~= " B"@);
    assert(seq![' '] + "KiB"@ =~= " KiB"@);
    assert(seq![' '] + "MiB"@ =~= " MiB"@);
    assert(seq![' '] + "GiB"@ =~= " GiB"@);
    assert(seq![' '] + "TiB"@ =~= " TiB"@);
    let k = unit_from(num, den, 0);
    let unit = pow1024(k) as int;
    let d = den * unit;
    assert(d > 0) by (nonlinear_arith)
        requires
            den > 0,
            unit > 0,
            d == den * unit,
    ;
    if k == 0 {
        law_rounding(num, den);
        lemma_rounded_counts(num, den);
        let v = rounded(num, den) as nat;
        assert(human_text(num, den) =~= decimal(v) + " B"@);
        assert(v * den == rounded(num, den) * den);
    } else {
        law_rounding(100 * num, d);
        lemma_rounded_counts(100 * num, d);
        let v = rounded(100 * num, d) as nat;
        assert(den * unit == unit * den) by (nonlinear_arith);
        assert(human_text(num, den) =~= fixed_point(v, 2) + (seq![' '] + unit_name(k)));
        assert(v * (unit * den) == rounded(100 * num, d) * d);
        assert(shown_as(num, den, unit, seq![' '] + unit_name(k)));
    }
}

/// Whether a quantity is shown in hundredths of a unit, off by at most half of
/// one.
pub open spec fn shown_as(num: int, den: int, unit: int, name: Seq<char>) -> bool {
    exists|v: nat|
        human_text(num, den) == #[trigger] fixed_point(v, 2) + name && -(unit * den) <= 2 * (v * (
        unit * den) - 100 * num) <= unit * den
}

proof fn lemma_rounded_counts(num: int, den: int)
    requires
        num >= 0,
        den > 0,
    ensures
        rounded(num, den) >= 0,
{
    assert(num / den >= 0) by (nonlinear_arith)
        requires
            num >= 0,
            den > 0,
    ;
}

/// Only the recommended size's line is marked.
pub proof fn law_only_the_recommended_line_is_marked(
    c: CandidateReport,
    recommended: Option<u64>,
)
    ensures
        recommended == Some(c.target_size) ==> candidate_line(c, recommended) == candidate_line(
            c,
            None,
        ) + "  <== recommended"@,
        recommended != Some(c.target_size) ==> candidate_line(c, recommended) == candidate_line(
            c,
            None,
        ),
{
    let bare = candidate_columns(c) + overlap_column(c.baseline);
    assert(bare + Seq::<char>::empty() =~= bare);
}

/// Every candidate has a line of its own, in the order of the report.
pub proof fn law_lines_follow_the_candidates(
    candidates: Seq<CandidateReport>,
    recommended: Option<u64>,
    n: int,
)
    requires
        0 <= n < candidates.len(),
    ensures
        candidate_lines(candidates, recommended, n + 1) == candidate_lines(
            candidates,
            recommended,
            n,
        ) + candidate_line(candidates[n], recommended) + seq!['\n'],
        candidate_lines(candidates, recommended, 0) == Seq::<char>::empty(),
{
    assert(candidate_lines(candidates, recommended, n + 1) =~= candidate_lines(
        candidates,
        recommended,
        n,
    ) + candidate_line(candidates[n], recommended) + seq!['\n']);
}

/// Whether a text stands right-aligned in a column of a line.
pub open spec fn in_column(line: Seq<char>, from: int, to: int, text: Seq<char>) -> bool {
    0 <= from <= to <= line.len() && line.subrange(from, to) == right_aligned(text, to - from)
}

/// Every figure of a candidate stands under its heading, where it fits its
/// column.
#[verifier::rlimit(60)]
pub proof fn law_figures_stand_under_their_headings(c: CandidateReport)
    requires
        size_text(c.target_size as nat).len() <= 8,
        decimal(c.total_chunks as nat).len() <= 10,
        decimal(c.unique_chunks as nat).len() <= 10,
        fixed_point(rounded(1000 * c.dedup_ratio.num, c.dedup_ratio.den as int) as nat, 3).len()
            <= 7,
        human_text(c.mean_chunk_size.num as int, c.mean_chunk_size.den as int).len() <= 11,
        human_text(c.median_chunk_size as int, 1).len() <= 11,
        human_text(c.p95_chunk_size as int, 1).len() <= 11,
        human_text(c.index_bytes as int, 1).len() <= 11,
        human_text(c.manifest_bytes_per_snapshot as int, 1).len() <= 14,
        human_text(c.projected_bookkeeping_bytes as int, 1).len() <= 14,
    ensures
        ({
            let head = header_line(true);
            let line = candidate_columns(c);
            &&& line.len() == 116
            &&& header_line(false) == head.take(116)
            &&& in_column(head, 0, 8, "target"@)
            &&& in_column(line, 0, 8, size_text(c.target_size as nat))
            &&& in_column(head, 9, 19, "chunks"@)
            &&& in_column(line, 9, 19, decimal(c.total_chunks as nat))
            &&& in_column(head, 20, 30, "unique"@)
            &&& in_column(line, 20, 30, decimal(c.unique_chunks as nat))
            &&& in_column(head, 31, 38, "dedup"@)
            &&& in_column(
                line,
                31,
                38,
                fixed_point(rounded(1000 * c.dedup_ratio.num, c.dedup_ratio.den as int) as nat, 3),
            )
            &&& in_column(head, 39, 50, "mean"@)
            &&& in_column(
                line,
                39,
                50,
                human_text(c.mean_chunk_size.num as int, c.mean_chunk_size.den as int),
            )
            &&& in_column(head, 51, 62, "p50"@)
            &&& in_column(line, 51, 62, human_text(c.median_chunk_size as int, 1))
            &&& in_column(head, 63, 74, "p95"@)
            &&& in_column(line, 63, 74, human_text(c.p95_chunk_size as int, 1))
            &&& in_column(head, 75, 86, "index"@)
            &&& in_column(line, 75, 86, human_text(c.index_bytes as int, 1))
            &&& in_column(head, 87, 101, "manifest/snap"@)
            &&& in_column(line, 87, 101, human_text(c.manifest_bytes_per_snapshot as int, 1))
            &&& in_column(head, 102, 116, "bookkeeping"@)
            &&& in_column(line, 102, 116, human_text(c.projected_bookkeeping_bytes as int, 1))
            &&& in_column(head, 117, 126, "overlap%"@)
        }),
{
    reveal_strlit("target");
    reveal_strlit("chunks");
    reveal_strlit("unique");
    reveal_strlit("dedup");
    reveal_strlit("mean");
    reveal_strlit("p50");
    reveal_strlit("p95");
    reveal_strlit("index");
    reveal_strlit("manifest/snap");
    reveal_strlit("bookkeeping");
    reveal_strlit("overlap%");
    let line = candidate_columns(c);
    let head = header_line(true);
    assert(line.subrange(0, 8) =~= right_aligned(size_text(c.target_size as nat), 8));
    assert(line.subrange(9, 19) =~= right_aligned(decimal(c.total_chunks as nat), 10));
    assert(line.subrange(20, 30) =~= right_aligned(decimal(c.unique_chunks as nat), 10));
    assert(line.subrange(31, 38) =~= right_aligned(
        fixed_point(rounded(1000 * c.dedup_ratio.num, c.dedup_ratio.den as int) as nat, 3),
        7,
    ));
    assert(line.subrange(39, 50) =~= right_aligned(
        human_text(c.mean_chunk_size.num as int, c.mean_chunk_size.den as int),
        11,
    ));
    assert(line.subrange(51, 62) =~= right_aligned(human_text(c.median_chunk_size as int, 1), 11));
    assert(line.subrange(63, 74) =~= right_aligned(human_text(c.p95_chunk_size as int, 1), 11));
    assert(line.subrange(75, 86) =~= right_aligned(human_text(c.index_bytes as int, 1), 11));
    assert(line.subrange(87, 101) =~= right_aligned(
        human_text(c.manifest_bytes_per_snapshot as int, 1),
        14,
    ));
    assert(line.subrange(102, 116) =~= right_aligned(
        human_text(c.projected_bookkeeping_bytes as int, 1),
        14,
    ));
    assert(header_line(false) =~= head.take(116));
    assert(head.subrange(0, 8) =~= right_aligned("target"@, 8));
    assert(head.subrange(9, 19) =~= right_aligned("chunks"@, 10));
    assert(head.subrange(20, 30) =~= right_aligned("unique"@, 10));
    assert(head.subrange(31, 38) =~= right_aligned("dedup"@, 7));
    assert(head.subrange(39, 50) =~= right_aligned("mean"@, 11));
    assert(head.subrange(51, 62) =~= right_aligned("p50"@, 11));
    assert(head.subrange(63, 74) =~= right_aligned("p95"@, 11));
    assert(head.subrange(75, 86) =~= right_aligned("index"@, 11));
    assert(head.subrange(87, 101) =~= right_aligned("manifest/snap"@, 14));
    assert(head.subrange(102, 116) =~= right_aligned("bookkeeping"@, 14));
    assert(head.subrange(117, 126) =~= right_aligned("overlap%"@, 9));
}

/// The overlap is shown in percent with two decimals, off by at most half a
/// hundredth; without a baseline there is no column.
pub proof fn law_overlap_column(o: BaselineOverlap)
    requires
        o.overlap.den > 0,
    ensures
        overlap_column(None) == Seq::<char>::empty(),
        exists|v: nat|
            {
                let (num, den) = (o.overlap.num as int, o.overlap.den as int);
                &&& overlap_column(Some(o)) == seq![' '] + right_aligned(
                    #[trigger] fixed_point(v, 2),
                    9,
                )
                &&& -den <= 2 * (v * den - 100 * 100 * num) <= den
            },
{
    let (num, den) = (o.overlap.num as int, o.overlap.den as int);
    law_rounding(10_000 * num, den);
    lemma_rounded_counts(10_000 * num, den);
    let v = rounded(10_000 * num, den) as nat;
    assert(v * den == rounded(10_000 * num, den) * den);
    assert(overlap_column(Some(o)) == seq![' '] + right_aligned(fixed_point(v, 2), 9));
}

/// The table starts with the tree, its number of files and its bytes, names the
/// baseline just if there is one, and tells for how many snapshots the
/// bookkeeping is projected.
pub proof fn law_table_head_tells(report: BenchReport)
    ensures
        ({
            let head = table_head(report);
            let first = "bench-chunking: "@ + report.root@ + " — "@ + decimal(
                report.files_scanned as nat,
            ) + " files, "@ + human_text(report.total_bytes as int, 1) + seq!['\n'];
            &&& head.len() >= first.len()
            &&& head.take(first.len() as int) == first
            &&& tells(head, " — "@, report.files_scanned as nat, " files, "@)
            &&& tells(
                head,
                "bookkeeping projected for N = "@,
                report.snapshots_projected as nat,
                " retained snapshots"@,
            )
            &&& report.baseline_root is None ==> baseline_line(report.baseline_root).len() == 0
            &&& report.baseline_root matches Some(b) ==> baseline_line(report.baseline_root)
                == "baseline: "@ + b@ + seq!['\n']
        }),
{
    let head = table_head(report);
    let h0 = "bench-chunking: "@ + report.root@;
    let h1 = h0 + " — "@ + decimal(report.files_scanned as nat);
    let text = human_text(report.total_bytes as int, 1);
    let first = h1 + " files, "@ + text + seq!['\n'];
    let base = baseline_line(report.baseline_root);
    let n = decimal(report.snapshots_projected as nat);
    let columns = header_line(report.baseline_root is Some);
    let w0 = "bookkeeping projected for N = "@;
    let w1 = " retained snapshots"@;
    let tail = seq!['\n', '\n'] + columns + seq!['\n'];
    assert((h1 + " files, "@ + text).push('\n') =~= first);
    let front = first + base;
    assert(head =~= front + w0 + n + (w1 + tail));
    lemma_tells(head, front, w0, report.snapshots_projected as nat, w1, tail);
    let rest = text + seq!['\n'] + base + (w0 + (n + (w1 + tail)));
    assert(front + (w0 + (n + (w1 + tail))) =~= h0 + " — "@ + decimal(
        report.files_scanned as nat,
    ) + (" files, "@ + rest));
    lemma_tells(head, h0, " — "@, report.files_scanned as nat, " files, "@, rest);
    assert(head.take(first.len() as int) =~= first);
    if report.baseline_root is Some {
        let b = report.baseline_root->0;
        assert(base =~= "baseline: "@ + b@ + seq!['\n']);
    }
}

/// Below the table stands the recommended size, just if there is one.
pub proof fn law_recommendation_is_told(recommended: Option<u64>)
    ensures
        recommended is None ==> recommended_line(recommended) == Seq::<char>::empty(),
        recommended matches Some(t) ==> {
            let front = "recommended: "@ + size_text(t as nat);
            &&& recommended_line(recommended).len() > front.len()
            &&& recommended_line(recommended).take(front.len() as int) == front
        },
{
    if recommended is Some {
        let front = "recommended: "@ + size_text(recommended->0 as nat);
        assert(recommended_line(recommended).take(front.len() as int) =~= front);
    }
}

/// The table is its head, a line per candidate and its foot, in this order.
pub proof fn law_table_is_whole(report: BenchReport, recommended: Option<u64>)
    ensures
        table_text(report, recommended) == table_head(report) + candidate_lines(
            report.candidates@,
            recommended,
            report.candidates@.len() as int,
        ) + table_foot(report, recommended),
        table_foot(report, recommended) == "\n"@ + recommended_line(recommended) + "note: "@
            + note_text(report.baseline_root is Some) + seq!['\n'],
{
    assert(table_foot(report, recommended) =~= "\n"@ + recommended_line(recommended) + "note: "@
        + note_text(report.baseline_root is Some) + seq!['\n']);
}

/// A candidate that is not a size is refused for what is wrong with it, with its
/// text.
pub proof fn law_refused_candidates(e: SizesError, s: Seq<char>, f: UnitFault)
    requires
        size_refused(e, s, f),
    ensures
        e is EmptySize <==> f == UnitFault::Empty,
        e is InvalidSize <==> f == UnitFault::NotANumber,
        e is SizeOverflows <==> f == UnitFault::Overflow,
        e matches SizesError::InvalidSize(t) ==> t@ == trimmed(s),
        e matches SizesError::SizeOverflows(t) ==> t@ == trimmed(s),
{
}

} // verus!
