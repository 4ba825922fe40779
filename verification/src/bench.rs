//! Chunk-size measurements: what each candidate size would store, and the
//! exact bookkeeping it would cost.
//!
//! * index bytes: unique chunks times [`IndexEntry::WIRE_SIZE`];
//! * manifest bytes per snapshot: header, plus for each file its fixed part,
//!   its path and 32 bytes per chunk;
//! * bookkeeping for a number of snapshots: index bytes plus that many
//!   manifests.
use vstd::prelude::*;
use vstd::string::*;
use vstd::utf8::encode_utf8;

use crate::chunking::{
    blake3_hash, chunk_bytes, chunks_of, cut_bytes, fastcdc_cuts, Chunk, ChunkId, ChunkerConfig,
    ChunkingError,
};
use crate::idset::IdSet;
use crate::manifest::{file_len, files_len, manifest_len, FileModel, ManifestModel};
use crate::ratio::Ratio;
use crate::sort::{
    by_text, is_arrangement, law_arrangement_is_complete, sorted_places, text_order, Ranked,
};
use crate::text::lex_le;

pub use crate::manifest::{MANIFEST_FILE_FIXED_BYTES, MANIFEST_HEADER_BYTES};

verus! {

/// The retention tiers as start and cell width in hours.
pub const RETENTION_TIERS: [(u64, u64); 4] = [(0, 3), (24, 24), (96, 96), (384, 384)];

/// The default planning window in days.
pub const DEFAULT_PROJECTION_HORIZON_DAYS: u64 = 365;

/// How many cells of a width a tier from `start` to `end` carves out of
/// `[0, horizon)`; a partial last cell counts.
pub open spec fn cells_between(start: int, end: int, width: int, horizon: int) -> int {
    let upper = if end < horizon {
        end
    } else {
        horizon
    };
    if upper > start {
        (upper - start + width - 1) / width
    } else {
        0
    }
}

/// Twenty-four times a number of days, as far as `u64` goes.
pub open spec fn horizon_hours(days: int) -> int {
    if days * 24 > u64::MAX {
        u64::MAX as int
    } else {
        days * 24
    }
}

/// The snapshots that the retention grid holds over a history of so many
/// days: one per cell.
pub open spec fn steady_state(days: int) -> int {
    let h = horizon_hours(days);
    cells_between(0, 24, 3, h) + cells_between(24, 96, 24, h) + cells_between(96, 384, 96, h)
        + cells_between(384, u64::MAX as int, 384, h)
}

fn count_cells(start: u64, end: u64, width: u64, horizon: u64) -> (r: u64)
    requires
        width > 0,
    ensures
        r == cells_between(start as int, end as int, width as int, horizon as int),
{
    let upper: u64 = if end < horizon {
        end
    } else {
        horizon
    };
    if upper > start {
        let n: u64 = upper - start;
        proof {
            let (a, w) = (n as int, width as int);
            assert((a - 1) / w + 1 == (a + w - 1) / w) by (nonlinear_arith)
                requires
                    w > 0,
            ;
            assert(0 <= (a - 1) / w <= a - 1) by (nonlinear_arith)
                requires
                    a >= 1,
                    w > 0,
            ;
        }
        (n - 1) / width + 1
    } else {
        0
    }
}

/// The snapshots that the retention grid holds over a history of so many
/// days.
#[must_use]
pub fn steady_state_snapshots(horizon_days: u64) -> (r: u64)
    ensures
        r == steady_state(horizon_days as int),
{
    let horizon: u64 = match horizon_days.checked_mul(24) {
        Some(h) => h,
        None => u64::MAX,
    };
    let tiers: [(u64, u64); 4] = RETENTION_TIERS;
    let a: u64 = count_cells(tiers[0].0, tiers[1].0, tiers[0].1, horizon);
    let b: u64 = count_cells(tiers[1].0, tiers[2].0, tiers[1].1, horizon);
    let c: u64 = count_cells(tiers[2].0, tiers[3].0, tiers[2].1, horizon);
    let d: u64 = count_cells(tiers[3].0, u64::MAX, tiers[3].1, horizon);
    a + b + c + d
}

/// Errors of the measurements.
#[derive(Debug, Clone, PartialEq, Eq)]
pub enum BenchError {
    /// Chunking a file failed.
    Chunking {
        /// The file.
        path: String,
        /// The failure.
        source: ChunkingError,
    },
    /// Reading failed.
    Io {
        /// The path.
        path: String,
        /// The failure, in words.
        source: String,
    },
    /// The root is not a directory.
    NotADirectory(String),
    /// A path is not UTF-8.
    NonUtf8Path(String),
    /// A file does not have one result per candidate.
    CandidateMismatch {
        /// The file.
        path: String,
        /// How many results it has.
        got: usize,
        /// How many candidates there are.
        expected: usize,
    },
}

/// Identity and length of a chunk.
#[derive(Debug, Clone, Copy, PartialEq, Eq)]
pub struct ChunkMeta {
    /// The identity.
    pub id: ChunkId,
    /// The length in bytes.
    pub len: u64,
}

/// One source chunked under several configurations.
#[derive(Debug, Clone, PartialEq, Eq)]
pub struct FanOut {
    /// The chunks, one list per configuration, in their order.
    pub per_candidate: Vec<Vec<ChunkMeta>>,
    /// The length of the source.
    pub bytes_read: u64,
}

/// One file chunked under several configurations.
#[derive(Debug, Clone, PartialEq, Eq)]
pub struct FileChunking {
    /// Path below the root, with `/` between components.
    pub rel_path: String,
    /// Length of the file.
    pub file_bytes: u64,
    /// The chunks, one list per configuration, in their order.
    pub per_candidate: Vec<Vec<ChunkMeta>>,
}

/// Whether `metas` are the chunks of `data` under a configuration, with plain
/// identities.
pub open spec fn metas_of(metas: Seq<ChunkMeta>, data: Seq<u8>, config: ChunkerConfig) -> bool {
    let cuts = fastcdc_cuts(data, config.run_min(), config.target(), config.max());
    &&& metas.len() == cuts.len()
    &&& forall|k: int|
        #![trigger metas[k]]
        0 <= k < metas.len() ==> metas[k].len == cut_bytes(data, cuts[k]).len() && metas[k].id@
            == blake3_hash(cut_bytes(data, cuts[k]))
}

/// The identity and length of a chunk.
#[must_use]
pub fn chunk_meta(chunk: &Chunk) -> (r: ChunkMeta)
    ensures
        r.id == chunk.id,
        r.len == chunk.data@.len(),
{
    ChunkMeta { id: chunk.id, len: chunk.data.len() as u64 }
}

fn metas_under(data: &[u8], config: &ChunkerConfig) -> (r: Vec<ChunkMeta>)
    ensures
        metas_of(r@, data@, *config),
        byte_sum(r@) == data@.len(),
{
    let chunks: Vec<Chunk> = chunk_bytes(data, config);
    let mut out: Vec<ChunkMeta> = Vec::with_capacity(chunks.len());
    let mut k: usize = 0;
    while k < chunks.len()
        invariant
            k <= chunks@.len(),
            out@.len() == k,
            byte_sum(out@) == crate::chunking::joined(chunks@.take(k as int)).len(),
            forall|j: int|
                #![trigger out@[j]]
                0 <= j < k ==> out@[j].id == chunks@[j].id && out@[j].len
                    == chunks@[j].data@.len(),
        decreases chunks@.len() - k,
    {
        let ghost before = out@;
        out.push(chunk_meta(&chunks[k]));
        proof {
            assert(out@.drop_last() =~= before);
            assert(chunks@.take(k + 1).drop_last() =~= chunks@.take(k as int));
        }
        k = k + 1;
    }
    proof {
        assert(chunks@.take(k as int) =~= chunks@);
        assert forall|j: int| #![trigger out@[j]] 0 <= j < out@.len() implies out@[j].len
            == cut_bytes(
            data@,
            fastcdc_cuts(data@, config.run_min(), config.target(), config.max())[j],
        ).len() && out@[j].id@ == blake3_hash(
            cut_bytes(
                data@,
                fastcdc_cuts(data@, config.run_min(), config.target(), config.max())[j],
            ),
        ) by {
            assert(chunks@[j].id@ == blake3_hash(chunks@[j].data@));
        }
    }
    out
}

/// Chunks one source under every configuration.
#[must_use]
pub fn fan_out_chunks(source: &[u8], configs: &[ChunkerConfig]) -> (r: FanOut)
    ensures
        r.bytes_read == source@.len(),
        r.per_candidate@.len() == configs@.len(),
        forall|i: int|
            #![trigger r.per_candidate@[i]]
            0 <= i < configs@.len() ==> metas_of(r.per_candidate@[i]@, source@, configs@[i])
                && byte_sum(r.per_candidate@[i]@) == source@.len(),
{
    let mut per_candidate: Vec<Vec<ChunkMeta>> = Vec::with_capacity(configs.len());
    let mut i: usize = 0;
    while i < configs.len()
        invariant
            i <= configs@.len(),
            per_candidate@.len() == i,
            forall|j: int|
                #![trigger per_candidate@[j]]
                0 <= j < i ==> metas_of(per_candidate@[j]@, source@, configs@[j]) && byte_sum(
                    per_candidate@[j]@,
                ) == source@.len(),
        decreases configs@.len() - i,
    {
        per_candidate.push(metas_under(source, &configs[i]));
        i = i + 1;
    }
    FanOut { per_candidate, bytes_read: source.len() as u64 }
}

/// Whether a file's measurements are those of a named source: its path, its
/// size, and under each configuration its chunks, which together are of that
/// size.
pub open spec fn measures(
    file: FileChunking,
    source: (String, Vec<u8>),
    configs: Seq<ChunkerConfig>,
) -> bool {
    &&& file.rel_path@ == source.0@
    &&& file.file_bytes == source.1@.len()
    &&& file.per_candidate@.len() == configs.len()
    &&& forall|c: int|
        #![trigger file.per_candidate@[c]]
        0 <= c < configs.len() ==> metas_of(file.per_candidate@[c]@, source.1@, configs[c])
            && byte_sum(file.per_candidate@[c]@) == file.file_bytes
}

fn chunk_source(source: &(String, Vec<u8>), configs: &[ChunkerConfig]) -> (r: FileChunking)
    ensures
        measures(r, *source, configs@),
{
    let fan: FanOut = fan_out_chunks(source.1.as_slice(), configs);
    FileChunking {
        rel_path: source.0.clone(),
        file_bytes: fan.bytes_read,
        per_candidate: fan.per_candidate,
    }
}

/// The paths of files.
pub open spec fn paths_of(files: Seq<(String, Vec<u8>)>) -> Seq<Seq<char>> {
    Seq::new(files.len(), |i: int| files[i].0@)
}

/// The places of files in the order of their paths.
pub(crate) fn path_order(files: &Vec<(String, Vec<u8>)>) -> (r: Vec<usize>)
    ensures
        by_text(r@, paths_of(files@)),
{
    let mut paths: Vec<String> = Vec::with_capacity(files.len());
    let mut i: usize = 0;
    while i < files.len()
        invariant
            i <= files@.len(),
            paths@.len() == i,
            forall|k: int| #![trigger paths@[k]] 0 <= k < i ==> paths@[k]@ == files@[k].0@,
        decreases files@.len() - i,
    {
        paths.push(files[i].0.clone());
        i = i + 1;
    }
    let order: Vec<usize> = text_order(&paths);
    proof {
        assert(Seq::new(paths@.len(), |i: int| paths@[i]@) =~= paths_of(files@));
    }
    order
}

/// Chunks named sources, each once.
#[must_use]
pub fn chunk_sources(sources: &Vec<(String, Vec<u8>)>, configs: &[ChunkerConfig]) -> (r: Vec<
    FileChunking,
>)
    ensures
        r@.len() == sources@.len(),
        forall|i: int|
            #![trigger r@[i]]
            0 <= i < sources@.len() ==> measures(r@[i], sources@[i], configs@),
{
    let mut out: Vec<FileChunking> = Vec::with_capacity(sources.len());
    let mut i: usize = 0;
    while i < sources.len()
        invariant
            i <= sources@.len(),
            out@.len() == i,
            forall|j: int|
                #![trigger out@[j]]
                0 <= j < i ==> measures(out@[j], sources@[j], configs@),
        decreases sources@.len() - i,
    {
        out.push(chunk_source(&sources[i], configs));
        i = i + 1;
    }
    out
}

/// Chunks the files of a tree, each once, in the order of their paths.
#[must_use]
pub fn chunk_tree(files: &Vec<(String, Vec<u8>)>, configs: &[ChunkerConfig]) -> (r: Vec<
    FileChunking,
>)
    ensures
        r@.len() == files@.len(),
        exists|order: Seq<usize>| #[trigger]
            by_text(order, paths_of(files@)) && forall|i: int|
                #![trigger r@[i]]
                0 <= i < files@.len() ==> measures(r@[i], files@[order[i] as int], configs@),
        forall|a: int, b: int|
            #![trigger r@[a], r@[b]]
            0 <= a <= b < r@.len() ==> lex_le(r@[a].rel_path@, r@[b].rel_path@),
{
    let order: Vec<usize> = path_order(files);
    let mut out: Vec<FileChunking> = Vec::with_capacity(files.len());
    let mut i: usize = 0;
    while i < order.len()
        invariant
            i <= order@.len(),
            by_text(order@, paths_of(files@)),
            out@.len() == i,
            forall|j: int|
                #![trigger out@[j]]
                0 <= j < i ==> measures(out@[j], files@[order@[j] as int], configs@),
        decreases order@.len() - i,
    {
        out.push(chunk_source(&files[order[i]], configs));
        i = i + 1;
    }
    proof {
        law_paths_in_order(files@, order@);
        assert forall|a: int, b: int|
            #![trigger out@[a], out@[b]]
            0 <= a <= b < out@.len() implies lex_le(out@[a].rel_path@, out@[b].rel_path@) by {
            let (x, y) = (order@[a], order@[b]);
        }
    }
    out
}

/// Overlap with a baseline tree.
#[derive(Debug, Clone, Copy, PartialEq, Eq, Structural)]
pub struct BaselineOverlap {
    /// Unique chunks of the baseline.
    pub baseline_unique_chunks: u64,
    /// Unique chunks that both trees have.
    pub shared_unique_chunks: u64,
    /// The share of the current tree's unique chunks that the baseline has.
    pub overlap: Ratio,
}

/// Measurements and projections for one candidate size.
#[derive(Debug, Clone, Copy, PartialEq, Eq, Structural)]
pub struct CandidateReport {
    /// Target chunk size.
    pub target_size: u64,
    /// Minimum chunk size.
    pub min_size: u64,
    /// Maximum chunk size.
    pub max_size: u64,
    /// Chunks over all files.
    pub total_chunks: u64,
    /// Distinct chunks over all files.
    pub unique_chunks: u64,
    /// Bytes of all chunks.
    pub total_bytes: u64,
    /// Bytes of the distinct chunks.
    pub unique_bytes: u64,
    /// Total over unique bytes; one where nothing is stored.
    pub dedup_ratio: Ratio,
    /// Mean chunk length; zero without chunks.
    pub mean_chunk_size: Ratio,
    /// Median chunk length, by nearest rank.
    pub median_chunk_size: u64,
    /// 95th percentile of the chunk length, by nearest rank.
    pub p95_chunk_size: u64,
    /// Bytes of the daemon's index.
    pub index_bytes: u64,
    /// Bytes of one snapshot's manifest.
    pub manifest_bytes_per_snapshot: u64,
    /// Index bytes plus the manifests of the projected snapshots.
    pub projected_bookkeeping_bytes: u64,
    /// Overlap with the baseline, if there is one.
    pub baseline: Option<BaselineOverlap>,
}

/// The whole report.
#[derive(Debug, Clone, PartialEq, Eq)]
pub struct BenchReport {
    /// The measured tree.
    pub root: String,
    /// The baseline tree, if there is one.
    pub baseline_root: Option<String>,
    /// Files measured.
    pub files_scanned: u64,
    /// Bytes of all files.
    pub total_bytes: u64,
    /// Snapshots that the bookkeeping is projected for.
    pub snapshots_projected: u64,
    /// Per candidate, in their order.
    pub candidates: Vec<CandidateReport>,
}

/// Sum of the chunk lengths.
pub open spec fn byte_sum(metas: Seq<ChunkMeta>) -> int
    decreases metas.len(),
{
    if metas.len() == 0 {
        0
    } else {
        byte_sum(metas.drop_last()) + metas.last().len
    }
}

/// The distinct identities.
pub open spec fn id_set(metas: Seq<ChunkMeta>) -> Set<Seq<u8>>
    decreases metas.len(),
{
    if metas.len() == 0 {
        Set::empty()
    } else {
        id_set(metas.drop_last()).insert(metas.last().id@)
    }
}

/// Sum of the lengths of chunks whose identity has not come before.
pub open spec fn unique_byte_sum(metas: Seq<ChunkMeta>) -> int
    decreases metas.len(),
{
    if metas.len() == 0 {
        0
    } else {
        unique_byte_sum(metas.drop_last()) + if id_set(metas.drop_last()).contains(
            metas.last().id@,
        ) {
            0
        } else {
            metas.last().len as int
        }
    }
}

/// The chunks of one candidate over all files, in order.
pub open spec fn flat_metas(files: Seq<FileChunking>, ci: int) -> Seq<ChunkMeta>
    decreases files.len(),
{
    if files.len() == 0 {
        Seq::empty()
    } else {
        flat_metas(files.drop_last(), ci) + files.last().per_candidate@[ci]@
    }
}

/// Sum of the file lengths.
pub open spec fn file_byte_sum(files: Seq<FileChunking>) -> int
    decreases files.len(),
{
    if files.len() == 0 {
        0
    } else {
        file_byte_sum(files.drop_last()) + files.last().file_bytes
    }
}

/// The length of a manifest of the files under one candidate.
pub open spec fn projected_manifest(files: Seq<FileChunking>, ci: int) -> int
    decreases files.len(),
{
    if files.len() == 0 {
        MANIFEST_HEADER_BYTES as int
    } else {
        projected_manifest(files.drop_last(), ci) + MANIFEST_FILE_FIXED_BYTES + encode_utf8(
            files.last().rel_path@,
        ).len() + 32 * files.last().per_candidate@[ci]@.len()
    }
}

/// The chunk lengths.
pub open spec fn lens_of(metas: Seq<ChunkMeta>) -> Seq<u64> {
    Seq::new(metas.len(), |i: int| metas[i].len)
}

/// The rank that the nearest-rank percentile picks: at least one.
pub open spec fn nearest_rank_of(len: int, p: int) -> int {
    let rank = (len * p + 99) / 100;
    if rank < 1 {
        1
    } else {
        rank
    }
}

/// Whether an arrangement of places puts numbers in ascending order.
pub open spec fn arranges(order: Seq<usize>, numbers: Seq<u64>) -> bool {
    &&& is_arrangement(order, numbers.len())
    &&& forall|a: int, b: int|
        #![trigger order[a], order[b]]
        0 <= a <= b < order.len() ==> numbers[order[a] as int] <= numbers[order[b] as int]
}

/// Whether `v` is the nearest-rank percentile of numbers: the one at the rank
/// when they are put in ascending order, zero of none.
pub open spec fn is_percentile(lens: Seq<u64>, p: int, v: u64) -> bool {
    if lens.len() == 0 {
        v == 0
    } else {
        exists|order: Seq<usize>| #[trigger]
            arranges(order, lens) && v == lens[order[nearest_rank_of(lens.len() as int, p)
                - 1] as int]
    }
}

/// What a report says of the overlap with a baseline.
pub open spec fn overlap_of(current: Seq<ChunkMeta>, baseline: Seq<ChunkMeta>) -> BaselineOverlap {
    let shared = id_set(current).intersect(id_set(baseline)).len();
    BaselineOverlap {
        baseline_unique_chunks: id_set(baseline).len() as u64,
        shared_unique_chunks: shared as u64,
        overlap: if id_set(current).len() == 0 {
            Ratio { num: 0, den: 1 }
        } else {
            Ratio { num: shared as u64, den: id_set(current).len() as u64 }
        },
    }
}

/// Whether the projections for a candidate stay within `u64`.
pub open spec fn candidate_fits(files: Seq<FileChunking>, ci: int, snapshots: int) -> bool {
    let metas = flat_metas(files, ci);
    &&& byte_sum(metas) <= u64::MAX
    &&& projected_manifest(files, ci) <= u64::MAX
    &&& 48 * id_set(metas).len() + snapshots * projected_manifest(files, ci) <= u64::MAX
}

/// Whether a candidate's report is right.
pub open spec fn candidate_reported(
    c: CandidateReport,
    files: Seq<FileChunking>,
    ci: int,
    config: ChunkerConfig,
    snapshots: int,
    baseline: Option<Seq<FileChunking>>,
) -> bool {
    let metas = flat_metas(files, ci);
    let total = byte_sum(metas);
    let unique = unique_byte_sum(metas);
    &&& c.target_size == config.target()
    &&& c.min_size == config.min()
    &&& c.max_size == config.max()
    &&& c.total_chunks == metas.len()
    &&& c.unique_chunks == id_set(metas).len()
    &&& c.total_bytes == total
    &&& c.unique_bytes == unique
    &&& c.dedup_ratio == if unique == 0 {
        Ratio { num: 1, den: 1 }
    } else {
        Ratio { num: total as u64, den: unique as u64 }
    }
    &&& c.mean_chunk_size == if metas.len() == 0 {
        Ratio { num: 0, den: 1 }
    } else {
        Ratio { num: total as u64, den: metas.len() as u64 }
    }
    &&& is_percentile(lens_of(metas), 50, c.median_chunk_size)
    &&& is_percentile(lens_of(metas), 95, c.p95_chunk_size)
    &&& c.index_bytes == 48 * id_set(metas).len()
    &&& c.manifest_bytes_per_snapshot == projected_manifest(files, ci)
    &&& c.projected_bookkeeping_bytes == c.index_bytes + snapshots * c.manifest_bytes_per_snapshot
    &&& match baseline {
        None => c.baseline is None,
        Some(b) => c.baseline == Some(overlap_of(metas, flat_metas(b, ci))),
    }
}

/// The index of the first file that does not have so many results, or the
/// number of files.
pub open spec fn first_mismatch(files: Seq<FileChunking>, expected: int, from: int) -> int
    decreases files.len() - from,
{
    if from >= files.len() {
        files.len() as int
    } else if files[from].per_candidate@.len() != expected {
        from
    } else {
        first_mismatch(files, expected, from + 1)
    }
}

/// Whether an error reports the first file that does not have so many
/// results.
pub open spec fn reports_mismatch(
    e: BenchError,
    files: Seq<FileChunking>,
    expected: int,
) -> bool {
    let at = first_mismatch(files, expected, 0);
    &&& 0 <= at < files.len()
    &&& e matches BenchError::CandidateMismatch { path, got, expected: want } && path@
        == files[at].rel_path@ && got == files[at].per_candidate@.len() && want == expected
}

/// Whether every file has so many results.
pub open spec fn counts_match(files: Seq<FileChunking>, expected: int) -> bool {
    forall|i: int|
        #![trigger files[i]]
        0 <= i < files.len() ==> files[i].per_candidate@.len() == expected
}

proof fn lemma_flat_step(files: Seq<FileChunking>, ci: int, i: int)
    requires
        0 <= i < files.len(),
    ensures
        flat_metas(files.take(i + 1), ci) == flat_metas(files.take(i), ci)
            + files[i].per_candidate@[ci]@,
        projected_manifest(files.take(i + 1), ci) == projected_manifest(files.take(i), ci)
            + MANIFEST_FILE_FIXED_BYTES + encode_utf8(files[i].rel_path@).len() + 32
            * files[i].per_candidate@[ci]@.len(),
        file_byte_sum(files.take(i + 1)) == file_byte_sum(files.take(i)) + files[i].file_bytes,
{
    assert(files.take(i + 1).drop_last() =~= files.take(i));
}

proof fn lemma_byte_sum_monotone(a: Seq<ChunkMeta>, b: Seq<ChunkMeta>)
    ensures
        0 <= byte_sum(a) <= byte_sum(a + b),
        0 <= unique_byte_sum(a) <= byte_sum(a),
    decreases b.len(), a.len(),
{
    if b.len() > 0 {
        lemma_byte_sum_monotone(a, b.drop_last());
        assert((a + b).drop_last() =~= a + b.drop_last());
    } else {
        assert(a + b =~= a);
        if a.len() > 0 {
            lemma_byte_sum_monotone(a.drop_last(), Seq::empty());
        }
    }
}

proof fn lemma_id_set(metas: Seq<ChunkMeta>)
    ensures
        id_set(metas).finite(),
        id_set(metas).len() <= metas.len(),
    decreases metas.len(),
{
    if metas.len() > 0 {
        lemma_id_set(metas.drop_last());
    }
}

proof fn lemma_projected_monotone(files: Seq<FileChunking>, ci: int, i: int)
    requires
        0 <= i <= files.len(),
    ensures
        MANIFEST_HEADER_BYTES <= projected_manifest(files.take(i), ci) <= projected_manifest(
            files,
            ci,
        ),
        0 <= file_byte_sum(files.take(i)) <= file_byte_sum(files),
    decreases files.len(),
{
    if i == files.len() {
        assert(files.take(i) =~= files);
        if files.len() > 0 {
            lemma_projected_monotone(files.drop_last(), ci, files.len() - 1);
            assert(files.drop_last().take(files.len() - 1) =~= files.drop_last());
        }
    } else {
        lemma_projected_monotone(files.drop_last(), ci, i);
        assert(files.drop_last().take(i) =~= files.take(i));
    }
}

impl Ranked for Vec<u64> {
    open spec fn size(&self) -> nat {
        self@.len()
    }

    open spec fn ranks(&self, i: int, j: int) -> bool {
        self@[i] <= self@[j]
    }

    proof fn ranks_all(&self, i: int, j: int, k: int) {
    }

    fn may_precede(&self, i: usize, j: usize) -> (r: bool) {
        self[i] <= self[j]
    }
}

/// The nearest-rank percentile of numbers that an arrangement puts in order,
/// zero of none.
fn nearest_rank(numbers: &Vec<u64>, order: &Vec<usize>, p: u64) -> (r: u64)
    requires
        p <= 100,
        arranges(order@, numbers@),
    ensures
        is_percentile(numbers@, p as int, r),
{
    let n: usize = numbers.len();
    if n == 0 {
        return 0;
    }
    proof {
        let (a, b) = (n as int, p as int);
        assert(0 <= a * b <= a * 100) by (nonlinear_arith)
            requires
                0 <= a,
                0 <= b <= 100,
        ;
    }
    let rank: u128 = (n as u128 * p as u128 + 99) / 100;
    let rank: u128 = if rank < 1 {
        1
    } else {
        rank
    };
    numbers[order[(rank - 1) as usize]]
}

/// The distinct identities of one candidate.
fn unique_ids(files: &[FileChunking], ci: usize) -> (r: IdSet)
    requires
        forall|i: int| #![trigger files@[i]] 0 <= i < files@.len() ==> ci
            < files@[i].per_candidate@.len(),
    ensures
        r.wf(),
        r@ == id_set(flat_metas(files@, ci as int)),
{
    let mut set: IdSet = IdSet::new();
    let mut i: usize = 0;
    proof {
        assert(flat_metas(files@.take(0), ci as int) =~= Seq::<ChunkMeta>::empty());
    }
    while i < files.len()
        invariant
            i <= files@.len(),
            forall|k: int| #![trigger files@[k]] 0 <= k < files@.len() ==> ci
                < files@[k].per_candidate@.len(),
            set.wf(),
            set@ == id_set(flat_metas(files@.take(i as int), ci as int)),
        decreases files@.len() - i,
    {
        let metas: &Vec<ChunkMeta> = &files[i].per_candidate[ci];
        let ghost start = flat_metas(files@.take(i as int), ci as int);
        let mut k: usize = 0;
        proof {
            assert(start + metas@.take(0) =~= start);
        }
        while k < metas.len()
            invariant
                k <= metas@.len(),
                set.wf(),
                set@ == id_set(start + metas@.take(k as int)),
            decreases metas@.len() - k,
        {
            proof {
                let next = start + metas@.take(k + 1);
                assert(next.drop_last() =~= start + metas@.take(k as int));
                assert(next.last() == metas@[k as int]);
            }
            set.insert(metas[k].id);
            k = k + 1;
        }
        proof {
            assert(metas@.take(k as int) =~= metas@);
            lemma_flat_step(files@, ci as int, i as int);
        }
        i = i + 1;
    }
    proof {
        assert(files@.take(i as int) =~= files@);
    }
    set
}

/// What one candidate's chunks come to.
struct Tally {
    lens: Vec<u64>,
    unique: IdSet,
    total_bytes: u64,
    unique_bytes: u64,
    manifest_bytes: u64,
}

impl Tally {
    spec fn of(self, metas: Seq<ChunkMeta>) -> bool {
        &&& self.lens@ == lens_of(metas)
        &&& self.unique.wf()
        &&& self.unique@ == id_set(metas)
        &&& self.total_bytes == byte_sum(metas)
        &&& self.unique_bytes == unique_byte_sum(metas)
    }

    /// Adds one file's chunks.
    fn add(&mut self, metas: &Vec<ChunkMeta>, Ghost(start): Ghost<Seq<ChunkMeta>>)
        requires
            old(self).of(start),
            byte_sum(start + metas@) <= u64::MAX,
        ensures
            final(self).of(start + metas@),
            final(self).manifest_bytes == old(self).manifest_bytes,
    {
        let mut k: usize = 0;
        proof {
            assert(start + metas@.take(0) =~= start);
        }
        while k < metas.len()
            invariant
                k <= metas@.len(),
                self.of(start + metas@.take(k as int)),
                byte_sum(start + metas@) <= u64::MAX,
                self.manifest_bytes == old(self).manifest_bytes,
            decreases metas@.len() - k,
        {
            let meta: ChunkMeta = metas[k];
            let ghost here = start + metas@.take(k as int);
            let ghost next = start + metas@.take(k + 1);
            proof {
                assert(next.drop_last() =~= here);
                assert(next.last() == meta);
                lemma_byte_sum_monotone(next, metas@.skip(k + 1));
                assert(next + metas@.skip(k + 1) =~= start + metas@);
                lemma_byte_sum_monotone(here, Seq::empty());
            }
            self.lens.push(meta.len);
            self.total_bytes = self.total_bytes + meta.len;
            if self.unique.insert(meta.id) {
                self.unique_bytes = self.unique_bytes + meta.len;
            }
            proof {
                assert(self.lens@ =~= lens_of(next));
            }
            k = k + 1;
        }
        proof {
            assert(metas@.take(k as int) =~= metas@);
        }
    }
}

fn tally(files: &[FileChunking], ci: usize) -> (r: Tally)
    requires
        forall|i: int| #![trigger files@[i]] 0 <= i < files@.len() ==> ci
            < files@[i].per_candidate@.len(),
        byte_sum(flat_metas(files@, ci as int)) <= u64::MAX,
        projected_manifest(files@, ci as int) <= u64::MAX,
    ensures
        r.of(flat_metas(files@, ci as int)),
        r.manifest_bytes == projected_manifest(files@, ci as int),
{
    let mut t: Tally = Tally {
        lens: Vec::new(),
        unique: IdSet::new(),
        total_bytes: 0,
        unique_bytes: 0,
        manifest_bytes: MANIFEST_HEADER_BYTES,
    };
    let mut i: usize = 0;
    proof {
        assert(flat_metas(files@.take(0), ci as int) =~= Seq::<ChunkMeta>::empty());
        assert(t.lens@ =~= lens_of(Seq::<ChunkMeta>::empty()));
    }
    while i < files.len()
        invariant
            i <= files@.len(),
            forall|k: int| #![trigger files@[k]] 0 <= k < files@.len() ==> ci
                < files@[k].per_candidate@.len(),
            byte_sum(flat_metas(files@, ci as int)) <= u64::MAX,
            projected_manifest(files@, ci as int) <= u64::MAX,
            t.of(flat_metas(files@.take(i as int), ci as int)),
            t.manifest_bytes == projected_manifest(files@.take(i as int), ci as int),
        decreases files@.len() - i,
    {
        let metas: &Vec<ChunkMeta> = &files[i].per_candidate[ci];
        let ghost start = flat_metas(files@.take(i as int), ci as int);
        proof {
            lemma_flat_step(files@, ci as int, i as int);
            lemma_flat_prefix(files@, ci as int, i + 1);
            lemma_projected_monotone(files@, ci as int, i + 1);
            lemma_projected_monotone(files@, ci as int, i as int);
        }
        t.add(metas, Ghost(start));
        let path_len: u64 = files[i].rel_path.as_str().as_bytes().len() as u64;
        t.manifest_bytes = t.manifest_bytes + MANIFEST_FILE_FIXED_BYTES + path_len + 32 * (
        metas.len() as u64);
        i = i + 1;
    }
    proof {
        assert(files@.take(i as int) =~= files@);
    }
    t
}

proof fn lemma_flat_prefix(files: Seq<FileChunking>, ci: int, i: int)
    requires
        0 <= i <= files.len(),
    ensures
        byte_sum(flat_metas(files.take(i), ci)) <= byte_sum(flat_metas(files, ci)),
    decreases files.len(),
{
    if i == files.len() {
        assert(files.take(i) =~= files);
    } else {
        lemma_flat_prefix(files.drop_last(), ci, i);
        assert(files.drop_last().take(i) =~= files.take(i));
        lemma_byte_sum_monotone(
            flat_metas(files.drop_last(), ci),
            files.last().per_candidate@[ci]@,
        );
    }
}

/// How many distinct identities of one candidate are in a set.
fn count_shared(files: &[FileChunking], ci: usize, base: &IdSet) -> (r: u64)
    requires
        forall|i: int| #![trigger files@[i]] 0 <= i < files@.len() ==> ci
            < files@[i].per_candidate@.len(),
        base.wf(),
    ensures
        r == id_set(flat_metas(files@, ci as int)).intersect(base@).len(),
{
    let mut shared: IdSet = IdSet::new();
    let mut i: usize = 0;
    proof {
        assert(flat_metas(files@.take(0), ci as int) =~= Seq::<ChunkMeta>::empty());
        assert(shared@ =~= id_set(Seq::<ChunkMeta>::empty()).intersect(base@));
    }
    while i < files.len()
        invariant
            i <= files@.len(),
            forall|k: int| #![trigger files@[k]] 0 <= k < files@.len() ==> ci
                < files@[k].per_candidate@.len(),
            base.wf(),
            shared.wf(),
            shared@ == id_set(flat_metas(files@.take(i as int), ci as int)).intersect(base@),
        decreases files@.len() - i,
    {
        let metas: &Vec<ChunkMeta> = &files[i].per_candidate[ci];
        let ghost start = flat_metas(files@.take(i as int), ci as int);
        let mut k: usize = 0;
        proof {
            assert(start + metas@.take(0) =~= start);
        }
        while k < metas.len()
            invariant
                k <= metas@.len(),
                base.wf(),
                shared.wf(),
                shared@ == id_set(start + metas@.take(k as int)).intersect(base@),
            decreases metas@.len() - k,
        {
            let ghost here = start + metas@.take(k as int);
            let ghost next = start + metas@.take(k + 1);
            let id: ChunkId = metas[k].id;
            proof {
                assert(next.drop_last() =~= here);
                assert(next.last() == metas@[k as int]);
            }
            if base.contains(&id) {
                shared.insert(id);
            }
            proof {
                assert(shared@ =~= id_set(next).intersect(base@));
            }
            k = k + 1;
        }
        proof {
            assert(metas@.take(k as int) =~= metas@);
            lemma_flat_step(files@, ci as int, i as int);
        }
        i = i + 1;
    }
    proof {
        assert(files@.take(i as int) =~= files@);
    }
    shared.len() as u64
}

fn overlap(files: &[FileChunking], baseline: &[FileChunking], ci: usize, unique: u64) -> (r:
    BaselineOverlap)
    requires
        forall|i: int| #![trigger files@[i]] 0 <= i < files@.len() ==> ci
            < files@[i].per_candidate@.len(),
        forall|i: int| #![trigger baseline@[i]] 0 <= i < baseline@.len() ==> ci
            < baseline@[i].per_candidate@.len(),
        unique == id_set(flat_metas(files@, ci as int)).len(),
    ensures
        r == overlap_of(flat_metas(files@, ci as int), flat_metas(baseline@, ci as int)),
{
    let base: IdSet = unique_ids(baseline, ci);
    let shared: u64 = count_shared(files, ci, &base);
    BaselineOverlap {
        baseline_unique_chunks: base.len() as u64,
        shared_unique_chunks: shared,
        overlap: if unique == 0 {
            Ratio { num: 0, den: 1 }
        } else {
            Ratio { num: shared, den: unique }
        },
    }
}

/// Measures one candidate.
fn measure(
    files: &[FileChunking],
    ci: usize,
    config: &ChunkerConfig,
    snapshots: u64,
    baseline: Option<&[FileChunking]>,
) -> (r: CandidateReport)
    requires
        forall|i: int| #![trigger files@[i]] 0 <= i < files@.len() ==> ci
            < files@[i].per_candidate@.len(),
        baseline matches Some(b) ==> forall|i: int|
            #![trigger b@[i]]
            0 <= i < b@.len() ==> ci < b@[i].per_candidate@.len(),
        candidate_fits(files@, ci as int, snapshots as int),
    ensures
        candidate_reported(
            r,
            files@,
            ci as int,
            *config,
            snapshots as int,
            match baseline {
                None => None,
                Some(b) => Some(b@),
            },
        ),
{
    let ghost metas = flat_metas(files@, ci as int);
    proof {
        let m = projected_manifest(files@, ci as int);
        lemma_projected_monotone(files@, ci as int, 0);
        assert(snapshots * m >= 0) by (nonlinear_arith)
            requires
                snapshots >= 0,
                m >= 0,
        ;
        lemma_id_set(metas);
        lemma_byte_sum_monotone(metas, Seq::empty());
    }
    let t: Tally = tally(files, ci);
    let total_chunks: u64 = t.lens.len() as u64;
    let unique_chunks: u64 = t.unique.len() as u64;
    let order: Vec<usize> = sorted_places(&t.lens, t.lens.len());
    proof {
        assert forall|a: int, b: int|
            #![trigger order@[a], order@[b]]
            0 <= a <= b < order@.len() implies t.lens@[order@[a] as int]
            <= t.lens@[order@[b] as int] by {
            assert(t.lens.ranks(order@[a] as int, order@[b] as int));
        }
    }
    let median_chunk_size: u64 = nearest_rank(&t.lens, &order, 50);
    let p95_chunk_size: u64 = nearest_rank(&t.lens, &order, 95);
    let index_bytes: u64 = 48 * unique_chunks;
    let manifests: u64 = snapshots * t.manifest_bytes;
    CandidateReport {
        target_size: config.target_size() as u64,
        min_size: config.min_size() as u64,
        max_size: config.max_size() as u64,
        total_chunks,
        unique_chunks,
        total_bytes: t.total_bytes,
        unique_bytes: t.unique_bytes,
        dedup_ratio: if t.unique_bytes == 0 {
            Ratio { num: 1, den: 1 }
        } else {
            Ratio { num: t.total_bytes, den: t.unique_bytes }
        },
        mean_chunk_size: if total_chunks == 0 {
            Ratio { num: 0, den: 1 }
        } else {
            Ratio { num: t.total_bytes, den: total_chunks }
        },
        median_chunk_size,
        p95_chunk_size,
        index_bytes,
        manifest_bytes_per_snapshot: t.manifest_bytes,
        projected_bookkeeping_bytes: index_bytes + manifests,
        baseline: match baseline {
            None => None,
            Some(b) => Some(overlap(files, b, ci, unique_chunks)),
        },
    }
}

/// Checks that every file has one result per candidate; names the first that
/// does not.
fn check_candidate_counts(files: &[FileChunking], expected: usize) -> (r: Result<(), BenchError>)
    ensures
        match r {
            Ok(()) => counts_match(files@, expected as int),
            Err(e) => !counts_match(files@, expected as int) && reports_mismatch(
                e,
                files@,
                expected as int,
            ),
        },
{
    let mut i: usize = 0;
    while i < files.len()
        invariant
            i <= files@.len(),
            first_mismatch(files@, expected as int, 0) == first_mismatch(
                files@,
                expected as int,
                i as int,
            ),
            forall|k: int|
                #![trigger files@[k]]
                0 <= k < i ==> files@[k].per_candidate@.len() == expected,
        decreases files@.len() - i,
    {
        let got: usize = files[i].per_candidate.len();
        if got != expected {
            proof {
                let bad = files@[i as int];
                assert(bad.per_candidate@.len() != expected);
            }
            return Err(
                BenchError::CandidateMismatch { path: files[i].rel_path.clone(), got, expected },
            );
        }
        i = i + 1;
    }
    Ok(())
}

/// Builds the report. Fails exactly when some file, of the tree or else of
/// the baseline, does not have one result per configuration.
pub fn build_report(
    root: &str,
    files: &[FileChunking],
    configs: &[ChunkerConfig],
    snapshots: u64,
    baseline: Option<(&str, &[FileChunking])>,
) -> (r: Result<BenchReport, BenchError>)
    requires
        counts_match(files@, configs@.len() as int) ==> {
            &&& file_byte_sum(files@) <= u64::MAX
            &&& forall|ci: int|
                0 <= ci < configs@.len() ==> #[trigger] candidate_fits(
                    files@,
                    ci,
                    snapshots as int,
                )
        },
    ensures
        match r {
            Ok(report) => {
                &&& counts_match(files@, configs@.len() as int)
                &&& baseline matches Some((_, b)) ==> counts_match(b@, configs@.len() as int)
                &&& report.root@ == root@
                &&& match baseline {
                    None => report.baseline_root is None,
                    Some((name, _)) => {
                        report.baseline_root matches Some(n) && n@ == name@
                    },
                }
                &&& report.files_scanned == files@.len()
                &&& report.total_bytes == file_byte_sum(files@)
                &&& report.snapshots_projected == snapshots
                &&& report.candidates@.len() == configs@.len()
                &&& forall|ci: int|
                    #![trigger report.candidates@[ci]]
                    0 <= ci < configs@.len() ==> candidate_reported(
                        report.candidates@[ci],
                        files@,
                        ci,
                        configs@[ci],
                        snapshots as int,
                        match baseline {
                            None => None,
                            Some((_, b)) => Some(b@),
                        },
                    )
            },
            Err(e) => if counts_match(files@, configs@.len() as int) {
                baseline matches Some((_, b)) && !counts_match(b@, configs@.len() as int)
                    && reports_mismatch(e, b@, configs@.len() as int)
            } else {
                reports_mismatch(e, files@, configs@.len() as int)
            },
        },
{
    match check_candidate_counts(files, configs.len()) {
        Ok(()) => {},
        Err(e) => {
            return Err(e);
        },
    }
    let base: Option<&[FileChunking]> = match baseline {
        None => None,
        Some((_, b)) => Some(b),
    };
    let baseline_root: Option<String> = match baseline {
        None => None,
        Some((name, b)) => {
            match check_candidate_counts(b, configs.len()) {
                Ok(()) => {},
                Err(e) => {
                    return Err(e);
                },
            }
            Some(name.to_owned())
        },
    };
    let mut total_bytes: u64 = 0;
    let mut i: usize = 0;
    while i < files.len()
        invariant
            i <= files@.len(),
            file_byte_sum(files@) <= u64::MAX,
            total_bytes == file_byte_sum(files@.take(i as int)),
        decreases files@.len() - i,
    {
        proof {
            lemma_flat_step(files@, 0, i as int);
            lemma_projected_monotone(files@, 0, i + 1);
        }
        total_bytes = total_bytes + files[i].file_bytes;
        i = i + 1;
    }
    proof {
        assert(files@.take(i as int) =~= files@);
    }
    let mut candidates: Vec<CandidateReport> = Vec::with_capacity(configs.len());
    let mut ci: usize = 0;
    let ghost base_files: Option<Seq<FileChunking>> = match baseline {
        None => None,
        Some((_, b)) => Some(b@),
    };
    while ci < configs.len()
        invariant
            ci <= configs@.len(),
            counts_match(files@, configs@.len() as int),
            base matches Some(b) ==> counts_match(b@, configs@.len() as int),
            forall|c: int|
                0 <= c < configs@.len() ==> #[trigger] candidate_fits(files@, c, snapshots as int),
            base_files == (match base {
                None => None::<Seq<FileChunking>>,
                Some(b) => Some(b@),
            }),
            candidates@.len() == ci,
            forall|c: int|
                #![trigger candidates@[c]]
                0 <= c < ci ==> candidate_reported(
                    candidates@[c],
                    files@,
                    c,
                    configs@[c],
                    snapshots as int,
                    base_files,
                ),
        decreases configs@.len() - ci,
    {
        proof {
            assert(candidate_fits(files@, ci as int, snapshots as int));
        }
        candidates.push(measure(files, ci, &configs[ci], snapshots, base));
        ci = ci + 1;
    }
    Ok(
        BenchReport {
            root: root.to_owned(),
            baseline_root,
            files_scanned: files.len() as u64,
            total_bytes,
            snapshots_projected: snapshots,
            candidates,
        },
    )
}

/// What a candidate costs in all: the distinct bytes and the bookkeeping.
pub open spec fn cost(c: CandidateReport) -> int {
    c.unique_bytes + c.projected_bookkeeping_bytes
}

/// Whether a candidate costs less than another, or as much with a smaller or
/// equal target.
pub open spec fn at_least_as_good(a: CandidateReport, b: CandidateReport) -> bool {
    cost(a) < cost(b) || (cost(a) == cost(b) && a.target_size <= b.target_size)
}

/// Recommends the target size of the candidate that costs least; of several,
/// the smallest. `None` exactly without candidates.
#[must_use]
pub fn recommend(report: &BenchReport) -> (r: Option<u64>)
    ensures
        match r {
            None => report.candidates@.len() == 0,
            Some(target) => exists|i: int|
                #![trigger report.candidates@[i]]
                0 <= i < report.candidates@.len() && report.candidates@[i].target_size == target
                    && forall|j: int|
                    #![trigger report.candidates@[j]]
                    0 <= j < report.candidates@.len() ==> at_least_as_good(
                        report.candidates@[i],
                        report.candidates@[j],
                    ),
        },
        r matches Some(target) ==> exists|i: int|
            #![trigger report.candidates@[i]]
            0 <= i < report.candidates@.len() && report.candidates@[i].target_size == target
                && forall|j: int|
                #![trigger report.candidates@[j]]
                0 <= j < report.candidates@.len() ==> {
                    let (a, b) = (report.candidates@[i], report.candidates@[j]);
                    let x = a.unique_bytes + a.projected_bookkeeping_bytes;
                    let y = b.unique_bytes + b.projected_bookkeeping_bytes;
                    x < y || (x == y && a.target_size <= b.target_size)
                },
{
    if report.candidates.len() == 0 {
        return None;
    }
    let mut best: usize = 0;
    let mut i: usize = 1;
    while i < report.candidates.len()
        invariant
            best < i <= report.candidates@.len(),
            forall|j: int|
                #![trigger report.candidates@[j]]
                0 <= j < i ==> at_least_as_good(
                    report.candidates@[best as int],
                    report.candidates@[j],
                ),
        decreases report.candidates@.len() - i,
    {
        let a: &CandidateReport = &report.candidates[best];
        let b: &CandidateReport = &report.candidates[i];
        let cost_a: u128 = a.unique_bytes as u128 + a.projected_bookkeeping_bytes as u128;
        let cost_b: u128 = b.unique_bytes as u128 + b.projected_bookkeeping_bytes as u128;
        if cost_b < cost_a || (cost_b == cost_a && b.target_size < a.target_size) {
            best = i;
        }
        i = i + 1;
    }
    proof {
        let winner = report.candidates@[best as int];
    }
    Some(report.candidates[best].target_size)
}

/// The projected manifest length is the real one: for a manifest with the
/// same paths and as many chunks per file, the projection is the length of
/// its encoding.
pub proof fn law_projection_is_exact(files: Seq<FileChunking>, ci: int, m: ManifestModel)
    requires
        m.files.len() == files.len(),
        forall|i: int|
            #![trigger files[i]]
            0 <= i < files.len() ==> m.files[i].path == files[i].rel_path@
                && m.files[i].chunks.len() == files[i].per_candidate@[ci]@.len(),
    ensures
        projected_manifest(files, ci) == manifest_len(m),
{
    lemma_projection(files, ci, m.files);
}

proof fn lemma_projection(files: Seq<FileChunking>, ci: int, models: Seq<FileModel>)
    requires
        models.len() == files.len(),
        forall|i: int|
            #![trigger files[i]]
            0 <= i < files.len() ==> models[i].path == files[i].rel_path@
                && models[i].chunks.len() == files[i].per_candidate@[ci]@.len(),
    ensures
        projected_manifest(files, ci) == MANIFEST_HEADER_BYTES + files_len(models),
    decreases files.len(),
{
    if files.len() > 0 {
        let shorter = files.drop_last();
        assert forall|i: int| #![trigger shorter[i]] 0 <= i
            < shorter.len() implies models.drop_last()[i].path == shorter[i].rel_path@
            && models.drop_last()[i].chunks.len() == shorter[i].per_candidate@[ci]@.len() by {
            assert(files[i] == shorter[i]);
        }
        lemma_projection(shorter, ci, models.drop_last());
        lemma_files_len_last(models);
        let w = files[files.len() - 1];
    }
}

proof fn lemma_files_len_last(models: Seq<FileModel>)
    requires
        models.len() > 0,
    ensures
        files_len(models) == files_len(models.drop_last()) + file_len(models.last()),
    decreases models.len(),
{
    if models.len() > 1 {
        lemma_files_len_last(models.skip(1));
        assert(models.skip(1).drop_last() =~= models.drop_last().skip(1));
    } else {
        assert(models.skip(1) =~= Seq::empty());
        assert(models.drop_last() =~= Seq::empty());
    }
}

/// A tree against itself overlaps wholly.
pub proof fn law_identical_trees_overlap_wholly(metas: Seq<ChunkMeta>)
    requires
        metas.len() <= u64::MAX,
    ensures
        overlap_of(metas, metas).shared_unique_chunks == id_set(metas).len(),
        metas.len() > 0 ==> overlap_of(metas, metas).overlap.num == overlap_of(
            metas,
            metas,
        ).overlap.den,
{
    lemma_id_set(metas);
    assert(id_set(metas).intersect(id_set(metas)) =~= id_set(metas));
    if metas.len() > 0 {
        assert(id_set(metas).contains(metas.last().id@));
        vstd::set_lib::lemma_set_empty_equivalency_len(id_set(metas));
    }
}

/// Distinct chunks never outnumber chunks, and never hold more bytes.
pub proof fn law_unique_within_total(metas: Seq<ChunkMeta>)
    ensures
        id_set(metas).len() <= metas.len(),
        0 <= unique_byte_sum(metas) <= byte_sum(metas),
{
    lemma_id_set(metas);
    lemma_byte_sum_monotone(metas, Seq::empty());
}

/// The default planning window holds 36 snapshots, and a longer history never
/// holds fewer.
pub proof fn law_steady_state(a: int, b: int)
    requires
        0 <= a <= b,
    ensures
        steady_state(DEFAULT_PROJECTION_HORIZON_DAYS as int) == 36,
        0 <= steady_state(a) <= steady_state(b),
{
}

/// The recommended candidate has the least sum of distinct bytes and projected
/// bookkeeping; of several with that sum, it has the smallest target.
pub proof fn law_recommended_costs_least(candidates: Seq<CandidateReport>, w: int, j: int)
    requires
        0 <= w < candidates.len(),
        0 <= j < candidates.len(),
        at_least_as_good(candidates[w], candidates[j]),
    ensures
        candidates[w].unique_bytes + candidates[w].projected_bookkeeping_bytes
            <= candidates[j].unique_bytes + candidates[j].projected_bookkeeping_bytes,
        candidates[w].unique_bytes + candidates[w].projected_bookkeeping_bytes
            == candidates[j].unique_bytes + candidates[j].projected_bookkeeping_bytes
            ==> candidates[w].target_size <= candidates[j].target_size,
{
}

/// So many cells cover a stretch of history and one fewer does not.
pub proof fn law_cells_cover(start: int, end: int, width: int, horizon: int)
    requires
        width > 0,
        start < end,
        start < horizon,
    ensures
        ({
            let cells = cells_between(start, end, width, horizon);
            let upper = if end < horizon {
                end
            } else {
                horizon
            };
            (cells - 1) * width < upper - start <= cells * width
        }),
{
    let upper = if end < horizon {
        end
    } else {
        horizon
    };
    let d = upper - start;
    let cells = (d + width - 1) / width;
    assert((cells - 1) * width < d <= cells * width) by (nonlinear_arith)
        requires
            width > 0,
            cells == (d + width - 1) / width,
    {
        vstd::arithmetic::div_mod::lemma_fundamental_div_mod(d + width - 1, width);
        assert(0 <= (d + width - 1) % width < width);
        assert(width * cells == cells * width);
        assert((cells - 1) * width == cells * width - width);
    }
}

/// The grid holds eight snapshots of the first day, one of each day up to the
/// fourth, one of each four days up to the sixteenth, and one of each sixteen
/// days from there on; a cell that has begun counts.
pub proof fn law_grid_holds(days: int)
    requires
        0 <= days,
        24 * days <= u64::MAX,
    ensures
        days == 0 ==> steady_state(days) == 0,
        1 <= days <= 4 ==> steady_state(days) == 8 + (days - 1),
        4 < days <= 16 ==> steady_state(days) == 8 + 3 + (days - 4 + 3) / 4,
        16 < days ==> steady_state(days) == 8 + 3 + 3 + (days - 16 + 15) / 16,
{
}

/// An identity is among the distinct ones just if a chunk has it.
pub proof fn law_distinct_identities(metas: Seq<ChunkMeta>, id: Seq<u8>)
    ensures
        id_set(metas).contains(id) <==> exists|i: int|
            0 <= i < metas.len() && (#[trigger] metas[i]).id@ == id,
        id_set(metas).finite(),
    decreases metas.len(),
{
    if metas.len() > 0 {
        let fewer = metas.drop_last();
        law_distinct_identities(fewer, id);
        if exists|i: int| 0 <= i < fewer.len() && (#[trigger] fewer[i]).id@ == id {
            let i = choose|i: int| 0 <= i < fewer.len() && (#[trigger] fewer[i]).id@ == id;
            assert(metas[i].id@ == id);
        }
        assert(metas[metas.len() - 1] == metas.last());
        assert forall|i: int| 0 <= i < metas.len() && (#[trigger] metas[i]).id@ == id implies i
            == metas.len() - 1 || fewer[i].id@ == id by {
        }
    }
}

/// One more chunk adds its length to the bytes; to the distinct bytes only if
/// no chunk before it has its identity.
pub proof fn law_bytes_add_up(metas: Seq<ChunkMeta>, c: ChunkMeta)
    ensures
        byte_sum(metas.push(c)) == byte_sum(metas) + c.len,
        (exists|i: int| 0 <= i < metas.len() && (#[trigger] metas[i]).id@ == c.id@)
            ==> unique_byte_sum(metas.push(c)) == unique_byte_sum(metas),
        !(exists|i: int| 0 <= i < metas.len() && (#[trigger] metas[i]).id@ == c.id@)
            ==> unique_byte_sum(metas.push(c)) == unique_byte_sum(metas) + c.len,
        byte_sum(Seq::empty()) == 0,
        unique_byte_sum(Seq::empty()) == 0,
{
    law_distinct_identities(metas, c.id@);
    assert(metas.push(c).drop_last() =~= metas);
}

/// The order of a tree's files is that of their paths, and leaves none out.
pub proof fn law_paths_in_order(files: Seq<(String, Vec<u8>)>, order: Seq<usize>)
    requires
        by_text(order, paths_of(files)),
    ensures
        order.len() == files.len(),
        order.no_duplicates(),
        forall|i: usize| order.contains(i) <==> i < files.len(),
        forall|a: int, b: int|
            #![trigger order[a], order[b]]
            0 <= a <= b < order.len() ==> lex_le(
                files[order[a] as int].0@,
                files[order[b] as int].0@,
            ),
{
    law_arrangement_is_complete(order, files.len());
    let paths = paths_of(files);
    assert forall|a: int, b: int|
        #![trigger order[a], order[b]]
        0 <= a <= b < order.len() implies lex_le(
        files[order[a] as int].0@,
        files[order[b] as int].0@,
    ) by {
        assert(lex_le(paths[order[a] as int], paths[order[b] as int]));
    }
}

/// The chunks of a tree are those of its files one after the other, and its
/// bytes those of its files.
pub proof fn law_files_add_up(files: Seq<FileChunking>, file: FileChunking, ci: int)
    ensures
        flat_metas(files.push(file), ci) == flat_metas(files, ci) + file.per_candidate@[ci]@,
        file_byte_sum(files.push(file)) == file_byte_sum(files) + file.file_bytes,
        flat_metas(Seq::empty(), ci) == Seq::<ChunkMeta>::empty(),
        file_byte_sum(Seq::empty()) == 0,
{
    assert(files.push(file).drop_last() =~= files);
}

/// The nearest rank is the smallest that has so many percent of the numbers at
/// or below it.
pub proof fn law_nearest_rank(len: int, p: int)
    requires
        1 <= len,
        1 <= p <= 100,
    ensures
        1 <= nearest_rank_of(len, p) <= len,
        100 * nearest_rank_of(len, p) >= p * len,
        100 * (nearest_rank_of(len, p) - 1) < p * len,
{
    let x = len * p;
    assert(len <= x <= 100 * len && x == p * len) by (nonlinear_arith)
        requires
            x == len * p,
            1 <= len,
            1 <= p <= 100,
    ;
}

/// A percentile is one of the numbers: as many as its rank stand at or below it
/// when they are put in order, and from its rank on all are at or above it.
pub proof fn law_percentile_is_by_rank(lens: Seq<u64>, p: int, v: u64)
    requires
        lens.len() > 0,
        1 <= p <= 100,
        is_percentile(lens, p, v),
    ensures
        lens.contains(v),
        exists|order: Seq<usize>, rank: int|
            {
                &&& #[trigger] is_arrangement(order, lens.len())
                &&& 1 <= rank <= lens.len()
                &&& #[trigger] (100 * rank) >= p * lens.len()
                &&& 100 * (rank - 1) < p * lens.len()
                &&& forall|a: int|
                    #![trigger order[a]]
                    0 <= a < rank ==> lens[order[a] as int] <= v
                &&& forall|a: int|
                    #![trigger order[a]]
                    rank - 1 <= a < lens.len() ==> v <= lens[order[a] as int]
            },
{
    let rank = nearest_rank_of(lens.len() as int, p);
    law_nearest_rank(lens.len() as int, p);
    let order = choose|order: Seq<usize>| #[trigger]
        arranges(order, lens) && v == lens[order[rank - 1] as int];
    assert(order[rank - 1] < lens.len());
    assert(is_arrangement(order, lens.len()) && 100 * rank >= p * lens.len());
    assert forall|a: int| #![trigger order[a]] 0 <= a < rank implies lens[order[a] as int] <= v by {
        assert(lens[order[a] as int] <= lens[order[rank - 1] as int]);
    }
    assert forall|a: int| #![trigger order[a]] rank - 1 <= a < lens.len() implies v
        <= lens[order[a] as int] by {
        assert(lens[order[rank - 1] as int] <= lens[order[a] as int]);
    }
}

/// The overlap is the share of the current tree's distinct identities that the
/// baseline has too: none of them where the trees share no chunk, all of them
/// where the baseline has every chunk.
pub proof fn law_overlap_is_of_the_current_tree(
    current: Seq<ChunkMeta>,
    baseline: Seq<ChunkMeta>,
)
    requires
        0 < current.len() <= u64::MAX,
        baseline.len() <= u64::MAX,
    ensures
        ({
            let o = overlap_of(current, baseline);
            &&& o.overlap.num == o.shared_unique_chunks
            &&& o.overlap.den == id_set(current).len()
            &&& o.overlap.den > 0
            &&& o.baseline_unique_chunks == id_set(baseline).len()
            &&& o.shared_unique_chunks <= o.baseline_unique_chunks
            &&& o.shared_unique_chunks <= o.overlap.den
            &&& o.shared_unique_chunks == 0 <==> forall|i: int|
                #![trigger current[i]]
                0 <= i < current.len() ==> !id_set(baseline).contains(current[i].id@)
            &&& o.overlap.num == o.overlap.den <==> forall|i: int|
                #![trigger current[i]]
                0 <= i < current.len() ==> id_set(baseline).contains(current[i].id@)
        }),
{
    let (a, b) = (id_set(current), id_set(baseline));
    let both = a.intersect(b);
    lemma_id_set(current);
    lemma_id_set(baseline);
    vstd::set_lib::lemma_len_subset(both, a);
    vstd::set_lib::lemma_len_subset(both, b);
    let o = overlap_of(current, baseline);
    law_distinct_identities(current, current[0].id@);
    let first = current[0];
    assert(a.contains(first.id@));
    if a.len() == 0 {
        vstd::set_lib::lemma_set_empty_equivalency_len(a);
    }
    if forall|i: int|
        #![trigger current[i]]
        0 <= i < current.len() ==> !b.contains(current[i].id@) {
        assert forall|id: Seq<u8>| !both.contains(id) by {
            law_distinct_identities(current, id);
        }
        assert(both =~= Set::empty());
    }
    if o.shared_unique_chunks == 0 {
        vstd::set_lib::lemma_set_empty_equivalency_len(both);
        assert forall|i: int| #![trigger current[i]] 0 <= i < current.len() implies !b.contains(
            current[i].id@,
        ) by {
            law_distinct_identities(current, current[i].id@);
            assert(!both.contains(current[i].id@));
        }
    }
    if forall|i: int| #![trigger current[i]] 0 <= i < current.len() ==> b.contains(current[i].id@) {
        assert forall|id: Seq<u8>| a.contains(id) implies both.contains(id) by {
            law_distinct_identities(current, id);
        }
        assert(both =~= a);
    }
    if o.overlap.num == o.overlap.den {
        vstd::set_lib::lemma_subset_equality(both, a);
        assert forall|i: int| #![trigger current[i]] 0 <= i < current.len() implies b.contains(
            current[i].id@,
        ) by {
            law_distinct_identities(current, current[i].id@);
            assert(both.contains(current[i].id@));
        }
    }
}

/// What a candidate's figures say of each other: the ratio and the mean are
/// quotients of the totals, the index takes 48 bytes per distinct chunk, and
/// the bookkeeping is the index with as many manifests as snapshots.
pub proof fn law_figures_agree(
    c: CandidateReport,
    files: Seq<FileChunking>,
    ci: int,
    config: ChunkerConfig,
    snapshots: int,
    baseline: Option<Seq<FileChunking>>,
)
    requires
        candidate_reported(c, files, ci, config, snapshots, baseline),
    ensures
        c.target_size == config.target(),
        c.min_size == config.min(),
        c.max_size == config.max(),
        c.total_chunks == flat_metas(files, ci).len(),
        c.unique_chunks == id_set(flat_metas(files, ci)).len(),
        c.unique_chunks <= c.total_chunks,
        c.total_bytes == byte_sum(flat_metas(files, ci)),
        c.unique_bytes == unique_byte_sum(flat_metas(files, ci)),
        c.unique_bytes <= c.total_bytes,
        c.unique_bytes > 0 ==> c.dedup_ratio.num == c.total_bytes && c.dedup_ratio.den
            == c.unique_bytes,
        c.unique_bytes == 0 ==> c.dedup_ratio.num == c.dedup_ratio.den,
        c.total_chunks > 0 ==> c.mean_chunk_size.num == c.total_bytes && c.mean_chunk_size.den
            == c.total_chunks,
        c.total_chunks == 0 ==> c.mean_chunk_size.num == 0,
        c.index_bytes == 48 * c.unique_chunks,
        c.manifest_bytes_per_snapshot == projected_manifest(files, ci),
        c.projected_bookkeeping_bytes == c.index_bytes + snapshots
            * c.manifest_bytes_per_snapshot,
        c.median_chunk_size <= c.p95_chunk_size,
        c.baseline is Some <==> baseline is Some,
        baseline matches Some(b) ==> c.baseline == Some(
            overlap_of(flat_metas(files, ci), flat_metas(b, ci)),
        ),
{
    let metas = flat_metas(files, ci);
    law_unique_within_total(metas);
    let lens = lens_of(metas);
    if lens.len() > 0 {
        let n = lens.len() as int;
        let (m, q) = (nearest_rank_of(n, 50), nearest_rank_of(n, 95));
        law_nearest_rank(n, 50);
        law_nearest_rank(n, 95);
        let x = choose|order: Seq<usize>| #[trigger]
            arranges(order, lens) && c.median_chunk_size == lens[order[m - 1] as int];
        let y = choose|order: Seq<usize>| #[trigger]
            arranges(order, lens) && c.p95_chunk_size == lens[order[q - 1] as int];
        lemma_ranks_agree(lens, x, y, m - 1, q - 1);
    }
}

/// However numbers are put in order, one at an earlier rank is at most one at a
/// later rank.
proof fn lemma_ranks_agree(lens: Seq<u64>, x: Seq<usize>, y: Seq<usize>, a: int, b: int)
    requires
        arranges(x, lens),
        arranges(y, lens),
        0 <= a <= b < lens.len(),
    ensures
        lens[x[a] as int] <= lens[y[b] as int],
{
    let v = lens[x[a] as int];
    let w = lens[y[b] as int];
    if w < v {
        // The places of `y` up to `b` hold numbers below `v`, so none of them
        // is among the places of `x` from `a` on.
        let n = lens.len() as int;
        law_arrangement_is_complete(x, lens.len());
        let low = y.take(b + 1);
        let early = x.take(a);
        assert(low.no_duplicates()) by {
            assert forall|i: int, j: int| 0 <= i < low.len() && 0 <= j < low.len() && i
                != j implies low[i] != low[j] by {
                if i < j {
                    assert(y[i] != y[j]);
                } else {
                    assert(y[j] != y[i]);
                }
            }
        }
        assert forall|p: usize| #[trigger] low.to_set().contains(p) implies early.to_set().contains(
            p,
        ) by {
            let i = choose|i: int| 0 <= i < low.len() && low[i] == p;
            assert(y[i] == p);
            assert(lens[y[i] as int] <= lens[y[b] as int]);
            assert(p < n);
            assert(x.contains(p));
            let k = choose|k: int| 0 <= k < x.len() && x[k] == p;
            if k >= a {
                assert(lens[x[a] as int] <= lens[x[k] as int]);
            }
            assert(early[k] == p);
        }
        low.unique_seq_to_set();
        early.lemma_cardinality_of_set();
        vstd::set_lib::lemma_len_subset(low.to_set(), early.to_set());
    }
}

/// The file that is reported is the first that does not have so many results.
pub proof fn law_first_mismatch(files: Seq<FileChunking>, expected: int)
    ensures
        ({
            let at = first_mismatch(files, expected, 0);
            &&& 0 <= at <= files.len()
            &&& at < files.len() ==> files[at].per_candidate@.len() != expected
            &&& forall|i: int|
                #![trigger files[i]]
                0 <= i < at ==> files[i].per_candidate@.len() == expected
            &&& at == files.len() <==> counts_match(files, expected)
        }),
{
    lemma_first_mismatch(files, expected, 0);
    let at = first_mismatch(files, expected, 0);
    if at < files.len() {
        let w = files[at];
    }
}

proof fn lemma_first_mismatch(files: Seq<FileChunking>, expected: int, from: int)
    requires
        0 <= from <= files.len(),
    ensures
        ({
            let at = first_mismatch(files, expected, from);
            &&& from <= at <= files.len()
            &&& at < files.len() ==> files[at].per_candidate@.len() != expected
            &&& forall|i: int|
                #![trigger files[i]]
                from <= i < at ==> files[i].per_candidate@.len() == expected
        }),
    decreases files.len() - from,
{
    if from < files.len() && files[from].per_candidate@.len() == expected {
        lemma_first_mismatch(files, expected, from + 1);
    }
}

/// What is measured of a source is what chunking it gives: as many chunks, with
/// the same identities and lengths.
pub proof fn law_measured_chunks_are_the_chunks(
    metas: Seq<ChunkMeta>,
    chunks: Seq<Chunk>,
    data: Seq<u8>,
    config: ChunkerConfig,
    k: int,
)
    requires
        metas_of(metas, data, config),
        chunks_of(chunks, data, config, None),
        0 <= k < chunks.len(),
    ensures
        metas.len() == chunks.len(),
        metas[k].id@ == chunks[k].id@,
        metas[k].len == chunks[k].data@.len(),
{
    let m = metas[k];
    let c = chunks[k];
}

/// A file is measured under its own path, with its own length and once per
/// configuration.
pub proof fn law_file_is_measured(
    file: FileChunking,
    source: (String, Vec<u8>),
    configs: Seq<ChunkerConfig>,
    c: int,
)
    requires
        measures(file, source, configs),
        0 <= c < configs.len(),
    ensures
        file.rel_path@ == source.0@,
        file.file_bytes == source.1@.len(),
        file.per_candidate@.len() == configs.len(),
        metas_of(file.per_candidate@[c]@, source.1@, configs[c]),
        byte_sum(file.per_candidate@[c]@) == source.1@.len(),
{
    let m = file.per_candidate@[c];
}

/// A mismatch is reported with the path of the first file that has one, the
/// number of its results and the number expected.
pub proof fn law_mismatch_is_told(e: BenchError, files: Seq<FileChunking>, expected: int)
    requires
        reports_mismatch(e, files, expected),
    ensures
        exists|at: int|
            {
                &&& 0 <= at < files.len()
                &&& (#[trigger] files[at]).per_candidate@.len() != expected
                &&& forall|i: int|
                    #![trigger files[i]]
                    0 <= i < at ==> files[i].per_candidate@.len() == expected
                &&& e matches BenchError::CandidateMismatch { path, got, expected: want } && path@
                    == files[at].rel_path@ && got == files[at].per_candidate@.len() && want
                    == expected
            },
{
    law_first_mismatch(files, expected);
    let at = files[first_mismatch(files, expected, 0)];
}

/// Median and 95th percentile are those of the lengths of all chunks.
pub proof fn law_percentiles_are_of_the_lengths(
    c: CandidateReport,
    files: Seq<FileChunking>,
    ci: int,
    config: ChunkerConfig,
    snapshots: int,
    baseline: Option<Seq<FileChunking>>,
)
    requires
        candidate_reported(c, files, ci, config, snapshots, baseline),
    ensures
        ({
            let metas = flat_metas(files, ci);
            let lens = Seq::new(metas.len(), |i: int| metas[i].len);
            &&& is_percentile(lens, 50, c.median_chunk_size)
            &&& is_percentile(lens, 95, c.p95_chunk_size)
            &&& metas.len() == 0 ==> c.median_chunk_size == 0 && c.p95_chunk_size == 0
        }),
{
    let metas = flat_metas(files, ci);
    assert(lens_of(metas) =~= Seq::new(metas.len(), |i: int| metas[i].len));
}

/// A tree without chunks overlaps with nothing.
pub proof fn law_empty_tree_overlaps_with_nothing(baseline: Seq<ChunkMeta>)
    requires
        baseline.len() <= u64::MAX,
    ensures
        ({
            let o = overlap_of(Seq::empty(), baseline);
            &&& o.shared_unique_chunks == 0
            &&& o.overlap.num == 0
            &&& o.overlap.den > 0
            &&& o.baseline_unique_chunks == id_set(baseline).len()
        }),
{
    lemma_id_set(baseline);
    assert(id_set(Seq::<ChunkMeta>::empty()).intersect(id_set(baseline)) =~= Set::empty());
}

} // verus!
