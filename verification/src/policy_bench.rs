//! Compression-policy measurements: what each policy would store of a set of
//! chunks, by the same decisions that a backup makes.
use vstd::prelude::*;

use std::borrow::Cow;

use crate::backup::{blob_sum, blobs_carry, law_upload_bytes, plaintexts, ChunkBlob};
use crate::bench::{law_paths_in_order, path_order, paths_of};
use crate::bytes::copy_range;
use crate::chunking::{chunk_bytes, chunks_of, chunks_tile, Chunk, ChunkId, ChunkerConfig};
use crate::compression::{
    capped, choose_codec, chosen, encoded, encoded_run, framed, law_run_counts, law_runs_agree,
    lemma_run_step, probe_fits, total_len, zero_counters, CodecId, Phase, PolicyConfig,
    PolicyCounters, DEFAULT_ESCALATE_LEVEL, DEFAULT_ESCALATE_RATIO, DEFAULT_KEEP_THRESHOLD,
    DEFAULT_PROBE_THRESHOLD, DEFAULT_ZSTD_LEVEL,
};
use crate::idset::IdSet;
use crate::ratio::Ratio;
use crate::sort::by_text;
use crate::span::Span;
use crate::text::{chars_of, lex_le, lower, lower_char, text_is};

verus! {

/// A simulated policy.
#[derive(Debug, Clone, Copy, PartialEq, Eq, Structural)]
pub enum PolicyKind {
    /// Every chunk raw: a keep threshold that no compressed form meets.
    RawOnly,
    /// Every zstd form kept: a keep threshold that every form meets.
    Zstd3Always,
    /// The default policy.
    Zstd3,
    /// The default policy behind an lz4 probe.
    ProbeZstd3,
    /// The default policy with escalation.
    Zstd3Escalate,
}

/// A policy's name.
pub open spec fn policy_name(kind: PolicyKind) -> Seq<char> {
    match kind {
        PolicyKind::RawOnly => "raw-only"@,
        PolicyKind::Zstd3Always => "zstd3-always"@,
        PolicyKind::Zstd3 => "zstd3"@,
        PolicyKind::ProbeZstd3 => "probe+zstd3"@,
        PolicyKind::Zstd3Escalate => "zstd3+escalate"@,
    }
}

/// The default policy.
pub open spec fn default_policy() -> PolicyConfig {
    PolicyConfig {
        use_probe: false,
        escalate: false,
        zstd_level: DEFAULT_ZSTD_LEVEL,
        escalate_level: DEFAULT_ESCALATE_LEVEL,
        keep_threshold: Ratio { num: DEFAULT_KEEP_THRESHOLD, den: 100 },
        probe_threshold: Ratio { num: DEFAULT_PROBE_THRESHOLD, den: 100 },
        escalate_ratio: Ratio { num: DEFAULT_ESCALATE_RATIO, den: 100 },
    }
}

/// A policy's configuration: the default one, but for one setting.
pub open spec fn policy_config(kind: PolicyKind) -> PolicyConfig {
    match kind {
        PolicyKind::RawOnly => PolicyConfig {
            keep_threshold: Ratio { num: 0, den: 1 },
            ..default_policy()
        },
        PolicyKind::Zstd3Always => PolicyConfig {
            keep_threshold: Ratio { num: 1, den: 0 },
            ..default_policy()
        },
        PolicyKind::Zstd3 => default_policy(),
        PolicyKind::ProbeZstd3 => PolicyConfig { use_probe: true, ..default_policy() },
        PolicyKind::Zstd3Escalate => PolicyConfig { escalate: true, ..default_policy() },
    }
}

impl PolicyKind {
    /// Every policy, in table order.
    pub const ALL: [PolicyKind; 5] = [
        PolicyKind::RawOnly,
        PolicyKind::Zstd3Always,
        PolicyKind::Zstd3,
        PolicyKind::ProbeZstd3,
        PolicyKind::Zstd3Escalate,
    ];

    /// The policy's name.
    #[must_use]
    pub fn name(self) -> (r: &'static str)
        ensures
            r@ == policy_name(self),
    {
        match self {
            PolicyKind::RawOnly => "raw-only",
            PolicyKind::Zstd3Always => "zstd3-always",
            PolicyKind::Zstd3 => "zstd3",
            PolicyKind::ProbeZstd3 => "probe+zstd3",
            PolicyKind::Zstd3Escalate => "zstd3+escalate",
        }
    }

    /// The policy with a name; `None` exactly if no policy has it.
    #[must_use]
    pub fn from_name(name: &str) -> (r: Option<Self>)
        ensures
            match r {
                Some(k) => policy_name(k) == name@,
                None => forall|k: PolicyKind| #[trigger] policy_name(k) != name@,
            },
    {
        let chars: Vec<char> = chars_of(name);
        if text_is(&chars, "raw-only") {
            Some(PolicyKind::RawOnly)
        } else if text_is(&chars, "zstd3-always") {
            Some(PolicyKind::Zstd3Always)
        } else if text_is(&chars, "zstd3") {
            Some(PolicyKind::Zstd3)
        } else if text_is(&chars, "probe+zstd3") {
            Some(PolicyKind::ProbeZstd3)
        } else if text_is(&chars, "zstd3+escalate") {
            Some(PolicyKind::Zstd3Escalate)
        } else {
            None
        }
    }

    /// The policy's configuration.
    #[must_use]
    pub fn config(self) -> (r: PolicyConfig)
        ensures
            r == policy_config(self),
    {
        let mut cfg: PolicyConfig = PolicyConfig::default();
        match self {
            PolicyKind::RawOnly => {
                cfg.keep_threshold = Ratio { num: 0, den: 1 };
            },
            PolicyKind::Zstd3Always => {
                cfg.keep_threshold = Ratio { num: 1, den: 0 };
            },
            PolicyKind::Zstd3 => {},
            PolicyKind::ProbeZstd3 => {
                cfg.use_probe = true;
            },
            PolicyKind::Zstd3Escalate => {
                cfg.escalate = true;
            },
        }
        cfg
    }
}

/// What a policy makes of a set of chunks.
#[derive(Debug, Clone, Copy, PartialEq, Eq, Structural)]
pub struct PolicyStoredStats {
    /// Chunks.
    pub chunk_count: u64,
    /// Sum of the chunk lengths.
    pub bytes_in: u64,
    /// Sum of the payload lengths.
    pub bytes_out: u64,
    /// Payloads and codec bytes.
    pub framed_bytes: u64,
    /// Payloads, codec bytes and encryption overhead: what a backup stores.
    pub stored_bytes: u64,
    /// Chunk bytes over stored bytes; one where nothing is stored.
    pub ratio: Ratio,
    /// Chunks stored raw.
    pub raw_chunks: u64,
    /// Chunks stored as the first zstd attempt.
    pub zstd3_chunks: u64,
    /// Chunks stored as the retry's output.
    pub escalated_chunks: u64,
    /// Retries made.
    pub escalation_attempts: u64,
}

/// The bytes of each chunk.
pub open spec fn chunk_views(chunks: Seq<Vec<u8>>) -> Seq<Seq<u8>> {
    Seq::new(chunks.len(), |i: int| chunks[i]@)
}

/// Whether figures are what a policy can make of chunks: those of a run that
/// encodes them one after the other.
pub open spec fn simulated(
    chunks: Seq<Vec<u8>>,
    kind: PolicyKind,
    phase: Phase,
    stats: PolicyStoredStats,
) -> bool {
    exists|outs: Seq<Seq<u8>>, c: PolicyCounters|
        outs.len() == chunks.len() && #[trigger] encoded_run(
            chunk_views(chunks),
            phase,
            policy_config(kind),
            zero_counters(),
            outs,
            chunks.len(),
            c,
        ) && c.chunks() == chunks.len() && stats == stats_of(c)
}

/// The figures that counters come to.
pub open spec fn stats_of(c: PolicyCounters) -> PolicyStoredStats {
    let framed = capped(c.bytes_out + c.chunks());
    let stored = capped(framed + 40 * c.chunks());
    PolicyStoredStats {
        chunk_count: c.chunks() as u64,
        bytes_in: c.bytes_in,
        bytes_out: c.bytes_out,
        framed_bytes: framed,
        stored_bytes: stored,
        ratio: if stored == 0 {
            Ratio { num: 1, den: 1 }
        } else {
            Ratio { num: c.bytes_in, den: stored }
        },
        raw_chunks: c.raw,
        zstd3_chunks: c.zstd3,
        escalated_chunks: c.escalated,
        escalation_attempts: c.escalation_attempts,
    }
}

/// The figures that counters come to. Sums stop at the largest `u64`.
#[must_use]
pub fn stored_stats(c: &PolicyCounters) -> (r: PolicyStoredStats)
    requires
        c.chunks() <= u64::MAX,
    ensures
        r == stats_of(*c),
{
    let chunk_count: u64 = c.total();
    let framed_bytes: u64 = c.bytes_out.saturating_add(chunk_count);
    let overhead: u128 = 40 * (chunk_count as u128);
    let stored: u128 = framed_bytes as u128 + overhead;
    let stored_bytes: u64 = if stored > u64::MAX as u128 {
        u64::MAX
    } else {
        stored as u64
    };
    PolicyStoredStats {
        chunk_count,
        bytes_in: c.bytes_in,
        bytes_out: c.bytes_out,
        framed_bytes,
        stored_bytes,
        ratio: if stored_bytes == 0 {
            Ratio { num: 1, den: 1 }
        } else {
            Ratio { num: c.bytes_in, den: stored_bytes }
        },
        raw_chunks: c.raw,
        zstd3_chunks: c.zstd3,
        escalated_chunks: c.escalated,
        escalation_attempts: c.escalation_attempts,
    }
}

/// Runs a policy over chunks, by the decisions that a backup makes.
#[must_use]
pub fn simulate_policy(chunks: &[Vec<u8>], kind: PolicyKind, phase: Phase) -> (r: PolicyStoredStats)
    requires
        kind == PolicyKind::ProbeZstd3 ==> forall|i: int|
            0 <= i < chunks@.len() ==> probe_fits((#[trigger] chunks@[i])@.len() as int),
    ensures
        simulated(chunks@, kind, phase, r),
        r.chunk_count == chunks@.len(),
{
    let cfg: PolicyConfig = kind.config();
    let mut counters: PolicyCounters = PolicyCounters::default();
    let ghost mut done: Seq<Seq<u8>> = Seq::empty();
    let ghost mut outs: Seq<Seq<u8>> = Seq::empty();
    let mut i: usize = 0;
    while i < chunks.len()
        invariant
            i <= chunks@.len(),
            cfg == policy_config(kind),
            kind == PolicyKind::ProbeZstd3 ==> forall|k: int|
                0 <= k < chunks@.len() ==> probe_fits((#[trigger] chunks@[k])@.len() as int),
            done.len() == i,
            outs.len() == i,
            forall|k: int| #![trigger done[k]] 0 <= k < i ==> done[k] == chunks@[k]@,
            encoded_run(done, phase, cfg, zero_counters(), outs, i as nat, counters),
        decreases chunks@.len() - i,
    {
        let ghost before = counters;
        let (codec, payload) = choose_codec(chunks[i].as_slice(), phase, &cfg, &mut counters);
        proof {
            let out = framed(codec, payload@);
            assert(encoded(chunks@[i as int]@, phase, cfg, before, out, counters));
            lemma_run_step(
                done,
                phase,
                cfg,
                zero_counters(),
                outs,
                before,
                chunks@[i as int]@,
                out,
                counters,
            );
            done = done.push(chunks@[i as int]@);
            outs = outs.push(out);
        }
        i = i + 1;
    }
    proof {
        assert(done =~= chunk_views(chunks@));
        assert(chunks@.len() == chunks.len());
        law_run_counts(done, phase, cfg, zero_counters(), outs, counters);
    }
    stored_stats(&counters)
}

/// A count of the bytes and the time that reading took.
#[derive(Debug, Clone, PartialEq, Eq)]
pub struct TimingReader<R> {
    /// What is read from.
    pub inner: R,
    /// Time spent reading.
    pub io_time: Span,
    /// Bytes read.
    pub bytes: u64,
}

impl<R> TimingReader<R> {
    /// Starts counting.
    pub fn new(inner: R) -> (r: Self)
        ensures
            r.inner == inner,
            r.io_time.nanos == 0,
            r.bytes == 0,
    {
        TimingReader { inner, io_time: Span::zero(), bytes: 0 }
    }

    /// Counts one read.
    pub fn record(&mut self, n: u64, elapsed: Span)
        requires
            old(self).bytes + n <= u64::MAX,
            old(self).io_time.nanos + elapsed.nanos <= u128::MAX,
        ensures
            final(self).inner == old(self).inner,
            final(self).bytes == old(self).bytes + n,
            final(self).io_time.nanos == old(self).io_time.nanos + elapsed.nanos,
    {
        self.bytes = self.bytes + n;
        self.io_time = Span { nanos: self.io_time.nanos + elapsed.nanos };
    }
}

/// One file's chunks, with their bytes.
#[derive(Debug, Clone, PartialEq, Eq)]
pub struct FileChunkingFull {
    /// The path below the root.
    pub rel_path: String,
    /// The chunks, in order.
    pub chunks: Vec<Chunk>,
}

/// Whether a file's chunks are those of a named source.
pub open spec fn holds_chunks(
    file: FileChunkingFull,
    source: (String, Vec<u8>),
    config: ChunkerConfig,
) -> bool {
    &&& file.rel_path@ == source.0@
    &&& chunks_of(file.chunks@, source.1@, config, None)
    &&& chunks_tile(file.chunks@, source.1@, config.min() as int, config.max() as int)
}

/// Chunks the files of a tree, each once, in the order of their paths, and
/// keeps the bytes of the chunks.
#[must_use]
pub fn chunk_tree_with_bytes(files: &Vec<(String, Vec<u8>)>, config: &ChunkerConfig) -> (r: Vec<
    FileChunkingFull,
>)
    ensures
        r@.len() == files@.len(),
        exists|order: Seq<usize>| #[trigger]
            by_text(order, paths_of(files@)) && forall|i: int|
                #![trigger r@[i]]
                0 <= i < files@.len() ==> holds_chunks(r@[i], files@[order[i] as int], *config),
        forall|a: int, b: int|
            #![trigger r@[a], r@[b]]
            0 <= a <= b < r@.len() ==> lex_le(r@[a].rel_path@, r@[b].rel_path@),
{
    let order: Vec<usize> = path_order(files);
    let mut out: Vec<FileChunkingFull> = Vec::with_capacity(files.len());
    let mut i: usize = 0;
    while i < order.len()
        invariant
            i <= order@.len(),
            by_text(order@, paths_of(files@)),
            out@.len() == i,
            forall|j: int|
                #![trigger out@[j]]
                0 <= j < i ==> holds_chunks(out@[j], files@[order@[j] as int], *config),
        decreases order@.len() - i,
    {
        let source: &(String, Vec<u8>) = &files[order[i]];
        out.push(
            FileChunkingFull {
                rel_path: source.0.clone(),
                chunks: chunk_bytes(source.1.as_slice(), config),
            },
        );
        i = i + 1;
    }
    proof {
        law_paths_in_order(files@, order@);
        assert forall|a: int, b: int|
            #![trigger out@[a], out@[b]]
            0 <= a <= b < out@.len() implies lex_le(out@[a].rel_path@, out@[b].rel_path@) by {
            let (x, y) = (order@[a], order@[b]);
        }
    }
    out
}

/// The chunks of files, one file after the other.
pub open spec fn all_chunks(files: Seq<FileChunkingFull>) -> Seq<Chunk>
    decreases files.len(),
{
    if files.len() == 0 {
        Seq::empty()
    } else {
        all_chunks(files.drop_last()) + files.last().chunks@
    }
}

/// The identities of chunks.
pub open spec fn identities(chunks: Seq<Chunk>) -> Set<Seq<u8>>
    decreases chunks.len(),
{
    if chunks.len() == 0 {
        Set::empty()
    } else {
        identities(chunks.drop_last()).insert(chunks.last().id@)
    }
}

/// The bytes of the chunks whose identity is not known, each identity once, in
/// order.
pub open spec fn new_bytes(chunks: Seq<Chunk>, known: Set<Seq<u8>>) -> Seq<Seq<u8>>
    decreases chunks.len(),
{
    if chunks.len() == 0 {
        Seq::empty()
    } else {
        let before = new_bytes(chunks.drop_last(), known);
        let id = chunks.last().id@;
        if known.contains(id) || identities(chunks.drop_last()).contains(id) {
            before
        } else {
            before.push(chunks.last().data@)
        }
    }
}

/// The identities of the chunks of files.
#[must_use]
pub fn chunk_ids(files: &Vec<FileChunkingFull>) -> (r: IdSet)
    ensures
        r.wf(),
        r@ == identities(all_chunks(files@)),
{
    let mut ids: IdSet = IdSet::new();
    let mut i: usize = 0;
    let ghost mut done: Seq<Chunk> = Seq::empty();
    proof {
        assert(files@.take(0) =~= Seq::empty());
    }
    while i < files.len()
        invariant
            i <= files@.len(),
            ids.wf(),
            done == all_chunks(files@.take(i as int)),
            ids@ == identities(done),
        decreases files@.len() - i,
    {
        let chunks: &Vec<Chunk> = &files[i].chunks;
        let ghost start = done;
        let mut j: usize = 0;
        proof {
            assert(done =~= start + chunks@.take(0));
        }
        while j < chunks.len()
            invariant
                j <= chunks@.len(),
                ids.wf(),
                done == start + chunks@.take(j as int),
                ids@ == identities(done),
            decreases chunks@.len() - j,
        {
            let _ = ids.insert(chunks[j].id);
            proof {
                let c = chunks@[j as int];
                assert(done.push(c).drop_last() =~= done);
                assert(done.push(c) =~= start + chunks@.take(j + 1));
                done = done.push(c);
            }
            j = j + 1;
        }
        proof {
            assert(chunks@.take(chunks@.len() as int) =~= chunks@);
            assert(files@.take(i + 1).drop_last() =~= files@.take(i as int));
        }
        i = i + 1;
    }
    proof {
        assert(files@.take(files@.len() as int) =~= files@);
    }
    ids
}

/// The bytes of the chunks of files that are not known, each identity once, in
/// order: with nothing known all distinct chunks, with the identities of an
/// older tree what changed since.
#[must_use]
pub fn new_chunks(files: &Vec<FileChunkingFull>, known: &IdSet) -> (r: Vec<Vec<u8>>)
    requires
        known.wf(),
    ensures
        chunk_views(r@) == new_bytes(all_chunks(files@), known@),
{
    let mut ids: IdSet = IdSet::new();
    let mut out: Vec<Vec<u8>> = Vec::new();
    let mut i: usize = 0;
    let ghost mut done: Seq<Chunk> = Seq::empty();
    proof {
        assert(files@.take(0) =~= Seq::empty());
        assert(chunk_views(out@) =~= Seq::empty());
    }
    while i < files.len()
        invariant
            i <= files@.len(),
            ids.wf(),
            known.wf(),
            done == all_chunks(files@.take(i as int)),
            ids@ == identities(done),
            chunk_views(out@) == new_bytes(done, known@),
        decreases files@.len() - i,
    {
        let chunks: &Vec<Chunk> = &files[i].chunks;
        let ghost start = done;
        let mut j: usize = 0;
        proof {
            assert(done =~= start + chunks@.take(0));
        }
        while j < chunks.len()
            invariant
                j <= chunks@.len(),
                ids.wf(),
                known.wf(),
                done == start + chunks@.take(j as int),
                ids@ == identities(done),
                chunk_views(out@) == new_bytes(done, known@),
            decreases chunks@.len() - j,
        {
            let chunk: &Chunk = &chunks[j];
            let ghost before = out@;
            if !known.contains(&chunk.id) && !ids.contains(&chunk.id) {
                let data: Vec<u8> = copy_range(chunk.data.as_slice(), 0, chunk.data.len());
                out.push(data);
                proof {
                    assert(out@.last()@ =~= chunk.data@);
                    assert(chunk_views(out@) =~= chunk_views(before).push(chunk.data@));
                }
            }
            let _ = ids.insert(chunk.id);
            proof {
                let c = chunks@[j as int];
                assert(done.push(c).drop_last() =~= done);
                assert(done.push(c) =~= start + chunks@.take(j + 1));
                done = done.push(c);
            }
            j = j + 1;
        }
        proof {
            assert(chunks@.take(chunks@.len() as int) =~= chunks@);
            assert(files@.take(i + 1).drop_last() =~= files@.take(i as int));
        }
        i = i + 1;
    }
    proof {
        assert(files@.take(files@.len() as int) =~= files@);
    }
    out
}

/// Kinds of files, by extension.
#[derive(Debug, Clone, Copy, PartialEq, Eq, Hash, Structural)]
pub enum FileClass {
    /// Databases.
    DbSqlite,
    /// Zip archives and the office formats built on them.
    OfficeZip,
    /// PDF.
    Pdf,
    /// Raster images.
    Image,
    /// Source code and plain text.
    TextCode,
    /// Everything else.
    Other,
}

/// A class's label.
pub open spec fn class_label(class: FileClass) -> Seq<char> {
    match class {
        FileClass::DbSqlite => "db/sqlite"@,
        FileClass::OfficeZip => "office-zip"@,
        FileClass::Pdf => "pdf"@,
        FileClass::Image => "image"@,
        FileClass::TextCode => "text/code"@,
        FileClass::Other => "other"@,
    }
}

/// The index behind the last occurrence of a character before `end`, or zero.
pub open spec fn after_last(s: Seq<char>, c: char, end: int) -> int
    decreases end,
{
    if end <= 0 {
        0
    } else if s[end - 1] == c {
        end
    } else {
        after_last(s, c, end - 1)
    }
}

/// A path's last component.
pub open spec fn file_name(path: Seq<char>) -> Seq<char> {
    path.skip(after_last(path, '/', path.len() as int))
}

/// A path's extension in lower case: what follows the last dot of its last
/// component, empty without a dot.
pub open spec fn extension(path: Seq<char>) -> Seq<char> {
    let name = file_name(path);
    let at = after_last(name, '.', name.len() as int);
    if at == 0 {
        Seq::empty()
    } else {
        lower(name.skip(at))
    }
}

/// The class of an extension.
pub open spec fn class_of(ext: Seq<char>) -> FileClass {
    if ext == "db"@ || ext == "sqlite"@ || ext == "sqlite3"@ {
        FileClass::DbSqlite
    } else if ext == "docx"@ || ext == "xlsx"@ || ext == "pptx"@ || ext == "odt"@ || ext == "ods"@
        || ext == "zip"@ || ext == "jar"@ {
        FileClass::OfficeZip
    } else if ext == "pdf"@ {
        FileClass::Pdf
    } else if ext == "jpg"@ || ext == "jpeg"@ || ext == "png"@ || ext == "gif"@ || ext == "webp"@
        || ext == "bmp"@ || ext == "tiff"@ {
        FileClass::Image
    } else if ext == "txt"@ || ext == "md"@ || ext == "rs"@ || ext == "py"@ || ext == "js"@ || ext
        == "ts"@ || ext == "c"@ || ext == "h"@ || ext == "cpp"@ || ext == "hpp"@ || ext == "json"@
        || ext == "toml"@ || ext == "yaml"@ || ext == "yml"@ || ext == "csv"@ || ext == "log"@
        || ext == "xml"@ || ext == "html"@ || ext == "css"@ || ext == "go"@ || ext == "java"@ || ext
        == "sql"@ {
        FileClass::TextCode
    } else {
        FileClass::Other
    }
}

fn find_after_last(chars: &Vec<char>, from: usize, c: char) -> (r: usize)
    requires
        from <= chars@.len(),
    ensures
        from <= r <= chars@.len(),
        r - from == after_last(
            chars@.skip(from as int),
            c,
            chars@.len() - from,
        ),
{
    let ghost s = chars@.skip(from as int);
    let mut end: usize = chars.len();
    while end > from
        invariant
            from <= end <= chars@.len(),
            s == chars@.skip(from as int),
            after_last(s, c, chars@.len() - from) == after_last(s, c, end - from),
        decreases end,
    {
        if chars[end - 1] == c {
            return end;
        }
        end = end - 1;
    }
    from
}

impl FileClass {
    /// Every class, in table order.
    pub const ALL: [FileClass; 6] = [
        FileClass::DbSqlite,
        FileClass::OfficeZip,
        FileClass::Pdf,
        FileClass::Image,
        FileClass::TextCode,
        FileClass::Other,
    ];

    /// The class's label.
    #[must_use]
    pub fn label(self) -> (r: &'static str)
        ensures
            r@ == class_label(self),
    {
        match self {
            FileClass::DbSqlite => "db/sqlite",
            FileClass::OfficeZip => "office-zip",
            FileClass::Pdf => "pdf",
            FileClass::Image => "image",
            FileClass::TextCode => "text/code",
            FileClass::Other => "other",
        }
    }

    /// Classifies a path by its extension.
    #[must_use]
    pub fn classify(rel_path: &str) -> (r: Self)
        ensures
            r == class_of(extension(rel_path@)),
    {
        let chars: Vec<char> = chars_of(rel_path);
        proof {
            assert(chars@.skip(0) =~= chars@);
        }
        let name: usize = find_after_last(&chars, 0, '/');
        let dot: usize = find_after_last(&chars, name, '.');
        let mut ext: Vec<char> = Vec::new();
        if dot > name {
            let mut i: usize = dot;
            while i < chars.len()
                invariant
                    dot <= i <= chars@.len(),
                    ext@ == lower(chars@.subrange(dot as int, i as int)),
                decreases chars@.len() - i,
            {
                ext.push(lower_char(chars[i]));
                i = i + 1;
                proof {
                    assert(ext@ =~= lower(chars@.subrange(dot as int, i as int)));
                }
            }
        }
        proof {
            let whole = file_name(rel_path@);
            assert(whole =~= chars@.skip(name as int));
            if dot > name {
                assert(whole.skip(dot - name) =~= chars@.subrange(
                    dot as int,
                    chars@.len() as int,
                ));
            } else {
                assert(ext@ =~= Seq::<char>::empty());
            }
            assert(ext@ == extension(rel_path@));
        }
        class_of_text(&ext)
    }
}

fn class_of_text(ext: &Vec<char>) -> (r: FileClass)
    ensures
        r == class_of(ext@),
{
    if text_is(ext, "db") || text_is(ext, "sqlite") || text_is(ext, "sqlite3") {
        return FileClass::DbSqlite;
    }
    if text_is(ext, "docx") || text_is(ext, "xlsx") || text_is(ext, "pptx") || text_is(ext, "odt") || text_is(ext, "ods") || text_is(ext, "zip") || text_is(ext, "jar") {
        return FileClass::OfficeZip;
    }
    if text_is(ext, "pdf") {
        return FileClass::Pdf;
    }
    if text_is(ext, "jpg") || text_is(ext, "jpeg") || text_is(ext, "png") || text_is(ext, "gif") || text_is(ext, "webp") || text_is(ext, "bmp") || text_is(ext, "tiff") {
        return FileClass::Image;
    }
    if text_is(ext, "txt") || text_is(ext, "md") || text_is(ext, "rs") || text_is(ext, "py") || text_is(ext, "js") || text_is(ext, "ts") || text_is(ext, "c") || text_is(ext, "h") || text_is(ext, "cpp") || text_is(ext, "hpp") || text_is(ext, "json") || text_is(ext, "toml") || text_is(ext, "yaml") || text_is(ext, "yml") || text_is(ext, "csv") || text_is(ext, "log") || text_is(ext, "xml") || text_is(ext, "html") || text_is(ext, "css") || text_is(ext, "go") || text_is(ext, "java") || text_is(ext, "sql") {
        return FileClass::TextCode;
    }
    FileClass::Other
}

/// What one class saves.
#[derive(Debug, Clone, Copy, PartialEq, Eq)]
pub struct FileClassRow {
    /// The class's label.
    pub class: &'static str,
    /// Chunk bytes of the class.
    pub bytes_in: u64,
    /// Payload bytes of the class.
    pub bytes_out: u64,
    /// The class's part in what is saved overall.
    pub share_part: i128,
    /// What is saved overall; one, with no part in it, where nothing is.
    pub share_whole: i128,
}

/// The class at a place of the table.
pub open spec fn class_at(k: int) -> FileClass {
    if k == 0 {
        FileClass::DbSqlite
    } else if k == 1 {
        FileClass::OfficeZip
    } else if k == 2 {
        FileClass::Pdf
    } else if k == 3 {
        FileClass::Image
    } else if k == 4 {
        FileClass::TextCode
    } else {
        FileClass::Other
    }
}

/// Chunk bytes of a class among the first `n` samples, each a class with
/// chunk and payload length.
pub open spec fn class_in(samples: Seq<(FileClass, u64, u64)>, class: FileClass, n: int) -> int
    decreases n,
{
    if n <= 0 {
        0
    } else {
        class_in(samples, class, n - 1) + if samples[n - 1].0 == class {
            samples[n - 1].1 as int
        } else {
            0
        }
    }
}

/// Payload bytes of a class among the first `n` samples.
pub open spec fn class_out(samples: Seq<(FileClass, u64, u64)>, class: FileClass, n: int) -> int
    decreases n,
{
    if n <= 0 {
        0
    } else {
        class_out(samples, class, n - 1) + if samples[n - 1].0 == class {
            samples[n - 1].2 as int
        } else {
            0
        }
    }
}

/// Whether a class occurs among the first `n` samples.
pub open spec fn class_occurs(samples: Seq<(FileClass, u64, u64)>, class: FileClass, n: int) -> bool
    decreases n,
{
    n > 0 && (samples[n - 1].0 == class || class_occurs(samples, class, n - 1))
}

/// What a class saves.
pub open spec fn class_saved(samples: Seq<(FileClass, u64, u64)>, class: FileClass) -> int {
    capped(class_in(samples, class, samples.len() as int)) - capped(
        class_out(samples, class, samples.len() as int),
    )
}

/// What the first `k` classes of the table save.
pub open spec fn saved_upto(samples: Seq<(FileClass, u64, u64)>, k: int) -> int
    decreases k,
{
    if k <= 0 {
        0
    } else {
        saved_upto(samples, k - 1) + class_saved(samples, class_at(k - 1))
    }
}

/// The classes that occur, of the first `k` of the table, in its order.
pub open spec fn classes_listed(samples: Seq<(FileClass, u64, u64)>, k: int) -> Seq<FileClass>
    decreases k,
{
    if k <= 0 {
        Seq::empty()
    } else if class_occurs(samples, class_at(k - 1), samples.len() as int) {
        classes_listed(samples, k - 1).push(class_at(k - 1))
    } else {
        classes_listed(samples, k - 1)
    }
}

/// Whether a row says what a class saves.
pub open spec fn class_row(
    row: FileClassRow,
    samples: Seq<(FileClass, u64, u64)>,
    class: FileClass,
) -> bool {
    let n = samples.len() as int;
    let total = saved_upto(samples, 6);
    &&& row.class@ == class_label(class)
    &&& row.bytes_in == capped(class_in(samples, class, n))
    &&& row.bytes_out == capped(class_out(samples, class, n))
    &&& row.share_part == if total > 0 {
        class_saved(samples, class)
    } else {
        0
    }
    &&& row.share_whole == if total > 0 {
        total
    } else {
        1
    }
}

/// Whether rows are the table of the samples: one row per class that occurs,
/// in table order.
pub open spec fn class_rows_of(
    rows: Seq<FileClassRow>,
    samples: Seq<(FileClass, u64, u64)>,
) -> bool {
    let listed = classes_listed(samples, 6);
    &&& rows.len() == listed.len()
    &&& forall|i: int|
        #![trigger rows[i]]
        0 <= i < rows.len() ==> class_row(rows[i], samples, listed[i])
}

fn class_of_index(k: usize) -> (r: FileClass)
    requires
        k < 6,
    ensures
        r == class_at(k as int),
{
    let all: [FileClass; 6] = FileClass::ALL;
    all[k]
}

/// The table of samples, each a class with chunk and payload length. Sums
/// stop at the largest `u64`.
#[must_use]
pub fn class_rows(samples: &Vec<(FileClass, u64, u64)>) -> (r: Vec<FileClassRow>)
    ensures
        class_rows_of(r@, samples@),
{
    let ghost s = samples@;
    let ghost len = s.len() as int;
    let mut sums: Vec<(bool, u64, u64)> = Vec::new();
    let mut k: usize = 0;
    while k < 6
        invariant
            k <= 6,
            s == samples@,
            sums@.len() == k,
            forall|c: int|
                #![trigger sums@[c]]
                0 <= c < k ==> sums@[c] == (
                    class_occurs(s, class_at(c), s.len() as int),
                    capped(class_in(s, class_at(c), s.len() as int)),
                    capped(class_out(s, class_at(c), s.len() as int)),
                ),
        decreases 6 - k,
    {
        let class: FileClass = class_of_index(k);
        let mut occurs: bool = false;
        let mut bytes_in: u64 = 0;
        let mut bytes_out: u64 = 0;
        let mut i: usize = 0;
        while i < samples.len()
            invariant
                i <= samples@.len(),
                s == samples@,
                occurs == class_occurs(s, class, i as int),
                0 <= class_in(s, class, i as int),
                0 <= class_out(s, class, i as int),
                bytes_in == capped(class_in(s, class, i as int)),
                bytes_out == capped(class_out(s, class, i as int)),
            decreases samples@.len() - i,
        {
            let sample: (FileClass, u64, u64) = samples[i];
            if sample.0 == class {
                occurs = true;
                bytes_in = bytes_in.saturating_add(sample.1);
                bytes_out = bytes_out.saturating_add(sample.2);
            }
            i = i + 1;
        }
        sums.push((occurs, bytes_in, bytes_out));
        k = k + 1;
    }
    let mut total: i128 = 0;
    let mut k: usize = 0;
    while k < 6
        invariant
            k <= 6,
            sums@.len() == 6,
            forall|c: int|
                #![trigger sums@[c]]
                0 <= c < 6 ==> sums@[c] == (
                    class_occurs(s, class_at(c), s.len() as int),
                    capped(class_in(s, class_at(c), s.len() as int)),
                    capped(class_out(s, class_at(c), s.len() as int)),
                ),
            total == saved_upto(s, k as int),
            -(k * 0x1_0000_0000_0000_0000) <= total <= k * 0x1_0000_0000_0000_0000,
        decreases 6 - k,
    {
        let sum: (bool, u64, u64) = sums[k];
        total = total + (sum.1 as i128 - sum.2 as i128);
        k = k + 1;
    }
    let mut rows: Vec<FileClassRow> = Vec::new();
    let mut k: usize = 0;
    while k < 6
        invariant
            k <= 6,
            sums@.len() == 6,
            forall|c: int|
                #![trigger sums@[c]]
                0 <= c < 6 ==> sums@[c] == (
                    class_occurs(s, class_at(c), s.len() as int),
                    capped(class_in(s, class_at(c), s.len() as int)),
                    capped(class_out(s, class_at(c), s.len() as int)),
                ),
            total == saved_upto(s, 6),
            rows@.len() == classes_listed(s, k as int).len(),
            forall|i: int|
                #![trigger rows@[i]]
                0 <= i < rows@.len() ==> class_row(rows@[i], s, classes_listed(s, k as int)[i]),
        decreases 6 - k,
    {
        let sum: (bool, u64, u64) = sums[k];
        if sum.0 {
            let class: FileClass = class_of_index(k);
            let (share_part, share_whole): (i128, i128) = if total > 0 {
                (sum.1 as i128 - sum.2 as i128, total)
            } else {
                (0, 1)
            };
            rows.push(
                FileClassRow {
                    class: class.label(),
                    bytes_in: sum.1,
                    bytes_out: sum.2,
                    share_part,
                    share_whole,
                },
            );
        }
        k = k + 1;
    }
    rows
}

/// Whether a payload is what a policy can store of a chunk.
pub open spec fn stores(chunk: Seq<u8>, phase: Phase, cfg: PolicyConfig, payload: Seq<u8>) -> bool {
    exists|codec: CodecId, after: PolicyCounters| #[trigger]
        chosen(chunk, phase, cfg, zero_counters(), codec, payload, after)
}

/// The classes of the chunks of files, one per chunk and in their order.
pub open spec fn all_classes(files: Seq<FileChunkingFull>) -> Seq<FileClass>
    decreases files.len(),
{
    if files.len() == 0 {
        Seq::empty()
    } else {
        let file = files.last();
        all_classes(files.drop_last()) + Seq::new(
            file.chunks@.len(),
            |i: int| class_of(extension(file.rel_path@)),
        )
    }
}

/// The bytes of chunks with their classes, each identity once, in order.
pub open spec fn first_classed(chunks: Seq<Chunk>, classes: Seq<FileClass>) -> Seq<
    (FileClass, Seq<u8>),
>
    decreases chunks.len(),
{
    if chunks.len() == 0 {
        Seq::empty()
    } else {
        let before = first_classed(chunks.drop_last(), classes.drop_last());
        if identities(chunks.drop_last()).contains(chunks.last().id@) {
            before
        } else {
            before.push((classes.last(), chunks.last().data@))
        }
    }
}

/// Classed chunks, by their bytes.
pub open spec fn classed_views(chunks: Seq<(FileClass, Vec<u8>)>) -> Seq<(FileClass, Seq<u8>)> {
    Seq::new(chunks.len(), |i: int| (chunks[i].0, chunks[i].1@))
}

/// The distinct chunks of files, each with the class of the first file that
/// holds it.
#[must_use]
pub fn classed_chunks(files: &Vec<FileChunkingFull>) -> (r: Vec<(FileClass, Vec<u8>)>)
    ensures
        classed_views(r@) == first_classed(all_chunks(files@), all_classes(files@)),
{
    let mut ids: IdSet = IdSet::new();
    let mut out: Vec<(FileClass, Vec<u8>)> = Vec::new();
    let mut i: usize = 0;
    let ghost mut done: Seq<Chunk> = Seq::empty();
    let ghost mut classes: Seq<FileClass> = Seq::empty();
    proof {
        assert(files@.take(0) =~= Seq::empty());
        assert(classed_views(out@) =~= Seq::empty());
    }
    while i < files.len()
        invariant
            i <= files@.len(),
            ids.wf(),
            done == all_chunks(files@.take(i as int)),
            classes == all_classes(files@.take(i as int)),
            ids@ == identities(done),
            classed_views(out@) == first_classed(done, classes),
        decreases files@.len() - i,
    {
        let class: FileClass = FileClass::classify(files[i].rel_path.as_str());
        let chunks: &Vec<Chunk> = &files[i].chunks;
        let ghost start = done;
        let ghost start_classes = classes;
        let mut j: usize = 0;
        proof {
            assert(done =~= start + chunks@.take(0));
            assert(classes =~= start_classes + Seq::new(0, |k: int| class));
        }
        while j < chunks.len()
            invariant
                j <= chunks@.len(),
                ids.wf(),
                done == start + chunks@.take(j as int),
                classes == start_classes + Seq::new(j as nat, |k: int| class),
                ids@ == identities(done),
                classed_views(out@) == first_classed(done, classes),
            decreases chunks@.len() - j,
        {
            let chunk: &Chunk = &chunks[j];
            let ghost before = out@;
            if ids.insert(chunk.id) {
                let data: Vec<u8> = copy_range(chunk.data.as_slice(), 0, chunk.data.len());
                out.push((class, data));
                proof {
                    assert(out@.last().1@ =~= chunk.data@);
                    assert(classed_views(out@) =~= classed_views(before).push(
                        (class, chunk.data@),
                    ));
                }
            }
            proof {
                let c = chunks@[j as int];
                assert(done.push(c).drop_last() =~= done);
                assert(classes.push(class).drop_last() =~= classes);
                assert(done.push(c) =~= start + chunks@.take(j + 1));
                assert(classes.push(class) =~= start_classes + Seq::new(
                    (j + 1) as nat,
                    |k: int| class,
                ));
                done = done.push(c);
                classes = classes.push(class);
            }
            j = j + 1;
        }
        proof {
            let file = files@[i as int];
            assert(chunks@.take(chunks@.len() as int) =~= chunks@);
            assert(files@.take(i + 1).drop_last() =~= files@.take(i as int));
            assert(Seq::new(chunks@.len(), |k: int| class) =~= Seq::new(
                file.chunks@.len(),
                |k: int| class_of(extension(file.rel_path@)),
            ));
        }
        i = i + 1;
    }
    proof {
        assert(files@.take(files@.len() as int) =~= files@);
    }
    out
}

/// The samples of chunks and what is stored of them.
pub open spec fn samples_of(chunks: Seq<(FileClass, Vec<u8>)>, stored: Seq<Seq<u8>>) -> Seq<
    (FileClass, u64, u64),
> {
    Seq::new(
        chunks.len(),
        |i: int| (chunks[i].0, chunks[i].1@.len() as u64, stored[i].len() as u64),
    )
}

/// What each class of files saves under a policy during a first backup.
#[must_use]
pub fn file_class_diagnostics(chunks: &[(FileClass, Vec<u8>)], policy: PolicyKind) -> (r: Vec<
    FileClassRow,
>)
    requires
        policy == PolicyKind::ProbeZstd3 ==> forall|i: int|
            0 <= i < chunks@.len() ==> probe_fits((#[trigger] chunks@[i]).1@.len() as int),
    ensures
        exists|stored: Seq<Seq<u8>>|
            {
                &&& stored.len() == chunks@.len()
                &&& forall|i: int|
                    #![trigger stored[i]]
                    0 <= i < stored.len() ==> stores(
                        chunks@[i].1@,
                        Phase::InitialFull,
                        policy_config(policy),
                        stored[i],
                    )
                &&& #[trigger] class_rows_of(r@, samples_of(chunks@, stored))
            },
{
    let cfg: PolicyConfig = policy.config();
    let mut samples: Vec<(FileClass, u64, u64)> = Vec::new();
    let ghost mut stored: Seq<Seq<u8>> = Seq::empty();
    let mut i: usize = 0;
    while i < chunks.len()
        invariant
            i <= chunks@.len(),
            cfg == policy_config(policy),
            policy == PolicyKind::ProbeZstd3 ==> forall|k: int|
                0 <= k < chunks@.len() ==> probe_fits((#[trigger] chunks@[k]).1@.len() as int),
            samples@.len() == i,
            stored.len() == i,
            forall|k: int|
                #![trigger samples@[k]]
                0 <= k < i ==> samples@[k] == (
                    chunks@[k].0,
                    chunks@[k].1@.len() as u64,
                    stored[k].len() as u64,
                ),
            forall|k: int|
                #![trigger stored[k]]
                0 <= k < i ==> stores(chunks@[k].1@, Phase::InitialFull, cfg, stored[k]),
        decreases chunks@.len() - i,
    {
        let mut counters: PolicyCounters = PolicyCounters::default();
        let chunk = chunks[i].1.as_slice();
        let (codec, payload) = choose_codec(chunk, Phase::InitialFull, &cfg, &mut counters);
        let out: u64 = match &payload {
            Cow::Borrowed(p) => p.len() as u64,
            Cow::Owned(p) => p.len() as u64,
        };
        proof {
            assert(stores(chunks@[i as int].1@, Phase::InitialFull, cfg, payload@));
            stored = stored.push(payload@);
        }
        samples.push((chunks[i].0, chunk.len() as u64, out));
        i = i + 1;
    }
    proof {
        assert(samples@ =~= samples_of(chunks@, stored));
    }
    class_rows(&samples)
}

/// Where the figures of an incremental backup come from.
#[derive(Debug, Clone, Copy, PartialEq, Eq, Structural)]
pub enum ChurnSource {
    /// A comparison with a baseline.
    Measured,
    /// An assumed share of changed content.
    Assumed {
        /// The share in percent.
        percent: Ratio,
    },
}

/// What an incremental backup would store.
#[derive(Debug, Clone, Copy, PartialEq, Eq, Structural)]
pub struct IncrementalProjection {
    /// Where the figures come from.
    pub source: ChurnSource,
    /// What the policy makes of the new chunks.
    pub delta: PolicyStoredStats,
}

/// What the report is built from.
#[derive(Debug, Clone, Copy)]
pub struct BuildInputs<'a> {
    /// The distinct chunks.
    pub unique_chunks: &'a [Vec<u8>],
    /// The distinct chunks that a baseline does not have, if there is one.
    pub delta_chunks: Option<&'a [Vec<u8>]>,
    /// The assumed churn in percent, for want of a baseline.
    pub assume_churn_percent: Option<Ratio>,
}

/// One policy's row in the report.
#[derive(Debug, Clone, Copy, PartialEq, Eq)]
pub struct PolicyRow {
    /// The policy's name.
    pub policy: &'static str,
    /// What the policy makes of all chunks in a first backup.
    pub stored: PolicyStoredStats,
    /// The projected compute time of a first backup, in nanoseconds.
    pub cpu_bound_nanos: u64,
    /// What an incremental backup would store, where that is known.
    pub incremental: Option<IncrementalProjection>,
    /// The stored bytes with the bookkeeping of the retained snapshots.
    pub projected_steady_state_bytes: u64,
}

/// A share in percent of a number, the share taken as at most one, rounded to
/// the nearest whole number and up from a half; nothing for a share that is not
/// a number.
pub open spec fn scaled(v: int, percent: Ratio) -> int {
    let whole = 100 * percent.den;
    if percent.num == 0 {
        0
    } else if percent.num >= whole {
        v
    } else if 2 * ((v * percent.num) % whole) >= whole {
        (v * percent.num) / whole + 1
    } else {
        (v * percent.num) / whole
    }
}

proof fn lemma_scaled(v: int, percent: Ratio)
    requires
        v >= 0,
    ensures
        0 <= scaled(v, percent) <= v,
{
    let whole = 100 * percent.den;
    let num = percent.num as int;
    if num < whole {
        let p = v * num;
        assert(0 <= p <= v * (whole - 1)) by (nonlinear_arith)
            requires
                v >= 0,
                0 <= num <= whole - 1,
                p == v * num,
        ;
        let q = p / whole;
        let r = p % whole;
        assert(p == q * whole + r && 0 <= r < whole) by (nonlinear_arith)
            requires
                whole > 0,
                q == p / whole,
                r == p % whole,
        ;
        assert(q >= 0) by (nonlinear_arith)
            requires
                p >= 0,
                whole > 0,
                q == p / whole,
        ;
        assert(q <= v) by (nonlinear_arith)
            requires
                p == q * whole + r,
                r >= 0,
                p <= v * (whole - 1),
                whole > 0,
                v >= 0,
        ;
        if q == v {
            assert(r <= -v) by (nonlinear_arith)
                requires
                    p == q * whole + r,
                    q == v,
                    p <= v * (whole - 1),
            ;
        }
    }
}

fn scale(v: u64, percent: Ratio) -> (r: u64)
    ensures
        r == scaled(v as int, percent),
{
    let whole: u128 = 100 * (percent.den as u128);
    let num: u128 = percent.num as u128;
    if num == 0 {
        return 0;
    }
    if num >= whole {
        return v;
    }
    proof {
        lemma_scaled(v as int, percent);
        let (a, b) = (v as int, percent.num as int);
        assert(0 <= a * b <= 0xffff_ffff_ffff_ffff * 0xffff_ffff_ffff_ffff) by (nonlinear_arith)
            requires
                0 <= a <= 0xffff_ffff_ffff_ffff,
                0 <= b <= 0xffff_ffff_ffff_ffff,
        ;
    }
    let product: u128 = (v as u128) * num;
    let q: u128 = product / whole;
    let r: u128 = product % whole;
    if 2 * r >= whole {
        (q + 1) as u64
    } else {
        q as u64
    }
}

/// Figures scaled to a share.
pub open spec fn scaled_stats(s: PolicyStoredStats, percent: Ratio) -> PolicyStoredStats {
    PolicyStoredStats {
        chunk_count: scaled(s.chunk_count as int, percent) as u64,
        bytes_in: scaled(s.bytes_in as int, percent) as u64,
        bytes_out: scaled(s.bytes_out as int, percent) as u64,
        framed_bytes: scaled(s.framed_bytes as int, percent) as u64,
        stored_bytes: scaled(s.stored_bytes as int, percent) as u64,
        ratio: s.ratio,
        raw_chunks: scaled(s.raw_chunks as int, percent) as u64,
        zstd3_chunks: scaled(s.zstd3_chunks as int, percent) as u64,
        escalated_chunks: scaled(s.escalated_chunks as int, percent) as u64,
        escalation_attempts: scaled(s.escalation_attempts as int, percent) as u64,
    }
}

/// Scales figures to a share in percent; the ratio stays.
#[must_use]
pub fn scale_stats(stats: &PolicyStoredStats, percent: Ratio) -> (r: PolicyStoredStats)
    ensures
        r == scaled_stats(*stats, percent),
{
    PolicyStoredStats {
        chunk_count: scale(stats.chunk_count, percent),
        bytes_in: scale(stats.bytes_in, percent),
        bytes_out: scale(stats.bytes_out, percent),
        framed_bytes: scale(stats.framed_bytes, percent),
        stored_bytes: scale(stats.stored_bytes, percent),
        ratio: stats.ratio,
        raw_chunks: scale(stats.raw_chunks, percent),
        zstd3_chunks: scale(stats.zstd3_chunks, percent),
        escalated_chunks: scale(stats.escalated_chunks, percent),
        escalation_attempts: scale(stats.escalation_attempts, percent),
    }
}

/// Projects an incremental backup: from the chunks that a baseline lacks, or
/// else from an assumed churn, or else not at all.
#[must_use]
pub fn build_incremental(kind: PolicyKind, inputs: &BuildInputs<'_>) -> (r: Option<
    IncrementalProjection,
>)
    requires
        kind == PolicyKind::ProbeZstd3 ==> {
            &&& forall|i: int|
                0 <= i < inputs.unique_chunks@.len() ==> probe_fits(
                    (#[trigger] inputs.unique_chunks@[i])@.len() as int,
                )
            &&& inputs.delta_chunks matches Some(d) ==> forall|i: int|
                0 <= i < d@.len() ==> probe_fits((#[trigger] d@[i])@.len() as int)
        },
    ensures
        projects(kind, *inputs, r),
{
    match inputs.delta_chunks {
        Some(d) => {
            let delta: PolicyStoredStats = simulate_policy(d, kind, Phase::Incremental);
            Some(IncrementalProjection { source: ChurnSource::Measured, delta })
        },
        None => match inputs.assume_churn_percent {
            Some(percent) => {
                let whole: PolicyStoredStats = simulate_policy(
                    inputs.unique_chunks,
                    kind,
                    Phase::Incremental,
                );
                proof {
                    assert(simulated(inputs.unique_chunks@, kind, Phase::Incremental, whole));
                }
                Some(
                    IncrementalProjection {
                        source: ChurnSource::Assumed { percent },
                        delta: scale_stats(&whole, percent),
                    },
                )
            },
            None => None,
        },
    }
}

/// Builds a policy's row.
#[must_use]
pub fn build_policy_row(
    kind: PolicyKind,
    stored: PolicyStoredStats,
    cpu_bound_nanos: u64,
    incremental: Option<IncrementalProjection>,
    bookkeeping_bytes: u64,
) -> (r: PolicyRow)
    ensures
        r.policy@ == policy_name(kind),
        r.stored == stored,
        r.cpu_bound_nanos == cpu_bound_nanos,
        r.incremental == incremental,
        r.projected_steady_state_bytes == capped(stored.stored_bytes + bookkeeping_bytes),
{
    PolicyRow {
        policy: kind.name(),
        stored,
        cpu_bound_nanos,
        incremental,
        projected_steady_state_bytes: stored.stored_bytes.saturating_add(bookkeeping_bytes),
    }
}

/// Whether figures are what an incremental backup under a policy would store,
/// as far as that is known.
pub open spec fn projects(
    kind: PolicyKind,
    inputs: BuildInputs<'_>,
    r: Option<IncrementalProjection>,
) -> bool {
    match (inputs.delta_chunks, inputs.assume_churn_percent) {
        (Some(d), _) => r matches Some(p) && p.source == ChurnSource::Measured && simulated(
            d@,
            kind,
            Phase::Incremental,
            p.delta,
        ),
        (None, Some(percent)) => r matches Some(p) && p.source == (ChurnSource::Assumed {
            percent,
        }) && exists|whole: PolicyStoredStats| #[trigger]
            simulated(inputs.unique_chunks@, kind, Phase::Incremental, whole) && p.delta
                == scaled_stats(whole, percent),
        (None, None) => r is None,
    }
}

/// What a policy makes of the chunks: of all distinct ones as a first backup,
/// and of the new ones as an incremental backup where those are known.
#[must_use]
pub fn measure_policy(kind: PolicyKind, inputs: &BuildInputs<'_>) -> (r: (
    PolicyStoredStats,
    Option<IncrementalProjection>,
))
    requires
        kind == PolicyKind::ProbeZstd3 ==> {
            &&& forall|i: int|
                0 <= i < inputs.unique_chunks@.len() ==> probe_fits(
                    (#[trigger] inputs.unique_chunks@[i])@.len() as int,
                )
            &&& inputs.delta_chunks matches Some(d) ==> forall|i: int|
                0 <= i < d@.len() ==> probe_fits((#[trigger] d@[i])@.len() as int)
        },
    ensures
        simulated(inputs.unique_chunks@, kind, Phase::InitialFull, r.0),
        projects(kind, *inputs, r.1),
{
    let stored: PolicyStoredStats = simulate_policy(
        inputs.unique_chunks,
        kind,
        Phase::InitialFull,
    );
    (stored, build_incremental(kind, inputs))
}

/// What was measured of one policy: what it stores in a first backup, the
/// projected compute time in nanoseconds, and what an incremental backup would
/// store.
pub type PolicyMeasurement = (PolicyStoredStats, u64, Option<IncrementalProjection>);

/// Whether a row shows what was measured of a policy.
pub open spec fn row_of(
    row: PolicyRow,
    kind: PolicyKind,
    m: PolicyMeasurement,
    bookkeeping: int,
) -> bool {
    &&& row.policy@ == policy_name(kind)
    &&& row.stored == m.0
    &&& row.cpu_bound_nanos == m.1
    &&& row.incremental == m.2
    &&& row.projected_steady_state_bytes == capped(m.0.stored_bytes + bookkeeping)
}

/// The policy at a place of the report.
pub open spec fn kind_at(k: int) -> PolicyKind {
    if k == 0 {
        PolicyKind::RawOnly
    } else if k == 1 {
        PolicyKind::Zstd3Always
    } else if k == 2 {
        PolicyKind::Zstd3
    } else if k == 3 {
        PolicyKind::ProbeZstd3
    } else {
        PolicyKind::Zstd3Escalate
    }
}

/// Builds the report: a row for each policy, in the order of
/// [`PolicyKind::ALL`].
#[must_use]
pub fn build_compression_report(
    measured: &[PolicyMeasurement; 5],
    bookkeeping_bytes: u64,
) -> (r: Vec<PolicyRow>)
    ensures
        r@.len() == 5,
        forall|k: int|
            #![trigger r@[k]]
            0 <= k < 5 ==> row_of(r@[k], kind_at(k), measured@[k], bookkeeping_bytes as int),
{
    let kinds: [PolicyKind; 5] = PolicyKind::ALL;
    let mut out: Vec<PolicyRow> = Vec::with_capacity(5);
    let mut k: usize = 0;
    while k < 5
        invariant
            k <= 5,
            out@.len() == k,
            kinds@ == seq![kind_at(0), kind_at(1), kind_at(2), kind_at(3), kind_at(4)],
            forall|j: int|
                #![trigger out@[j]]
                0 <= j < k ==> row_of(out@[j], kind_at(j), measured@[j], bookkeeping_bytes as int),
        decreases 5 - k,
    {
        let m: PolicyMeasurement = measured[k];
        out.push(build_policy_row(kinds[k], m.0, m.1, m.2, bookkeeping_bytes));
        k = k + 1;
    }
    out
}

/// The index of the first row of the default policy, or the number of rows.
pub open spec fn default_row(rows: Seq<PolicyRow>, from: int) -> int
    decreases rows.len() - from,
{
    if from >= rows.len() {
        rows.len() as int
    } else if rows[from].policy@ == "zstd3"@ {
        from
    } else {
        default_row(rows, from + 1)
    }
}

/// Whether a row takes at most one and a half times the compute time.
pub open spec fn within_budget(row: PolicyRow, default: PolicyRow) -> bool {
    2 * row.cpu_bound_nanos <= 3 * default.cpu_bound_nanos
}

/// The place of a policy in the report, by its name; unknown names come last.
pub open spec fn policy_rank(name: Seq<char>) -> int {
    if name == "raw-only"@ {
        0
    } else if name == "zstd3-always"@ {
        1
    } else if name == "zstd3"@ {
        2
    } else if name == "probe+zstd3"@ {
        3
    } else if name == "zstd3+escalate"@ {
        4
    } else {
        5
    }
}

fn rank_of(name: &str) -> (r: u8)
    ensures
        r == policy_rank(name@),
{
    let chars: Vec<char> = chars_of(name);
    if text_is(&chars, "raw-only") {
        0
    } else if text_is(&chars, "zstd3-always") {
        1
    } else if text_is(&chars, "zstd3") {
        2
    } else if text_is(&chars, "probe+zstd3") {
        3
    } else if text_is(&chars, "zstd3+escalate") {
        4
    } else {
        5
    }
}

/// Whether a row is to be preferred to another: it stores less, or as much
/// and comes first in the report's order.
pub open spec fn preferred(a: PolicyRow, b: PolicyRow) -> bool {
    ||| a.projected_steady_state_bytes < b.projected_steady_state_bytes
    ||| a.projected_steady_state_bytes == b.projected_steady_state_bytes && policy_rank(a.policy@)
        < policy_rank(b.policy@)
}

fn is_preferred(a: &PolicyRow, b: &PolicyRow) -> (r: bool)
    ensures
        r == preferred(*a, *b),
{
    a.projected_steady_state_bytes < b.projected_steady_state_bytes
        || a.projected_steady_state_bytes == b.projected_steady_state_bytes && rank_of(a.policy)
        < rank_of(b.policy)
}

/// Recommends the policy that stores least among those within one and a half
/// times the default policy's compute time; of several, the first in the
/// order of [`PolicyKind::ALL`]. `None` exactly if the default policy has no
/// row.
#[must_use]
pub fn recommend_policy(rows: &[PolicyRow]) -> (r: Option<&'static str>)
    ensures
        match r {
            None => default_row(rows@, 0) == rows@.len(),
            Some(name) => default_row(rows@, 0) < rows@.len() && exists|w: int|
                #![trigger rows@[w]]
                {
                    let d = rows@[default_row(rows@, 0)];
                    &&& 0 <= w < rows@.len()
                    &&& name@ == rows@[w].policy@
                    &&& within_budget(rows@[w], d)
                    &&& forall|j: int|
                        #![trigger rows@[j]]
                        0 <= j < rows@.len() && within_budget(rows@[j], d) ==> !preferred(
                            rows@[j],
                            rows@[w],
                        )
                },
        },
        r is None <==> forall|i: int|
            #![trigger rows@[i]]
            0 <= i < rows@.len() ==> rows@[i].policy@ != "zstd3"@,
        r matches Some(name) ==> exists|d: int, w: int|
            #![trigger rows@[d], rows@[w]]
            {
                &&& 0 <= d < rows@.len()
                &&& rows@[d].policy@ == "zstd3"@
                &&& 0 <= w < rows@.len()
                &&& name@ == rows@[w].policy@
                &&& 2 * rows@[w].cpu_bound_nanos <= 3 * rows@[d].cpu_bound_nanos
                &&& forall|j: int|
                    #![trigger rows@[j]]
                    0 <= j < rows@.len() && 2 * rows@[j].cpu_bound_nanos <= 3
                        * rows@[d].cpu_bound_nanos ==> rows@[w].projected_steady_state_bytes
                        <= rows@[j].projected_steady_state_bytes
            },
{
    let mut at: usize = 0;
    while at < rows.len()
        invariant_except_break
            at <= rows@.len(),
            default_row(rows@, 0) == default_row(rows@, at as int),
        ensures
            at <= rows@.len(),
            default_row(rows@, 0) == at,
        decreases rows@.len() - at,
    {
        let name: Vec<char> = chars_of(rows[at].policy);
        if text_is(&name, "zstd3") {
            break;
        }
        at = at + 1;
    }
    proof {
        law_default_row_is_the_first(rows@);
    }
    if at == rows.len() {
        return None;
    }
    let budget: u128 = 3 * (rows[at].cpu_bound_nanos as u128);
    let ghost d = rows@[at as int];
    let mut best: usize = at;
    let mut found: bool = false;
    let mut i: usize = 0;
    while i < rows.len()
        invariant
            i <= rows@.len(),
            at < rows@.len(),
            best < rows@.len(),
            d == rows@[at as int],
            budget == 3 * d.cpu_bound_nanos,
            found ==> best < i && within_budget(rows@[best as int], d) && forall|j: int|
                #![trigger rows@[j]]
                0 <= j < i && within_budget(rows@[j], d) ==> !preferred(rows@[j], rows@[best as int]),
            !found ==> forall|j: int|
                #![trigger rows@[j]]
                0 <= j < i ==> !within_budget(rows@[j], d),
        decreases rows@.len() - i,
    {
        let row: &PolicyRow = &rows[i];
        if 2 * (row.cpu_bound_nanos as u128) <= budget {
            if !found || is_preferred(row, &rows[best]) {
                best = i;
                found = true;
            }
        }
        i = i + 1;
    }
    proof {
        assert(within_budget(rows@[at as int], d));
        let w = rows@[best as int];
        assert(rows@[at as int].policy@ == "zstd3"@);
    }
    Some(rows[best].policy)
}

/// Policy names are distinct, so a name stands for one policy.
pub proof fn law_policy_names_are_distinct(a: PolicyKind, b: PolicyKind)
    requires
        policy_name(a) == policy_name(b),
    ensures
        a == b,
{
    reveal_strlit("raw-only");
    reveal_strlit("zstd3-always");
    reveal_strlit("zstd3");
    reveal_strlit("probe+zstd3");
    reveal_strlit("zstd3+escalate");
    assert(policy_name(PolicyKind::RawOnly).len() == 8);
    assert(policy_name(PolicyKind::Zstd3Always).len() == 12);
    assert(policy_name(PolicyKind::Zstd3).len() == 5);
    assert(policy_name(PolicyKind::ProbeZstd3).len() == 11);
    assert(policy_name(PolicyKind::Zstd3Escalate).len() == 14);
}

/// The figures of a run are what a backup of the same chunks stores: each
/// framed output with the encryption overhead.
pub proof fn law_simulation_is_exact(
    chunks: Seq<Seq<u8>>,
    phase: Phase,
    cfg: PolicyConfig,
    outs: Seq<Seq<u8>>,
    c: PolicyCounters,
)
    requires
        chunks.len() == outs.len(),
        encoded_run(chunks, phase, cfg, zero_counters(), outs, chunks.len(), c),
        total_len(outs) + 40 * outs.len() <= u64::MAX,
    ensures
        stats_of(c).chunk_count == chunks.len(),
        stats_of(c).framed_bytes == total_len(outs),
        stats_of(c).stored_bytes == total_len(outs) + 40 * outs.len(),
{
    lemma_total_len(outs);
    law_run_counts(chunks, phase, cfg, zero_counters(), outs, c);
}

/// The simulation of a policy says to the byte what a backup uploads: where a
/// backup seals the same chunks under the same policy, its blobs add up to the
/// simulated stored bytes.
pub proof fn law_simulation_matches_backup(
    chunks: Seq<Vec<u8>>,
    kind: PolicyKind,
    phase: Phase,
    stats: PolicyStoredStats,
    blobs: Seq<ChunkBlob>,
    pending: Seq<(ChunkId, Vec<u8>)>,
    picks: Seq<int>,
    key: Seq<u8>,
    nonces: Seq<[u8; 24]>,
    outs: Seq<Seq<u8>>,
    start: PolicyCounters,
    after: PolicyCounters,
)
    requires
        simulated(chunks, kind, phase, stats),
        blobs_carry(blobs, pending, picks, key, nonces, outs),
        plaintexts(pending, picks) == chunk_views(chunks),
        encoded_run(
            chunk_views(chunks),
            phase,
            policy_config(kind),
            start,
            outs,
            chunks.len(),
            after,
        ),
        blob_sum(blobs) <= u64::MAX,
    ensures
        stats.stored_bytes == blob_sum(blobs),
        stats.chunk_count == blobs.len(),
{
    let (sim_outs, c) = choose|sim_outs: Seq<Seq<u8>>, c: PolicyCounters|
        sim_outs.len() == chunks.len() && #[trigger] encoded_run(
            chunk_views(chunks),
            phase,
            policy_config(kind),
            zero_counters(),
            sim_outs,
            chunks.len(),
            c,
        ) && c.chunks() == chunks.len() && stats == stats_of(c);
    assert(plaintexts(pending, picks).len() == picks.len());
    law_runs_agree(
        chunk_views(chunks),
        phase,
        policy_config(kind),
        zero_counters(),
        start,
        sim_outs,
        outs,
        chunks.len(),
        c,
        after,
    );
    assert(sim_outs =~= outs);
    law_upload_bytes(blobs, pending, picks, key, nonces, outs);
    law_simulation_is_exact(chunk_views(chunks), phase, policy_config(kind), outs, c);
}

proof fn lemma_total_len(outs: Seq<Seq<u8>>)
    ensures
        total_len(outs) >= 0,
    decreases outs.len(),
{
    if outs.len() > 0 {
        lemma_total_len(outs.drop_last());
    }
}

/// A scaled number is the share of the number, off by at most a half and never
/// by a half downwards: nothing of it at no percent, all of it from a hundred
/// percent on.
pub proof fn law_scaled_is_the_share(v: int, percent: Ratio)
    requires
        v >= 0,
    ensures
        percent.num <= 100 * percent.den ==> {
            let s = scaled(v, percent);
            let whole = 100 * percent.den;
            -whole <= 2 * (whole * s - v * percent.num) <= whole
        },
        0 < percent.num < 100 * percent.den ==> -(100 * percent.den) < 2 * ((100 * percent.den)
            * scaled(v, percent) - v * percent.num),
        percent.num == 0 ==> scaled(v, percent) == 0,
        0 < percent.num && percent.num >= 100 * percent.den ==> scaled(v, percent) == v,
        0 <= scaled(v, percent) <= v,
{
    lemma_scaled(v, percent);
    let (num, whole) = (percent.num as int, 100 * percent.den as int);
    let s = scaled(v, percent);
    assert(v * 0 == 0);
    if num == 0 {
        assert(v * num == 0) by (nonlinear_arith)
            requires
                num == 0,
        ;
        assert(whole * s == 0) by (nonlinear_arith)
            requires
                s == 0,
        ;
    } else if num == whole {
        assert(whole * s == v * num) by (nonlinear_arith)
            requires
                s == v,
                num == whole,
        ;
    } else if num < whole {
        let p = v * num;
        let (q, r) = (p / whole, p % whole);
        vstd::arithmetic::div_mod::lemma_fundamental_div_mod(p, whole);
        assert(0 <= r < whole) by (nonlinear_arith)
            requires
                r == p % whole,
                whole > 0,
        ;
        assert(whole * (q + 1) == whole * q + whole) by (nonlinear_arith);
    }
}

/// A larger share of a number, or the same share of a larger number, is not
/// smaller.
pub proof fn law_scaled_grows(v: int, a: Ratio, b: Ratio)
    requires
        v >= 0,
        a.den > 0,
        b.den > 0,
        a.num * b.den <= b.num * a.den,
    ensures
        scaled(v, a) <= scaled(v, b),
{
    law_scaled_is_the_share(v, a);
    law_scaled_is_the_share(v, b);
    let (x, y) = (scaled(v, a), scaled(v, b));
    let (na, nb) = (a.num as int, b.num as int);
    let (wa, wb) = (100 * a.den as int, 100 * b.den as int);
    assert(na * wb <= nb * wa) by (nonlinear_arith)
        requires
            a.num * b.den <= b.num * a.den,
            na == a.num,
            nb == b.num,
            wa == 100 * a.den,
            wb == 100 * b.den,
    ;
    if na == 0 || nb >= wb && nb > 0 {
        assert(x <= y);
    } else {
        assert(nb > 0) by (nonlinear_arith)
            requires
                na * wb <= nb * wa,
                na > 0,
                wb > 0,
                wa > 0,
        ;
        assert(na < wa) by (nonlinear_arith)
            requires
                na * wb <= nb * wa,
                nb < wb,
                wa > 0,
                wb > 0,
                na > 0,
        ;
        assert(x <= y) by (nonlinear_arith)
            requires
                2 * (wa * x - v * na) <= wa,
                -wb < 2 * (wb * y - v * nb),
                na * wb <= nb * wa,
                v >= 0,
                wa > 0,
                wb > 0,
        {
            if x >= y + 1 {
                assert(wb * (2 * (wa * x - v * na)) <= wb * wa);
                assert(wa * (2 * (wb * y - v * nb)) > -(wa * wb));
                assert(v * (na * wb) <= v * (nb * wa));
                assert(wb * (wa * x) >= wb * (wa * (y + 1)));
                assert(wb * (2 * (wa * x - v * na)) == 2 * (wb * (wa * x)) - 2 * (v * (na * wb)));
                assert(wa * (2 * (wb * y - v * nb)) == 2 * (wb * (wa * y)) - 2 * (v * (nb * wa)));
                assert(wb * (wa * (y + 1)) == wb * (wa * y) + wb * wa);
            }
        }
    }
}

/// Every figure of a projection is the share of the whole's figure, and the
/// ratio is the whole's.
pub proof fn law_figures_are_scaled_alike(s: PolicyStoredStats, percent: Ratio)
    requires
        percent.num <= 100 * percent.den,
    ensures
        ({
            let r = scaled_stats(s, percent);
            let (num, whole) = (percent.num, 100 * percent.den);
            &&& -whole <= 2 * (whole * r.chunk_count - s.chunk_count * num) <= whole
            &&& -whole <= 2 * (whole * r.bytes_in - s.bytes_in * num) <= whole
            &&& -whole <= 2 * (whole * r.bytes_out - s.bytes_out * num) <= whole
            &&& -whole <= 2 * (whole * r.framed_bytes - s.framed_bytes * num) <= whole
            &&& -whole <= 2 * (whole * r.stored_bytes - s.stored_bytes * num) <= whole
            &&& -whole <= 2 * (whole * r.raw_chunks - s.raw_chunks * num) <= whole
            &&& -whole <= 2 * (whole * r.zstd3_chunks - s.zstd3_chunks * num) <= whole
            &&& -whole <= 2 * (whole * r.escalated_chunks - s.escalated_chunks * num) <= whole
            &&& -whole <= 2 * (whole * r.escalation_attempts - s.escalation_attempts * num)
                <= whole
            &&& r.ratio == s.ratio
        }),
{
    law_scaled_is_the_share(s.chunk_count as int, percent);
    law_scaled_is_the_share(s.bytes_in as int, percent);
    law_scaled_is_the_share(s.bytes_out as int, percent);
    law_scaled_is_the_share(s.framed_bytes as int, percent);
    law_scaled_is_the_share(s.stored_bytes as int, percent);
    law_scaled_is_the_share(s.raw_chunks as int, percent);
    law_scaled_is_the_share(s.zstd3_chunks as int, percent);
    law_scaled_is_the_share(s.escalated_chunks as int, percent);
    law_scaled_is_the_share(s.escalation_attempts as int, percent);
}

/// A hundred percent or more of churn is the whole again, and none is nothing.
pub proof fn law_full_churn_is_the_whole(s: PolicyStoredStats, percent: Ratio)
    requires
        percent.num > 0,
        percent.num >= 100 * percent.den,
    ensures
        scaled_stats(s, percent) == s,
{
    law_scaled_is_the_share(s.chunk_count as int, percent);
    law_scaled_is_the_share(s.bytes_in as int, percent);
    law_scaled_is_the_share(s.bytes_out as int, percent);
    law_scaled_is_the_share(s.framed_bytes as int, percent);
    law_scaled_is_the_share(s.stored_bytes as int, percent);
    law_scaled_is_the_share(s.raw_chunks as int, percent);
    law_scaled_is_the_share(s.zstd3_chunks as int, percent);
    law_scaled_is_the_share(s.escalated_chunks as int, percent);
    law_scaled_is_the_share(s.escalation_attempts as int, percent);
}

/// The policies are what their names say: only the probing one probes, only
/// the escalating one escalates, and they differ from the default in nothing
/// else but the keep threshold of the first two.
pub proof fn law_policies_are_as_named(kind: PolicyKind)
    ensures
        ({
            let (cfg, usual) = (policy_config(kind), policy_config(PolicyKind::Zstd3));
            &&& cfg.use_probe <==> kind == PolicyKind::ProbeZstd3
            &&& cfg.escalate <==> kind == PolicyKind::Zstd3Escalate
            &&& cfg.zstd_level == usual.zstd_level
            &&& cfg.escalate_level == usual.escalate_level
            &&& cfg.probe_threshold == usual.probe_threshold
            &&& cfg.escalate_ratio == usual.escalate_ratio
            &&& kind == PolicyKind::RawOnly ==> cfg.keep_threshold.num == 0
                && cfg.keep_threshold.den > 0
            &&& kind == PolicyKind::Zstd3Always ==> cfg.keep_threshold.num > 0
                && cfg.keep_threshold.den == 0
            &&& kind != PolicyKind::RawOnly && kind != PolicyKind::Zstd3Always
                ==> cfg.keep_threshold == usual.keep_threshold
            &&& usual.zstd_level == 3
        }),
{
}

/// What the figures say of each other, where no sum is too large: a codec byte
/// per chunk makes the framed bytes, 40 more the stored bytes; every chunk is
/// counted under one codec; the ratio is of the bytes in to the bytes stored.
pub proof fn law_stored_figures_agree(c: PolicyCounters)
    requires
        c.bytes_out + 41 * c.chunks() <= u64::MAX,
    ensures
        ({
            let s = stats_of(c);
            &&& s.chunk_count == s.raw_chunks + s.zstd3_chunks + s.escalated_chunks
            &&& s.bytes_in == c.bytes_in
            &&& s.bytes_out == c.bytes_out
            &&& s.framed_bytes == s.bytes_out + s.chunk_count
            &&& s.stored_bytes == s.framed_bytes + 40 * s.chunk_count
            &&& s.raw_chunks == c.raw
            &&& s.zstd3_chunks == c.zstd3
            &&& s.escalated_chunks == c.escalated
            &&& s.escalation_attempts == c.escalation_attempts
            &&& s.stored_bytes > 0 ==> s.ratio.num == s.bytes_in && s.ratio.den == s.stored_bytes
            &&& s.stored_bytes == 0 ==> s.ratio.num == s.ratio.den
        }),
{
}

proof fn lemma_after_last(s: Seq<char>, c: char, end: int)
    requires
        0 <= end <= s.len(),
    ensures
        0 <= after_last(s, c, end) <= end,
        after_last(s, c, end) > 0 ==> s[after_last(s, c, end) - 1] == c,
        forall|i: int| after_last(s, c, end) <= i < end ==> #[trigger] s[i] != c,
    decreases end,
{
    if end > 0 && s[end - 1] != c {
        lemma_after_last(s, c, end - 1);
    }
}

/// A path's extension is what follows the last dot of its last component, in
/// lower case.
pub proof fn law_extension_follows_the_last_dot(dir: Seq<char>, stem: Seq<char>, ext: Seq<char>)
    requires
        dir.len() == 0 || dir.last() == '/',
        !stem.contains('/'),
        !ext.contains('/'),
        !ext.contains('.'),
    ensures
        extension(dir + stem + seq!['.'] + ext) == lower(ext),
{
    let path = dir + stem + seq!['.'] + ext;
    let n = path.len() as int;
    lemma_after_last(path, '/', n);
    let a = after_last(path, '/', n);
    let d = dir.len() as int;
    assert(a == d) by {
        if a < d {
            assert(path[d - 1] == '/');
        }
        if a > d {
            let i = a - 1;
            assert(path[i] == '/');
            if i < d + stem.len() {
                assert(stem[i - d] == '/');
                assert(stem.contains('/'));
            } else if i > d + stem.len() {
                assert(ext[i - d - stem.len() - 1] == '/');
                assert(ext.contains('/'));
            }
        }
    }
    let name = file_name(path);
    assert(name =~= stem + seq!['.'] + ext);
    let m = name.len() as int;
    lemma_after_last(name, '.', m);
    let b = after_last(name, '.', m);
    let at = stem.len() as int;
    assert(name[at] == '.');
    assert(b == at + 1) by {
        if b > at + 1 {
            assert(ext[b - 1 - at - 1] == '.');
            assert(ext.contains('.'));
        }
    }
    assert(name.skip(b) =~= ext);
}

/// A path whose last component has no dot has no extension.
pub proof fn law_no_dot_no_extension(dir: Seq<char>, name: Seq<char>)
    requires
        dir.len() == 0 || dir.last() == '/',
        !name.contains('/'),
        !name.contains('.'),
    ensures
        extension(dir + name) == Seq::<char>::empty(),
{
    let path = dir + name;
    let n = path.len() as int;
    lemma_after_last(path, '/', n);
    let a = after_last(path, '/', n);
    let d = dir.len() as int;
    assert(a == d) by {
        if a < d {
            assert(path[d - 1] == '/');
        }
        if a > d {
            assert(name[a - 1 - d] == '/');
            assert(name.contains('/'));
        }
    }
    assert(file_name(path) =~= name);
    lemma_after_last(name, '.', name.len() as int);
    let b = after_last(name, '.', name.len() as int);
    if b > 0 {
        assert(name[b - 1] == '.');
        assert(name.contains('.'));
    }
}

/// The classes go by these extensions, and every other is of none of them.
pub proof fn law_classes_by_extension(ext: Seq<char>)
    ensures
        class_of(ext) == FileClass::DbSqlite <==> seq!["db"@, "sqlite"@, "sqlite3"@].contains(ext),
        class_of(ext) == FileClass::OfficeZip <==> seq![
            "docx"@,
            "xlsx"@,
            "pptx"@,
            "odt"@,
            "ods"@,
            "zip"@,
            "jar"@,
        ].contains(ext),
        class_of(ext) == FileClass::Pdf <==> ext == "pdf"@,
        class_of(ext) == FileClass::Image <==> seq![
            "jpg"@,
            "jpeg"@,
            "png"@,
            "gif"@,
            "webp"@,
            "bmp"@,
            "tiff"@,
        ].contains(ext),
        class_of(ext) == FileClass::TextCode <==> seq![
            "txt"@,
            "md"@,
            "rs"@,
            "py"@,
            "js"@,
            "ts"@,
            "c"@,
            "h"@,
            "cpp"@,
            "hpp"@,
            "json"@,
            "toml"@,
            "yaml"@,
            "yml"@,
            "csv"@,
            "log"@,
            "xml"@,
            "html"@,
            "css"@,
            "go"@,
            "java"@,
            "sql"@,
        ].contains(ext),
{
    reveal_strlit("db");
    assert("db"@.len() == 2 && "db"@[0] == 'd' && "db"@[1] == 'b');
    reveal_strlit("sqlite");
    assert("sqlite"@.len() == 6 && "sqlite"@[0] == 's' && "sqlite"@[1] == 'q');
    reveal_strlit("sqlite3");
    assert("sqlite3"@.len() == 7 && "sqlite3"@[0] == 's' && "sqlite3"@[1] == 'q');
    reveal_strlit("docx");
    assert("docx"@.len() == 4 && "docx"@[0] == 'd' && "docx"@[1] == 'o' && "docx"@[2] == 'c');
    reveal_strlit("xlsx");
    assert("xlsx"@.len() == 4 && "xlsx"@[0] == 'x' && "xlsx"@[1] == 'l' && "xlsx"@[2] == 's');
    reveal_strlit("pptx");
    assert("pptx"@.len() == 4 && "pptx"@[0] == 'p' && "pptx"@[1] == 'p' && "pptx"@[2] == 't');
    reveal_strlit("odt");
    assert("odt"@.len() == 3 && "odt"@[0] == 'o' && "odt"@[1] == 'd' && "odt"@[2] == 't');
    reveal_strlit("ods");
    assert("ods"@.len() == 3 && "ods"@[0] == 'o' && "ods"@[1] == 'd' && "ods"@[2] == 's');
    reveal_strlit("zip");
    assert("zip"@.len() == 3 && "zip"@[0] == 'z' && "zip"@[1] == 'i' && "zip"@[2] == 'p');
    reveal_strlit("jar");
    assert("jar"@.len() == 3 && "jar"@[0] == 'j' && "jar"@[1] == 'a' && "jar"@[2] == 'r');
    reveal_strlit("pdf");
    assert("pdf"@.len() == 3 && "pdf"@[0] == 'p' && "pdf"@[1] == 'd' && "pdf"@[2] == 'f');
    reveal_strlit("jpg");
    assert("jpg"@.len() == 3 && "jpg"@[0] == 'j' && "jpg"@[1] == 'p' && "jpg"@[2] == 'g');
    reveal_strlit("jpeg");
    assert("jpeg"@.len() == 4 && "jpeg"@[0] == 'j' && "jpeg"@[1] == 'p' && "jpeg"@[2] == 'e');
    reveal_strlit("png");
    assert("png"@.len() == 3 && "png"@[0] == 'p' && "png"@[1] == 'n' && "png"@[2] == 'g');
    reveal_strlit("gif");
    assert("gif"@.len() == 3 && "gif"@[0] == 'g' && "gif"@[1] == 'i' && "gif"@[2] == 'f');
    reveal_strlit("webp");
    assert("webp"@.len() == 4 && "webp"@[0] == 'w' && "webp"@[1] == 'e' && "webp"@[2] == 'b');
    reveal_strlit("bmp");
    assert("bmp"@.len() == 3 && "bmp"@[0] == 'b' && "bmp"@[1] == 'm' && "bmp"@[2] == 'p');
    reveal_strlit("tiff");
    assert("tiff"@.len() == 4 && "tiff"@[0] == 't' && "tiff"@[1] == 'i' && "tiff"@[2] == 'f');
    reveal_strlit("txt");
    assert("txt"@.len() == 3 && "txt"@[0] == 't' && "txt"@[1] == 'x' && "txt"@[2] == 't');
    reveal_strlit("md");
    assert("md"@.len() == 2 && "md"@[0] == 'm' && "md"@[1] == 'd');
    reveal_strlit("rs");
    assert("rs"@.len() == 2 && "rs"@[0] == 'r' && "rs"@[1] == 's');
    reveal_strlit("py");
    assert("py"@.len() == 2 && "py"@[0] == 'p' && "py"@[1] == 'y');
    reveal_strlit("js");
    assert("js"@.len() == 2 && "js"@[0] == 'j' && "js"@[1] == 's');
    reveal_strlit("ts");
    assert("ts"@.len() == 2 && "ts"@[0] == 't' && "ts"@[1] == 's');
    reveal_strlit("c");
    assert("c"@.len() == 1 && "c"@[0] == 'c');
    reveal_strlit("h");
    assert("h"@.len() == 1 && "h"@[0] == 'h');
    reveal_strlit("cpp");
    assert("cpp"@.len() == 3 && "cpp"@[0] == 'c' && "cpp"@[1] == 'p' && "cpp"@[2] == 'p');
    reveal_strlit("hpp");
    assert("hpp"@.len() == 3 && "hpp"@[0] == 'h' && "hpp"@[1] == 'p' && "hpp"@[2] == 'p');
    reveal_strlit("json");
    assert("json"@.len() == 4 && "json"@[0] == 'j' && "json"@[1] == 's' && "json"@[2] == 'o');
    reveal_strlit("toml");
    assert("toml"@.len() == 4 && "toml"@[0] == 't' && "toml"@[1] == 'o' && "toml"@[2] == 'm');
    reveal_strlit("yaml");
    assert("yaml"@.len() == 4 && "yaml"@[0] == 'y' && "yaml"@[1] == 'a' && "yaml"@[2] == 'm');
    reveal_strlit("yml");
    assert("yml"@.len() == 3 && "yml"@[0] == 'y' && "yml"@[1] == 'm' && "yml"@[2] == 'l');
    reveal_strlit("csv");
    assert("csv"@.len() == 3 && "csv"@[0] == 'c' && "csv"@[1] == 's' && "csv"@[2] == 'v');
    reveal_strlit("log");
    assert("log"@.len() == 3 && "log"@[0] == 'l' && "log"@[1] == 'o' && "log"@[2] == 'g');
    reveal_strlit("xml");
    assert("xml"@.len() == 3 && "xml"@[0] == 'x' && "xml"@[1] == 'm' && "xml"@[2] == 'l');
    reveal_strlit("html");
    assert("html"@.len() == 4 && "html"@[0] == 'h' && "html"@[1] == 't' && "html"@[2] == 'm');
    reveal_strlit("css");
    assert("css"@.len() == 3 && "css"@[0] == 'c' && "css"@[1] == 's' && "css"@[2] == 's');
    reveal_strlit("go");
    assert("go"@.len() == 2 && "go"@[0] == 'g' && "go"@[1] == 'o');
    reveal_strlit("java");
    assert("java"@.len() == 4 && "java"@[0] == 'j' && "java"@[1] == 'a' && "java"@[2] == 'v');
    reveal_strlit("sql");
    assert("sql"@.len() == 3 && "sql"@[0] == 's' && "sql"@[1] == 'q' && "sql"@[2] == 'l');
    let db = seq!["db"@, "sqlite"@, "sqlite3"@];
    assert(db.contains(ext) <==> ext == db[0] || ext == db[1] || ext == db[2]);
    let zip = seq!["docx"@, "xlsx"@, "pptx"@, "odt"@, "ods"@, "zip"@, "jar"@];
    assert(zip.contains(ext) <==> ext == zip[0] || ext == zip[1] || ext == zip[2] || ext == zip[3]
        || ext == zip[4] || ext == zip[5] || ext == zip[6]);
    let image = seq!["jpg"@, "jpeg"@, "png"@, "gif"@, "webp"@, "bmp"@, "tiff"@];
    assert(image.contains(ext) <==> ext == image[0] || ext == image[1] || ext == image[2] || ext
        == image[3] || ext == image[4] || ext == image[5] || ext == image[6]);
    let text = seq![
        "txt"@,
        "md"@,
        "rs"@,
        "py"@,
        "js"@,
        "ts"@,
        "c"@,
        "h"@,
        "cpp"@,
        "hpp"@,
        "json"@,
        "toml"@,
        "yaml"@,
        "yml"@,
        "csv"@,
        "log"@,
        "xml"@,
        "html"@,
        "css"@,
        "go"@,
        "java"@,
        "sql"@,
    ];
    assert(text.contains(ext) <==> ext == text[0] || ext == text[1] || ext == text[2] || ext
        == text[3] || ext == text[4] || ext == text[5] || ext == text[6] || ext == text[7] || ext
        == text[8] || ext == text[9] || ext == text[10] || ext == text[11] || ext == text[12] || ext
        == text[13] || ext == text[14] || ext == text[15] || ext == text[16] || ext == text[17]
        || ext == text[18] || ext == text[19] || ext == text[20] || ext == text[21]);
}

/// The default policy's row is the first of that name.
pub proof fn law_default_row_is_the_first(rows: Seq<PolicyRow>)
    ensures
        ({
            let at = default_row(rows, 0);
            &&& 0 <= at <= rows.len()
            &&& at < rows.len() ==> rows[at].policy@ == "zstd3"@
            &&& forall|i: int| 0 <= i < at ==> (#[trigger] rows[i]).policy@ != "zstd3"@
        }),
{
    lemma_default_row(rows, 0);
}

proof fn lemma_default_row(rows: Seq<PolicyRow>, from: int)
    requires
        0 <= from <= rows.len(),
    ensures
        from <= default_row(rows, from) <= rows.len(),
        default_row(rows, from) < rows.len() ==> rows[default_row(rows, from)].policy@ == "zstd3"@,
        forall|i: int|
            from <= i < default_row(rows, from) ==> (#[trigger] rows[i]).policy@ != "zstd3"@,
    decreases rows.len() - from,
{
    if from < rows.len() && rows[from].policy@ != "zstd3"@ {
        lemma_default_row(rows, from + 1);
    }
}

/// A row is within budget up to one and a half times the default's time; of two
/// rows the one that stores less is preferred, and of two that store as much
/// the one that comes first in the report.
pub proof fn law_preference(a: PolicyRow, b: PolicyRow, i: int, j: int)
    requires
        0 <= i < 5,
        0 <= j < 5,
        a.policy@ == policy_name(kind_at(i)),
        b.policy@ == policy_name(kind_at(j)),
    ensures
        within_budget(a, b) <==> a.cpu_bound_nanos + a.cpu_bound_nanos <= b.cpu_bound_nanos
            + b.cpu_bound_nanos + b.cpu_bound_nanos,
        a.projected_steady_state_bytes < b.projected_steady_state_bytes ==> preferred(a, b),
        a.projected_steady_state_bytes > b.projected_steady_state_bytes ==> !preferred(a, b),
        a.projected_steady_state_bytes == b.projected_steady_state_bytes ==> (preferred(a, b)
            <==> i < j),
{
    lemma_ranks(i);
    lemma_ranks(j);
}

proof fn lemma_ranks(k: int)
    requires
        0 <= k < 5,
    ensures
        policy_rank(policy_name(kind_at(k))) == k,
{
    reveal_strlit("raw-only");
    reveal_strlit("zstd3-always");
    reveal_strlit("zstd3");
    reveal_strlit("probe+zstd3");
    reveal_strlit("zstd3+escalate");
    assert("raw-only"@.len() == 8);
    assert("zstd3-always"@.len() == 12);
    assert("zstd3"@.len() == 5);
    assert("probe+zstd3"@.len() == 11);
    assert("zstd3+escalate"@.len() == 14);
}

/// The report goes through the policies in their order, each under its name,
/// with the bookkeeping added to what it stores.
pub proof fn law_rows_show_the_policies(
    row: PolicyRow,
    k: int,
    m: PolicyMeasurement,
    bookkeeping: int,
)
    requires
        0 <= k < 5,
        0 <= bookkeeping,
        row_of(row, kind_at(k), m, bookkeeping),
    ensures
        kind_at(0) == PolicyKind::RawOnly,
        kind_at(1) == PolicyKind::Zstd3Always,
        kind_at(2) == PolicyKind::Zstd3,
        kind_at(3) == PolicyKind::ProbeZstd3,
        kind_at(4) == PolicyKind::Zstd3Escalate,
        row.policy@ == seq![
            "raw-only"@,
            "zstd3-always"@,
            "zstd3"@,
            "probe+zstd3"@,
            "zstd3+escalate"@,
        ][k],
        row.stored == m.0,
        row.cpu_bound_nanos == m.1,
        row.incremental == m.2,
        m.0.stored_bytes + bookkeeping <= u64::MAX ==> row.projected_steady_state_bytes
            == m.0.stored_bytes + bookkeeping,
        m.0.stored_bytes + bookkeeping > u64::MAX ==> row.projected_steady_state_bytes == u64::MAX,
{
}

/// Where a baseline was compared, the projection is of its new chunks; else,
/// where a churn is assumed, it is that share of all chunks; else there is none.
pub proof fn law_projection_goes_by_what_is_known(
    kind: PolicyKind,
    inputs: BuildInputs<'_>,
    r: Option<IncrementalProjection>,
)
    requires
        projects(kind, inputs, r),
    ensures
        r is Some <==> inputs.delta_chunks is Some || inputs.assume_churn_percent is Some,
        inputs.delta_chunks matches Some(d) ==> r->0.source == ChurnSource::Measured && simulated(
            d@,
            kind,
            Phase::Incremental,
            r->0.delta,
        ),
        inputs.delta_chunks is None && inputs.assume_churn_percent is Some ==> {
            let percent = inputs.assume_churn_percent->0;
            &&& r->0.source == (ChurnSource::Assumed { percent })
            &&& exists|whole: PolicyStoredStats| #[trigger]
                simulated(inputs.unique_chunks@, kind, Phase::Incremental, whole) && r->0.delta
                    == scaled_stats(whole, percent)
        },
{
}

/// An identity is among those of chunks just if one of them has it.
pub proof fn law_identities(chunks: Seq<Chunk>, id: Seq<u8>)
    ensures
        identities(chunks).contains(id) <==> exists|i: int|
            0 <= i < chunks.len() && (#[trigger] chunks[i]).id@ == id,
    decreases chunks.len(),
{
    if chunks.len() > 0 {
        let fewer = chunks.drop_last();
        law_identities(fewer, id);
        if exists|i: int| 0 <= i < fewer.len() && (#[trigger] fewer[i]).id@ == id {
            let i = choose|i: int| 0 <= i < fewer.len() && (#[trigger] fewer[i]).id@ == id;
            assert(chunks[i].id@ == id);
        }
        assert(chunks[chunks.len() - 1] == chunks.last());
        assert forall|i: int| 0 <= i < chunks.len() && (#[trigger] chunks[i]).id@ == id implies i
            == chunks.len() - 1 || fewer[i].id@ == id by {
        }
    }
}

/// One more chunk is new just if its identity is neither known nor that of a
/// chunk before it; its bytes then come last.
pub proof fn law_new_chunks_come_once(chunks: Seq<Chunk>, chunk: Chunk, known: Set<Seq<u8>>)
    ensures
        new_bytes(chunks.push(chunk), known) == if known.contains(chunk.id@) || exists|i: int|
            0 <= i < chunks.len() && (#[trigger] chunks[i]).id@ == chunk.id@ {
            new_bytes(chunks, known)
        } else {
            new_bytes(chunks, known).push(chunk.data@)
        },
        new_bytes(Seq::empty(), known) == Seq::<Seq<u8>>::empty(),
{
    law_identities(chunks, chunk.id@);
    assert(chunks.push(chunk).drop_last() =~= chunks);
}

/// One more chunk counts for its class just if no chunk before it has its
/// identity.
pub proof fn law_chunks_count_for_one_class(
    chunks: Seq<Chunk>,
    classes: Seq<FileClass>,
    chunk: Chunk,
    class: FileClass,
)
    requires
        chunks.len() == classes.len(),
    ensures
        first_classed(chunks.push(chunk), classes.push(class)) == if exists|i: int|
            0 <= i < chunks.len() && (#[trigger] chunks[i]).id@ == chunk.id@ {
            first_classed(chunks, classes)
        } else {
            first_classed(chunks, classes).push((class, chunk.data@))
        },
        first_classed(Seq::empty(), Seq::empty()) == Seq::<(FileClass, Seq<u8>)>::empty(),
{
    law_identities(chunks, chunk.id@);
    assert(chunks.push(chunk).drop_last() =~= chunks);
    assert(classes.push(class).drop_last() =~= classes);
}

/// The chunks of files are those of each file in turn, each of the class of its
/// file's extension.
pub proof fn law_chunks_of_files(files: Seq<FileChunkingFull>, file: FileChunkingFull)
    ensures
        all_chunks(files.push(file)) == all_chunks(files) + file.chunks@,
        all_classes(files.push(file)).len() == all_classes(files).len() + file.chunks@.len(),
        forall|i: int|
            0 <= i < all_classes(files).len() ==> #[trigger] all_classes(files.push(file))[i]
                == all_classes(files)[i],
        forall|i: int|
            all_classes(files).len() <= i < all_classes(files.push(file)).len()
                ==> #[trigger] all_classes(files.push(file))[i] == class_of(
                extension(file.rel_path@),
            ),
        all_chunks(Seq::empty()) == Seq::<Chunk>::empty(),
        all_classes(Seq::empty()) == Seq::<FileClass>::empty(),
{
    assert(files.push(file).drop_last() =~= files);
}

/// A class of the table has a row just if a sample is of it.
pub proof fn law_class_occurs(samples: Seq<(FileClass, u64, u64)>, class: FileClass, n: int)
    requires
        0 <= n <= samples.len(),
    ensures
        class_occurs(samples, class, n) <==> exists|i: int|
            0 <= i < n && (#[trigger] samples[i]).0 == class,
        0 <= class_in(samples, class, n),
        0 <= class_out(samples, class, n),
    decreases n,
{
    if n > 0 {
        law_class_occurs(samples, class, n - 1);
        let last = samples[n - 1];
    }
}

/// The rows are of the classes that occur, each once and in the table's order.
pub proof fn law_rows_are_of_the_classes(samples: Seq<(FileClass, u64, u64)>, class: FileClass)
    ensures
        classes_listed(samples, 6).contains(class) <==> exists|i: int|
            0 <= i < samples.len() && (#[trigger] samples[i]).0 == class,
        classes_listed(samples, 6).no_duplicates(),
{
    law_class_occurs(samples, class, samples.len() as int);
    reveal_with_fuel(classes_listed, 7);
    let listed = classes_listed(samples, 6);
    lemma_classes_listed(samples, 6);
    let k: int = match class {
        FileClass::DbSqlite => 0,
        FileClass::OfficeZip => 1,
        FileClass::Pdf => 2,
        FileClass::Image => 3,
        FileClass::TextCode => 4,
        FileClass::Other => 5,
    };
    assert(class_at(k) == class);
    if listed.contains(class) {
        let i = choose|i: int| 0 <= i < listed.len() && listed[i] == class;
        assert(class_occurs(samples, listed[i], samples.len() as int));
    }
}

proof fn lemma_classes_listed(samples: Seq<(FileClass, u64, u64)>, k: int)
    requires
        0 <= k <= 6,
    ensures
        ({
            let listed = classes_listed(samples, k);
            &&& listed.no_duplicates()
            &&& forall|i: int|
                #![trigger listed[i]]
                0 <= i < listed.len() ==> class_occurs(samples, listed[i], samples.len() as int)
                    && exists|j: int| 0 <= j < k && listed[i] == #[trigger] class_at(j)
            &&& forall|j: int|
                0 <= j < k && class_occurs(samples, #[trigger] class_at(j), samples.len() as int)
                    ==> listed.contains(class_at(j))
        }),
    decreases k,
{
    if k > 0 {
        lemma_classes_listed(samples, k - 1);
        let before = classes_listed(samples, k - 1);
        let listed = classes_listed(samples, k);
        let new = class_at(k - 1);
        assert forall|j: int|
            0 <= j < k && class_occurs(
                samples,
                #[trigger] class_at(j),
                samples.len() as int,
            ) implies listed.contains(class_at(j)) by {
            if j < k - 1 {
                assert(before.contains(class_at(j)));
                let i = choose|i: int| 0 <= i < before.len() && before[i] == class_at(j);
                assert(listed[i] == class_at(j));
            } else {
                assert(listed[listed.len() - 1] == new);
            }
        }
        assert forall|i: int|
            #![trigger listed[i]]
            0 <= i < listed.len() implies class_occurs(
            samples,
            listed[i],
            samples.len() as int,
        ) && exists|j: int| 0 <= j < k && listed[i] == #[trigger] class_at(j) by {
            if i < before.len() {
                assert(listed[i] == before[i]);
                let j = choose|j: int| 0 <= j < k - 1 && before[i] == #[trigger] class_at(j);
                assert(listed[i] == class_at(j));
            } else {
                assert(listed[i] == class_at(k - 1));
            }
        }
        assert forall|i: int, j: int| 0 <= i < listed.len() && 0 <= j < listed.len() && i
            != j implies listed[i] != listed[j] by {
            if i < before.len() && j < before.len() {
                assert(before[i] != before[j]);
            } else {
                let m = if i < before.len() {
                    i
                } else {
                    j
                };
                assert(listed[m] == before[m]);
                let q = choose|q: int| 0 <= q < k - 1 && before[m] == #[trigger] class_at(q);
                assert(class_at(q) != class_at(k - 1));
            }
        }
    }
}

/// One more sample adds its lengths to its own class and to no other.
pub proof fn law_samples_count_for_their_class(
    samples: Seq<(FileClass, u64, u64)>,
    class: FileClass,
    n: int,
)
    requires
        0 <= n < samples.len(),
    ensures
        class_in(samples, class, n + 1) == class_in(samples, class, n) + if samples[n].0 == class {
            samples[n].1 as int
        } else {
            0
        },
        class_out(samples, class, n + 1) == class_out(samples, class, n) + if samples[n].0
            == class {
            samples[n].2 as int
        } else {
            0
        },
        class_in(samples, class, 0) == 0,
        class_out(samples, class, 0) == 0,
{
}

/// A row shows its class's bytes before and after, as far as `u64` goes, and the
/// class's part in what all classes save; where nothing is saved, no part.
pub proof fn law_row_shows_its_class(
    row: FileClassRow,
    samples: Seq<(FileClass, u64, u64)>,
    class: FileClass,
)
    requires
        class_row(row, samples, class),
        forall|c: FileClass|
            0 <= #[trigger] class_in(samples, c, samples.len() as int) <= u64::MAX && 0
                <= class_out(samples, c, samples.len() as int) <= u64::MAX,
    ensures
        row.class@ == class_label(class),
        row.bytes_in == class_in(samples, class, samples.len() as int),
        row.bytes_out == class_out(samples, class, samples.len() as int),
        ({
            let n = samples.len() as int;
            let whole = class_in(samples, FileClass::DbSqlite, n) - class_out(
                samples,
                FileClass::DbSqlite,
                n,
            ) + class_in(samples, FileClass::OfficeZip, n) - class_out(
                samples,
                FileClass::OfficeZip,
                n,
            ) + class_in(samples, FileClass::Pdf, n) - class_out(samples, FileClass::Pdf, n)
                + class_in(samples, FileClass::Image, n) - class_out(samples, FileClass::Image, n)
                + class_in(samples, FileClass::TextCode, n) - class_out(
                samples,
                FileClass::TextCode,
                n,
            ) + class_in(samples, FileClass::Other, n) - class_out(samples, FileClass::Other, n);
            &&& whole > 0 ==> row.share_whole == whole && row.share_part == row.bytes_in
                - row.bytes_out
            &&& whole <= 0 ==> row.share_part == 0 && row.share_whole == 1
        }),
{
    reveal_with_fuel(saved_upto, 7);
    let n = samples.len() as int;
    let a = class_in(samples, FileClass::DbSqlite, n);
    let b = class_in(samples, FileClass::OfficeZip, n);
    let c = class_in(samples, FileClass::Pdf, n);
    let d = class_in(samples, FileClass::Image, n);
    let e = class_in(samples, FileClass::TextCode, n);
    let f = class_in(samples, FileClass::Other, n);
    let g = class_in(samples, class, n);
}

/// A file's chunks are kept under its own path, and joined they are the file.
pub proof fn law_files_are_kept_whole(
    file: FileChunkingFull,
    source: (String, Vec<u8>),
    config: ChunkerConfig,
)
    requires
        holds_chunks(file, source, config),
    ensures
        file.rel_path@ == source.0@,
        crate::chunking::joined(file.chunks@) == source.1@,
        chunks_of(file.chunks@, source.1@, config, None),
{
}

/// Every policy has its name, and every class its label.
pub proof fn law_names_and_labels()
    ensures
        policy_name(PolicyKind::RawOnly) == "raw-only"@,
        policy_name(PolicyKind::Zstd3Always) == "zstd3-always"@,
        policy_name(PolicyKind::Zstd3) == "zstd3"@,
        policy_name(PolicyKind::ProbeZstd3) == "probe+zstd3"@,
        policy_name(PolicyKind::Zstd3Escalate) == "zstd3+escalate"@,
        class_label(FileClass::DbSqlite) == "db/sqlite"@,
        class_label(FileClass::OfficeZip) == "office-zip"@,
        class_label(FileClass::Pdf) == "pdf"@,
        class_label(FileClass::Image) == "image"@,
        class_label(FileClass::TextCode) == "text/code"@,
        class_label(FileClass::Other) == "other"@,
{
}

/// Samples hold the length of each chunk and of what is stored of it, under the
/// chunk's class.
pub proof fn law_samples(chunks: Seq<(FileClass, Vec<u8>)>, stored: Seq<Seq<u8>>, i: int)
    requires
        0 <= i < chunks.len(),
        chunks[i].1@.len() <= u64::MAX,
        stored[i].len() <= u64::MAX,
    ensures
        samples_of(chunks, stored).len() == chunks.len(),
        samples_of(chunks, stored)[i].0 == chunks[i].0,
        samples_of(chunks, stored)[i].1 == chunks[i].1@.len(),
        samples_of(chunks, stored)[i].2 == stored[i].len(),
{
}

/// What is stored of a chunk is the form that the policy decides on.
pub proof fn law_stored_is_the_form_decided_on(
    chunk: Seq<u8>,
    phase: Phase,
    cfg: PolicyConfig,
    payload: Seq<u8>,
)
    requires
        stores(chunk, phase, cfg, payload),
    ensures
        payload == crate::compression::stored_payload(
            chunk,
            crate::compression::decision_for(chunk, phase, cfg).stored,
            cfg,
        ),
{
}

/// The rows follow the table of classes: those of its classes that occur, in its
/// order, each with its own figures.
pub proof fn law_rows_follow_the_table(
    rows: Seq<FileClassRow>,
    samples: Seq<(FileClass, u64, u64)>,
)
    requires
        class_rows_of(rows, samples),
    ensures
        ({
            let table = seq![
                FileClass::DbSqlite,
                FileClass::OfficeZip,
                FileClass::Pdf,
                FileClass::Image,
                FileClass::TextCode,
                FileClass::Other,
            ];
            let n = samples.len() as int;
            let listed = table.filter(|c: FileClass| class_occurs(samples, c, n));
            &&& rows.len() == listed.len()
            &&& forall|i: int|
                #![trigger rows[i]]
                0 <= i < rows.len() ==> class_row(rows[i], samples, listed[i])
        }),
{
    let table = seq![
        FileClass::DbSqlite,
        FileClass::OfficeZip,
        FileClass::Pdf,
        FileClass::Image,
        FileClass::TextCode,
        FileClass::Other,
    ];
    lemma_listed_is_filtered(samples, table, 6);
    assert(table.take(6) =~= table);
}

proof fn lemma_listed_is_filtered(
    samples: Seq<(FileClass, u64, u64)>,
    table: Seq<FileClass>,
    k: int,
)
    requires
        0 <= k <= 6,
        table.len() == 6,
        forall|j: int| 0 <= j < 6 ==> #[trigger] table[j] == class_at(j),
    ensures
        classes_listed(samples, k) == table.take(k).filter(
            |c: FileClass| class_occurs(samples, c, samples.len() as int),
        ),
    decreases k,
{
    reveal(Seq::filter);
    if k > 0 {
        lemma_listed_is_filtered(samples, table, k - 1);
        assert(table.take(k).drop_last() =~= table.take(k - 1));
        assert(table.take(k).last() == table[k - 1]);
    } else {
        assert(table.take(0) =~= Seq::empty());
    }
}

} // verus!
