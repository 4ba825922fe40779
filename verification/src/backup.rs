//! The backup pipeline between reading files and talking to the daemon.
//!
//! A [`Session`] takes the chunks of one file after the other, keeps the first
//! of each identity until the daemon has been asked for it, seals those that
//! the daemon lacks, and keeps the ledger of what was transferred. The caller
//! reads and chunks the files, makes the calls to the daemon and draws the
//! nonces.
use vstd::prelude::*;
use vstd::string::*;

use crate::chunking::{Chunk, ChunkId, MAX_SIZE_CEILING};
use crate::compression::{
    capped, decoded_plaintext, encode_chunk, encoded, encoded_run, frame_of, law_run_counts,
    lemma_payload_fits, lemma_run_step,
    total_len, zero_counters, Phase, PolicyConfig, PolicyCounters,
};
use crate::crypto::{
    encrypt_chunk, encrypt_manifest, law_blobs_are_bound, opened_blob, sealed_blob, CryptoError,
    DataKey, BLOB_OVERHEAD, MAX_PLAINTEXT_LEN,
};
use crate::idset::IdSet;
use crate::manifest::{
    files_view, ids_view, manifest_bytes, manifest_fault, parse_manifest, refs_of, Fault,
    FileEntry, FileModel, Manifest, ManifestError, ManifestModel,
};
use crate::snapshot_id::SnapshotId;
use crate::sort::{by_text, is_arrangement, law_arrangement_is_complete, text_order};
use crate::text::lex_le;

verus! {

/// So many waiting chunks make a round with the daemon due.
pub const BATCH_MAX_CHUNKS: usize = 64;

/// So many waiting bytes make a round with the daemon due.
pub const BATCH_MAX_BYTES: usize = 33_554_432;

/// Errors of the pipeline.
#[derive(Debug, Clone, PartialEq, Eq)]
pub enum BackupError {
    /// Two folders have the same last path component.
    DuplicateRootName {
        /// The component.
        name: String,
    },
    /// Encryption failed.
    Crypto(CryptoError),
    /// The manifest does not fit its format.
    Manifest(ManifestError),
    /// The daemon's answer makes no sense.
    BadResponse(&'static str),
}

/// What one backup did.
#[derive(Debug, Clone, Copy, PartialEq, Eq, Structural)]
pub struct BackupReport {
    /// The snapshot.
    pub snapshot_id: SnapshotId,
    /// Files captured.
    pub files: u64,
    /// Bytes of all files.
    pub source_bytes: u64,
    /// Chunk references, repeats counted.
    pub chunks_total: u64,
    /// Distinct chunks.
    pub chunks_unique: u64,
    /// Chunks sealed and shipped.
    pub chunks_uploaded: u64,
    /// Chunks that the daemon had already.
    pub chunks_deduped: u64,
    /// Sealed bytes shipped, the manifest not counted.
    pub upload_bytes: u64,
    /// Sealed bytes of the manifest.
    pub manifest_bytes: u64,
    /// What the compression policy did.
    pub compression: PolicyCounters,
}

/// How much a backup has to do.
#[derive(Debug, Clone, Copy, PartialEq, Eq, Structural)]
pub struct BackupTotals {
    /// Files to capture.
    pub total_files: u64,
    /// Bytes to read.
    pub total_bytes: u64,
}

/// A sealed chunk on its way to the daemon.
#[derive(Debug, Clone, PartialEq, Eq)]
pub struct ChunkBlob {
    /// The identity.
    pub chunk_id: Vec<u8>,
    /// The sealed bytes.
    pub data: Vec<u8>,
}

/// A running backup.
pub struct Session {
    /// The backup set's key.
    pub key: DataKey,
    /// The compression policy.
    pub policy: PolicyConfig,
    /// Whether this is the set's first snapshot.
    pub phase: Phase,
    /// The ledger.
    pub report: BackupReport,
    /// Every identity that came so far.
    pub seen: IdSet,
    /// Chunks that the daemon has not been asked for.
    pub pending: Vec<(ChunkId, Vec<u8>)>,
    /// Their bytes.
    pub pending_bytes: usize,
    /// Chunks of the file that is being captured.
    pub open_chunks: Vec<ChunkId>,
    /// Their bytes.
    pub open_bytes: u64,
    /// Files captured.
    pub files: Vec<FileEntry>,
}

/// Bytes of waiting chunks.
pub open spec fn pending_sum(p: Seq<(ChunkId, Vec<u8>)>) -> int
    decreases p.len(),
{
    if p.len() == 0 {
        0
    } else {
        pending_sum(p.drop_last()) + p.last().1@.len()
    }
}

/// Sizes of files, added up.
pub open spec fn size_sum(files: Seq<FileEntry>) -> int
    decreases files.len(),
{
    if files.len() == 0 {
        0
    } else {
        size_sum(files.drop_last()) + files.last().size
    }
}

/// Chunk references of files, repeats kept.
pub open spec fn file_refs(files: Seq<FileEntry>) -> Seq<Seq<u8>>
    decreases files.len(),
{
    if files.len() == 0 {
        Seq::empty()
    } else {
        file_refs(files.drop_last()) + ids_view(files.last().chunks@)
    }
}

/// The indices below `n` of waiting chunks that are missing, in order.
pub open spec fn to_ship(p: Seq<(ChunkId, Vec<u8>)>, missing: Set<Seq<u8>>, n: int) -> Seq<int>
    decreases n,
{
    if n <= 0 {
        Seq::empty()
    } else if missing.contains(p[n - 1].0@) {
        to_ship(p, missing, n - 1).push(n - 1)
    } else {
        to_ship(p, missing, n - 1)
    }
}

/// The plaintexts of chosen waiting chunks.
pub open spec fn plaintexts(p: Seq<(ChunkId, Vec<u8>)>, picks: Seq<int>) -> Seq<Seq<u8>> {
    Seq::new(picks.len(), |k: int| p[picks[k]].1@)
}

/// The identities among raw wire identities.
pub open spec fn wire_set(wires: Seq<Vec<u8>>, n: int) -> Set<Seq<u8>>
    decreases n,
{
    if n <= 0 {
        Set::empty()
    } else {
        wire_set(wires, n - 1).insert(wires[n - 1]@)
    }
}

/// Whether every raw wire identity has 32 bytes.
pub open spec fn wires_whole(wires: Seq<Vec<u8>>) -> bool {
    forall|i: int| #![trigger wires[i]] 0 <= i < wires.len() ==> wires[i]@.len() == 32
}

/// Bytes of sealed chunks.
pub open spec fn blob_sum(blobs: Seq<ChunkBlob>) -> int
    decreases blobs.len(),
{
    if blobs.len() == 0 {
        0
    } else {
        blob_sum(blobs.drop_last()) + blobs.last().data@.len()
    }
}

/// Whether blobs are the sealed forms of chosen waiting chunks: each bound to
/// its identity, sealed with its own nonce, and holding a framed output that
/// decodes to the chunk.
pub open spec fn blobs_carry(
    blobs: Seq<ChunkBlob>,
    p: Seq<(ChunkId, Vec<u8>)>,
    picks: Seq<int>,
    key: Seq<u8>,
    nonces: Seq<[u8; 24]>,
    outs: Seq<Seq<u8>>,
) -> bool {
    &&& blobs.len() == picks.len()
    &&& outs.len() == picks.len()
    &&& forall|k: int|
        #![trigger blobs[k]]
        0 <= k < blobs.len() ==> {
            let id = p[picks[k]].0@;
            &&& blobs[k].chunk_id@ == id
            &&& blobs[k].data@ == sealed_blob(key, nonces[k]@, id, outs[k])
            &&& blobs[k].data@.len() == outs[k].len() + BLOB_OVERHEAD
            &&& opened_blob(key, id, blobs[k].data@) == Some(outs[k])
            &&& decoded_plaintext(outs[k]) == Some(p[picks[k]].1@)
        }
}

/// Whether the framed form of each chosen waiting chunk can be sealed.
pub open spec fn frames_fit(
    p: Seq<(ChunkId, Vec<u8>)>,
    picks: Seq<int>,
    phase: Phase,
    policy: PolicyConfig,
) -> bool {
    forall|k: int|
        #![trigger picks[k]]
        0 <= k < picks.len() ==> frame_of(p[picks[k]].1@, phase, policy).len()
            <= MAX_PLAINTEXT_LEN
}

/// Whether no count of the ledger falls.
pub open spec fn ledger_grows(a: BackupReport, b: BackupReport) -> bool {
    &&& a.snapshot_id == b.snapshot_id
    &&& a.files <= b.files
    &&& a.source_bytes <= b.source_bytes
    &&& a.chunks_total <= b.chunks_total
    &&& a.chunks_unique <= b.chunks_unique
    &&& a.chunks_uploaded <= b.chunks_uploaded
    &&& a.chunks_deduped <= b.chunks_deduped
    &&& a.upload_bytes <= b.upload_bytes
}

/// Whether a session has just been started.
pub open spec fn fresh(s: Session, snapshot_id: SnapshotId) -> bool {
    &&& s.wf()
    &&& s.pending@.len() == 0
    &&& s.open_chunks@.len() == 0
    &&& s.open_bytes == 0
    &&& s.files@.len() == 0
    &&& s.seen@ == Set::<Seq<u8>>::empty()
    &&& s.report == (BackupReport {
        snapshot_id,
        files: 0,
        source_bytes: 0,
        chunks_total: 0,
        chunks_unique: 0,
        chunks_uploaded: 0,
        chunks_deduped: 0,
        upload_bytes: 0,
        manifest_bytes: 0,
        compression: zero_counters(),
    })
}

/// Whether a session takes a chunk of the open file: the first of its identity
/// waits for the daemon.
pub open spec fn chunk_added(a: Session, chunk: Chunk, b: Session) -> bool {
    &&& b.wf()
    &&& ledger_grows(a.report, b.report)
    &&& b.key == a.key
    &&& b.policy == a.policy
    &&& b.phase == a.phase
    &&& b.files == a.files
    &&& b.open_chunks@ == a.open_chunks@.push(chunk.id)
    &&& b.open_bytes == a.open_bytes + chunk.data@.len()
    &&& b.seen@ == a.seen@.insert(chunk.id@)
    &&& b.pending@ == if a.seen@.contains(chunk.id@) {
        a.pending@
    } else {
        a.pending@.push((chunk.id, chunk.data))
    }
    &&& b.report == (BackupReport {
        chunks_total: (a.report.chunks_total + 1) as u64,
        chunks_unique: if a.seen@.contains(chunk.id@) {
            a.report.chunks_unique
        } else {
            (a.report.chunks_unique + 1) as u64
        },
        ..a.report
    })
}

/// Whether a session closes the open file under a path with its metadata.
pub open spec fn file_ended(
    a: Session,
    path: Seq<char>,
    mtime_secs: i64,
    mtime_nanos: u32,
    mode: u32,
    b: Session,
) -> bool {
    &&& b.wf()
    &&& ledger_grows(a.report, b.report)
    &&& b.key == a.key
    &&& b.policy == a.policy
    &&& b.phase == a.phase
    &&& b.pending@ == a.pending@
    &&& b.pending_bytes == a.pending_bytes
    &&& b.seen@ == a.seen@
    &&& b.open_chunks@.len() == 0
    &&& b.open_bytes == 0
    &&& b.files@.len() == a.files@.len() + 1
    &&& b.files@.drop_last() == a.files@
    &&& b.files@.last()@ == (FileModel {
        path,
        size: a.open_bytes,
        mtime_secs,
        mtime_nanos,
        mode,
        chunks: ids_view(a.open_chunks@),
    })
    &&& b.report == (BackupReport {
        files: (a.report.files + 1) as u64,
        source_bytes: (a.report.source_bytes + a.open_bytes) as u64,
        ..a.report
    })
}

/// Whether a session seals the waiting chunks that are missing, and counts the
/// others as deduplicated; nothing waits afterwards.
pub open spec fn round_made(
    a: Session,
    missing: Set<Seq<u8>>,
    nonces: Seq<[u8; 24]>,
    blobs: Seq<ChunkBlob>,
    b: Session,
) -> bool {
    let p = a.pending@;
    let picks = to_ship(p, missing, p.len() as int);
    &&& frames_fit(p, picks, a.phase, a.policy)
    &&& b.wf()
    &&& ledger_grows(a.report, b.report)
    &&& b.key == a.key
    &&& b.policy == a.policy
    &&& b.phase == a.phase
    &&& b.files == a.files
    &&& b.seen@ == a.seen@
    &&& b.open_chunks == a.open_chunks
    &&& b.open_bytes == a.open_bytes
    &&& b.pending@.len() == 0
    &&& exists|outs: Seq<Seq<u8>>|
        blobs_carry(blobs, p, picks, a.key@, nonces, outs) && #[trigger] encoded_run(
            plaintexts(p, picks),
            a.phase,
            a.policy,
            a.report.compression,
            outs,
            picks.len(),
            b.report.compression,
        )
    &&& b.report == (BackupReport {
        chunks_uploaded: (a.report.chunks_uploaded + blobs.len()) as u64,
        chunks_deduped: (a.report.chunks_deduped + p.len() - blobs.len()) as u64,
        upload_bytes: capped(a.report.upload_bytes + blob_sum(blobs)),
        compression: b.report.compression,
        ..a.report
    })
}

proof fn lemma_picks_extend(p: Seq<(ChunkId, Vec<u8>)>, missing: Set<Seq<u8>>, m: int, n: int)
    requires
        0 <= m < n <= p.len(),
        missing.contains(p[m].0@),
    ensures
        to_ship(p, missing, m + 1) == to_ship(p, missing, m).push(m),
        to_ship(p, missing, n).len() > to_ship(p, missing, m).len(),
        to_ship(p, missing, n)[to_ship(p, missing, m).len() as int] == m,
    decreases n - m,
{
    if n > m + 1 {
        lemma_picks_extend(p, missing, m, n - 1);
    }
}

impl Session {
    /// Whether a round with the daemon is due.
    pub open spec fn due(self) -> bool {
        self.pending@.len() >= BATCH_MAX_CHUNKS || self.pending_bytes >= BATCH_MAX_BYTES
    }

    /// Whether the ledger tells what happened, every reference is to a chunk
    /// that came, and no identity waits twice.
    pub open spec fn wf(self) -> bool {
        &&& self.seen.wf()
        &&& self.seen@.finite()
        &&& self.pending_bytes == pending_sum(self.pending@)
        &&& forall|i: int|
            #![trigger self.pending@[i]]
            0 <= i < self.pending@.len() ==> self.pending@[i].1@.len() <= MAX_SIZE_CEILING
                && self.seen@.contains(self.pending@[i].0@)
        &&& forall|i: int, j: int|
            #![trigger self.pending@[i], self.pending@[j]]
            0 <= i < j < self.pending@.len() ==> self.pending@[i].0@ != self.pending@[j].0@
        &&& self.report.chunks_unique == self.seen@.len()
        &&& self.report.chunks_uploaded + self.report.chunks_deduped + self.pending@.len()
            == self.report.chunks_unique
        &&& self.report.chunks_unique <= self.report.chunks_total
        &&& self.report.chunks_total == file_refs(self.files@).len() + self.open_chunks@.len()
        &&& self.report.files == self.files@.len()
        &&& self.report.source_bytes == size_sum(self.files@)
        &&& self.report.compression.chunks() == self.report.chunks_uploaded
        &&& forall|i: int|
            #![trigger self.open_chunks@[i]]
            0 <= i < self.open_chunks@.len() ==> self.seen@.contains(self.open_chunks@[i]@)
        &&& forall|i: int|
            #![trigger file_refs(self.files@)[i]]
            0 <= i < file_refs(self.files@).len() ==> self.seen@.contains(
                file_refs(self.files@)[i],
            )
    }

    /// Starts a backup.
    #[must_use]
    pub fn new(snapshot_id: SnapshotId, key: DataKey, policy: PolicyConfig, phase: Phase) -> (r:
        Self)
        ensures
            fresh(r, snapshot_id),
            !r.due(),
            r.key@ == key@,
            r.policy == policy,
            r.phase == phase,
    {
        Session {
            key,
            policy,
            phase,
            report: BackupReport {
                snapshot_id,
                files: 0,
                source_bytes: 0,
                chunks_total: 0,
                chunks_unique: 0,
                chunks_uploaded: 0,
                chunks_deduped: 0,
                upload_bytes: 0,
                manifest_bytes: 0,
                compression: PolicyCounters::default(),
            },
            seen: IdSet::new(),
            pending: Vec::new(),
            pending_bytes: 0,
            open_chunks: Vec::new(),
            open_bytes: 0,
            files: Vec::new(),
        }
    }

    /// Takes the next chunk of the file that is being captured. The first
    /// chunk of each identity waits for the daemon. Tells whether a round
    /// with the daemon is due now.
    pub fn add_chunk(&mut self, chunk: Chunk) -> (due: bool)
        requires
            old(self).wf(),
            !old(self).due(),
            chunk.data@.len() <= MAX_SIZE_CEILING,
            old(self).report.chunks_total < u64::MAX,
            old(self).open_bytes + chunk.data@.len() <= u64::MAX,
        ensures
            chunk_added(*old(self), chunk, *final(self)),
            due == final(self).due(),
    {
        let len: usize = chunk.data.len();
        let ghost before = *self;
        self.open_bytes = self.open_bytes + len as u64;
        self.open_chunks.push(chunk.id);
        self.report.chunks_total = self.report.chunks_total + 1;
        if self.seen.insert(chunk.id) {
            self.report.chunks_unique = self.report.chunks_unique + 1;
            self.pending_bytes = self.pending_bytes + len;
            self.pending.push((chunk.id, chunk.data));
            proof {
                assert(self.pending@.drop_last() =~= before.pending@);
            }
        }
        proof {
            assert forall|i: int|
                #![trigger self.pending@[i]]
                0 <= i < self.pending@.len() implies self.pending@[i].1@.len() <= MAX_SIZE_CEILING
                && self.seen@.contains(self.pending@[i].0@) by {
                if i < before.pending@.len() {
                    assert(self.pending@[i] == before.pending@[i]);
                }
            }
            assert forall|i: int|
                #![trigger self.open_chunks@[i]]
                0 <= i < self.open_chunks@.len() implies self.seen@.contains(
                self.open_chunks@[i]@,
            ) by {
                if i < before.open_chunks@.len() {
                    assert(self.open_chunks@[i] == before.open_chunks@[i]);
                }
            }
        }
        self.pending.len() >= BATCH_MAX_CHUNKS || self.pending_bytes >= BATCH_MAX_BYTES
    }

    /// Closes the file that is being captured. Its size is what was chunked,
    /// so that a file that changes while it is read cannot disagree with its
    /// chunks.
    pub fn end_file(&mut self, path: String, mtime_secs: i64, mtime_nanos: u32, mode: u32)
        requires
            old(self).wf(),
            old(self).report.source_bytes + old(self).open_bytes <= u64::MAX,
        ensures
            file_ended(*old(self), path@, mtime_secs, mtime_nanos, mode, *final(self)),
            final(self).pending == old(self).pending,
    {
        let ghost before = *self;
        let mut chunks: Vec<ChunkId> = Vec::new();
        std::mem::swap(&mut chunks, &mut self.open_chunks);
        let size: u64 = self.open_bytes;
        self.open_bytes = 0;
        self.report.source_bytes = self.report.source_bytes + size;
        self.files.push(FileEntry { path, size, mtime_secs, mtime_nanos, mode, chunks });
        self.report.files = self.files.len() as u64;
        proof {
            assert(self.files@.drop_last() =~= before.files@);
            let refs = file_refs(self.files@);
            assert(refs == file_refs(before.files@) + ids_view(before.open_chunks@));
            assert forall|i: int|
                #![trigger file_refs(self.files@)[i]]
                0 <= i < file_refs(self.files@).len() implies self.seen@.contains(
                file_refs(self.files@)[i],
            ) by {
                let k = file_refs(before.files@).len();
                if i < k {
                    assert(refs[i] == file_refs(before.files@)[i]);
                } else {
                    assert(refs[i] == before.open_chunks@[i - k]@);
                }
            }
        }
    }

    /// The identities to ask the daemon for: those of the waiting chunks, in
    /// order.
    #[must_use]
    pub fn wanted(&self) -> (r: Vec<Vec<u8>>)
        ensures
            r@.len() == self.pending@.len(),
            forall|i: int|
                #![trigger r@[i]]
                0 <= i < r@.len() ==> r@[i]@ == self.pending@[i].0@,
    {
        let mut out: Vec<Vec<u8>> = Vec::with_capacity(self.pending.len());
        let mut i: usize = 0;
        while i < self.pending.len()
            invariant
                i <= self.pending@.len(),
                out@.len() == i,
                forall|k: int|
                    #![trigger out@[k]]
                    0 <= k < i ==> out@[k]@ == self.pending@[k].0@,
            decreases self.pending@.len() - i,
        {
            out.push(self.pending[i].0.to_wire());
            i = i + 1;
        }
        out
    }

    /// Seals the waiting chunks that the daemon says it lacks, in order, each
    /// with the next of the given nonces, and counts the others as
    /// deduplicated. Nothing waits afterwards, whatever comes of it.
    pub fn flush(&mut self, missing_wire: &Vec<Vec<u8>>, nonces: &Vec<[u8; 24]>) -> (r: Result<
        Vec<ChunkBlob>,
        BackupError,
    >)
        requires
            old(self).wf(),
            old(self).pending@.len() <= nonces@.len(),
        ensures
            final(self).pending@.len() == 0,
            final(self).pending_bytes == 0,
            final(self).key == old(self).key,
            final(self).policy == old(self).policy,
            final(self).phase == old(self).phase,
            final(self).files == old(self).files,
            final(self).seen == old(self).seen,
            final(self).open_chunks == old(self).open_chunks,
            final(self).open_bytes == old(self).open_bytes,
            match r {
                Ok(blobs) => {
                    let missing = wire_set(missing_wire@, missing_wire@.len() as int);
                    &&& wires_whole(missing_wire@)
                    &&& round_made(*old(self), missing, nonces@, blobs@, *final(self))
                },
                Err(BackupError::BadResponse(m)) => {
                    &&& !wires_whole(missing_wire@)
                    &&& m@ == "malformed chunk ID in HasChunks reply"@
                    &&& final(self).report == old(self).report
                },
                Err(BackupError::Crypto(e)) => {
                    &&& wires_whole(missing_wire@)
                    &&& ledger_grows(old(self).report, final(self).report)
                    &&& e is Encrypt
                    &&& !frames_fit(
                        old(self).pending@,
                        to_ship(
                            old(self).pending@,
                            wire_set(missing_wire@, missing_wire@.len() as int),
                            old(self).pending@.len() as int,
                        ),
                        old(self).phase,
                        old(self).policy,
                    )
                },
                Err(_) => false,
            },
            wires_whole(missing_wire@) && old(self).policy.keep_threshold.at_most_one()
                ==> r is Ok,
    {
        let ghost p = self.pending@;
        let ghost start = *self;
        let mut pending: Vec<(ChunkId, Vec<u8>)> = Vec::new();
        std::mem::swap(&mut pending, &mut self.pending);
        self.pending_bytes = 0;
        let missing: IdSet = match parse_wires(missing_wire) {
            Ok(m) => m,
            Err(e) => {
                return Err(e);
            },
        };
        let ghost gone = wire_set(missing_wire@, missing_wire@.len() as int);
        let ghost mut outs: Seq<Seq<u8>> = Seq::empty();
        let mut blobs: Vec<ChunkBlob> = Vec::new();
        let mut i: usize = 0;
        proof {
            assert(plaintexts(p, to_ship(p, gone, 0)) =~= Seq::empty());
        }
        while i < pending.len()
            invariant
                i <= pending@.len(),
                pending@ == p,
                p == start.pending@,
                start == *old(self),
                start.wf(),
                p.len() <= nonces@.len(),
                missing.wf(),
                missing@ == gone,
                gone == wire_set(missing_wire@, missing_wire@.len() as int),
                blobs@.len() <= i,
                wires_whole(missing_wire@),
                self.pending@.len() == 0,
                self.pending_bytes == 0,
                self.key == start.key,
                self.policy == start.policy,
                self.phase == start.phase,
                self.files == start.files,
                self.seen == start.seen,
                self.open_chunks == start.open_chunks,
                self.open_bytes == start.open_bytes,
                blobs_carry(
                    blobs@,
                    p,
                    to_ship(p, gone, i as int),
                    start.key@,
                    nonces@,
                    outs,
                ),
                encoded_run(
                    plaintexts(p, to_ship(p, gone, i as int)),
                    start.phase,
                    start.policy,
                    start.report.compression,
                    outs,
                    blobs@.len(),
                    self.report.compression,
                ),
                blob_sum(blobs@) >= 0,
                frames_fit(p, to_ship(p, gone, i as int), start.phase, start.policy),
                self.report == (BackupReport {
                    chunks_uploaded: (start.report.chunks_uploaded + blobs@.len()) as u64,
                    chunks_deduped: (start.report.chunks_deduped + i - blobs@.len()) as u64,
                    upload_bytes: capped(start.report.upload_bytes + blob_sum(blobs@)),
                    compression: self.report.compression,
                    ..start.report
                }),
            decreases pending@.len() - i,
        {
            let id: ChunkId = pending[i].0;
            let ghost picks = to_ship(p, gone, i as int);
            if missing.contains(&id) {
                let ghost counters = self.report.compression;
                let framed: Vec<u8> = encode_chunk(
                    pending[i].1.as_slice(),
                    self.phase,
                    &self.policy,
                    &mut self.report.compression,
                );
                let sealed: Vec<u8> = match encrypt_chunk(
                    &self.key,
                    &id,
                    framed.as_slice(),
                    &nonces[blobs.len()],
                ) {
                    Ok(s) => s,
                    Err(e) => {
                        proof {
                            let all = to_ship(p, gone, p.len() as int);
                            lemma_picks_extend(p, gone, i as int, p.len() as int);
                            assert(to_ship(p, gone, i + 1) == picks.push(i as int));
                            assert(all[picks.len() as int] == i);
                            if start.policy.keep_threshold.at_most_one() {
                                lemma_payload_fits(p[i as int].1@, start.phase, start.policy);
                            }
                        }
                        return Err(BackupError::Crypto(e));
                    },
                };
                self.report.upload_bytes = self.report.upload_bytes.saturating_add(
                    sealed.len() as u64,
                );
                self.report.chunks_uploaded = self.report.chunks_uploaded + 1;
                let ghost old_blobs = blobs@;
                let ghost old_outs = outs;
                blobs.push(ChunkBlob { chunk_id: id.to_wire(), data: sealed });
                proof {
                    let texts = plaintexts(p, picks);
                    lemma_run_step(
                        texts,
                        start.phase,
                        start.policy,
                        start.report.compression,
                        old_outs,
                        counters,
                        p[i as int].1@,
                        framed@,
                        self.report.compression,
                    );
                    outs = outs.push(framed@);
                    assert(plaintexts(p, picks.push(i as int)) =~= texts.push(p[i as int].1@));
                    assert(blobs@.drop_last() =~= old_blobs);
                    assert forall|k: int| #![trigger blobs@[k]] 0 <= k < blobs@.len() implies {
                        let id = p[picks.push(i as int)[k]].0@;
                        &&& blobs@[k].chunk_id@ == id
                        &&& blobs@[k].data@ == sealed_blob(start.key@, nonces@[k]@, id, outs[k])
                        &&& blobs@[k].data@.len() == outs[k].len() + BLOB_OVERHEAD
                        &&& opened_blob(start.key@, id, blobs@[k].data@) == Some(outs[k])
                        &&& decoded_plaintext(outs[k]) == Some(p[picks.push(i as int)[k]].1@)
                    } by {
                        if k < old_blobs.len() {
                            assert(blobs@[k] == old_blobs[k]);
                            assert(outs[k] == old_outs[k]);
                        }
                    }
                }
            } else {
                self.report.chunks_deduped = self.report.chunks_deduped + 1;
            }
            i = i + 1;
        }
        proof {
            let picks = to_ship(p, gone, p.len() as int);
            law_run_counts(
                plaintexts(p, picks),
                start.phase,
                start.policy,
                start.report.compression,
                outs,
                self.report.compression,
            );
        }
        Ok(blobs)
    }

    /// Ends the capture: the manifest of all files, and the ledger.
    #[must_use]
    pub fn into_manifest(self, created_at: i64) -> (r: (Manifest, BackupReport))
        requires
            self.wf(),
        ensures
            r.0.snapshot_id == self.report.snapshot_id,
            r.0.created_at == created_at,
            r.0.files == self.files,
            r.1 == self.report,
    {
        (
            Manifest {
                snapshot_id: self.report.snapshot_id,
                created_at,
                files: self.files,
            },
            self.report,
        )
    }
}

/// Parses the identities that the daemon says it lacks.
fn parse_wires(wires: &Vec<Vec<u8>>) -> (r: Result<IdSet, BackupError>)
    ensures
        match r {
            Ok(set) => {
                &&& set.wf()
                &&& set@ == wire_set(wires@, wires@.len() as int)
                &&& wires_whole(wires@)
            },
            Err(e) => {
                &&& !wires_whole(wires@)
                &&& e matches BackupError::BadResponse(m) && m@
                    == "malformed chunk ID in HasChunks reply"@
            },
        },
{
    let mut set: IdSet = IdSet::new();
    let mut i: usize = 0;
    while i < wires.len()
        invariant
            i <= wires@.len(),
            set.wf(),
            set@ == wire_set(wires@, i as int),
            forall|k: int| #![trigger wires@[k]] 0 <= k < i ==> wires@[k]@.len() == 32,
        decreases wires@.len() - i,
    {
        match ChunkId::from_wire(wires[i].as_slice()) {
            Some(id) => {
                set.insert(id);
            },
            None => {
                proof {
                    let w = wires@[i as int];
                    assert(w@.len() != 32);
                }
                return Err(BackupError::BadResponse("malformed chunk ID in HasChunks reply"));
            },
        }
        i = i + 1;
    }
    Ok(set)
}

/// Checks that the daemon acknowledges as many blobs as were sent.
pub fn check_upload(sent: usize, stored: u64, already_present: u64) -> (r: Result<(), BackupError>)
    ensures
        match r {
            Ok(()) => stored + already_present == sent,
            Err(e) => stored + already_present != sent && (e matches BackupError::BadResponse(m)
                && m@
                == "UploadChunks acknowledged a different number of blobs than were sent"@),
        },
{
    if stored as u128 + already_present as u128 != sent as u128 {
        return Err(
            BackupError::BadResponse(
                "UploadChunks acknowledged a different number of blobs than were sent",
            ),
        );
    }
    Ok(())
}

/// Encodes and seals a manifest, bound to its snapshot. Opening and decoding
/// the result gives the manifest back.
pub fn seal_manifest(manifest: &Manifest, key: &DataKey, nonce: &[u8; 24]) -> (r: Result<
    Vec<u8>,
    BackupError,
>)
    ensures
        match r {
            Ok(blob) => {
                &&& manifest_fault(manifest@) is None
                &&& blob@ == sealed_blob(
                    key@,
                    nonce@,
                    manifest.snapshot_id.wire(),
                    manifest_bytes(manifest@),
                )
                &&& opened_blob(key@, manifest.snapshot_id.wire(), blob@) == Some(
                    manifest_bytes(manifest@),
                )
                &&& parse_manifest(manifest_bytes(manifest@)) == Ok::<ManifestModel, Fault>(
                    manifest@,
                )
            },
            Err(BackupError::Manifest(e)) => {
                e matches ManifestError::TooLarge { what, value, limit } && manifest_fault(
                    manifest@,
                ) == Some((what@, value as int)) && limit == u32::MAX
            },
            Err(BackupError::Crypto(e)) => {
                &&& manifest_fault(manifest@) is None
                &&& manifest_bytes(manifest@).len() > MAX_PLAINTEXT_LEN
                &&& e is Encrypt
            },
            Err(_) => false,
        },
{
    let encoded: Vec<u8> = match manifest.encode() {
        Ok(b) => b,
        Err(e) => {
            return Err(BackupError::Manifest(e));
        },
    };
    match encrypt_manifest(key, manifest.snapshot_id, encoded.as_slice(), nonce) {
        Ok(blob) => Ok(blob),
        Err(e) => Err(BackupError::Crypto(e)),
    }
}

/// The ledger with the size of the sealed manifest.
#[must_use]
pub fn with_manifest(report: BackupReport, sealed_len: usize) -> (r: BackupReport)
    ensures
        r == (BackupReport { manifest_bytes: sealed_len as u64, ..report }),
{
    let mut out: BackupReport = report;
    out.manifest_bytes = sealed_len as u64;
    out
}

/// The phase of a backup: a set's first snapshot is one that the daemon holds
/// none before.
#[must_use]
pub fn phase_for(stored_snapshots: usize) -> (r: Phase)
    ensures
        r == if stored_snapshots == 0 {
            Phase::InitialFull
        } else {
            Phase::Incremental
        },
{
    if stored_snapshots == 0 {
        Phase::InitialFull
    } else {
        Phase::Incremental
    }
}

/// Adds the name of a folder to those before it, unless one of them has it
/// already.
pub fn add_root_name(names: &mut Vec<String>, name: String) -> (r: Result<(), BackupError>)
    ensures
        match r {
            Ok(()) => {
                &&& forall|i: int|
                    #![trigger old(names)@[i]]
                    0 <= i < old(names)@.len() ==> old(names)@[i]@ != name@
                &&& final(names)@ == old(names)@.push(name)
            },
            Err(e) => {
                &&& exists|i: int|
                    #![trigger old(names)@[i]]
                    0 <= i < old(names)@.len() && old(names)@[i]@ == name@
                &&& final(names)@ == old(names)@
                &&& e matches BackupError::DuplicateRootName { name: n } && n@ == name@
            },
        },
{
    let mut i: usize = 0;
    while i < names.len()
        invariant
            i <= names@.len(),
            names@ == old(names)@,
            forall|k: int| #![trigger names@[k]] 0 <= k < i ==> names@[k]@ != name@,
        decreases names@.len() - i,
    {
        if names[i] == name {
            proof {
                let w = old(names)@[i as int];
                assert(w@ == name@);
            }
            return Err(BackupError::DuplicateRootName { name });
        }
        i = i + 1;
    }
    names.push(name);
    Ok(())
}

/// A path below a prefix.
#[must_use]
pub fn child_path(prefix: &str, name: &str) -> (r: String)
    ensures
        r@ == prefix@ + seq!['/'] + name@,
{
    let mut out: String = prefix.to_owned();
    out.push('/');
    out.push_str(name);
    proof {
        assert(out@ =~= prefix@ + seq!['/'] + name@);
    }
    out
}

/// What a directory entry is.
#[derive(Debug, Clone, Copy, PartialEq, Eq, Structural)]
pub enum EntryKind {
    /// A directory.
    Directory,
    /// A regular file.
    File,
    /// A link or anything else, which is not captured.
    Other,
}

/// A directory entry.
#[derive(Debug, Clone, PartialEq, Eq)]
pub struct DirItem {
    /// Its name.
    pub name: String,
    /// What it is.
    pub kind: EntryKind,
}

/// The names of directory entries.
pub open spec fn names_of(items: Seq<DirItem>) -> Seq<Seq<char>> {
    Seq::new(items.len(), |i: int| items[i].name@)
}

/// Of the first `n` places, those of directories and files.
pub open spec fn captured_places(order: Seq<usize>, items: Seq<DirItem>, n: int) -> Seq<usize>
    decreases n,
{
    if n <= 0 {
        Seq::empty()
    } else if items[order[n - 1] as int].kind == EntryKind::Other {
        captured_places(order, items, n - 1)
    } else {
        captured_places(order, items, n - 1).push(order[n - 1])
    }
}

/// The places of the directories and files among directory entries, in the
/// order of their names. Links and other entries are left out.
#[must_use]
pub fn walk_order(items: &Vec<DirItem>) -> (r: Vec<usize>)
    ensures
        exists|order: Seq<usize>| #[trigger]
            by_text(order, names_of(items@)) && r@ == captured_places(
                order,
                items@,
                items@.len() as int,
            ),
        r@.no_duplicates(),
        forall|i: usize|
            #![trigger r@.contains(i)]
            r@.contains(i) <==> i < items@.len() && (items@[i as int].kind == EntryKind::Directory
                || items@[i as int].kind == EntryKind::File),
        forall|a: int, b: int|
            #![trigger r@[a], r@[b]]
            0 <= a <= b < r@.len() ==> lex_le(
                items@[r@[a] as int].name@,
                items@[r@[b] as int].name@,
            ),
{
    let mut names: Vec<String> = Vec::with_capacity(items.len());
    let mut i: usize = 0;
    while i < items.len()
        invariant
            i <= items@.len(),
            names@.len() == i,
            forall|k: int| #![trigger names@[k]] 0 <= k < i ==> names@[k]@ == items@[k].name@,
        decreases items@.len() - i,
    {
        names.push(items[i].name.clone());
        i = i + 1;
    }
    let order: Vec<usize> = text_order(&names);
    proof {
        assert(Seq::new(names@.len(), |i: int| names@[i]@) =~= names_of(items@));
    }
    let mut out: Vec<usize> = Vec::new();
    let mut i: usize = 0;
    while i < order.len()
        invariant
            i <= order@.len(),
            is_arrangement(order@, items@.len()),
            by_text(order@, names_of(items@)),
            out@ == captured_places(order@, items@, i as int),
        decreases order@.len() - i,
    {
        let place: usize = order[i];
        if items[place].kind != EntryKind::Other {
            out.push(place);
        }
        i = i + 1;
    }
    proof {
        law_walk_captures_files_and_directories(items@, order@);
    }
    out
}

/// Splits a distance from the Unix epoch into the whole second at or before
/// the time and the nanoseconds after that second.
pub open spec fn mtime_of(after: bool, secs: int, nanos: int) -> (int, int) {
    if after {
        (secs, nanos)
    } else if nanos == 0 {
        (-secs, 0)
    } else {
        (-(secs + 1), 1_000_000_000 - nanos)
    }
}

/// Splits a modification time, given as its distance after or before the Unix
/// epoch, into whole seconds and nanoseconds. Without one it is the epoch.
#[must_use]
pub fn mtime_parts(distance: Option<(bool, u64, u32)>) -> (r: (i64, u32))
    requires
        distance matches Some((after, secs, nanos)) ==> {
            &&& secs <= i64::MAX
            &&& nanos < 1_000_000_000
            &&& !after && nanos > 0 ==> secs < i64::MAX
        },
    ensures
        match distance {
            None => r.0 == 0 && r.1 == 0,
            Some((after, secs, nanos)) => r.0 == mtime_of(after, secs as int, nanos as int).0
                && r.1 == mtime_of(after, secs as int, nanos as int).1,
        },
        r.1 < 1_000_000_000,
        distance matches Some((after, secs, nanos)) ==> r.0 * 1_000_000_000 + r.1 == if after {
            secs * 1_000_000_000 + nanos
        } else {
            -(secs * 1_000_000_000 + nanos)
        },
{
    match distance {
        None => (0, 0),
        Some((after, secs, nanos)) => {
            if after {
                (secs as i64, nanos)
            } else if nanos == 0 {
                (-(secs as i64), 0)
            } else {
                (-(secs as i64 + 1), 1_000_000_000 - nanos)
            }
        },
    }
}

/// Once nothing waits, every distinct chunk was either shipped or found on the
/// daemon, and the manifest refers only to such chunks: as many references as
/// the ledger counts, each to a chunk that came.
pub proof fn law_ledger_balances(s: Session)
    requires
        s.wf(),
        s.pending@.len() == 0,
        s.open_chunks@.len() == 0,
    ensures
        s.report.chunks_uploaded + s.report.chunks_deduped == s.report.chunks_unique,
        s.report.chunks_unique == s.seen@.len(),
        s.report.compression.chunks() == s.report.chunks_uploaded,
        s.report.chunks_total == refs_of(files_view(s.files@)).len(),
        forall|i: int|
            #![trigger refs_of(files_view(s.files@))[i]]
            0 <= i < refs_of(files_view(s.files@)).len() ==> s.seen@.contains(
                refs_of(files_view(s.files@))[i],
            ),
{
    lemma_refs(s.files@);
}

proof fn lemma_refs(files: Seq<FileEntry>)
    ensures
        file_refs(files) == refs_of(files_view(files)),
    decreases files.len(),
{
    if files.len() > 0 {
        lemma_refs(files.drop_last());
        lemma_refs_last(files_view(files));
        assert(files_view(files).drop_last() =~= files_view(files.drop_last()));
        assert(files_view(files).last() == files.last()@);
    }
}

proof fn lemma_refs_last(models: Seq<FileModel>)
    requires
        models.len() > 0,
    ensures
        refs_of(models) == refs_of(models.drop_last()) + models.last().chunks,
    decreases models.len(),
{
    if models.len() > 1 {
        lemma_refs_last(models.skip(1));
        assert(models.skip(1).drop_last() =~= models.drop_last().skip(1));
        assert(models.drop_last()[0] == models[0]);
        assert(refs_of(models) =~= refs_of(models.drop_last()) + models.last().chunks);
    } else {
        assert(models.skip(1) =~= Seq::empty());
        assert(models.drop_last() =~= Seq::empty());
        assert(refs_of(models) =~= refs_of(models.drop_last()) + models.last().chunks);
    }
}

/// A backup ships exactly the waiting chunks that the daemon lacks, each once
/// and in order; where it lacks none, nothing is shipped.
pub proof fn law_ships_exactly_what_is_missing(
    p: Seq<(ChunkId, Vec<u8>)>,
    missing: Set<Seq<u8>>,
    n: int,
)
    requires
        0 <= n <= p.len(),
    ensures
        forall|i: int|
            #![trigger p[i]]
            0 <= i < n ==> (to_ship(p, missing, n).contains(i) <==> missing.contains(p[i].0@)),
        forall|k: int|
            #![trigger to_ship(p, missing, n)[k]]
            0 <= k < to_ship(p, missing, n).len() ==> 0 <= to_ship(p, missing, n)[k] < n,
        forall|k: int, l: int|
            #![trigger to_ship(p, missing, n)[k], to_ship(p, missing, n)[l]]
            0 <= k < l < to_ship(p, missing, n).len() ==> to_ship(p, missing, n)[k] < to_ship(
                p,
                missing,
                n,
            )[l],
        (forall|i: int| #![trigger p[i]] 0 <= i < n ==> !missing.contains(p[i].0@)) ==> to_ship(
            p,
            missing,
            n,
        ).len() == 0,
    decreases n,
{
    if n > 0 {
        law_ships_exactly_what_is_missing(p, missing, n - 1);
        let before = to_ship(p, missing, n - 1);
        let picks = to_ship(p, missing, n);
        let last = p[n - 1];
        assert forall|i: int| #![trigger p[i]] 0 <= i < n implies (picks.contains(i)
            <==> missing.contains(p[i].0@)) by {
            if missing.contains(last.0@) {
                assert(picks[picks.len() - 1] == n - 1);
                if i < n - 1 {
                    if before.contains(i) {
                        let k = choose|k: int| 0 <= k < before.len() && before[k] == i;
                        assert(picks[k] == i);
                    }
                    if picks.contains(i) {
                        let k = choose|k: int| 0 <= k < picks.len() && picks[k] == i;
                        assert(before[k] == i);
                    }
                }
            } else if i == n - 1 && picks.contains(i) {
                let k = choose|k: int| 0 <= k < before.len() && before[k] == i;
                assert(before[k] < n - 1);
            }
        }
    }
}

/// Two shipped blobs never have the same identity.
pub proof fn law_no_identity_ships_twice(
    s: Session,
    missing: Set<Seq<u8>>,
    blobs: Seq<ChunkBlob>,
    nonces: Seq<[u8; 24]>,
    outs: Seq<Seq<u8>>,
    a: int,
    b: int,
)
    requires
        s.wf(),
        blobs_carry(
            blobs,
            s.pending@,
            to_ship(s.pending@, missing, s.pending@.len() as int),
            s.key@,
            nonces,
            outs,
        ),
        0 <= a < b < blobs.len(),
    ensures
        blobs[a].chunk_id@ != blobs[b].chunk_id@,
{
    let p = s.pending@;
    let picks = to_ship(p, missing, p.len() as int);
    law_ships_exactly_what_is_missing(p, missing, p.len() as int);
    assert(picks[a] < picks[b]);
    assert(p[picks[a]].0@ != p[picks[b]].0@);
}

/// The bytes that the ledger adds for shipped blobs are those of the framed
/// outputs and the encryption overhead of each.
pub proof fn law_upload_bytes(
    blobs: Seq<ChunkBlob>,
    p: Seq<(ChunkId, Vec<u8>)>,
    picks: Seq<int>,
    key: Seq<u8>,
    nonces: Seq<[u8; 24]>,
    outs: Seq<Seq<u8>>,
)
    requires
        blobs_carry(blobs, p, picks, key, nonces, outs),
    ensures
        blob_sum(blobs) == total_len(outs) + BLOB_OVERHEAD * blobs.len(),
{
    lemma_blob_sum(blobs, outs);
}

proof fn lemma_blob_sum(blobs: Seq<ChunkBlob>, outs: Seq<Seq<u8>>)
    requires
        blobs.len() == outs.len(),
        forall|k: int|
            #![trigger blobs[k]]
            0 <= k < blobs.len() ==> blobs[k].data@.len() == outs[k].len() + BLOB_OVERHEAD,
    ensures
        blob_sum(blobs) == total_len(outs) + BLOB_OVERHEAD * blobs.len(),
    decreases blobs.len(),
{
    if blobs.len() > 0 {
        let fewer = blobs.drop_last();
        assert forall|k: int| #![trigger fewer[k]] 0 <= k < fewer.len() implies fewer[k].data@.len()
            == outs.drop_last()[k].len() + BLOB_OVERHEAD by {
            assert(blobs[k] == fewer[k]);
        }
        lemma_blob_sum(fewer, outs.drop_last());
        assert(blobs[blobs.len() - 1].data@.len() == outs[blobs.len() - 1].len() + BLOB_OVERHEAD);
    }
}

/// A walk captures every directory and every regular file of a directory, each
/// once and in the order of their names, and nothing else.
pub proof fn law_walk_captures_files_and_directories(items: Seq<DirItem>, order: Seq<usize>)
    requires
        by_text(order, names_of(items)),
    ensures
        ({
            let walk = captured_places(order, items, items.len() as int);
            &&& forall|i: usize|
                #![trigger walk.contains(i)]
                walk.contains(i) <==> i < items.len() && (items[i as int].kind
                    == EntryKind::Directory || items[i as int].kind == EntryKind::File)
            &&& walk.no_duplicates()
            &&& forall|a: int, b: int|
                #![trigger walk[a], walk[b]]
                0 <= a <= b < walk.len() ==> lex_le(
                    items[walk[a] as int].name@,
                    items[walk[b] as int].name@,
                )
        }),
{
    let n = items.len() as int;
    let walk = captured_places(order, items, n);
    law_arrangement_is_complete(order, items.len());
    lemma_captured(order, items, n);
    let at = captured_from(order, items, n);
    assert forall|i: usize| #![trigger walk.contains(i)] walk.contains(i) <==> i < items.len() && (
    items[i as int].kind == EntryKind::Directory || items[i as int].kind == EntryKind::File) by {
        if walk.contains(i) {
            let a = choose|a: int| 0 <= a < walk.len() && walk[a] == i;
            assert(order[at[a]] == i);
            assert(order.contains(i));
        }
        if i < items.len() && items[i as int].kind != EntryKind::Other {
            assert(order.contains(i));
            let k = choose|k: int| 0 <= k < order.len() && order[k] == i;
            assert(items[order[k] as int].kind != EntryKind::Other);
            let a = choose|a: int| 0 <= a < at.len() && at[a] == k;
            assert(walk[a] == i);
        }
    }
    assert forall|a: int, b: int|
        #![trigger walk[a], walk[b]]
        0 <= a <= b < walk.len() implies lex_le(
        items[walk[a] as int].name@,
        items[walk[b] as int].name@,
    ) by {
        assert(at[a] <= at[b]);
        let names = names_of(items);
        assert(lex_le(names[order[at[a]] as int], names[order[at[b]] as int]));
    }
    assert forall|a: int, b: int| 0 <= a < walk.len() && 0 <= b < walk.len() && a
        != b implies walk[a] != walk[b] by {
        if a < b {
            assert(at[a] < at[b]);
        } else {
            assert(at[b] < at[a]);
        }
        assert(order[at[a]] != order[at[b]]);
    }
}

/// Where in the order the captured places stand.
spec fn captured_from(order: Seq<usize>, items: Seq<DirItem>, n: int) -> Seq<int>
    decreases n,
{
    if n <= 0 {
        Seq::empty()
    } else if items[order[n - 1] as int].kind == EntryKind::Other {
        captured_from(order, items, n - 1)
    } else {
        captured_from(order, items, n - 1).push(n - 1)
    }
}

proof fn lemma_captured(order: Seq<usize>, items: Seq<DirItem>, n: int)
    requires
        0 <= n <= order.len(),
    ensures
        ({
            let walk = captured_places(order, items, n);
            let at = captured_from(order, items, n);
            &&& walk.len() == at.len()
            &&& forall|a: int|
                #![trigger at[a]]
                #![trigger walk[a]]
                0 <= a < at.len() ==> 0 <= at[a] < n && walk[a] == order[at[a]] && items[
                    order[at[a]] as int
                ].kind != EntryKind::Other
            &&& forall|a: int, b: int|
                #![trigger at[a], at[b]]
                0 <= a < b < at.len() ==> at[a] < at[b]
            &&& forall|k: int|
                #![trigger items[order[k] as int]]
                0 <= k < n && items[order[k] as int].kind != EntryKind::Other ==> at.contains(k)
        }),
    decreases n,
{
    if n > 0 {
        lemma_captured(order, items, n - 1);
        let before = captured_from(order, items, n - 1);
        let at = captured_from(order, items, n);
        assert forall|k: int|
            #![trigger items[order[k] as int]]
            0 <= k < n && items[order[k] as int].kind != EntryKind::Other implies at.contains(
            k,
        ) by {
            if k < n - 1 {
                assert(before.contains(k));
                let a = choose|a: int| 0 <= a < before.len() && before[a] == k;
                assert(at[a] == k);
            } else {
                assert(at[at.len() - 1] == k);
            }
        }
    }
}

/// The identities that the daemon lacks are those in its answer.
pub proof fn law_missing_are_those_answered(wires: Seq<Vec<u8>>, id: Seq<u8>)
    ensures
        wire_set(wires, wires.len() as int).contains(id) <==> exists|i: int|
            0 <= i < wires.len() && (#[trigger] wires[i])@ == id,
{
    lemma_wire_set(wires, wires.len() as int, id);
}

proof fn lemma_wire_set(wires: Seq<Vec<u8>>, n: int, id: Seq<u8>)
    requires
        0 <= n <= wires.len(),
    ensures
        wire_set(wires, n).contains(id) <==> exists|i: int|
            0 <= i < n && (#[trigger] wires[i])@ == id,
    decreases n,
{
    if n > 0 {
        lemma_wire_set(wires, n - 1, id);
        if wires[n - 1]@ == id {
            let w = wires[n - 1];
        }
    }
}

/// A closed file is recorded under its path with all its chunks, their bytes
/// as its size, and its metadata as they were given; the files before it stay.
pub proof fn law_closed_file_is_recorded(
    a: Session,
    path: Seq<char>,
    mtime_secs: i64,
    mtime_nanos: u32,
    mode: u32,
    b: Session,
)
    requires
        file_ended(a, path, mtime_secs, mtime_nanos, mode, b),
        a.wf(),
        a.report.source_bytes + a.open_bytes <= u64::MAX,
    ensures
        b.files@.len() == a.files@.len() + 1,
        forall|i: int| 0 <= i < a.files@.len() ==> #[trigger] b.files@[i] == a.files@[i],
        b.files@.last().path@ == path,
        b.files@.last().size == a.open_bytes,
        b.files@.last().mtime_secs == mtime_secs,
        b.files@.last().mtime_nanos == mtime_nanos,
        b.files@.last().mode == mode,
        b.files@.last().chunks@.len() == a.open_chunks@.len(),
        forall|k: int|
            0 <= k < a.open_chunks@.len() ==> (#[trigger] b.files@.last().chunks@[k])@
                == a.open_chunks@[k]@,
        b.report.files == a.report.files + 1,
        b.report.source_bytes == a.report.source_bytes + a.open_bytes,
        b.report.chunks_total == a.report.chunks_total,
        b.report.chunks_uploaded == a.report.chunks_uploaded,
        b.report.chunks_deduped == a.report.chunks_deduped,
        b.pending@ == a.pending@,
{
    assert forall|i: int| 0 <= i < a.files@.len() implies #[trigger] b.files@[i] == a.files@[i] by {
        assert(b.files@.drop_last()[i] == b.files@[i]);
    }
    let last = b.files@.last();
    assert(last@.chunks == ids_view(last.chunks@));
    assert forall|k: int| 0 <= k < a.open_chunks@.len() implies (#[trigger] last.chunks@[k])@
        == a.open_chunks@[k]@ by {
        assert(ids_view(last.chunks@)[k] == ids_view(a.open_chunks@)[k]);
    }
    assert(ids_view(last.chunks@).len() == ids_view(a.open_chunks@).len());
}

/// Every chunk of a file is referred to and counted; its bytes wait for the
/// daemon just if its identity has not come before.
pub proof fn law_added_chunk_waits_once(a: Session, chunk: Chunk, b: Session)
    requires
        chunk_added(a, chunk, b),
        a.report.chunks_total < u64::MAX,
        a.wf(),
    ensures
        b.open_chunks@ == a.open_chunks@.push(chunk.id),
        b.open_bytes == a.open_bytes + chunk.data@.len(),
        b.report.chunks_total == a.report.chunks_total + 1,
        b.seen@.contains(chunk.id@),
        forall|id: Seq<u8>| id != chunk.id@ ==> (b.seen@.contains(id) <==> a.seen@.contains(id)),
        a.seen@.contains(chunk.id@) ==> b.pending@ == a.pending@ && b.report.chunks_unique
            == a.report.chunks_unique,
        !a.seen@.contains(chunk.id@) ==> b.pending@.len() == a.pending@.len() + 1
            && b.pending@.last().0@ == chunk.id@ && b.pending@.last().1@ == chunk.data@
            && b.report.chunks_unique == a.report.chunks_unique + 1,
        b.files@ == a.files@,
{
}

/// After a round with the daemon nothing waits, and each chunk that waited was
/// counted as shipped, if the daemon lacks it, or else as deduplicated; what
/// was shipped adds to the uploaded bytes.
pub proof fn law_round_settles_every_chunk(
    a: Session,
    missing: Set<Seq<u8>>,
    nonces: Seq<[u8; 24]>,
    blobs: Seq<ChunkBlob>,
    b: Session,
)
    requires
        a.wf(),
        round_made(a, missing, nonces, blobs, b),
        a.report.upload_bytes + blob_sum(blobs) <= u64::MAX,
    ensures
        b.pending@.len() == 0,
        b.report.chunks_uploaded == a.report.chunks_uploaded + blobs.len(),
        b.report.chunks_deduped + blobs.len() == a.report.chunks_deduped + a.pending@.len(),
        b.report.upload_bytes == a.report.upload_bytes + blob_sum(blobs),
        b.report.chunks_total == a.report.chunks_total,
        b.report.chunks_unique == a.report.chunks_unique,
        b.files@ == a.files@,
        forall|i: int|
            #![trigger a.pending@[i]]
            0 <= i < a.pending@.len() ==> (missing.contains(a.pending@[i].0@) <==> exists|k: int|
                0 <= k < blobs.len() && (#[trigger] blobs[k]).chunk_id@ == a.pending@[i].0@),
        forall|k: int|
            #![trigger blobs[k]]
            0 <= k < blobs.len() ==> missing.contains(blobs[k].chunk_id@),
{
    let p = a.pending@;
    let n = p.len() as int;
    let picks = to_ship(p, missing, n);
    law_ships_exactly_what_is_missing(p, missing, n);
    lemma_picks_within(p, missing, n);
    lemma_blob_sum_counts(blobs);
    let outs = choose|outs: Seq<Seq<u8>>|
        blobs_carry(blobs, p, picks, a.key@, nonces, outs) && #[trigger] encoded_run(
            plaintexts(p, picks),
            a.phase,
            a.policy,
            a.report.compression,
            outs,
            picks.len(),
            b.report.compression,
        );
    assert forall|k: int| #![trigger blobs[k]] 0 <= k < blobs.len() implies missing.contains(
        blobs[k].chunk_id@,
    ) by {
        let i = picks[k];
        assert(picks.contains(i));
        let w = p[i];
    }
    assert forall|i: int|
        #![trigger a.pending@[i]]
        0 <= i < a.pending@.len() implies (missing.contains(a.pending@[i].0@) <==> exists|k: int|
        0 <= k < blobs.len() && (#[trigger] blobs[k]).chunk_id@ == a.pending@[i].0@) by {
        if missing.contains(p[i].0@) {
            assert(picks.contains(i));
            let k = choose|k: int| 0 <= k < picks.len() && picks[k] == i;
            assert(blobs[k].chunk_id@ == p[i].0@);
        }
    }
}

proof fn lemma_picks_within(p: Seq<(ChunkId, Vec<u8>)>, missing: Set<Seq<u8>>, n: int)
    requires
        0 <= n,
    ensures
        to_ship(p, missing, n).len() <= n,
    decreases n,
{
    if n > 0 {
        lemma_picks_within(p, missing, n - 1);
    }
}

proof fn lemma_blob_sum_counts(blobs: Seq<ChunkBlob>)
    ensures
        blob_sum(blobs) >= 0,
    decreases blobs.len(),
{
    if blobs.len() > 0 {
        lemma_blob_sum_counts(blobs.drop_last());
    }
}

/// Bytes of shipped blobs add up.
pub proof fn law_blob_bytes_add_up(blobs: Seq<ChunkBlob>, blob: ChunkBlob)
    ensures
        blob_sum(blobs.push(blob)) == blob_sum(blobs) + blob.data@.len(),
        blob_sum(Seq::empty()) == 0,
{
    assert(blobs.push(blob).drop_last() =~= blobs);
}

/// A round with the daemon is due just once 64 chunks wait, or 32 mebibytes.
pub proof fn law_round_is_due(s: Session)
    requires
        s.wf(),
    ensures
        s.due() <==> s.pending@.len() >= 64 || pending_sum(s.pending@) >= 32 * 1024 * 1024,
{
}

/// Waiting bytes add up.
pub proof fn law_waiting_bytes_add_up(p: Seq<(ChunkId, Vec<u8>)>, c: (ChunkId, Vec<u8>))
    ensures
        pending_sum(p.push(c)) == pending_sum(p) + c.1@.len(),
        pending_sum(Seq::empty()) == 0,
{
    assert(p.push(c).drop_last() =~= p);
}

/// Every shipped blob is sealed with a nonce of its own, the next of those
/// drawn, and bound to the identity that it is shipped with.
pub proof fn law_every_blob_has_its_own_nonce(
    blobs: Seq<ChunkBlob>,
    p: Seq<(ChunkId, Vec<u8>)>,
    picks: Seq<int>,
    key: Seq<u8>,
    nonces: Seq<[u8; 24]>,
    outs: Seq<Seq<u8>>,
    a: int,
    b: int,
)
    requires
        blobs_carry(blobs, p, picks, key, nonces, outs),
        0 <= a < b < blobs.len() <= nonces.len(),
        nonces[a]@ != nonces[b]@,
    ensures
        blobs[a].data@.take(24) == nonces[a]@,
        blobs[b].data@.take(24) == nonces[b]@,
        blobs[a].data@.take(24) != blobs[b].data@.take(24),
        opened_blob(key, blobs[a].chunk_id@, blobs[a].data@) == Some(outs[a]),
{
    let (x, y) = (blobs[a], blobs[b]);
    law_blobs_are_bound(key, nonces[a]@, x.chunk_id@, outs[a], x.data@);
    law_blobs_are_bound(key, nonces[b]@, y.chunk_id@, outs[b], y.data@);
}

/// The daemon's answer is taken just if every identity in it has 32 bytes.
pub proof fn law_answers_taken(wires: Seq<Vec<u8>>)
    ensures
        !wires_whole(wires) <==> exists|i: int|
            0 <= i < wires.len() && (#[trigger] wires[i])@.len() != 32,
{
}

/// A session that has just been started has counted nothing and holds nothing.
pub proof fn law_fresh_session_is_empty(s: Session, snapshot_id: SnapshotId)
    requires
        fresh(s, snapshot_id),
    ensures
        s.report.snapshot_id == snapshot_id,
        s.report.files == 0,
        s.report.source_bytes == 0,
        s.report.chunks_total == 0,
        s.report.chunks_unique == 0,
        s.report.chunks_uploaded == 0,
        s.report.chunks_deduped == 0,
        s.report.upload_bytes == 0,
        s.report.manifest_bytes == 0,
        s.report.compression.chunks() == 0,
        s.files@.len() == 0,
        s.pending@.len() == 0,
        s.open_chunks@.len() == 0,
        forall|id: Seq<u8>| !(#[trigger] s.seen@.contains(id)),
        !s.due(),
{
}

} // verus!
