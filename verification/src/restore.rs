//! The restore pipeline between the daemon's answers and the files written.
//!
//! A manifest is opened and decoded; then each file's chunks arrive in order,
//! and [`FileRestore`] hands out the plaintext to write only if the chunk is
//! the one asked for, opens under the backup set's key, decodes, and hashes to
//! the identity that the manifest names. The caller makes the calls to the
//! daemon and writes the files.
use vstd::prelude::*;
use vstd::string::*;

use crate::backup::{blobs_carry, ChunkBlob};
use crate::chunking::{blake3_keyed_hash, chunks_tile, joined, Chunk, ChunkId, ChunkIdKey};
use crate::compression::{
    capped, decode_chunk, decode_error, decoded_plaintext, CompressionError,
};
use crate::crypto::{
    decrypt_chunk, decrypt_manifest, open_error, opened_blob, CryptoError, DataKey,
};
use crate::manifest::{parse_manifest, reports, FileModel, Manifest, ManifestError};
use crate::snapshot_id::SnapshotId;
use crate::text::{chars_of, string_of};

verus! {

/// Errors of the pipeline.
#[derive(Debug, Clone, PartialEq, Eq)]
pub enum RestoreError {
    /// The target is not an empty directory.
    TargetNotEmpty,
    /// A manifest path is absolute, empty or leaves the target.
    UnsafePath {
        /// The path.
        path: String,
    },
    /// The daemon's answer makes no sense.
    BadResponse(&'static str),
    /// The manifest does not decode.
    Manifest(ManifestError),
    /// A chunk or the manifest does not decrypt.
    Crypto(CryptoError),
    /// A chunk's plaintext has another identity than the manifest says.
    ChunkIdMismatch {
        /// The identity in the manifest.
        chunk: ChunkId,
        /// The identity of the plaintext.
        actual: ChunkId,
    },
    /// A chunk's framed plaintext does not decode.
    CodecDecode {
        /// The chunk.
        chunk: ChunkId,
        /// Why.
        source: CompressionError,
    },
    /// A file came out with another size than the manifest says.
    SizeMismatch {
        /// The path.
        path: String,
        /// The size in the manifest.
        expected: u64,
        /// The size that came out.
        actual: u64,
    },
}

/// What one restore did.
#[derive(Debug, Clone, Copy, PartialEq, Eq, Structural)]
pub struct RestoreReport {
    /// The snapshot.
    pub snapshot_id: SnapshotId,
    /// Files written.
    pub files: u64,
    /// Bytes written.
    pub bytes: u64,
    /// Chunks fetched and verified, repeats counted.
    pub chunks_fetched: u64,
}

/// How much a restore has to do.
#[derive(Debug, Clone, Copy, PartialEq, Eq, Structural)]
pub struct RestoreTotals {
    /// Files to write.
    pub total_files: u64,
    /// Bytes to write.
    pub total_bytes: u64,
}

/// What stands where a restore is to go.
#[derive(Debug, Clone, Copy, PartialEq, Eq, Structural)]
pub enum TargetState {
    /// Nothing.
    Missing,
    /// Something that is not a directory.
    NotDirectory,
    /// A directory without entries.
    EmptyDirectory,
    /// A directory with entries.
    OccupiedDirectory,
}

/// Decides about the target: `true` if it has to be created, `false` if it
/// can be used as it is, an error if it may not be touched.
pub fn ensure_empty_target(state: TargetState) -> (r: Result<bool, RestoreError>)
    ensures
        match r {
            Ok(create) => create == (state == TargetState::Missing) && (state
                == TargetState::Missing || state == TargetState::EmptyDirectory),
            Err(e) => e is TargetNotEmpty && (state == TargetState::NotDirectory || state
                == TargetState::OccupiedDirectory),
        },
{
    match state {
        TargetState::Missing => Ok(true),
        TargetState::EmptyDirectory => Ok(false),
        TargetState::NotDirectory => Err(RestoreError::TargetNotEmpty),
        TargetState::OccupiedDirectory => Err(RestoreError::TargetNotEmpty),
    }
}

/// The parts between the slashes of the first `n` characters.
pub open spec fn path_parts(s: Seq<char>, n: int) -> Seq<Seq<char>>
    decreases n,
{
    if n <= 0 {
        seq![Seq::<char>::empty()]
    } else {
        let p = path_parts(s, n - 1);
        if s[n - 1] == '/' {
            p.push(Seq::empty())
        } else {
            p.drop_last().push(p.last().push(s[n - 1]))
        }
    }
}

/// Whether a part can be a component below the target.
pub open spec fn part_is_safe(part: Seq<char>) -> bool {
    part.len() > 0 && part != "."@ && part != ".."@
}

/// Whether a path is a relative path without empty, `.` or `..` parts.
pub open spec fn path_is_safe(s: Seq<char>) -> bool {
    forall|i: int|
        #![trigger path_parts(s, s.len() as int)[i]]
        0 <= i < path_parts(s, s.len() as int).len() ==> part_is_safe(
            path_parts(s, s.len() as int)[i],
        )
}

/// Parts with slashes between them.
pub open spec fn joined_path(parts: Seq<Seq<char>>) -> Seq<char>
    decreases parts.len(),
{
    if parts.len() == 0 {
        Seq::empty()
    } else if parts.len() == 1 {
        parts[0]
    } else {
        joined_path(parts.drop_last()) + seq!['/'] + parts.last()
    }
}

/// The characters of each string.
pub open spec fn text_views(strings: Seq<String>) -> Seq<Seq<char>> {
    Seq::new(strings.len(), |i: int| strings[i]@)
}

fn safe_part(chars: &Vec<char>, from: usize, to: usize) -> (r: bool)
    requires
        from <= to <= chars@.len(),
    ensures
        r == part_is_safe(chars@.subrange(from as int, to as int)),
{
    let n: usize = to - from;
    proof {
        reveal_strlit(".");
        reveal_strlit("..");
        let part = chars@.subrange(from as int, to as int);
        if n == 1 {
            assert(part == "."@ <==> part[0] == '.') by {
                if part[0] == '.' {
                    assert(part =~= "."@);
                }
            }
        }
        if n == 2 {
            assert(part == ".."@ <==> part[0] == '.' && part[1] == '.') by {
                if part[0] == '.' && part[1] == '.' {
                    assert(part =~= ".."@);
                }
            }
        }
    }
    if n == 0 {
        false
    } else if n == 1 {
        chars[from] != '.'
    } else if n == 2 {
        !(chars[from] == '.' && chars[from + 1] == '.')
    } else {
        true
    }
}

/// The components of a manifest path, safe to join below the target; an error
/// exactly if the path is absolute, empty, or has an empty, `.` or `..` part.
pub fn sanitize_path(path: &str) -> (r: Result<Vec<String>, RestoreError>)
    ensures
        match r {
            Ok(parts) => {
                &&& path_is_safe(path@)
                &&& text_views(parts@) == path_parts(path@, path@.len() as int)
                &&& parts@.len() > 0
            },
            Err(e) => {
                &&& !path_is_safe(path@)
                &&& e matches RestoreError::UnsafePath { path: p } && p@ == path@
            },
        },
{
    let chars: Vec<char> = chars_of(path);
    let ghost s = path@;
    let mut parts: Vec<String> = Vec::new();
    let mut start: usize = 0;
    let mut i: usize = 0;
    proof {
        assert(s.subrange(0, 0) =~= Seq::<char>::empty());
        assert(path_parts(s, 0) =~= text_views(parts@).push(s.subrange(0, 0)));
    }
    while i < chars.len()
        invariant
            start <= i <= chars@.len(),
            chars@ == s,
            s == path@,
            path_parts(s, i as int) == text_views(parts@).push(
                s.subrange(start as int, i as int),
            ),
            forall|k: int|
                #![trigger parts@[k]]
                0 <= k < parts@.len() ==> part_is_safe(parts@[k]@),
        decreases chars@.len() - i,
    {
        let ghost here = path_parts(s, i as int);
        if chars[i] == '/' {
            if !safe_part(&chars, start, i) {
                proof {
                    lemma_part_stays(s, i + 1, parts@.len() as int, s.len() as int);
                    assert(path_parts(s, i + 1)[parts@.len() as int] == s.subrange(
                        start as int,
                        i as int,
                    ));
                    let all = path_parts(s, s.len() as int);
                    assert(!part_is_safe(all[parts@.len() as int]));
                }
                return Err(RestoreError::UnsafePath { path: path.to_owned() });
            }
            parts.push(string_of(&chars, start, i));
            start = i + 1;
            proof {
                assert(text_views(parts@) =~= here);
                assert(s.subrange(i + 1, i + 1) =~= Seq::<char>::empty());
            }
        } else {
            proof {
                assert(here.drop_last() =~= text_views(parts@));
                assert(s.subrange(start as int, i + 1) =~= s.subrange(
                    start as int,
                    i as int,
                ).push(s[i as int]));
            }
        }
        i = i + 1;
    }
    let ghost all = path_parts(s, s.len() as int);
    if !safe_part(&chars, start, chars.len()) {
        proof {
            assert(!part_is_safe(all[all.len() - 1]));
        }
        return Err(RestoreError::UnsafePath { path: path.to_owned() });
    }
    let ghost before = parts@;
    parts.push(string_of(&chars, start, chars.len()));
    proof {
        assert(text_views(parts@) =~= all);
        assert forall|k: int| #![trigger all[k]] 0 <= k < all.len() implies part_is_safe(
            all[k],
        ) by {
            assert(all[k] == parts@[k]@);
            if k < before.len() {
                assert(before[k] == parts@[k]);
            }
        }
    }
    Ok(parts)
}

proof fn lemma_parts_grow(s: Seq<char>, n: int)
    requires
        0 <= n,
    ensures
        path_parts(s, n).len() >= 1,
    decreases n,
{
    if n > 0 {
        lemma_parts_grow(s, n - 1);
    }
}

/// A part that a slash has ended does not change as more characters come.
proof fn lemma_part_stays(s: Seq<char>, n: int, k: int, m: int)
    requires
        0 <= n <= m,
        0 <= k < path_parts(s, n).len() - 1,
    ensures
        k < path_parts(s, m).len() - 1,
        path_parts(s, m)[k] == path_parts(s, n)[k],
    decreases m,
{
    if n < m {
        lemma_part_stays(s, n, k, m - 1);
        lemma_parts_grow(s, m - 1);
    }
}

/// The components of a path are the path: with slashes between them they give
/// it back.
pub proof fn law_components_join_to_path(s: Seq<char>)
    ensures
        joined_path(path_parts(s, s.len() as int)) == s,
{
    lemma_join(s, s.len() as int);
    assert(s.take(s.len() as int) =~= s);
}

proof fn lemma_join(s: Seq<char>, n: int)
    requires
        0 <= n <= s.len(),
    ensures
        joined_path(path_parts(s, n)) == s.take(n),
    decreases n,
{
    if n > 0 {
        lemma_join(s, n - 1);
        lemma_parts_grow(s, n - 1);
        let p = path_parts(s, n - 1);
        let q = path_parts(s, n);
        assert(s.take(n) =~= s.take(n - 1).push(s[n - 1]));
        if s[n - 1] == '/' {
            assert(q.drop_last() =~= p);
            assert(joined_path(q) =~= s.take(n));
        } else {
            assert(q.drop_last() =~= p.drop_last());
            assert(joined_path(q) =~= s.take(n));
        }
    } else {
        assert(s.take(0) =~= Seq::<char>::empty());
    }
}

/// Parses the identity of a chunk from the daemon's answer.
pub fn parse_chunk_id(bytes: &[u8]) -> (r: Result<ChunkId, RestoreError>)
    ensures
        match r {
            Ok(id) => bytes@.len() == 32 && id@ == bytes@,
            Err(e) => bytes@.len() != 32 && (e matches RestoreError::BadResponse(m) && m@
                == "malformed chunk ID in GetChunks reply"@),
        },
{
    match ChunkId::from_wire(bytes) {
        Some(id) => Ok(id),
        None => Err(RestoreError::BadResponse("malformed chunk ID in GetChunks reply")),
    }
}

/// The plaintext that a fetched blob holds for an identity, if it holds the
/// right one: it opens under the key, decodes, and has the identity.
pub open spec fn verified_plaintext(
    key: Seq<u8>,
    id_key: Seq<u8>,
    id: Seq<u8>,
    blob: Seq<u8>,
) -> Option<Seq<u8>> {
    match opened_blob(key, id, blob) {
        None => None,
        Some(framed) => match decoded_plaintext(framed) {
            None => None,
            Some(plaintext) => if blake3_keyed_hash(id_key, plaintext) == id {
                Some(plaintext)
            } else {
                None
            },
        },
    }
}

/// Whether verifying a fetched blob fails with the given error.
pub open spec fn verify_error(
    key: Seq<u8>,
    id_key: Seq<u8>,
    id: ChunkId,
    blob: Seq<u8>,
    e: RestoreError,
) -> bool {
    match opened_blob(key, id@, blob) {
        None => e matches RestoreError::Crypto(c) && open_error(key, id@, blob, c),
        Some(framed) => match decoded_plaintext(framed) {
            None => {
                e matches RestoreError::CodecDecode { chunk, source } && chunk == id
                    && decode_error(framed, source)
            },
            Some(plaintext) => {
                e matches RestoreError::ChunkIdMismatch { chunk, actual } && chunk == id
                    && actual@ == blake3_keyed_hash(id_key, plaintext) && actual@ != id@
            },
        },
    }
}

/// Opens, decodes and verifies a fetched blob.
pub fn verify_chunk(key: &DataKey, id_key: &ChunkIdKey, id: &ChunkId, blob: &[u8]) -> (r: Result<
    Vec<u8>,
    RestoreError,
>)
    ensures
        match r {
            Ok(plaintext) => verified_plaintext(key@, id_key@, id@, blob@) == Some(plaintext@),
            Err(e) => {
                &&& verified_plaintext(key@, id_key@, id@, blob@) is None
                &&& verify_error(key@, id_key@, *id, blob@, e)
            },
        },
{
    let framed: Vec<u8> = match decrypt_chunk(key, id, blob) {
        Ok(f) => f,
        Err(e) => {
            return Err(RestoreError::Crypto(e));
        },
    };
    let plaintext: Vec<u8> = match decode_chunk(framed.as_slice()) {
        Ok(p) => p,
        Err(source) => {
            return Err(RestoreError::CodecDecode { chunk: *id, source });
        },
    };
    let actual: ChunkId = ChunkId::keyed(id_key, plaintext.as_slice());
    if !actual.same(id) {
        return Err(RestoreError::ChunkIdMismatch { chunk: *id, actual });
    }
    Ok(plaintext)
}

/// What the daemon streams: a chunk, or the end.
#[derive(Debug, Clone, PartialEq, Eq)]
pub enum StreamEvent {
    /// A chunk.
    Blob {
        /// The identity.
        chunk_id: Vec<u8>,
        /// The sealed bytes.
        data: Vec<u8>,
    },
    /// The end of the stream.
    End,
}

/// What to do next with the file.
#[derive(Debug, Clone, PartialEq, Eq)]
pub enum RestoreStep {
    /// Write these bytes.
    Write(Vec<u8>),
    /// Nothing more comes.
    Done,
}

/// A file that is being restored.
#[derive(Debug, Clone, Copy, PartialEq, Eq, Structural)]
pub struct FileRestore {
    /// How many chunks came.
    pub next: usize,
    /// How many bytes they were.
    pub written: u64,
}

/// Whether a streamed chunk is refused before it is opened: there is one too
/// many, its identity is malformed, or it is not the one that is due.
pub open spec fn refused_early(
    ids: Seq<ChunkId>,
    next: int,
    chunk_id: Seq<u8>,
) -> Option<Seq<char>> {
    if next >= ids.len() {
        Some("GetChunks streamed more chunks than were requested"@)
    } else if chunk_id.len() != 32 {
        Some("malformed chunk ID in GetChunks reply"@)
    } else if chunk_id != ids[next]@ {
        Some("GetChunks streamed a chunk out of the requested order"@)
    } else {
        None
    }
}

/// Whether a file takes the blob of the chunk that is due and hands out its
/// bytes, with the ledger before and after.
pub open spec fn blob_taken(
    key: Seq<u8>,
    id_key: Seq<u8>,
    id: Seq<u8>,
    blob: Seq<u8>,
    handed: Seq<u8>,
    a: (FileRestore, RestoreReport),
    b: (FileRestore, RestoreReport),
) -> bool {
    &&& verified_plaintext(key, id_key, id, blob) == Some(handed)
    &&& b.0.next == a.0.next + 1
    &&& b.0.written == capped(a.0.written + handed.len())
    &&& b.1 == (RestoreReport { chunks_fetched: capped(a.1.chunks_fetched + 1), ..a.1 })
}

impl FileRestore {
    /// Starts a file.
    #[must_use]
    pub fn new() -> (r: Self)
        ensures
            r.next == 0,
            r.written == 0,
    {
        FileRestore { next: 0, written: 0 }
    }

    /// The identities to ask the daemon for: all chunks of the file in order.
    #[must_use]
    pub fn wanted(chunks: &Vec<ChunkId>) -> (r: Vec<Vec<u8>>)
        ensures
            r@.len() == chunks@.len(),
            forall|i: int| #![trigger r@[i]] 0 <= i < r@.len() ==> r@[i]@ == chunks@[i]@,
    {
        let mut out: Vec<Vec<u8>> = Vec::with_capacity(chunks.len());
        let mut i: usize = 0;
        while i < chunks.len()
            invariant
                i <= chunks@.len(),
                out@.len() == i,
                forall|k: int| #![trigger out@[k]] 0 <= k < i ==> out@[k]@ == chunks@[k]@,
            decreases chunks@.len() - i,
        {
            out.push(chunks[i].to_wire());
            i = i + 1;
        }
        out
    }

    /// Takes what the daemon streams next. Bytes are handed out to write only
    /// of the chunk that is due, opened, decoded and verified; the file is
    /// done only once every chunk came and the stream ends.
    pub fn step(
        &mut self,
        key: &DataKey,
        id_key: &ChunkIdKey,
        chunks: &Vec<ChunkId>,
        event: StreamEvent,
        report: &mut RestoreReport,
    ) -> (r: Result<RestoreStep, RestoreError>)
        requires
            old(self).next <= chunks@.len(),
        ensures
            final(self).next <= chunks@.len(),
            match event {
                StreamEvent::End => {
                    &&& *final(self) == *old(self)
                    &&& *final(report) == *old(report)
                    &&& match r {
                        Ok(step) => step is Done && old(self).next == chunks@.len(),
                        Err(e) => old(self).next < chunks@.len() && (
                        e matches RestoreError::BadResponse(m) && m@
                            == "GetChunks stream ended before every requested chunk arrived"@),
                    }
                },
                StreamEvent::Blob { chunk_id, data } => match refused_early(
                    chunks@,
                    old(self).next as int,
                    chunk_id@,
                ) {
                    Some(why) => {
                        &&& r matches Err(RestoreError::BadResponse(m)) && m@ == why
                        &&& *final(self) == *old(self)
                        &&& *final(report) == *old(report)
                    },
                    None => {
                        let id = chunks@[old(self).next as int];
                        match r {
                            Ok(RestoreStep::Write(plaintext)) => blob_taken(
                                key@,
                                id_key@,
                                id@,
                                data@,
                                plaintext@,
                                (*old(self), *old(report)),
                                (*final(self), *final(report)),
                            ),
                            Ok(RestoreStep::Done) => false,
                            Err(e) => {
                                &&& verified_plaintext(key@, id_key@, id@, data@) is None
                                &&& verify_error(key@, id_key@, id, data@, e)
                                &&& *final(self) == *old(self)
                                &&& *final(report) == *old(report)
                            },
                        }
                    },
                },
            },
    {
        match event {
            StreamEvent::End => {
                if self.next < chunks.len() {
                    return Err(
                        RestoreError::BadResponse(
                            "GetChunks stream ended before every requested chunk arrived",
                        ),
                    );
                }
                Ok(RestoreStep::Done)
            },
            StreamEvent::Blob { chunk_id, data } => {
                if self.next >= chunks.len() {
                    return Err(
                        RestoreError::BadResponse(
                            "GetChunks streamed more chunks than were requested",
                        ),
                    );
                }
                let got: ChunkId = match parse_chunk_id(chunk_id.as_slice()) {
                    Ok(id) => id,
                    Err(e) => {
                        return Err(e);
                    },
                };
                let id: ChunkId = chunks[self.next];
                if !got.same(&id) {
                    return Err(
                        RestoreError::BadResponse(
                            "GetChunks streamed a chunk out of the requested order",
                        ),
                    );
                }
                let plaintext: Vec<u8> = match verify_chunk(key, id_key, &id, data.as_slice()) {
                    Ok(p) => p,
                    Err(e) => {
                        return Err(e);
                    },
                };
                self.next = self.next + 1;
                self.written = self.written.saturating_add(plaintext.len() as u64);
                report.chunks_fetched = report.chunks_fetched.saturating_add(1);
                Ok(RestoreStep::Write(plaintext))
            },
        }
    }
}

/// Counts a file that has been written, if it came out with the size that the
/// manifest says.
pub fn finish_file(path: &str, size: u64, written: u64, report: &mut RestoreReport) -> (r: Result<
    (),
    RestoreError,
>)
    ensures
        match r {
            Ok(()) => {
                &&& written == size
                &&& *final(report) == (RestoreReport {
                    files: capped(old(report).files + 1),
                    bytes: capped(old(report).bytes + written),
                    ..*old(report)
                })
            },
            Err(e) => {
                &&& written != size
                &&& *final(report) == *old(report)
                &&& e matches RestoreError::SizeMismatch { path: p, expected, actual } && p@
                    == path@ && expected == size && actual == written
            },
        },
{
    if written != size {
        return Err(
            RestoreError::SizeMismatch { path: path.to_owned(), expected: size, actual: written },
        );
    }
    report.files = report.files.saturating_add(1);
    report.bytes = report.bytes.saturating_add(written);
    Ok(())
}

/// Opens and decodes a manifest blob.
pub fn open_manifest(key: &DataKey, snapshot_id: SnapshotId, blob: &[u8]) -> (r: Result<
    Manifest,
    RestoreError,
>)
    ensures
        match opened_blob(key@, snapshot_id.wire(), blob@) {
            None => r matches Err(RestoreError::Crypto(e)) && open_error(
                key@,
                snapshot_id.wire(),
                blob@,
                e,
            ),
            Some(bytes) => match parse_manifest(bytes) {
                Ok(m) => r matches Ok(got) && got@ == m,
                Err(fault) => r matches Err(RestoreError::Manifest(e)) && reports(e, fault),
            },
        },
{
    let bytes: Vec<u8> = match decrypt_manifest(key, snapshot_id, blob) {
        Ok(b) => b,
        Err(e) => {
            return Err(RestoreError::Crypto(e));
        },
    };
    match Manifest::decode(bytes.as_slice()) {
        Ok(m) => Ok(m),
        Err(e) => Err(RestoreError::Manifest(e)),
    }
}

/// The ledger of a restore that has done nothing.
#[must_use]
pub fn new_report(snapshot_id: SnapshotId) -> (r: RestoreReport)
    ensures
        r == (RestoreReport { snapshot_id, files: 0, bytes: 0, chunks_fetched: 0 }),
{
    RestoreReport { snapshot_id, files: 0, bytes: 0, chunks_fetched: 0 }
}

/// Sizes of files in a manifest, added up.
pub open spec fn model_sizes(files: Seq<FileModel>, n: int) -> int
    decreases n,
{
    if n <= 0 {
        0
    } else {
        model_sizes(files, n - 1) + files[n - 1].size
    }
}

/// How much restoring a manifest has to do. The bytes stop at the largest
/// `u64`.
#[must_use]
pub fn totals(manifest: &Manifest) -> (r: RestoreTotals)
    ensures
        r.total_files == manifest.files@.len(),
        r.total_bytes == capped(model_sizes(manifest@.files, manifest.files@.len() as int)),
{
    let mut total_bytes: u64 = 0;
    let mut i: usize = 0;
    while i < manifest.files.len()
        invariant
            i <= manifest.files@.len(),
            0 <= model_sizes(manifest@.files, i as int),
            total_bytes == capped(model_sizes(manifest@.files, i as int)),
        decreases manifest.files@.len() - i,
    {
        total_bytes = total_bytes.saturating_add(manifest.files[i].size);
        i = i + 1;
    }
    RestoreTotals { total_files: manifest.files.len() as u64, total_bytes }
}

/// Nothing wrong is ever written: bytes that verify for an identity have that
/// identity.
pub proof fn law_verified_bytes_have_the_identity(
    key: Seq<u8>,
    id_key: Seq<u8>,
    id: Seq<u8>,
    blob: Seq<u8>,
)
    requires
        verified_plaintext(key, id_key, id, blob) is Some,
    ensures
        blake3_keyed_hash(id_key, verified_plaintext(key, id_key, id, blob)->0) == id,
{
}

/// What restoring a file writes, given the blob that comes for each of its
/// chunks: the verified plaintexts one after the other, or nothing where one
/// does not verify.
pub open spec fn restored_bytes(
    key: Seq<u8>,
    id_key: Seq<u8>,
    ids: Seq<Seq<u8>>,
    blobs: Seq<Seq<u8>>,
) -> Option<Seq<u8>>
    decreases ids.len(),
{
    if ids.len() == 0 {
        Some(Seq::empty())
    } else {
        match (
            restored_bytes(key, id_key, ids.drop_last(), blobs.drop_last()),
            verified_plaintext(key, id_key, ids.last(), blobs.last()),
        ) {
            (Some(before), Some(plaintext)) => Some(before + plaintext),
            _ => None,
        }
    }
}

/// Pieces one after the other.
pub open spec fn pieces_joined(pieces: Seq<Seq<u8>>) -> Seq<u8>
    decreases pieces.len(),
{
    if pieces.len() == 0 {
        Seq::empty()
    } else {
        pieces_joined(pieces.drop_last()) + pieces.last()
    }
}

/// Whether the blobs of a file were taken one after the other: the file and the
/// ledger between them, and what was handed out for each.
pub open spec fn blobs_taken(
    key: Seq<u8>,
    id_key: Seq<u8>,
    ids: Seq<Seq<u8>>,
    blobs: Seq<Seq<u8>>,
    handed: Seq<Seq<u8>>,
    states: Seq<(FileRestore, RestoreReport)>,
) -> bool {
    &&& blobs.len() == ids.len()
    &&& handed.len() == ids.len()
    &&& states.len() == ids.len() + 1
    &&& states[0].0 == (FileRestore { next: 0, written: 0 })
    &&& forall|k: int|
        #![trigger ids[k]]
        0 <= k < ids.len() ==> blob_taken(
            key,
            id_key,
            ids[k],
            blobs[k],
            handed[k],
            states[k],
            states[k + 1],
        )
}

/// What a file's steps hand out, joined, is what restoring the file is to write:
/// the verified bytes of all its chunks in order. The file counts their length,
/// and the ledger each of them once.
pub proof fn law_steps_hand_out_the_file(
    key: Seq<u8>,
    id_key: Seq<u8>,
    ids: Seq<Seq<u8>>,
    blobs: Seq<Seq<u8>>,
    handed: Seq<Seq<u8>>,
    states: Seq<(FileRestore, RestoreReport)>,
)
    requires
        blobs_taken(key, id_key, ids, blobs, handed, states),
    ensures
        restored_bytes(key, id_key, ids, blobs) == Some(pieces_joined(handed)),
        states.last().0.next == ids.len(),
        states.last().0.written == capped(pieces_joined(handed).len() as int),
        states.last().1 == (RestoreReport {
            chunks_fetched: capped(states[0].1.chunks_fetched + ids.len()),
            ..states[0].1
        }),
    decreases ids.len(),
{
    if ids.len() > 0 {
        let fewer = ids.drop_last();
        assert forall|k: int| #![trigger fewer[k]] 0 <= k < fewer.len() implies blob_taken(
            key,
            id_key,
            fewer[k],
            blobs.drop_last()[k],
            handed.drop_last()[k],
            states.drop_last()[k],
            states.drop_last()[k + 1],
        ) by {
            assert(fewer[k] == ids[k]);
        }
        law_steps_hand_out_the_file(
            key,
            id_key,
            fewer,
            blobs.drop_last(),
            handed.drop_last(),
            states.drop_last(),
        );
        assert(ids[ids.len() - 1] == ids.last());
        assert(states.drop_last().last() == states[ids.len() - 1]);
    }
}

/// Every blob that a backup ships verifies: under the identity that it is
/// shipped with it gives back the chunk that it was made of.
pub proof fn law_shipped_chunks_verify(
    blobs: Seq<ChunkBlob>,
    pending: Seq<(ChunkId, Vec<u8>)>,
    picks: Seq<int>,
    key: Seq<u8>,
    id_key: Seq<u8>,
    nonces: Seq<[u8; 24]>,
    outs: Seq<Seq<u8>>,
    k: int,
)
    requires
        blobs_carry(blobs, pending, picks, key, nonces, outs),
        0 <= k < blobs.len(),
        pending[picks[k]].0@ == blake3_keyed_hash(id_key, pending[picks[k]].1@),
    ensures
        verified_plaintext(key, id_key, blobs[k].chunk_id@, blobs[k].data@) == Some(
            pending[picks[k]].1@,
        ),
{
}

/// A restore is byte-exact: where the blob that comes for each chunk of a file
/// verifies as that chunk, what is written is the file that was chunked.
pub proof fn law_restore_is_byte_exact(
    key: Seq<u8>,
    id_key: Seq<u8>,
    data: Seq<u8>,
    min: int,
    max: int,
    chunks: Seq<Chunk>,
    blobs: Seq<Seq<u8>>,
)
    requires
        chunks_tile(chunks, data, min, max),
        blobs.len() == chunks.len(),
        forall|i: int|
            #![trigger chunks[i]]
            0 <= i < chunks.len() ==> verified_plaintext(key, id_key, chunks[i].id@, blobs[i])
                == Some(chunks[i].data@),
    ensures
        restored_bytes(
            key,
            id_key,
            Seq::new(chunks.len(), |i: int| chunks[i].id@),
            blobs,
        ) == Some(data),
{
    lemma_restored_is_joined(key, id_key, chunks, blobs);
}

proof fn lemma_restored_is_joined(
    key: Seq<u8>,
    id_key: Seq<u8>,
    chunks: Seq<Chunk>,
    blobs: Seq<Seq<u8>>,
)
    requires
        blobs.len() == chunks.len(),
        forall|i: int|
            #![trigger chunks[i]]
            0 <= i < chunks.len() ==> verified_plaintext(key, id_key, chunks[i].id@, blobs[i])
                == Some(chunks[i].data@),
    ensures
        restored_bytes(
            key,
            id_key,
            Seq::new(chunks.len(), |i: int| chunks[i].id@),
            blobs,
        ) == Some(joined(chunks)),
    decreases chunks.len(),
{
    let ids = Seq::new(chunks.len(), |i: int| chunks[i].id@);
    if chunks.len() > 0 {
        let fewer = chunks.drop_last();
        assert(chunks.last() == chunks[chunks.len() - 1]);
        assert forall|i: int| #![trigger fewer[i]] 0 <= i < fewer.len() implies verified_plaintext(
            key,
            id_key,
            fewer[i].id@,
            blobs.drop_last()[i],
        ) == Some(fewer[i].data@) by {
            assert(fewer[i] == chunks[i]);
        }
        lemma_restored_is_joined(key, id_key, fewer, blobs.drop_last());
        assert(ids.drop_last() =~= Seq::new(fewer.len(), |i: int| fewer[i].id@));
    }
}

/// A part of a path is safe just if it is not empty and is neither one dot nor
/// two: `.bashrc` and `...` are.
pub proof fn law_safe_parts(part: Seq<char>)
    ensures
        part_is_safe(part) <==> part != Seq::<char>::empty() && part != seq!['.'] && part
            != seq!['.', '.'],
{
    reveal_strlit(".");
    reveal_strlit("..");
    assert("."@ =~= seq!['.']);
    assert(".."@ =~= seq!['.', '.']);
    if part.len() == 0 {
        assert(part =~= Seq::<char>::empty());
    }
}

/// Whether `s[i..j]` stands between slashes, or between a slash and an end.
pub open spec fn stands_between_slashes(s: Seq<char>, i: int, j: int) -> bool {
    &&& 0 <= i <= j <= s.len()
    &&& i == 0 || s[i - 1] == '/'
    &&& j == s.len() || s[j] == '/'
    &&& forall|k: int| i <= k < j ==> #[trigger] s[k] != '/'
}

/// Where the parts of the first `n` characters start.
spec fn part_starts(s: Seq<char>, n: int) -> Seq<int>
    decreases n,
{
    if n <= 0 {
        seq![0]
    } else if s[n - 1] == '/' {
        part_starts(s, n - 1).push(n)
    } else {
        part_starts(s, n - 1)
    }
}

/// Where the `k`-th part of the first `n` characters ends.
spec fn part_end(s: Seq<char>, n: int, k: int) -> int {
    let starts = part_starts(s, n);
    if k + 1 < starts.len() {
        starts[k + 1] - 1
    } else {
        n
    }
}

/// Whether the `k`-th part of the first `n` characters is what stands between
/// slashes there.
spec fn part_spans(s: Seq<char>, n: int, k: int) -> bool {
    let i = part_starts(s, n)[k];
    let j = part_end(s, n, k);
    &&& 0 <= i <= j <= n
    &&& i == 0 || s[i - 1] == '/'
    &&& j == n || s[j] == '/'
    &&& forall|m: int| i <= m < j ==> #[trigger] s[m] != '/'
    &&& path_parts(s, n)[k] == s.subrange(i, j)
}

proof fn lemma_part_spans(s: Seq<char>, n: int)
    requires
        0 <= n <= s.len(),
    ensures
        part_starts(s, n).len() == path_parts(s, n).len(),
        part_starts(s, n).len() >= 1,
        forall|k: int| 0 <= k < path_parts(s, n).len() ==> #[trigger] part_spans(s, n, k),
        forall|i: int|
            #![trigger part_starts(s, n).contains(i)]
            0 <= i <= n && (i == 0 || s[i - 1] == '/') ==> part_starts(s, n).contains(i),
    decreases n,
{
    let starts = part_starts(s, n);
    let parts = path_parts(s, n);
    if n <= 0 {
        assert(s.subrange(0, 0) =~= Seq::<char>::empty());
        assert(starts[0] == 0);
        assert forall|k: int| 0 <= k < parts.len() implies #[trigger] part_spans(s, n, k) by {
        }
    } else {
        lemma_part_spans(s, n - 1);
        let before = part_starts(s, n - 1);
        let old_parts = path_parts(s, n - 1);
        assert forall|k: int| 0 <= k < parts.len() implies #[trigger] part_spans(s, n, k) by {
            if k < old_parts.len() {
                assert(part_spans(s, n - 1, k));
                assert(starts[k] == before[k]);
                if k + 1 < old_parts.len() {
                    assert(part_spans(s, n - 1, k + 1));
                }
                if s[n - 1] == '/' {
                    assert(parts[k] == old_parts[k]);
                    if k + 1 < old_parts.len() {
                        assert(starts[k + 1] == before[k + 1]);
                    }
                    assert(part_end(s, n, k) == part_end(s, n - 1, k));
                } else if k == old_parts.len() - 1 {
                    let i = before[k];
                    assert(part_end(s, n, k) == n);
                    assert(parts[k] == old_parts.last().push(s[n - 1]));
                    assert(s.subrange(i, n) =~= s.subrange(i, n - 1).push(s[n - 1]));
                } else {
                    assert(parts[k] == old_parts[k]);
                    assert(part_end(s, n, k) == part_end(s, n - 1, k));
                }
            } else {
                assert(starts[k] == n);
                assert(part_end(s, n, k) == n);
                assert(parts[k] == Seq::<char>::empty());
                assert(s.subrange(n, n) =~= Seq::<char>::empty());
            }
        }
        assert forall|i: int|
            #![trigger starts.contains(i)]
            0 <= i <= n && (i == 0 || s[i - 1] == '/') implies starts.contains(i) by {
            if i < n {
                assert(before.contains(i));
                let k = choose|k: int| 0 <= k < before.len() && before[k] == i;
                assert(starts[k] == i);
            } else {
                assert(starts[starts.len() - 1] == n);
            }
        }
    }
}

/// What stands between slashes is a part, and every part stands so.
proof fn lemma_parts_stand(s: Seq<char>, i: int, j: int) -> (k: int)
    requires
        stands_between_slashes(s, i, j),
    ensures
        0 <= k < path_parts(s, s.len() as int).len(),
        path_parts(s, s.len() as int)[k] == s.subrange(i, j),
{
    let n = s.len() as int;
    lemma_part_spans(s, n);
    let starts = part_starts(s, n);
    assert(starts.contains(i));
    let k = choose|k: int| 0 <= k < starts.len() && starts[k] == i;
    assert(part_spans(s, n, k));
    let e = part_end(s, n, k);
    if e < j {
        assert(s[e] == '/');
    }
    if j < e {
        assert(s[j] == '/');
    }
    k
}

/// A path is safe just if nothing that stands between its slashes is empty, one
/// dot or two dots. So an absolute path is not, nor is an empty one.
pub proof fn law_safe_paths(s: Seq<char>)
    ensures
        path_is_safe(s) <==> forall|i: int, j: int| #[trigger]
            stands_between_slashes(s, i, j) ==> s.subrange(i, j) != Seq::<char>::empty()
                && s.subrange(i, j) != seq!['.'] && s.subrange(i, j) != seq!['.', '.'],
        path_is_safe(s) ==> s.len() > 0 && s[0] != '/' && s.last() != '/',
{
    let n = s.len() as int;
    let parts = path_parts(s, n);
    if path_is_safe(s) {
        assert forall|i: int, j: int| #[trigger]
            stands_between_slashes(s, i, j) implies s.subrange(i, j) != Seq::<char>::empty()
            && s.subrange(i, j) != seq!['.'] && s.subrange(i, j) != seq!['.', '.'] by {
            let k = lemma_parts_stand(s, i, j);
            assert(part_is_safe(parts[k]));
            law_safe_parts(parts[k]);
        }
        if n == 0 {
            assert(stands_between_slashes(s, 0, 0));
            assert(s.subrange(0, 0) =~= Seq::<char>::empty());
        } else {
            if s[0] == '/' {
                assert(stands_between_slashes(s, 0, 0));
                assert(s.subrange(0, 0) =~= Seq::<char>::empty());
            }
            if s.last() == '/' {
                assert(stands_between_slashes(s, n, n));
                assert(s.subrange(n, n) =~= Seq::<char>::empty());
            }
        }
    } else {
        let k = choose|k: int| 0 <= k < parts.len() && !part_is_safe(#[trigger] parts[k]);
        law_safe_parts(parts[k]);
        lemma_part_spans(s, n);
        assert(part_spans(s, n, k));
        assert(stands_between_slashes(s, part_starts(s, n)[k], part_end(s, n, k)));
    }
}

/// Every component of a path is something that stands between its slashes, and
/// so holds none.
pub proof fn law_components_hold_no_slash(s: Seq<char>, k: int)
    requires
        0 <= k < path_parts(s, s.len() as int).len(),
    ensures
        exists|i: int, j: int| #[trigger]
            stands_between_slashes(s, i, j) && path_parts(s, s.len() as int)[k] == s.subrange(i, j),
        !path_parts(s, s.len() as int)[k].contains('/'),
{
    let n = s.len() as int;
    let part = path_parts(s, n)[k];
    lemma_part_spans(s, n);
    assert(part_spans(s, n, k));
    let (i, j) = (part_starts(s, n)[k], part_end(s, n, k));
    assert(stands_between_slashes(s, i, j));
    if part.contains('/') {
        let m = choose|m: int| 0 <= m < part.len() && part[m] == '/';
        assert(s[i + m] == '/');
    }
}

/// A fetched blob gives bytes just if it opens under the key and its identity,
/// what it holds decodes to them, and they hash to the identity.
pub proof fn law_blob_verifies_just_if(
    key: Seq<u8>,
    id_key: Seq<u8>,
    id: Seq<u8>,
    blob: Seq<u8>,
    bytes: Seq<u8>,
)
    ensures
        verified_plaintext(key, id_key, id, blob) == Some(bytes) <==> {
            &&& opened_blob(key, id, blob) is Some
            &&& decoded_plaintext(opened_blob(key, id, blob)->0) == Some(bytes)
            &&& blake3_keyed_hash(id_key, bytes) == id
        },
{
}

/// A streamed chunk is looked at just if it is the one that is due; otherwise it
/// is told whether it is one too many, malformed or out of order.
pub proof fn law_chunks_come_in_order(ids: Seq<ChunkId>, next: int, chunk_id: Seq<u8>)
    requires
        0 <= next,
    ensures
        refused_early(ids, next, chunk_id) is None <==> next < ids.len() && chunk_id
            == ids[next]@,
        next >= ids.len() ==> refused_early(ids, next, chunk_id) == Some(
            "GetChunks streamed more chunks than were requested"@,
        ),
        next < ids.len() && chunk_id.len() != 32 ==> refused_early(ids, next, chunk_id) == Some(
            "malformed chunk ID in GetChunks reply"@,
        ),
        next < ids.len() && chunk_id.len() == 32 && chunk_id != ids[next]@ ==> refused_early(
            ids,
            next,
            chunk_id,
        ) == Some("GetChunks streamed a chunk out of the requested order"@),
{
}

/// The bytes that a restore has to write are the sizes of the files, added up.
pub proof fn law_sizes_add_up(files: Seq<FileModel>, file: FileModel)
    ensures
        model_sizes(files.push(file), (files.len() + 1) as int) == model_sizes(
            files,
            files.len() as int,
        ) + file.size,
        model_sizes(Seq::empty(), 0) == 0,
{
    let n = files.len() as int;
    assert(files.push(file).take(n) =~= files.take(n));
    lemma_sizes_of_first(files.push(file), files, n);
}

proof fn lemma_sizes_of_first(a: Seq<FileModel>, b: Seq<FileModel>, n: int)
    requires
        0 <= n <= a.len(),
        n <= b.len(),
        a.take(n) == b.take(n),
    ensures
        model_sizes(a, n) == model_sizes(b, n),
    decreases n,
{
    if n > 0 {
        assert(a.take(n)[n - 1] == b.take(n)[n - 1]);
        assert(a.take(n - 1) =~= a.take(n).take(n - 1));
        assert(b.take(n - 1) =~= b.take(n).take(n - 1));
        lemma_sizes_of_first(a, b, n - 1);
    }
}

/// A blob that does not verify is refused for its first fault: it does not open,
/// it does not decode, or its bytes have another identity, which is told.
pub proof fn law_refusals_tell_the_fault(
    key: Seq<u8>,
    id_key: Seq<u8>,
    id: ChunkId,
    blob: Seq<u8>,
    e: RestoreError,
)
    requires
        verify_error(key, id_key, id, blob, e),
    ensures
        e is Crypto <==> opened_blob(key, id@, blob) is None,
        e is CodecDecode <==> opened_blob(key, id@, blob) is Some && decoded_plaintext(
            opened_blob(key, id@, blob)->0,
        ) is None,
        e matches RestoreError::ChunkIdMismatch { chunk, actual } ==> chunk == id && actual@ != id@
            && verified_plaintext(key, id_key, id@, blob) is None,
        verified_plaintext(key, id_key, id@, blob) is None,
{
}

} // verus!
