//! Snapshot manifests: the record of one backup run.
//!
//! A [`Manifest`] lists every file of a snapshot with its metadata and the
//! ordered identities of the chunks that make up its content.
//!
//! The wire format is fixed-width and little-endian, but for the snapshot
//! identity, which is big-endian:
//!
//! * header, 28 bytes: snapshot identity (16), creation seconds (8), file
//!   count (4);
//! * per file, 32 bytes plus path and chunks: path length (4), the path in
//!   UTF-8, size (8), mtime seconds (8), mtime nanoseconds (4), mode (4), chunk
//!   count (4), the chunk identities (32 each).
use vstd::prelude::*;
use vstd::string::*;
use vstd::utf8::*;

use crate::bytes::{
    array16, array32, be_value, bits_of_i64, copy_range, i64_of_bits, le_bytes, le_value,
    lemma_be_value_bytes, lemma_le_bytes_len, lemma_le_roundtrip, lemma_le_value_bytes,
    lemma_pow256, pow256, push_bytes, push_i64, push_u32, push_u64, read_i64, read_u32, read_u64,
};
use crate::chunking::ChunkId;
use crate::snapshot_id::{law_snapshot_id, SnapshotId};

verus! {

/// Length of the manifest header.
pub const MANIFEST_HEADER_BYTES: u64 = 28;

/// Length of a file's entry without path and chunk identities.
pub const MANIFEST_FILE_FIXED_BYTES: u64 = 32;

/// Errors of encoding and decoding a manifest.
#[derive(Debug, Clone, PartialEq, Eq)]
pub enum ManifestError {
    /// A count or length does not fit the wire format.
    TooLarge {
        /// What does not fit.
        what: &'static str,
        /// The value.
        value: u64,
        /// The largest that fits.
        limit: u64,
    },
    /// The input ended early.
    Truncated {
        /// What was being read.
        what: &'static str,
        /// How many more bytes it takes.
        needed: usize,
    },
    /// Bytes follow the last file.
    TrailingBytes(usize),
    /// A path is not UTF-8.
    InvalidPath {
        /// The file's index.
        index: usize,
    },
}

/// One file of a snapshot.
#[derive(Debug, Clone, PartialEq, Eq)]
pub struct FileEntry {
    /// Path, with `/` between components on every platform.
    pub path: String,
    /// Size in bytes.
    pub size: u64,
    /// Modification time, whole seconds since the Unix epoch.
    pub mtime_secs: i64,
    /// Modification time, nanoseconds within the second.
    pub mtime_nanos: u32,
    /// Unix mode, or Windows attribute bits.
    pub mode: u32,
    /// The content as an ordered list of chunk identities.
    pub chunks: Vec<ChunkId>,
}

/// A snapshot manifest.
#[derive(Debug, Clone, PartialEq, Eq)]
pub struct Manifest {
    /// The snapshot's identity.
    pub snapshot_id: SnapshotId,
    /// Creation time, whole seconds since the Unix epoch.
    pub created_at: i64,
    /// The files.
    pub files: Vec<FileEntry>,
}

/// A file's entry as mathematical values.
#[verifier::ext_equal]
pub struct FileModel {
    /// Path.
    pub path: Seq<char>,
    /// Size.
    pub size: u64,
    /// Modification seconds.
    pub mtime_secs: i64,
    /// Modification nanoseconds.
    pub mtime_nanos: u32,
    /// Mode.
    pub mode: u32,
    /// The bytes of each chunk identity.
    pub chunks: Seq<Seq<u8>>,
}

/// A manifest as mathematical values.
#[verifier::ext_equal]
pub struct ManifestModel {
    /// The snapshot's identity.
    pub snapshot_id: SnapshotId,
    /// Creation time.
    pub created_at: i64,
    /// The files.
    pub files: Seq<FileModel>,
}

/// The bytes of each identity.
pub open spec fn ids_view(ids: Seq<ChunkId>) -> Seq<Seq<u8>> {
    Seq::new(ids.len(), |i: int| ids[i]@)
}

impl View for FileEntry {
    type V = FileModel;

    open spec fn view(&self) -> FileModel {
        FileModel {
            path: self.path@,
            size: self.size,
            mtime_secs: self.mtime_secs,
            mtime_nanos: self.mtime_nanos,
            mode: self.mode,
            chunks: ids_view(self.chunks@),
        }
    }
}

/// The model of each file.
pub open spec fn files_view(files: Seq<FileEntry>) -> Seq<FileModel> {
    Seq::new(files.len(), |i: int| files[i]@)
}

impl View for Manifest {
    type V = ManifestModel;

    open spec fn view(&self) -> ManifestModel {
        ManifestModel {
            snapshot_id: self.snapshot_id,
            created_at: self.created_at,
            files: files_view(self.files@),
        }
    }
}

/// The bytes of identities, one after the other.
pub open spec fn ids_bytes(ids: Seq<Seq<u8>>) -> Seq<u8> {
    Seq::new(32 * ids.len(), |i: int| ids[i / 32][i % 32])
}

/// A file's entry on the wire.
pub open spec fn file_bytes(f: FileModel) -> Seq<u8> {
    le_bytes(encode_utf8(f.path).len(), 4) + encode_utf8(f.path) + le_bytes(f.size as nat, 8)
        + le_bytes(bits_of_i64(f.mtime_secs as int), 8) + le_bytes(f.mtime_nanos as nat, 4)
        + le_bytes(f.mode as nat, 4) + le_bytes(f.chunks.len(), 4) + ids_bytes(f.chunks)
}

/// The entries of files on the wire.
pub open spec fn files_bytes(files: Seq<FileModel>) -> Seq<u8>
    decreases files.len(),
{
    if files.len() == 0 {
        Seq::empty()
    } else {
        file_bytes(files[0]) + files_bytes(files.skip(1))
    }
}

/// The manifest header on the wire.
pub open spec fn header_bytes(m: ManifestModel) -> Seq<u8> {
    m.snapshot_id.wire() + le_bytes(bits_of_i64(m.created_at as int), 8) + le_bytes(
        m.files.len(),
        4,
    )
}

/// A manifest on the wire.
pub open spec fn manifest_bytes(m: ManifestModel) -> Seq<u8> {
    header_bytes(m) + files_bytes(m.files)
}

/// The length of a file's entry on the wire.
pub open spec fn file_len(f: FileModel) -> int {
    MANIFEST_FILE_FIXED_BYTES + encode_utf8(f.path).len() + 32 * f.chunks.len()
}

/// The length of the entries of files on the wire.
pub open spec fn files_len(files: Seq<FileModel>) -> int
    decreases files.len(),
{
    if files.len() == 0 {
        0
    } else {
        file_len(files[0]) + files_len(files.skip(1))
    }
}

/// The length of a manifest on the wire.
pub open spec fn manifest_len(m: ManifestModel) -> int {
    MANIFEST_HEADER_BYTES + files_len(m.files)
}

/// What of a file does not fit the wire format, if anything: its name and
/// value.
pub open spec fn file_fault(f: FileModel) -> Option<(Seq<char>, int)> {
    if encode_utf8(f.path).len() > u32::MAX {
        Some(("path length"@, encode_utf8(f.path).len() as int))
    } else if f.chunks.len() > u32::MAX {
        Some(("chunk count"@, f.chunks.len() as int))
    } else {
        None
    }
}

/// What of the first file with a fault does not fit the wire format.
pub open spec fn files_fault(files: Seq<FileModel>) -> Option<(Seq<char>, int)>
    decreases files.len(),
{
    if files.len() == 0 {
        None
    } else if file_fault(files[0]) is Some {
        file_fault(files[0])
    } else {
        files_fault(files.skip(1))
    }
}

/// What of a manifest does not fit the wire format, if anything.
pub open spec fn manifest_fault(m: ManifestModel) -> Option<(Seq<char>, int)> {
    if m.files.len() > u32::MAX {
        Some(("file count"@, m.files.len() as int))
    } else {
        files_fault(m.files)
    }
}

/// Whether every chunk identity of a manifest has 32 bytes, as all that a
/// [`ChunkId`] holds have.
pub open spec fn ids_whole(files: Seq<FileModel>) -> bool {
    forall|i: int, k: int|
        #![trigger files[i].chunks[k]]
        0 <= i < files.len() && 0 <= k < files[i].chunks.len() ==> files[i].chunks[k].len() == 32
}

/// Why bytes are not a manifest.
pub enum Fault {
    /// The input ends before a field is complete.
    Short {
        /// The field.
        what: Seq<char>,
        /// How many more bytes it takes.
        needed: int,
    },
    /// So many bytes follow the last file.
    Trailing(int),
    /// The path of the file with this index is not UTF-8.
    BadPath(int),
}

/// The fault of a field of `n` bytes at `at` that the input cuts short.
pub open spec fn short(b: Seq<u8>, at: int, n: int, what: Seq<char>) -> Fault {
    Fault::Short { what, needed: n - (b.len() - at) }
}

/// Whether parsing failed because the input ends early.
pub open spec fn is_short<T>(r: Result<T, Fault>) -> bool {
    match r {
        Ok(_) => false,
        Err(e) => e is Short,
    }
}

/// The identities in `b` from `at` on.
pub open spec fn ids_at(b: Seq<u8>, at: int, count: nat) -> Seq<Seq<u8>> {
    Seq::new(count, |k: int| b.subrange(at + 32 * k, at + 32 * k + 32))
}

/// The part of a file's entry behind the path, and where the entry ends.
pub open spec fn parse_file_tail(b: Seq<u8>, q: int, path: Seq<char>) -> Result<
    (FileModel, int),
    Fault,
> {
    let left = b.len() - q;
    if left < 8 {
        Err(short(b, q, 8, "file size"@))
    } else if left < 16 {
        Err(short(b, q + 8, 8, "mtime seconds"@))
    } else if left < 20 {
        Err(short(b, q + 16, 4, "mtime nanos"@))
    } else if left < 24 {
        Err(short(b, q + 20, 4, "mode"@))
    } else if left < 28 {
        Err(short(b, q + 24, 4, "chunk count"@))
    } else {
        let count = le_value(b.subrange(q + 24, q + 28));
        let r = q + 28;
        if b.len() - r < 32 * count {
            Err(Fault::Short { what: "chunk id"@, needed: 32 - (b.len() - r) % 32 })
        } else {
            Ok(
                (
                    FileModel {
                        path,
                        size: le_value(b.subrange(q, q + 8)) as u64,
                        mtime_secs: i64_of_bits(le_value(b.subrange(q + 8, q + 16))) as i64,
                        mtime_nanos: le_value(b.subrange(q + 16, q + 20)) as u32,
                        mode: le_value(b.subrange(q + 20, q + 24)) as u32,
                        chunks: ids_at(b, r, count),
                    },
                    r + 32 * count,
                ),
            )
        }
    }
}

/// The file's entry at `at`, and where it ends.
pub open spec fn parse_file(b: Seq<u8>, at: int, index: int) -> Result<(FileModel, int), Fault> {
    if b.len() - at < 4 {
        Err(short(b, at, 4, "path length"@))
    } else {
        let n = le_value(b.subrange(at, at + 4)) as int;
        let p = at + 4;
        if b.len() - p < n {
            Err(short(b, p, n, "path bytes"@))
        } else if !valid_utf8(b.subrange(p, p + n)) {
            Err(Fault::BadPath(index))
        } else {
            parse_file_tail(b, p + n, decode_utf8(b.subrange(p, p + n)))
        }
    }
}

/// The `count` entries from `at` on, and where the last ends.
pub open spec fn parse_files(b: Seq<u8>, at: int, index: int, count: nat) -> Result<
    (Seq<FileModel>, int),
    Fault,
>
    decreases count,
{
    if count == 0 {
        Ok((Seq::empty(), at))
    } else {
        match parse_file(b, at, index) {
            Err(e) => Err(e),
            Ok((f, next)) => match parse_files(b, next, index + 1, (count - 1) as nat) {
                Err(e) => Err(e),
                Ok((fs, end)) => Ok((seq![f] + fs, end)),
            },
        }
    }
}

/// The manifest that bytes hold, or why they hold none.
pub open spec fn parse_manifest(b: Seq<u8>) -> Result<ManifestModel, Fault> {
    if b.len() < 16 {
        Err(short(b, 0, 16, "snapshot id"@))
    } else if b.len() < 24 {
        Err(short(b, 16, 8, "created_at"@))
    } else if b.len() < 28 {
        Err(short(b, 24, 4, "file count"@))
    } else {
        match parse_files(b, 28, 0, le_value(b.subrange(24, 28))) {
            Err(e) => Err(e),
            Ok((files, end)) => if end < b.len() {
                Err(Fault::Trailing(b.len() - end))
            } else {
                Ok(
                    ManifestModel {
                        snapshot_id: SnapshotId { value: be_value(b.subrange(0, 16)) as u128 },
                        created_at: i64_of_bits(le_value(b.subrange(16, 24))) as i64,
                        files,
                    },
                )
            },
        }
    }
}

/// Whether an error reports a fault.
pub open spec fn reports(e: ManifestError, fault: Fault) -> bool {
    match e {
        ManifestError::Truncated { what, needed } => fault == (Fault::Short {
            what: what@,
            needed: needed as int,
        }),
        ManifestError::TrailingBytes(n) => fault == Fault::Trailing(n as int),
        ManifestError::InvalidPath { index } => fault == Fault::BadPath(index as int),
        ManifestError::TooLarge { .. } => false,
    }
}

/// Calls `String::from_utf8`: the text of bytes that are UTF-8, nothing of
/// others.
#[verifier::external_body]
fn utf8_text(bytes: Vec<u8>) -> (r: Option<String>)
    ensures
        match r {
            Some(s) => valid_utf8(bytes@) && s@ == decode_utf8(bytes@),
            None => !valid_utf8(bytes@),
        },
{
    String::from_utf8(bytes).ok()
}

fn truncated(what: &'static str, n: usize, left: usize) -> (r: ManifestError)
    requires
        left < n,
    ensures
        r == (ManifestError::Truncated { what, needed: (n - left) as usize }),
{
    ManifestError::Truncated { what, needed: n - left }
}

/// Checks that a count or length fits its field.
fn fit_u32(value: u64, what: &'static str) -> (r: Result<u32, ManifestError>)
    ensures
        match r {
            Ok(n) => n == value,
            Err(e) => value > u32::MAX && e == (ManifestError::TooLarge {
                what,
                value,
                limit: u32::MAX as u64,
            }),
        },
{
    if value > 0xFFFF_FFFF {
        Err(ManifestError::TooLarge { what, value, limit: 0xFFFF_FFFF })
    } else {
        Ok(value as u32)
    }
}

fn push_ids(out: &mut Vec<u8>, ids: &Vec<ChunkId>)
    ensures
        final(out)@ == old(out)@ + ids_bytes(ids_view(ids@)),
{
    let mut j: usize = 0;
    while j < ids.len()
        invariant
            j <= ids@.len(),
            out@ == old(out)@ + ids_bytes(ids_view(ids@.take(j as int))),
        decreases ids@.len() - j,
    {
        push_bytes(out, ids[j].as_bytes());
        proof {
            let a = ids_bytes(ids_view(ids@.take(j as int)));
            let b = ids_bytes(ids_view(ids@.take(j + 1)));
            assert(b =~= a + ids@[j as int]@);
            assert(out@ =~= old(out)@ + b);
        }
        j = j + 1;
    }
    proof {
        assert(ids@.take(j as int) =~= ids@);
    }
}

fn push_file(out: &mut Vec<u8>, file: &FileEntry) -> (r: Result<(), ManifestError>)
    ensures
        match r {
            Ok(()) => file_fault(file@) is None && final(out)@ == old(out)@ + file_bytes(file@),
            Err(e) => e matches ManifestError::TooLarge { what, value, limit } && {
                &&& file_fault(file@) == Some((what@, value as int))
                &&& limit == u32::MAX
            },
        },
{
    let path = file.path.as_str().as_bytes();
    let path_len: u32 = match fit_u32(path.len() as u64, "path length") {
        Ok(n) => n,
        Err(e) => {
            return Err(e);
        },
    };
    let chunk_count: u32 = match fit_u32(file.chunks.len() as u64, "chunk count") {
        Ok(n) => n,
        Err(e) => {
            return Err(e);
        },
    };
    push_u32(out, path_len);
    push_bytes(out, path);
    push_u64(out, file.size);
    push_i64(out, file.mtime_secs);
    push_u32(out, file.mtime_nanos);
    push_u32(out, file.mode);
    push_u32(out, chunk_count);
    push_ids(out, &file.chunks);
    proof {
        assert(out@ =~= old(out)@ + file_bytes(file@));
    }
    Ok(())
}

impl Manifest {
    /// The length of the encoded manifest, without encoding it.
    #[must_use]
    pub fn encoded_len(&self) -> (r: u64)
        requires
            manifest_len(self@) <= u64::MAX,
        ensures
            r == manifest_len(self@),
    {
        let mut total: u64 = MANIFEST_HEADER_BYTES;
        let mut i: usize = 0;
        proof {
            assert(self@.files.skip(0) =~= self@.files);
        }
        while i < self.files.len()
            invariant
                i <= self.files@.len(),
                manifest_len(self@) <= u64::MAX,
                total + files_len(self@.files.skip(i as int)) == manifest_len(self@),
            decreases self.files@.len() - i,
        {
            proof {
                let rest = self@.files.skip(i as int);
                assert(rest[0] == self.files@[i as int]@);
                assert(rest.skip(1) =~= self@.files.skip(i + 1));
                lemma_files_len_nonneg(rest.skip(1));
            }
            let path_len: u64 = self.files[i].path.as_str().as_bytes().len() as u64;
            let chunks: u64 = self.files[i].chunks.len() as u64;
            total = total + MANIFEST_FILE_FIXED_BYTES + path_len + 32 * chunks;
            i = i + 1;
        }
        total
    }

    /// Every chunk reference in manifest order, repeats kept.
    #[must_use]
    pub fn chunk_refs(&self) -> (r: Vec<ChunkId>)
        ensures
            ids_view(r@) == refs_of(self@.files),
    {
        let mut out: Vec<ChunkId> = Vec::new();
        let mut i: usize = 0;
        proof {
            assert(self@.files.skip(0) =~= self@.files);
            assert(ids_view(out@) + refs_of(self@.files) =~= refs_of(self@.files));
        }
        while i < self.files.len()
            invariant
                i <= self.files@.len(),
                ids_view(out@) + refs_of(self@.files.skip(i as int)) == refs_of(self@.files),
            decreases self.files@.len() - i,
        {
            let ghost before = ids_view(out@);
            let ghost rest = self@.files.skip(i as int);
            let mut k: usize = 0;
            while k < self.files[i].chunks.len()
                invariant
                    i < self.files@.len(),
                    k <= self.files@[i as int].chunks@.len(),
                    ids_view(out@) == before + ids_view(
                        self.files@[i as int].chunks@.take(k as int),
                    ),
                decreases self.files@[i as int].chunks@.len() - k,
            {
                let ghost prev = out@;
                out.push(self.files[i].chunks[k]);
                k = k + 1;
                proof {
                    let ids = self.files@[i as int].chunks@;
                    assert(ids_view(out@) =~= ids_view(prev).push(ids[k - 1]@));
                    assert(ids_view(ids.take(k as int)) =~= ids_view(ids.take(k - 1)).push(
                        ids[k - 1]@,
                    ));
                    assert(ids_view(out@) =~= before + ids_view(
                        self.files@[i as int].chunks@.take(k as int),
                    ));
                }
            }
            proof {
                assert(self.files@[i as int].chunks@.take(k as int)
                    =~= self.files@[i as int].chunks@);
                assert(rest[0] == self.files@[i as int]@);
                assert(rest.skip(1) =~= self@.files.skip(i + 1));
                assert(ids_view(out@) + refs_of(rest.skip(1)) =~= before + refs_of(rest));
            }
            i = i + 1;
        }
        proof {
            assert(refs_of(self@.files.skip(i as int)) =~= Seq::empty());
            assert(ids_view(out@) =~= refs_of(self@.files));
        }
        out
    }

    /// Encodes to the wire format. Fails exactly where a count or length does
    /// not fit its field, naming the first.
    pub fn encode(&self) -> (r: Result<Vec<u8>, ManifestError>)
        ensures
            match r {
                Ok(bytes) => {
                    &&& manifest_fault(self@) is None
                    &&& bytes@ == manifest_bytes(self@)
                    &&& bytes@.len() == manifest_len(self@)
                    &&& parse_manifest(bytes@) == Ok::<ManifestModel, Fault>(self@)
                },
                Err(e) => e matches ManifestError::TooLarge { what, value, limit } && {
                    &&& manifest_fault(self@) == Some((what@, value as int))
                    &&& limit == u32::MAX
                },
            },
    {
        let file_count: u32 = match fit_u32(self.files.len() as u64, "file count") {
            Ok(n) => n,
            Err(e) => {
                return Err(e);
            },
        };
        let mut out: Vec<u8> = Vec::new();
        let id: [u8; 16] = self.snapshot_id.to_bytes();
        push_bytes(&mut out, &id);
        push_i64(&mut out, self.created_at);
        push_u32(&mut out, file_count);
        let mut i: usize = 0;
        proof {
            assert(out@ =~= header_bytes(self@));
            assert(self@.files.skip(0) =~= self@.files);
        }
        while i < self.files.len()
            invariant
                i <= self.files@.len(),
                self.files@.len() <= u32::MAX,
                out@ + files_bytes(self@.files.skip(i as int)) == manifest_bytes(self@),
                files_fault(self@.files.skip(i as int)) == manifest_fault(self@),
            decreases self.files@.len() - i,
        {
            let ghost before = out@;
            let ghost rest = self@.files.skip(i as int);
            proof {
                assert(rest[0] == self.files@[i as int]@);
                assert(rest.skip(1) =~= self@.files.skip(i + 1));
            }
            match push_file(&mut out, &self.files[i]) {
                Ok(()) => {},
                Err(e) => {
                    return Err(e);
                },
            }
            proof {
                assert(out@ + files_bytes(rest.skip(1)) =~= before + files_bytes(rest));
            }
            i = i + 1;
        }
        proof {
            assert(out@ =~= manifest_bytes(self@));
            law_decode_inverts_encode(self@);
        }
        Ok(out)
    }

    /// Decodes the wire format: the manifest, or the first fault.
    pub fn decode(bytes: &[u8]) -> (r: Result<Self, ManifestError>)
        ensures
            match r {
                Ok(m) => parse_manifest(bytes@) == Ok::<ManifestModel, Fault>(m@),
                Err(e) => parse_manifest(bytes@) matches Err(fault) && reports(e, fault),
            },
    {
        let len: usize = bytes.len();
        if len < 16 {
            return Err(truncated("snapshot id", 16, len));
        }
        let id: [u8; 16] = array16(bytes, 0);
        let snapshot_id: SnapshotId = SnapshotId::from_bytes(id);
        if len < 24 {
            return Err(truncated("created_at", 8, len - 16));
        }
        let created_at: i64 = read_i64(bytes, 16);
        if len < 28 {
            return Err(truncated("file count", 4, len - 24));
        }
        let count: u32 = read_u32(bytes, 24);
        let mut files: Vec<FileEntry> = Vec::new();
        let mut at: usize = 28;
        let mut index: u32 = 0;
        let ghost whole = parse_files(bytes@, 28, 0, count as nat);
        proof {
            assert(files_view(files@) =~= Seq::empty());
            lemma_resume_empty(whole);
        }
        while index < count
            invariant
                index <= count,
                28 <= at <= len,
                len == bytes@.len(),
                whole == resumed(
                    files_view(files@),
                    parse_files(bytes@, at as int, index as int, (count - index) as nat),
                ),
                whole == parse_files(bytes@, 28, 0, count as nat),
                count == le_value(bytes@.subrange(24, 28)),
            decreases count - index,
        {
            let ghost before = files@;
            let ghost rest = parse_files(bytes@, at as int, index as int, (count - index) as nat);
            match decode_file(bytes, at, index as usize) {
                Err(e) => {
                    return Err(e);
                },
                Ok((file, next)) => {
                    let ghost model = file@;
                    files.push(file);
                    proof {
                        let tail = parse_files(
                            bytes@,
                            next as int,
                            index + 1,
                            (count - index - 1) as nat,
                        );
                        assert(files_view(files@) =~= files_view(before).push(model));
                        match tail {
                            Ok((fs, end)) => {
                                assert(files_view(before) + (seq![model] + fs)
                                    =~= files_view(before).push(model) + fs);
                            },
                            Err(e) => {},
                        }
                    }
                    at = next;
                },
            }
            index = index + 1;
        }
        proof {
            assert(files_view(files@) + Seq::<FileModel>::empty() =~= files_view(files@));
        }
        if at < len {
            return Err(ManifestError::TrailingBytes(len - at));
        }
        let m: Manifest = Manifest { snapshot_id, created_at, files };
        proof {
            assert(id@ =~= bytes@.subrange(0, 16));
        }
        Ok(m)
    }
}

/// Decodes the entry at `at`; gives it and where it ends.
fn decode_file(bytes: &[u8], at: usize, index: usize) -> (r: Result<
    (FileEntry, usize),
    ManifestError,
>)
    requires
        at <= bytes@.len(),
    ensures
        match r {
            Ok((f, end)) => {
                &&& parse_file(bytes@, at as int, index as int) == Ok::<(FileModel, int), Fault>(
                    (f@, end as int),
                )
                &&& at <= end <= bytes@.len()
            },
            Err(e) => parse_file(bytes@, at as int, index as int) matches Err(fault) && reports(
                e,
                fault,
            ),
        },
{
    let len: usize = bytes.len();
    if len - at < 4 {
        return Err(truncated("path length", 4, len - at));
    }
    let path_len: usize = read_u32(bytes, at) as usize;
    let p: usize = at + 4;
    if len - p < path_len {
        return Err(truncated("path bytes", path_len, len - p));
    }
    let raw: Vec<u8> = copy_range(bytes, p, p + path_len);
    let path: String = match utf8_text(raw) {
        Some(s) => s,
        None => {
            return Err(ManifestError::InvalidPath { index });
        },
    };
    let q: usize = p + path_len;
    let left: usize = len - q;
    if left < 8 {
        return Err(truncated("file size", 8, left));
    }
    if left < 16 {
        return Err(truncated("mtime seconds", 8, left - 8));
    }
    if left < 20 {
        return Err(truncated("mtime nanos", 4, left - 16));
    }
    if left < 24 {
        return Err(truncated("mode", 4, left - 20));
    }
    if left < 28 {
        return Err(truncated("chunk count", 4, left - 24));
    }
    let size: u64 = read_u64(bytes, q);
    let mtime_secs: i64 = read_i64(bytes, q + 8);
    let mtime_nanos: u32 = read_u32(bytes, q + 16);
    let mode: u32 = read_u32(bytes, q + 20);
    let count: u32 = read_u32(bytes, q + 24);
    let start: usize = q + 28;
    let mut chunks: Vec<ChunkId> = Vec::new();
    let mut k: u32 = 0;
    let mut pos: usize = start;
    while k < count
        invariant
            k <= count,
            len == bytes@.len(),
            pos <= len,
            pos == start + 32 * k,
            chunks@.len() == k,
            forall|j: int|
                #![trigger chunks@[j]]
                0 <= j < k ==> chunks@[j]@ == bytes@.subrange(
                    start + 32 * j,
                    start + 32 * j + 32,
                ),
            q + 28 == start,
            q + 28 <= len,
            count == le_value(bytes@.subrange(q + 24, q + 28)),
            parse_file(bytes@, at as int, index as int) == parse_file_tail(bytes@, q as int, path@),
        decreases count - k,
    {
        if len - pos < 32 {
            return Err(truncated("chunk id", 32, len - pos));
        }
        chunks.push(ChunkId::from_bytes(array32(bytes, pos)));
        pos = pos + 32;
        k = k + 1;
    }
    let file: FileEntry = FileEntry { path, size, mtime_secs, mtime_nanos, mode, chunks };
    proof {
        assert(ids_view(file.chunks@) =~= ids_at(bytes@, start as int, count as nat));
    }
    Ok((file, pos))
}

/// Entries parsed so far, with what the rest of the input gives.
spec fn resumed(done: Seq<FileModel>, rest: Result<(Seq<FileModel>, int), Fault>) -> Result<
    (Seq<FileModel>, int),
    Fault,
> {
    match rest {
        Ok((fs, end)) => Ok((done + fs, end)),
        Err(e) => Err(e),
    }
}

proof fn lemma_resume_empty(rest: Result<(Seq<FileModel>, int), Fault>)
    ensures
        resumed(Seq::empty(), rest) == rest,
{
    match rest {
        Ok((fs, end)) => {
            assert(Seq::<FileModel>::empty() + fs =~= fs);
        },
        Err(e) => {},
    }
}

/// Every chunk reference in manifest order, repeats kept.
pub open spec fn refs_of(files: Seq<FileModel>) -> Seq<Seq<u8>>
    decreases files.len(),
{
    if files.len() == 0 {
        Seq::empty()
    } else {
        files[0].chunks + refs_of(files.skip(1))
    }
}

proof fn lemma_files_len_nonneg(files: Seq<FileModel>)
    ensures
        files_len(files) >= 0,
    decreases files.len(),
{
    if files.len() > 0 {
        lemma_files_len_nonneg(files.skip(1));
    }
}

proof fn lemma_i64_bits(n: i64, bits: nat)
    ensures
        i64_of_bits(bits_of_i64(n as int)) == n,
        bits_of_i64(n as int) < pow256(8),
        bits < pow256(8) ==> bits_of_i64(i64_of_bits(bits)) == bits && i64::MIN <= i64_of_bits(bits)
            <= i64::MAX,
{
    lemma_pow256();
}

/// The fields of an entry at `at` in `full`, as far as a prefix `b` of `full`
/// holds them.
proof fn lemma_parse_file(full: Seq<u8>, b: Seq<u8>, at: int, index: int, f: FileModel)
    requires
        0 <= at <= b.len() <= full.len(),
        b == full.take(b.len() as int),
        at + file_len(f) <= full.len(),
        full.subrange(at, at + file_len(f)) == file_bytes(f),
        file_fault(f) is None,
        forall|k: int| #![trigger f.chunks[k]] 0 <= k < f.chunks.len() ==> f.chunks[k].len() == 32,
    ensures
        at + file_len(f) <= b.len() ==> parse_file(b, at, index) == Ok::<(FileModel, int), Fault>(
            (f, at + file_len(f)),
        ),
        b.len() < at + file_len(f) ==> is_short(parse_file(b, at, index)),
{
    let e = full.subrange(at, at + file_len(f));
    let path = encode_utf8(f.path);
    let n = path.len() as int;
    lemma_pow256();
    lemma_le_roundtrip(path.len(), 4);
    lemma_le_roundtrip(f.size as nat, 8);
    lemma_i64_bits(f.mtime_secs, 0);
    lemma_le_roundtrip(bits_of_i64(f.mtime_secs as int), 8);
    lemma_le_roundtrip(f.mtime_nanos as nat, 4);
    lemma_le_roundtrip(f.mode as nat, 4);
    lemma_le_roundtrip(f.chunks.len(), 4);
    assert(e.len() == file_len(f));
    assert(e.subrange(0, 4) =~= le_bytes(path.len(), 4));
    assert(e.subrange(4, 4 + n) =~= path);
    assert(e.subrange(4 + n, 12 + n) =~= le_bytes(f.size as nat, 8));
    assert(e.subrange(12 + n, 20 + n) =~= le_bytes(bits_of_i64(f.mtime_secs as int), 8));
    assert(e.subrange(20 + n, 24 + n) =~= le_bytes(f.mtime_nanos as nat, 4));
    assert(e.subrange(24 + n, 28 + n) =~= le_bytes(f.mode as nat, 4));
    assert(e.subrange(28 + n, 32 + n) =~= le_bytes(f.chunks.len(), 4));
    assert(e.subrange(32 + n, e.len() as int) =~= ids_bytes(f.chunks));
    if b.len() - at >= 4 {
        assert(b.subrange(at, at + 4) =~= e.subrange(0, 4));
        let p = at + 4;
        let q = p + n;
        if b.len() - p >= n {
            assert(b.subrange(p, q) =~= e.subrange(4, 4 + n));
            encode_utf8_valid_utf8(f.path);
            encode_utf8_decode_utf8(f.path);
            if b.len() - q >= 28 {
                assert(b.subrange(q, q + 8) =~= e.subrange(4 + n, 12 + n));
                assert(b.subrange(q + 8, q + 16) =~= e.subrange(12 + n, 20 + n));
                assert(b.subrange(q + 16, q + 20) =~= e.subrange(20 + n, 24 + n));
                assert(b.subrange(q + 20, q + 24) =~= e.subrange(24 + n, 28 + n));
                assert(b.subrange(q + 24, q + 28) =~= e.subrange(28 + n, 32 + n));
                let r = q + 28;
                if b.len() - r >= 32 * f.chunks.len() {
                    let ids = ids_bytes(f.chunks);
                    assert forall|k: int| 0 <= k < f.chunks.len() implies ids_at(
                        b,
                        r,
                        f.chunks.len(),
                    )[k] == f.chunks[k] by {
                        let piece = b.subrange(r + 32 * k, r + 32 * k + 32);
                        assert forall|j: int| 0 <= j < 32 implies piece[j] == f.chunks[k][j] by {
                            assert(b[r + 32 * k + j] == full[r + 32 * k + j]);
                            assert(e[32 + n + 32 * k + j] == full[r + 32 * k + j]);
                            assert(ids[32 * k + j] == e.subrange(32 + n, e.len() as int)[32 * k
                                + j]);
                            assert((32 * k + j) / 32 == k && (32 * k + j) % 32 == j);
                        }
                        assert(piece =~= f.chunks[k]);
                    }
                    assert(ids_at(b, r, f.chunks.len()) =~= f.chunks);
                }
            }
        }
    }
}

/// As `lemma_parse_file`, for all entries from `at` on.
proof fn lemma_parse_files(
    full: Seq<u8>,
    b: Seq<u8>,
    at: int,
    index: int,
    files: Seq<FileModel>,
)
    requires
        0 <= at <= b.len() <= full.len(),
        b == full.take(b.len() as int),
        at + files_len(files) <= full.len(),
        full.subrange(at, at + files_len(files)) == files_bytes(files),
        files_bytes(files).len() == files_len(files),
        files_fault(files) is None,
        ids_whole(files),
    ensures
        at + files_len(files) <= b.len() ==> parse_files(b, at, index, files.len()) == Ok::<
            (Seq<FileModel>, int),
            Fault,
        >((files, at + files_len(files))),
        b.len() < at + files_len(files) ==> is_short(parse_files(b, at, index, files.len())),
    decreases files.len(),
{
    if files.len() > 0 {
        let f = files[0];
        let rest = files.skip(1);
        assert(f.chunks == files[0].chunks);
        assert forall|k: int| #![trigger f.chunks[k]] 0 <= k
            < f.chunks.len() implies f.chunks[k].len() == 32 by {
            assert(files[0].chunks[k].len() == 32);
        }
        lemma_file_bytes_len(f);
        lemma_files_len_nonneg(rest);
        let whole = full.subrange(at, at + files_len(files));
        assert(whole.subrange(0, file_len(f)) =~= file_bytes(f));
        assert(full.subrange(at, at + file_len(f)) =~= whole.subrange(0, file_len(f)));
        lemma_parse_file(full, b, at, index, f);
        if at + file_len(f) <= b.len() {
            let next = at + file_len(f);
            assert(files_len(files) == file_len(f) + files_len(rest));
            assert(whole.subrange(file_len(f), whole.len() as int) =~= files_bytes(rest));
            assert(full.subrange(next, next + files_len(rest)) =~= whole.subrange(
                file_len(f),
                whole.len() as int,
            ));
            assert forall|i: int, k: int|
                #![trigger rest[i].chunks[k]]
                0 <= i < rest.len() && 0 <= k < rest[i].chunks.len() implies rest[i].chunks[k].len()
                == 32 by {
                assert(files[i + 1].chunks[k].len() == 32);
            }
            lemma_files_bytes_len(rest);
            lemma_parse_files(full, b, next, index + 1, rest);
            assert(seq![f] + rest =~= files);
        }
    } else {
        assert(files =~= Seq::empty());
    }
}

proof fn lemma_file_bytes_len(f: FileModel)
    ensures
        file_bytes(f).len() == file_len(f),
{
    lemma_le_bytes_len(encode_utf8(f.path).len(), 4);
    lemma_le_bytes_len(f.size as nat, 8);
    lemma_le_bytes_len(bits_of_i64(f.mtime_secs as int), 8);
    lemma_le_bytes_len(f.mtime_nanos as nat, 4);
    lemma_le_bytes_len(f.mode as nat, 4);
    lemma_le_bytes_len(f.chunks.len(), 4);
}

proof fn lemma_files_bytes_len(files: Seq<FileModel>)
    ensures
        files_bytes(files).len() == files_len(files),
    decreases files.len(),
{
    if files.len() > 0 {
        lemma_file_bytes_len(files[0]);
        lemma_files_bytes_len(files.skip(1));
    }
}

proof fn lemma_header(m: ManifestModel, b: Seq<u8>)
    requires
        m.files.len() <= u32::MAX,
        28 <= b.len(),
        b.take(28) == header_bytes(m),
    ensures
        b.subrange(24, 28) == le_bytes(m.files.len(), 4),
        le_value(b.subrange(24, 28)) == m.files.len(),
        i64_of_bits(le_value(b.subrange(16, 24))) == m.created_at,
        be_value(b.subrange(0, 16)) == m.snapshot_id.value,
{
    let h = b.take(28);
    lemma_pow256();
    law_snapshot_id(m.snapshot_id, m.snapshot_id);
    lemma_i64_bits(m.created_at, 0);
    lemma_le_roundtrip(bits_of_i64(m.created_at as int), 8);
    lemma_le_roundtrip(m.files.len(), 4);
    assert(h.subrange(0, 16) =~= m.snapshot_id.wire());
    assert(h.subrange(16, 24) =~= le_bytes(bits_of_i64(m.created_at as int), 8));
    assert(h.subrange(24, 28) =~= le_bytes(m.files.len(), 4));
    assert(b.subrange(0, 16) =~= h.subrange(0, 16));
    assert(b.subrange(16, 24) =~= h.subrange(16, 24));
    assert(b.subrange(24, 28) =~= h.subrange(24, 28));
}

proof fn lemma_parse_prefix(m: ManifestModel, extra: Seq<u8>, cut: int)
    requires
        manifest_fault(m) is None,
        ids_whole(m.files),
        0 <= cut <= manifest_len(m) + extra.len(),
    ensures
        manifest_bytes(m).len() == manifest_len(m),
        ({
            let b = (manifest_bytes(m) + extra).take(cut);
            &&& cut < manifest_len(m) ==> is_short(parse_manifest(b))
            &&& cut == manifest_len(m) ==> parse_manifest(b) == Ok::<ManifestModel, Fault>(m)
            &&& cut > manifest_len(m) ==> parse_manifest(b) == Err::<ManifestModel, Fault>(
                Fault::Trailing(cut - manifest_len(m)),
            )
        }),
{
    let full = manifest_bytes(m) + extra;
    lemma_files_bytes_len(m.files);
    lemma_files_len_nonneg(m.files);
    lemma_pow256();
    law_snapshot_id(m.snapshot_id, m.snapshot_id);
    lemma_le_bytes_len(bits_of_i64(m.created_at as int), 8);
    lemma_le_bytes_len(m.files.len(), 4);
    assert(header_bytes(m).len() == 28);
    let b = full.take(cut);
    if cut >= 28 {
        assert(b.take(28) =~= header_bytes(m));
        lemma_header(m, b);
        assert(full.subrange(28, 28 + files_len(m.files)) =~= files_bytes(m.files));
        lemma_parse_files(full, b, 28, 0, m.files);
    }
}

/// Decoding an encoded manifest gives the manifest back, and its encoding has
/// the length that is computed without encoding.
pub proof fn law_decode_inverts_encode(m: ManifestModel)
    requires
        manifest_fault(m) is None,
        ids_whole(m.files),
    ensures
        parse_manifest(manifest_bytes(m)) == Ok::<ManifestModel, Fault>(m),
        manifest_bytes(m).len() == manifest_len(m),
{
    lemma_files_len_nonneg(m.files);
    lemma_parse_prefix(m, Seq::empty(), manifest_len(m));
    assert((manifest_bytes(m) + Seq::empty()).take(manifest_len(m)) =~= manifest_bytes(m));
}

/// An encoded manifest cut short anywhere is refused as truncated.
pub proof fn law_truncation_is_refused(m: ManifestModel, cut: int)
    requires
        manifest_fault(m) is None,
        ids_whole(m.files),
        0 <= cut < manifest_bytes(m).len(),
    ensures
        is_short(parse_manifest(manifest_bytes(m).take(cut))),
{
    lemma_files_bytes_len(m.files);
    law_decode_inverts_encode(m);
    lemma_parse_prefix(m, Seq::empty(), cut);
    assert((manifest_bytes(m) + Seq::empty()).take(cut) =~= manifest_bytes(m).take(cut));
}

/// An encoded manifest followed by anything is refused, with how many bytes
/// follow.
pub proof fn law_trailing_bytes_are_refused(m: ManifestModel, extra: Seq<u8>)
    requires
        manifest_fault(m) is None,
        ids_whole(m.files),
        extra.len() > 0,
    ensures
        parse_manifest(manifest_bytes(m) + extra) == Err::<ManifestModel, Fault>(
            Fault::Trailing(extra.len() as int),
        ),
{
    lemma_files_len_nonneg(m.files);
    lemma_parse_prefix(m, extra, manifest_len(m) + extra.len());
    let full = manifest_bytes(m) + extra;
    assert(full.take(full.len() as int) =~= full);
}

proof fn lemma_parsed_file_is_encoded(b: Seq<u8>, at: int, index: int)
    requires
        0 <= at <= b.len(),
        parse_file(b, at, index) is Ok,
    ensures
        ({
            let (f, end) = parse_file(b, at, index)->Ok_0;
            &&& at <= end <= b.len()
            &&& end == at + file_len(f)
            &&& b.subrange(at, end) == file_bytes(f)
            &&& file_fault(f) is None
            &&& forall|k: int|
                #![trigger f.chunks[k]]
                0 <= k < f.chunks.len() ==> f.chunks[k].len() == 32
        }),
{
    let (f, end) = parse_file(b, at, index)->Ok_0;
    lemma_pow256();
    let n = le_value(b.subrange(at, at + 4)) as int;
    let p = at + 4;
    let q = p + n;
    let r = q + 28;
    let raw = b.subrange(p, q);
    decode_utf8_encode_utf8(raw);
    assert(encode_utf8(f.path) == raw);
    lemma_le_value_bytes(b.subrange(at, at + 4));
    lemma_le_value_bytes(b.subrange(q, q + 8));
    lemma_le_value_bytes(b.subrange(q + 8, q + 16));
    lemma_i64_bits(0, le_value(b.subrange(q + 8, q + 16)));
    lemma_le_value_bytes(b.subrange(q + 16, q + 20));
    lemma_le_value_bytes(b.subrange(q + 20, q + 24));
    lemma_le_value_bytes(b.subrange(q + 24, q + 28));
    let e = b.subrange(at, end);
    let count = f.chunks.len();
    assert(ids_bytes(f.chunks) =~= b.subrange(r, r + 32 * count)) by {
        assert forall|i: int| 0 <= i < 32 * count implies ids_bytes(f.chunks)[i] == b[r + i] by {
            assert(i == 32 * (i / 32) + i % 32);
            assert(f.chunks[i / 32] == b.subrange(r + 32 * (i / 32), r + 32 * (i / 32) + 32));
        }
    }
    lemma_file_bytes_len(f);
    assert(file_bytes(f) =~= e) by {
        assert(e =~= b.subrange(at, at + 4) + raw + b.subrange(q, q + 8) + b.subrange(
            q + 8,
            q + 16,
        ) + b.subrange(q + 16, q + 20) + b.subrange(q + 20, q + 24) + b.subrange(q + 24, q + 28)
            + b.subrange(r, r + 32 * count));
    }
}

proof fn lemma_parsed_files_are_encoded(b: Seq<u8>, at: int, index: int, count: nat)
    requires
        0 <= at <= b.len(),
        parse_files(b, at, index, count) is Ok,
    ensures
        ({
            let (fs, end) = parse_files(b, at, index, count)->Ok_0;
            &&& fs.len() == count
            &&& at <= end <= b.len()
            &&& b.subrange(at, end) == files_bytes(fs)
            &&& files_fault(fs) is None
            &&& ids_whole(fs)
        }),
    decreases count,
{
    let (fs, end) = parse_files(b, at, index, count)->Ok_0;
    if count > 0 {
        lemma_parsed_file_is_encoded(b, at, index);
        let (f, next) = parse_file(b, at, index)->Ok_0;
        lemma_parsed_files_are_encoded(b, next, index + 1, (count - 1) as nat);
        let (rest, last) = parse_files(b, next, index + 1, (count - 1) as nat)->Ok_0;
        assert(fs[0] == f);
        assert(fs.skip(1) =~= rest);
        assert(b.subrange(at, end) =~= b.subrange(at, next) + b.subrange(next, end));
        assert forall|i: int, k: int|
            #![trigger fs[i].chunks[k]]
            0 <= i < fs.len() && 0 <= k < fs[i].chunks.len() implies fs[i].chunks[k].len()
            == 32 by {
            if i == 0 {
                assert(f.chunks[k].len() == 32);
            } else {
                assert(rest[i - 1].chunks[k].len() == 32);
            }
        }
    } else {
        assert(b.subrange(at, end) =~= files_bytes(fs));
    }
}

/// A manifest has one encoding: bytes that decode are the encoding of what
/// they decode to.
pub proof fn law_encoding_is_canonical(b: Seq<u8>)
    requires
        parse_manifest(b) is Ok,
    ensures
        manifest_bytes(parse_manifest(b)->Ok_0) == b,
        manifest_fault(parse_manifest(b)->Ok_0) is None,
{
    let m = parse_manifest(b)->Ok_0;
    let count = le_value(b.subrange(24, 28));
    lemma_pow256();
    lemma_le_value_bytes(b.subrange(24, 28));
    lemma_le_value_bytes(b.subrange(16, 24));
    lemma_i64_bits(0, le_value(b.subrange(16, 24)));
    lemma_be_value_bytes(b.subrange(0, 16));
    lemma_parsed_files_are_encoded(b, 28, 0, count);
    assert(header_bytes(m) =~= b.subrange(0, 16) + b.subrange(16, 24) + b.subrange(24, 28));
    assert(manifest_bytes(m) =~= b);
}

/// Models hold everything that files and manifests do: where the models are the
/// same, so is every field.
pub proof fn law_models_hold_every_field(a: FileEntry, b: FileEntry, m: Manifest, n: Manifest)
    ensures
        a@ == b@ ==> {
            &&& a.path@ == b.path@
            &&& a.size == b.size
            &&& a.mtime_secs == b.mtime_secs
            &&& a.mtime_nanos == b.mtime_nanos
            &&& a.mode == b.mode
            &&& a.chunks@.len() == b.chunks@.len()
            &&& forall|k: int|
                0 <= k < a.chunks@.len() ==> (#[trigger] a.chunks@[k])@ == b.chunks@[k]@
        },
        m@ == n@ ==> {
            &&& m.snapshot_id == n.snapshot_id
            &&& m.created_at == n.created_at
            &&& m.files@.len() == n.files@.len()
            &&& forall|i: int| 0 <= i < m.files@.len() ==> (#[trigger] m.files@[i])@ == n.files@[i]@
        },
{
    if a@ == b@ {
        assert(ids_view(a.chunks@) == ids_view(b.chunks@));
        assert(ids_view(a.chunks@).len() == ids_view(b.chunks@).len());
        assert forall|k: int| 0 <= k < a.chunks@.len() implies (#[trigger] a.chunks@[k])@
            == b.chunks@[k]@ by {
            assert(ids_view(a.chunks@)[k] == ids_view(b.chunks@)[k]);
        }
    }
    if m@ == n@ {
        assert(files_view(m.files@) == files_view(n.files@));
        assert(files_view(m.files@).len() == files_view(n.files@).len());
        assert forall|i: int| 0 <= i < m.files@.len() implies (#[trigger] m.files@[i])@
            == n.files@[i]@ by {
            assert(files_view(m.files@)[i] == files_view(n.files@)[i]);
        }
    }
}

/// A manifest starts with the 16 bytes of its identity, the creation time in
/// eight bytes and the number of files in four, the low byte first; the files
/// follow, one after the other.
pub proof fn law_manifest_layout(m: ManifestModel)
    requires
        m.files.len() <= u32::MAX,
    ensures
        ({
            let b = manifest_bytes(m);
            &&& b.len() >= 28
            &&& be_value(b.subrange(0, 16)) == m.snapshot_id.value
            &&& i64_of_bits(le_value(b.subrange(16, 24))) == m.created_at
            &&& le_value(b.subrange(24, 28)) == m.files.len()
            &&& b.skip(28) == files_bytes(m.files)
        }),
        m.files.len() > 0 ==> files_bytes(m.files) == file_bytes(m.files[0]) + files_bytes(
            m.files.skip(1),
        ),
        m.files.len() == 0 ==> files_bytes(m.files).len() == 0,
{
    let b = manifest_bytes(m);
    let c = bits_of_i64(m.created_at as int);
    law_snapshot_id(m.snapshot_id, m.snapshot_id);
    lemma_pow256();
    lemma_le_roundtrip(c, 8);
    lemma_le_roundtrip(m.files.len(), 4);
    lemma_le_bytes_len(c, 8);
    lemma_le_bytes_len(m.files.len(), 4);
    assert(b.subrange(0, 16) =~= m.snapshot_id.wire());
    assert(b.subrange(16, 24) =~= le_bytes(c, 8));
    assert(b.subrange(24, 28) =~= le_bytes(m.files.len(), 4));
    assert(b.skip(28) =~= files_bytes(m.files));
}

/// A file's entry holds the length of the path in four bytes and the path in
/// UTF-8, then size and modification seconds in eight bytes each, nanoseconds,
/// mode and the number of chunks in four each, and the chunk identities.
pub proof fn law_file_layout(f: FileModel)
    requires
        file_fault(f) is None,
        forall|k: int| 0 <= k < f.chunks.len() ==> (#[trigger] f.chunks[k]).len() == 32,
    ensures
        ({
            let b = file_bytes(f);
            let n = encode_utf8(f.path).len() as int;
            let q = 4 + n;
            &&& b.len() == 32 + n + 32 * f.chunks.len()
            &&& le_value(b.subrange(0, 4)) == n
            &&& b.subrange(4, q) == encode_utf8(f.path)
            &&& le_value(b.subrange(q, q + 8)) == f.size
            &&& i64_of_bits(le_value(b.subrange(q + 8, q + 16))) == f.mtime_secs
            &&& le_value(b.subrange(q + 16, q + 20)) == f.mtime_nanos
            &&& le_value(b.subrange(q + 20, q + 24)) == f.mode
            &&& le_value(b.subrange(q + 24, q + 28)) == f.chunks.len()
            &&& forall|k: int|
                #![trigger f.chunks[k]]
                0 <= k < f.chunks.len() ==> b.subrange(q + 28 + 32 * k, q + 28 + 32 * k + 32)
                    == f.chunks[k]
        }),
{
    let b = file_bytes(f);
    let path = encode_utf8(f.path);
    let n = path.len() as int;
    let q = 4 + n;
    let t = bits_of_i64(f.mtime_secs as int);
    lemma_pow256();
    lemma_le_roundtrip(path.len(), 4);
    lemma_le_roundtrip(f.size as nat, 8);
    lemma_le_roundtrip(t, 8);
    lemma_le_roundtrip(f.mtime_nanos as nat, 4);
    lemma_le_roundtrip(f.mode as nat, 4);
    lemma_le_roundtrip(f.chunks.len(), 4);
    lemma_le_bytes_len(path.len(), 4);
    lemma_le_bytes_len(f.size as nat, 8);
    lemma_le_bytes_len(t, 8);
    lemma_le_bytes_len(f.mtime_nanos as nat, 4);
    lemma_le_bytes_len(f.mode as nat, 4);
    lemma_le_bytes_len(f.chunks.len(), 4);
    assert(b.subrange(0, 4) =~= le_bytes(path.len(), 4));
    assert(b.subrange(4, q) =~= path);
    assert(b.subrange(q, q + 8) =~= le_bytes(f.size as nat, 8));
    assert(b.subrange(q + 8, q + 16) =~= le_bytes(t, 8));
    assert(b.subrange(q + 16, q + 20) =~= le_bytes(f.mtime_nanos as nat, 4));
    assert(b.subrange(q + 20, q + 24) =~= le_bytes(f.mode as nat, 4));
    assert(b.subrange(q + 24, q + 28) =~= le_bytes(f.chunks.len(), 4));
    let ids = ids_bytes(f.chunks);
    assert(b.skip(q + 28) =~= ids);
    assert forall|k: int| #![trigger f.chunks[k]] 0 <= k < f.chunks.len() implies b.subrange(
        q + 28 + 32 * k,
        q + 28 + 32 * k + 32,
    ) == f.chunks[k] by {
        let s = b.subrange(q + 28 + 32 * k, q + 28 + 32 * k + 32);
        assert forall|i: int| 0 <= i < 32 implies s[i] == f.chunks[k][i] by {
            assert(b.skip(q + 28)[32 * k + i] == ids[32 * k + i]);
            assert((32 * k + i) / 32 == k && (32 * k + i) % 32 == i);
        }
        assert(s =~= f.chunks[k]);
    }
}

/// A manifest fits its format just if the number of files, the length of every
/// path and the number of chunks of every file fit four bytes.
pub proof fn law_manifest_fits_just_if(m: ManifestModel)
    ensures
        manifest_fault(m) is None <==> {
            &&& m.files.len() <= u32::MAX
            &&& forall|i: int|
                #![trigger m.files[i]]
                0 <= i < m.files.len() ==> encode_utf8(m.files[i].path).len() <= u32::MAX
                    && m.files[i].chunks.len() <= u32::MAX
        },
{
    lemma_files_fit(m.files);
}

proof fn lemma_files_fit(files: Seq<FileModel>)
    ensures
        files_fault(files) is None <==> forall|i: int|
            #![trigger files[i]]
            0 <= i < files.len() ==> encode_utf8(files[i].path).len() <= u32::MAX
                && files[i].chunks.len() <= u32::MAX,
    decreases files.len(),
{
    if files.len() > 0 {
        let rest = files.skip(1);
        lemma_files_fit(rest);
        let first = files[0];
        if files_fault(files) is None {
            assert forall|i: int|
                #![trigger files[i]]
                0 <= i < files.len() implies encode_utf8(files[i].path).len() <= u32::MAX
                && files[i].chunks.len() <= u32::MAX by {
                if i > 0 {
                    assert(files[i] == rest[i - 1]);
                }
            }
        }
        if forall|i: int|
            #![trigger files[i]]
            0 <= i < files.len() ==> encode_utf8(files[i].path).len() <= u32::MAX
                && files[i].chunks.len() <= u32::MAX {
            assert forall|i: int|
                #![trigger rest[i]]
                0 <= i < rest.len() implies encode_utf8(rest[i].path).len() <= u32::MAX
                && rest[i].chunks.len() <= u32::MAX by {
                assert(rest[i] == files[i + 1]);
            }
        }
    }
}

/// The references of a manifest are those of its files in turn, repeats and all.
pub proof fn law_references_are_those_of_the_files(file: FileModel, files: Seq<FileModel>)
    ensures
        refs_of(seq![file] + files) == file.chunks + refs_of(files),
        refs_of(Seq::empty()) == Seq::<Seq<u8>>::empty(),
{
    let all = seq![file] + files;
    assert(all[0] == file);
    assert(all.skip(1) =~= files);
}

/// Bytes that end within the header are refused with the field that they end in
/// and how many more it takes.
pub proof fn law_short_headers(b: Seq<u8>)
    ensures
        b.len() < 16 ==> parse_manifest(b) == Err::<ManifestModel, Fault>(
            Fault::Short { what: "snapshot id"@, needed: 16 - b.len() },
        ),
        16 <= b.len() < 24 ==> parse_manifest(b) == Err::<ManifestModel, Fault>(
            Fault::Short { what: "created_at"@, needed: 24 - b.len() },
        ),
        24 <= b.len() < 28 ==> parse_manifest(b) == Err::<ManifestModel, Fault>(
            Fault::Short { what: "file count"@, needed: 28 - b.len() },
        ),
{
}

/// A fault is reported as it is: what ended early and how much was missing, how
/// many bytes follow, or which file's path is not text.
pub proof fn law_faults_are_reported(e: ManifestError, fault: Fault)
    requires
        reports(e, fault),
    ensures
        match fault {
            Fault::Short { what, needed } => e matches ManifestError::Truncated {
                what: w,
                needed: n,
            } && w@ == what && n == needed,
            Fault::Trailing(count) => e matches ManifestError::TrailingBytes(n) && n == count,
            Fault::BadPath(index) => e matches ManifestError::InvalidPath { index: i } && i
                == index,
        },
{
}

} // verus!
