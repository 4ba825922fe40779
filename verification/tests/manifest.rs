use busyncr::chunking::ChunkId;
use busyncr::index::IndexEntry;
use busyncr::manifest::{
    FileEntry, Manifest, ManifestError, MANIFEST_FILE_FIXED_BYTES, MANIFEST_HEADER_BYTES,
};
use busyncr::snapshot_id::SnapshotId;

fn sample_manifest() -> Manifest {
    Manifest {
        snapshot_id: SnapshotId::from_parts(1_700_000_000_000, 42),
        created_at: 1_700_000_000,
        files: vec![
            FileEntry {
                path: "docs/report.txt".into(),
                size: 70_000,
                mtime_secs: 1_699_999_000,
                mtime_nanos: 123_456_789,
                mode: 0o100644,
                chunks: vec![ChunkId::of(b"alpha"), ChunkId::of(b"beta")],
            },
            FileEntry {
                path: "img/€.png".into(),
                size: 0,
                mtime_secs: -5,
                mtime_nanos: 0,
                mode: 0x20,
                chunks: vec![],
            },
        ],
    }
}

#[test]
fn encode_decode_roundtrip() {
    let manifest = sample_manifest();
    let bytes = manifest.encode().unwrap();
    let decoded = Manifest::decode(&bytes).unwrap();
    assert_eq!(decoded, manifest);
}

#[test]
fn empty_manifest_roundtrip() {
    let manifest = Manifest {
        snapshot_id: SnapshotId::from_parts(0, 0),
        created_at: 0,
        files: vec![],
    };
    let bytes = manifest.encode().unwrap();
    assert_eq!(bytes.len() as u64, MANIFEST_HEADER_BYTES);
    assert_eq!(Manifest::decode(&bytes).unwrap(), manifest);
}

#[test]
fn encoded_len_matches_bench_projection_arithmetic() {
    let manifest = sample_manifest();
    let expected: u64 = MANIFEST_HEADER_BYTES
        + manifest
            .files
            .iter()
            .map(|f| MANIFEST_FILE_FIXED_BYTES + f.path.len() as u64 + 32 * f.chunks.len() as u64)
            .sum::<u64>();
    assert_eq!(manifest.encoded_len(), expected);
    assert_eq!(manifest.encode().unwrap().len() as u64, expected);
    assert_eq!(MANIFEST_HEADER_BYTES, 28);
    assert_eq!(MANIFEST_FILE_FIXED_BYTES, 32);
}

#[test]
fn bench_reexports_are_the_same_constants() {
    assert_eq!(busyncr::bench::MANIFEST_HEADER_BYTES, MANIFEST_HEADER_BYTES);
    assert_eq!(
        busyncr::bench::MANIFEST_FILE_FIXED_BYTES,
        MANIFEST_FILE_FIXED_BYTES
    );
}

#[test]
fn decode_rejects_truncation_at_every_length() {
    let bytes = sample_manifest().encode().unwrap();
    for cut in 0..bytes.len() {
        let err = Manifest::decode(&bytes[..cut]).unwrap_err();
        assert!(
            matches!(err, ManifestError::Truncated { .. }),
            "cut at {cut} gave {err:?}, expected Truncated"
        );
    }
}

#[test]
fn decode_rejects_trailing_bytes() {
    let mut bytes = sample_manifest().encode().unwrap();
    bytes.push(0);
    assert!(matches!(
        Manifest::decode(&bytes),
        Err(ManifestError::TrailingBytes(1))
    ));
}

#[test]
fn decode_rejects_non_utf8_path() {
    let mut manifest = sample_manifest();
    manifest.files.truncate(1);
    manifest.files[0].path = "abcd".into();
    let mut bytes = manifest.encode().unwrap();
    bytes[32] = 0xFF;
    assert!(matches!(
        Manifest::decode(&bytes),
        Err(ManifestError::InvalidPath { index: 0, .. })
    ));
}

#[test]
fn chunk_refs_walks_manifest_order_with_duplicates() {
    let dup = ChunkId::of(b"shared");
    let manifest = Manifest {
        snapshot_id: SnapshotId::from_parts(1, 1),
        created_at: 10,
        files: vec![
            FileEntry {
                path: "a".into(),
                size: 1,
                mtime_secs: 0,
                mtime_nanos: 0,
                mode: 0,
                chunks: vec![dup, ChunkId::of(b"only-a")],
            },
            FileEntry {
                path: "b".into(),
                size: 1,
                mtime_secs: 0,
                mtime_nanos: 0,
                mode: 0,
                chunks: vec![dup],
            },
        ],
    };
    let refs: Vec<ChunkId> = manifest.chunk_refs();
    assert_eq!(refs, vec![dup, ChunkId::of(b"only-a"), dup]);
}

#[test]
fn the_encoding_lays_out_every_field() {
    let id = ChunkId::from_bytes([9; 32]);
    let manifest = Manifest {
        snapshot_id: SnapshotId::from_parts(1, 2),
        created_at: -2,
        files: vec![FileEntry {
            path: "ab".into(),
            size: 0x0102,
            mtime_secs: 3,
            mtime_nanos: 4,
            mode: 5,
            chunks: vec![id],
        }],
    };
    let mut expected: Vec<u8> = vec![0, 0, 0, 0, 0, 1, 0, 0, 0, 0, 0, 0, 0, 0, 0, 2];
    expected.extend_from_slice(&(-2i64).to_le_bytes());
    expected.extend_from_slice(&1u32.to_le_bytes());
    expected.extend_from_slice(&2u32.to_le_bytes());
    expected.extend_from_slice(b"ab");
    expected.extend_from_slice(&0x0102u64.to_le_bytes());
    expected.extend_from_slice(&3i64.to_le_bytes());
    expected.extend_from_slice(&4u32.to_le_bytes());
    expected.extend_from_slice(&5u32.to_le_bytes());
    expected.extend_from_slice(&1u32.to_le_bytes());
    expected.extend_from_slice(&[9; 32]);
    assert_eq!(manifest.encode().unwrap(), expected);
    assert_eq!(manifest.encoded_len(), 28 + 32 + 2 + 32);
}

#[test]
fn truncation_names_the_field_and_the_bytes_it_needs() {
    assert_eq!(
        Manifest::decode(&[]),
        Err(ManifestError::Truncated { what: "snapshot id", needed: 16 })
    );
    assert_eq!(
        Manifest::decode(&[0; 27]),
        Err(ManifestError::Truncated { what: "file count", needed: 1 })
    );
}

#[test]
fn equal_encodings_mean_equal_manifests() {
    let a = sample_manifest();
    let mut b = sample_manifest();
    b.files[1].mode = 0x21;
    assert_ne!(a.encode().unwrap(), b.encode().unwrap());
    let decoded = Manifest::decode(&b.encode().unwrap()).unwrap();
    assert_eq!(decoded, b);
    assert_eq!(decoded.encode().unwrap(), b.encode().unwrap());
}

#[test]
fn wire_size_matches_serialized_layout() {
    let entry = IndexEntry {
        chunk_len: 0x0102_0304_0506_0708,
        refcount: 42,
    };
    let value = entry.to_wire_value();
    assert_eq!(value.len() as u64, IndexEntry::VALUE_SIZE);
    assert_eq!(
        IndexEntry::WIRE_SIZE,
        ChunkId::LEN as u64 + value.len() as u64
    );
    assert_eq!(IndexEntry::WIRE_SIZE, 48);
    assert_eq!(IndexEntry::from_wire_value(value), entry);
    assert_eq!(
        value,
        [8, 7, 6, 5, 4, 3, 2, 1, 42, 0, 0, 0, 0, 0, 0, 0]
    );
}

#[test]
fn skeleton_is_green() {
    assert_eq!(busyncr::VERSION, "0.1.0");
}
