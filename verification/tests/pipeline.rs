use std::collections::HashMap;

use busyncr::backup::{
    check_upload, phase_for, seal_manifest, with_manifest, BackupError, BackupReport, Session,
    BATCH_MAX_BYTES, BATCH_MAX_CHUNKS,
};
use busyncr::chunking::{chunk_bytes, chunk_bytes_keyed, ChunkId, ChunkIdKey, ChunkerConfig};
use busyncr::compression::{CompressionError, Phase, PolicyConfig};
use busyncr::crypto::{decrypt_chunk, encrypt_chunk, CryptoError, DataKey, BLOB_OVERHEAD};
use busyncr::manifest::Manifest;
use busyncr::policy_bench::{simulate_policy, PolicyKind};
use busyncr::restore::{
    finish_file, new_report, open_manifest, parse_chunk_id, totals, verify_chunk, FileRestore,
    RestoreError, RestoreReport, RestoreStep, StreamEvent,
};
use busyncr::snapshot_id::SnapshotId;
use rand::rngs::StdRng;
use rand::{Rng, SeedableRng};

/// What a daemon holds: blobs by identity, and sealed manifests.
struct Store {
    chunks: HashMap<Vec<u8>, Vec<u8>>,
    manifests: Vec<(SnapshotId, Vec<u8>)>,
}

struct Client {
    key: DataKey,
    id_key: ChunkIdKey,
    policy: PolicyConfig,
    config: ChunkerConfig,
    rng: StdRng,
}

fn store() -> Store {
    Store {
        chunks: HashMap::new(),
        manifests: Vec::new(),
    }
}

fn client(policy: PolicyConfig) -> Client {
    Client {
        key: DataKey::from_bytes([1; 32]),
        id_key: ChunkIdKey::from_bytes([2; 32]),
        policy,
        config: ChunkerConfig::with_target(4096).unwrap(),
        rng: StdRng::seed_from_u64(5),
    }
}

fn random_bytes(len: usize, seed: u64) -> Vec<u8> {
    let mut rng = StdRng::seed_from_u64(seed);
    let mut buf = vec![0u8; len];
    rng.fill_bytes(&mut buf);
    buf
}

fn text(len: usize) -> Vec<u8> {
    b"the quick brown fox jumps over the lazy dog. "
        .iter()
        .copied()
        .cycle()
        .take(len)
        .collect()
}

impl Client {
    fn nonce(&mut self) -> [u8; 24] {
        let mut n = [0u8; 24];
        self.rng.fill_bytes(&mut n);
        n
    }

    fn flush(&mut self, session: &mut Session, store: &mut Store) {
        let wanted = session.wanted();
        if wanted.is_empty() {
            return;
        }
        let missing: Vec<Vec<u8>> = wanted
            .iter()
            .filter(|id| !store.chunks.contains_key(*id))
            .cloned()
            .collect();
        let nonces: Vec<[u8; 24]> = wanted.iter().map(|_| self.nonce()).collect();
        let blobs = session.flush(&missing, &nonces).unwrap();
        let mut stored = 0;
        let sent = blobs.len();
        for blob in blobs {
            if store.chunks.insert(blob.chunk_id, blob.data).is_none() {
                stored += 1;
            }
        }
        check_upload(sent, stored, sent as u64 - stored).unwrap();
    }

    fn back_up(&mut self, store: &mut Store, files: &[(&str, Vec<u8>)], at_ms: u64) -> BackupReport {
        let id = SnapshotId::from_parts(at_ms, 7);
        let phase = phase_for(store.manifests.len());
        let mut session = Session::new(id, self.key.clone(), self.policy, phase);
        for (path, data) in files {
            for chunk in chunk_bytes_keyed(data, &self.config, &self.id_key) {
                if session.add_chunk(chunk) {
                    self.flush(&mut session, store);
                }
            }
            session.end_file(path.to_string(), 1_700_000_000, 5, 0o644);
        }
        self.flush(&mut session, store);
        let (manifest, report) = session.into_manifest(at_ms as i64 / 1000);
        let nonce = self.nonce();
        let sealed = seal_manifest(&manifest, &self.key, &nonce).unwrap();
        let report = with_manifest(report, sealed.len());
        store.manifests.push((id, sealed));
        report
    }

    fn manifest(&self, store: &Store, index: usize) -> Result<Manifest, RestoreError> {
        let (id, blob) = &store.manifests[index];
        open_manifest(&self.key, *id, blob)
    }

    fn restore(
        &self,
        store: &Store,
        index: usize,
    ) -> Result<(Vec<(String, Vec<u8>)>, RestoreReport), RestoreError> {
        let manifest = self.manifest(store, index)?;
        let mut report = new_report(manifest.snapshot_id);
        let mut out = Vec::new();
        for file in &manifest.files {
            let mut state = FileRestore::new();
            let mut bytes = Vec::new();
            let mut events: Vec<StreamEvent> = FileRestore::wanted(&file.chunks)
                .into_iter()
                .map(|chunk_id| StreamEvent::Blob {
                    data: store.chunks[&chunk_id].clone(),
                    chunk_id,
                })
                .collect();
            events.push(StreamEvent::End);
            for event in events {
                match state.step(&self.key, &self.id_key, &file.chunks, event, &mut report)? {
                    RestoreStep::Write(b) => bytes.extend_from_slice(&b),
                    RestoreStep::Done => {}
                }
            }
            finish_file(&file.path, file.size, state.written, &mut report)?;
            out.push((file.path.clone(), bytes));
        }
        Ok((out, report))
    }
}

fn tree() -> Vec<(&'static str, Vec<u8>)> {
    vec![
        ("data/a.bin", random_bytes(60_000, 1)),
        ("data/empty", Vec::new()),
        ("data/sub/b.txt", text(90_000)),
        ("data/sub/copy.bin", random_bytes(60_000, 1)),
    ]
}

fn owned(files: &[(&str, Vec<u8>)]) -> Vec<(String, Vec<u8>)> {
    files.iter().map(|(p, d)| (p.to_string(), d.clone())).collect()
}

#[test]
fn a_backup_describes_and_restores_the_tree() {
    let mut c = client(PolicyConfig::default());
    let mut s = store();
    let files = tree();
    let report = c.back_up(&mut s, &files, 1_700_000_000_000);
    assert_eq!(report.files, 4);
    assert_eq!(report.source_bytes, 210_000);
    assert!(report.chunks_unique < report.chunks_total);
    assert_eq!(report.chunks_uploaded, report.chunks_unique);
    assert_eq!(report.chunks_deduped, 0);
    let stored: usize = s.chunks.values().map(Vec::len).sum();
    assert_eq!(report.upload_bytes, stored as u64);
    assert_eq!(report.manifest_bytes, s.manifests[0].1.len() as u64);

    let manifest = c.manifest(&s, 0).unwrap();
    assert_eq!(manifest.created_at, 1_700_000_000);
    assert_eq!(manifest.chunk_refs().len() as u64, report.chunks_total);
    assert_eq!(totals(&manifest).total_files, 4);
    assert_eq!(totals(&manifest).total_bytes, 210_000);
    assert_eq!(manifest.files[2].mode, 0o644);

    let (restored, ledger) = c.restore(&s, 0).unwrap();
    assert_eq!(restored, owned(&files));
    assert_eq!(ledger.files, 4);
    assert_eq!(ledger.bytes, 210_000);
    assert_eq!(ledger.chunks_fetched, report.chunks_total);
}

#[test]
fn a_second_backup_ships_only_what_changed() {
    let mut c = client(PolicyConfig::default());
    let mut s = store();
    let mut files = tree();
    c.back_up(&mut s, &files, 1_700_000_000_000);
    let before = s.chunks.len();

    let same = c.back_up(&mut s, &files, 1_700_000_010_000);
    assert_eq!(same.chunks_uploaded, 0);
    assert_eq!(same.upload_bytes, 0);
    assert_eq!(same.chunks_deduped, same.chunks_unique);
    assert_eq!(s.chunks.len(), before);

    files[0].1[30_000] ^= 0xff;
    let changed = c.back_up(&mut s, &files, 1_700_000_020_000);
    assert!(changed.chunks_uploaded > 0);
    assert!(changed.chunks_uploaded <= 3);
    assert_eq!(s.chunks.len() as u64, before as u64 + changed.chunks_uploaded);
    assert_eq!(
        changed.chunks_uploaded + changed.chunks_deduped,
        changed.chunks_unique
    );
    assert_eq!(c.restore(&s, 2).unwrap().0, owned(&files));
    assert_eq!(c.restore(&s, 0).unwrap().0, owned(&tree()));
}

#[test]
fn a_damaged_chunk_is_refused_by_name() {
    let mut c = client(PolicyConfig::default());
    let mut s = store();
    c.back_up(&mut s, &tree(), 1_700_000_000_000);
    let manifest = c.manifest(&s, 0).unwrap();
    let id = manifest.files[2].chunks[0];
    let mut blob = s.chunks[&id.to_wire()].clone();
    blob[30] ^= 1;
    assert_eq!(
        verify_chunk(&c.key, &c.id_key, &id, &blob),
        Err(RestoreError::Crypto(CryptoError::Decrypt))
    );
    s.chunks.insert(id.to_wire(), blob);
    assert_eq!(
        c.restore(&s, 0),
        Err(RestoreError::Crypto(CryptoError::Decrypt))
    );

    // A blob that opens but holds other bytes is refused too.
    let other = random_bytes(100, 3);
    let mut framed = vec![0u8];
    framed.extend_from_slice(&other);
    let nonce = c.nonce();
    let forged = encrypt_chunk(&c.key, &id, &framed, &nonce).unwrap();
    assert_eq!(
        verify_chunk(&c.key, &c.id_key, &id, &forged),
        Err(RestoreError::ChunkIdMismatch {
            chunk: id,
            actual: ChunkId::keyed(&c.id_key, &other)
        })
    );
    let nonce = c.nonce();
    let reserved = encrypt_chunk(&c.key, &id, &[9, 9], &nonce).unwrap();
    assert_eq!(
        verify_chunk(&c.key, &c.id_key, &id, &reserved),
        Err(RestoreError::CodecDecode {
            chunk: id,
            source: CompressionError::UnknownCodec(9)
        })
    );
}

#[test]
fn a_stream_must_keep_to_the_request() {
    let mut c = client(PolicyConfig::default());
    let mut s = store();
    c.back_up(&mut s, &tree(), 1_700_000_000_000);
    let manifest = c.manifest(&s, 0).unwrap();
    let chunks = &manifest.files[0].chunks;
    let blob = |k: usize| StreamEvent::Blob {
        chunk_id: chunks[k].to_wire(),
        data: s.chunks[&chunks[k].to_wire()].clone(),
    };
    let mut report = new_report(manifest.snapshot_id);
    let mut state = FileRestore::new();
    assert_eq!(
        state.step(&c.key, &c.id_key, chunks, blob(1), &mut report),
        Err(RestoreError::BadResponse(
            "GetChunks streamed a chunk out of the requested order"
        ))
    );
    assert_eq!(
        state.step(&c.key, &c.id_key, chunks, StreamEvent::End, &mut report),
        Err(RestoreError::BadResponse(
            "GetChunks stream ended before every requested chunk arrived"
        ))
    );
    let malformed = StreamEvent::Blob { chunk_id: vec![1; 5], data: vec![] };
    assert_eq!(
        state.step(&c.key, &c.id_key, chunks, malformed, &mut report),
        Err(RestoreError::BadResponse("malformed chunk ID in GetChunks reply"))
    );
    assert_eq!(
        FileRestore::new().step(&c.key, &c.id_key, &vec![], blob(0), &mut report),
        Err(RestoreError::BadResponse(
            "GetChunks streamed more chunks than were requested"
        ))
    );
    assert!(parse_chunk_id(&[0; 31]).is_err());
    assert_eq!(
        finish_file("x", 10, 9, &mut report),
        Err(RestoreError::SizeMismatch { path: "x".to_string(), expected: 10, actual: 9 })
    );
    assert_eq!(report, new_report(manifest.snapshot_id));
}

#[test]
fn a_malformed_answer_stops_a_backup() {
    let mut c = client(PolicyConfig::default());
    let mut session = Session::new(
        SnapshotId::from_parts(1, 1),
        c.key.clone(),
        c.policy,
        Phase::InitialFull,
    );
    for chunk in chunk_bytes_keyed(&text(5000), &c.config, &c.id_key) {
        assert!(!session.add_chunk(chunk));
    }
    let nonces = vec![c.nonce(), c.nonce()];
    assert_eq!(
        session.flush(&vec![vec![1, 2, 3]], &nonces),
        Err(BackupError::BadResponse("malformed chunk ID in HasChunks reply"))
    );
    assert_eq!(check_upload(3, 2, 1), Ok(()));
    assert_eq!(
        check_upload(3, 2, 0),
        Err(BackupError::BadResponse(
            "UploadChunks acknowledged a different number of blobs than were sent"
        ))
    );
    assert_eq!(BATCH_MAX_CHUNKS, 64);
    assert_eq!(BATCH_MAX_BYTES, 32 * 1024 * 1024);
}

#[test]
fn incompressible_bytes_are_stored_raw() {
    let mut c = client(PolicyConfig::default());
    let mut s = store();
    let data = random_bytes(400_000, 11);
    let report = c.back_up(&mut s, &[("d/x.jpg", data)], 1_700_000_000_000);
    assert_eq!(report.compression.raw, report.chunks_uploaded);
    assert_eq!(report.compression.bytes_saved(), 0);
    let overhead = report.chunks_uploaded * (BLOB_OVERHEAD as u64 + 1);
    assert_eq!(report.upload_bytes, 400_000 + overhead);
}

#[test]
fn compressible_bytes_are_stored_at_least_twice_as_small() {
    let files = [("d/log.txt", random_bytes(2_000, 1).iter().flat_map(|b| format!("entry {b}\n").into_bytes()).collect::<Vec<u8>>())];
    let raw = client(PolicyKind::RawOnly.config()).back_up(&mut store(), &files, 1_700_000_000_000);
    let packed = client(PolicyConfig::default()).back_up(&mut store(), &files, 1_700_000_000_000);
    assert!(packed.upload_bytes * 2 <= raw.upload_bytes);
}

#[test]
fn a_mixed_history_restores_and_dedups_across_policies() {
    let mut s = store();
    let files = tree();
    let mut raw = client(PolicyKind::RawOnly.config());
    raw.back_up(&mut s, &files, 1_700_000_000_000);
    let mut packed = client(PolicyConfig::default());
    let again = packed.back_up(&mut s, &files, 1_700_000_010_000);
    assert_eq!(again.chunks_uploaded, 0, "identity does not depend on the codec");
    let mut more = files.clone();
    more.push(("data/new.txt", text(50_000).iter().rev().copied().collect()));
    let third = packed.back_up(&mut s, &more, 1_700_000_020_000);
    assert!(third.compression.zstd3 > 0);
    assert_eq!(packed.restore(&s, 0).unwrap().0, owned(&files));
    assert_eq!(raw.restore(&s, 2).unwrap().0, owned(&more));
}

#[test]
fn escalation_waits_for_the_second_backup() {
    let policy = PolicyConfig {
        escalate: true,
        ..PolicyConfig::default()
    };
    let mut c = client(policy);
    let mut s = store();
    let first = c.back_up(&mut s, &[("d/a.txt", text(80_000))], 1_700_000_000_000);
    assert_eq!(first.compression.escalation_attempts, 0);
    let other: Vec<u8> = text(80_000).iter().rev().copied().collect();
    let second = c.back_up(&mut s, &[("d/b.txt", other)], 1_700_000_010_000);
    assert!(second.compression.escalation_attempts > 0);
    assert_eq!(phase_for(0), Phase::InitialFull);
    assert_eq!(phase_for(1), Phase::Incremental);
}

#[test]
fn stored_identities_match_no_plain_digest() {
    let mut c = client(PolicyConfig::default());
    let mut s = store();
    let files = tree();
    c.back_up(&mut s, &files, 1_700_000_000_000);
    for (_, data) in &files {
        for chunk in chunk_bytes(data, &c.config) {
            assert!(!s.chunks.contains_key(&chunk.id.to_wire()));
        }
        for chunk in chunk_bytes_keyed(data, &c.config, &ChunkIdKey::from_bytes([3; 32])) {
            assert!(!s.chunks.contains_key(&chunk.id.to_wire()));
        }
        for chunk in chunk_bytes_keyed(data, &c.config, &c.id_key) {
            assert!(s.chunks.contains_key(&chunk.id.to_wire()));
        }
    }
}

#[test]
fn the_simulation_agrees_with_a_first_backup() {
    let mut c = client(PolicyKind::Zstd3.config());
    let mut s = store();
    let files = tree();
    let report = c.back_up(&mut s, &files, 1_700_000_000_000);
    let mut seen = Vec::new();
    let mut unique = Vec::new();
    for (_, data) in &files {
        for chunk in chunk_bytes(data, &c.config) {
            if !seen.contains(&chunk.id) {
                seen.push(chunk.id);
                unique.push(chunk.data);
            }
        }
    }
    let stats = simulate_policy(&unique, PolicyKind::Zstd3, Phase::InitialFull);
    assert_eq!(stats.stored_bytes, report.upload_bytes);
    assert_eq!(stats.chunk_count, report.chunks_uploaded);
}

#[test]
fn another_key_reads_nothing() {
    let mut c = client(PolicyConfig::default());
    let mut s = store();
    c.back_up(&mut s, &tree(), 1_700_000_000_000);
    let (id, blob) = &s.manifests[0];
    assert_eq!(
        open_manifest(&DataKey::from_bytes([8; 32]), *id, blob),
        Err(RestoreError::Crypto(CryptoError::Decrypt))
    );
    assert_eq!(
        open_manifest(&c.key, SnapshotId::from_parts(1, 1), blob),
        Err(RestoreError::Crypto(CryptoError::Decrypt))
    );
    for (wire, blob) in &s.chunks {
        let id = ChunkId::from_wire(wire).unwrap();
        assert_eq!(
            decrypt_chunk(&DataKey::from_bytes([8; 32]), &id, blob),
            Err(CryptoError::Decrypt)
        );
    }
}
