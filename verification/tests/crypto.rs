use busyncr::chunking::{ChunkId, ChunkIdKey};
use busyncr::crypto::{
    decrypt_chunk, decrypt_manifest, encrypt_chunk, encrypt_manifest, export_keyfile,
    import_keyfile, CryptoError, DataKey, KdfParams, BLOB_OVERHEAD, DATA_KEY_LEN, KEYFILE_LEN,
    KEYFILE_MAGIC, KEYFILE_SALT_LEN, KEYFILE_VERSION, NONCE_LEN, TAG_LEN,
};
use busyncr::snapshot_id::SnapshotId;
use rand::rngs::StdRng;
use rand::{Rng, SeedableRng};

/// Cheap key-derivation parameters, so that the tests stay fast.
fn test_kdf() -> KdfParams {
    KdfParams {
        m_cost_kib: 16,
        t_cost: 1,
        p_cost: 1,
    }
}

fn rng(seed: u64) -> StdRng {
    StdRng::seed_from_u64(seed)
}

fn draw32(r: &mut StdRng) -> [u8; 32] {
    let mut out = [0u8; 32];
    r.fill_bytes(&mut out);
    out
}

fn draw24(r: &mut StdRng) -> [u8; 24] {
    let mut out = [0u8; 24];
    r.fill_bytes(&mut out);
    out
}

fn draw16(r: &mut StdRng) -> [u8; 16] {
    let mut out = [0u8; 16];
    r.fill_bytes(&mut out);
    out
}

fn export(
    data_key: &DataKey,
    chunk_id_key: &ChunkIdKey,
    passphrase: &[u8],
    params: &KdfParams,
    r: &mut StdRng,
) -> Result<Vec<u8>, CryptoError> {
    let salt = draw16(r);
    let nonce = draw24(r);
    export_keyfile(data_key, chunk_id_key, passphrase, params, &salt, &nonce)
}

fn sample_chunk() -> (DataKey, ChunkId, Vec<u8>, Vec<u8>) {
    let mut r = rng(7);
    let key = DataKey::generate(draw32(&mut r));
    let plaintext = b"the quick brown fox jumps over the lazy dog".repeat(100);
    let id = ChunkId::of(&plaintext);
    let blob = encrypt_chunk(&key, &id, &plaintext, &draw24(&mut r)).unwrap();
    (key, id, plaintext, blob)
}

#[test]
fn chunk_roundtrip() {
    let (key, id, plaintext, blob) = sample_chunk();
    assert_eq!(blob.len(), plaintext.len() + BLOB_OVERHEAD);
    let out = decrypt_chunk(&key, &id, &blob).unwrap();
    assert_eq!(out, plaintext);
}

#[test]
fn empty_plaintext_roundtrip() {
    let mut r = rng(8);
    let key = DataKey::generate(draw32(&mut r));
    let id = ChunkId::of(b"");
    let blob = encrypt_chunk(&key, &id, b"", &draw24(&mut r)).unwrap();
    assert_eq!(blob.len(), BLOB_OVERHEAD);
    assert_eq!(decrypt_chunk(&key, &id, &blob).unwrap(), b"");
}

#[test]
fn nonces_are_fresh_per_blob() {
    let mut r = rng(9);
    let key = DataKey::generate(draw32(&mut r));
    let plaintext = b"same bytes twice";
    let id = ChunkId::of(plaintext);
    let a = encrypt_chunk(&key, &id, plaintext, &draw24(&mut r)).unwrap();
    let b = encrypt_chunk(&key, &id, plaintext, &draw24(&mut r)).unwrap();
    assert_ne!(a, b, "two encryptions of the same chunk must differ");
    assert_eq!(decrypt_chunk(&key, &id, &a).unwrap(), plaintext);
    assert_eq!(decrypt_chunk(&key, &id, &b).unwrap(), plaintext);
}

#[test]
fn tampered_ciphertext_fails() {
    let (key, id, _plaintext, mut blob) = sample_chunk();
    for &pos in &[3usize, NONCE_LEN + 10, blob.len() - 1] {
        let mut bad = blob.clone();
        bad[pos] ^= 0x01;
        assert!(
            matches!(decrypt_chunk(&key, &id, &bad), Err(CryptoError::Decrypt)),
            "bit flip at {pos} must fail authentication"
        );
    }
    blob.truncate(BLOB_OVERHEAD - 1);
    assert!(matches!(
        decrypt_chunk(&key, &id, &blob),
        Err(CryptoError::BlobTooShort { .. })
    ));
}

#[test]
fn chunk_blob_bound_to_its_id() {
    let (key, _id, _plaintext, blob) = sample_chunk();
    let other_id = ChunkId::of(b"a different chunk");
    assert!(
        matches!(
            decrypt_chunk(&key, &other_id, &blob),
            Err(CryptoError::Decrypt)
        ),
        "blob presented under a different chunk ID must fail"
    );
}

#[test]
fn manifest_roundtrip_and_snapshot_binding() {
    let mut r = rng(10);
    let key = DataKey::generate(draw32(&mut r));
    let snap_a = SnapshotId::from_parts(1_700_000_000_000, 42);
    let snap_b = SnapshotId::from_parts(1_700_000_000_000, 43);
    let encoded = b"pretend this is an encoded manifest".to_vec();
    let blob = encrypt_manifest(&key, snap_a, &encoded, &draw24(&mut r)).unwrap();
    assert_eq!(decrypt_manifest(&key, snap_a, &blob).unwrap(), encoded);
    assert!(matches!(
        decrypt_manifest(&key, snap_b, &blob),
        Err(CryptoError::Decrypt)
    ));
}

#[test]
fn fr7_blob_undecryptable_without_key() {
    let (key, id, plaintext, blob) = sample_chunk();
    let mut r = rng(11);
    let wrong_key = DataKey::generate(draw32(&mut r));
    assert!(wrong_key != key);
    assert!(matches!(
        decrypt_chunk(&wrong_key, &id, &blob),
        Err(CryptoError::Decrypt)
    ));
    let window = &plaintext[..16];
    assert!(
        !blob.windows(window.len()).any(|w| w == window),
        "ciphertext must not contain plaintext runs"
    );
}

#[test]
fn frk1d_keyfile_v2_roundtrip_carries_both_keys() {
    let mut r = rng(12);
    let data_key = DataKey::generate(draw32(&mut r));
    let chunk_id_key = ChunkIdKey::generate(draw32(&mut r));
    let file = export(
        &data_key,
        &chunk_id_key,
        b"correct horse battery staple",
        &test_kdf(),
        &mut r,
    )
    .expect("export");
    assert_eq!(file.len(), KEYFILE_LEN);
    assert_eq!(file[8], KEYFILE_VERSION, "keyfile must declare version 2");

    let (imported_data, imported_chunk) = match import_keyfile(&file, b"correct horse battery staple") {
        Ok(keys) => keys,
        Err(e) => panic!("import: {e:?}"),
    };
    assert_eq!(imported_data.as_bytes(), data_key.as_bytes());
    assert_eq!(imported_chunk.as_bytes(), chunk_id_key.as_bytes());
    let plaintext = b"cross-machine history".to_vec();
    let id = ChunkId::keyed(&chunk_id_key, &plaintext);
    let blob = encrypt_chunk(&data_key, &id, &plaintext, &draw24(&mut r)).unwrap();
    assert_eq!(
        decrypt_chunk(&imported_data, &id, &blob).unwrap(),
        plaintext
    );
    assert_eq!(ChunkId::keyed(&imported_chunk, &plaintext), id);
}

#[test]
fn frk1d_v1_keyfile_is_rejected_with_versioned_error() {
    let kdf = test_kdf();
    let mut v1 = Vec::new();
    v1.extend_from_slice(&KEYFILE_MAGIC);
    v1.push(1);
    v1.extend_from_slice(&kdf.m_cost_kib.to_le_bytes());
    v1.extend_from_slice(&kdf.t_cost.to_le_bytes());
    v1.extend_from_slice(&kdf.p_cost.to_le_bytes());
    v1.extend_from_slice(&[0x11u8; KEYFILE_SALT_LEN]);
    v1.extend_from_slice(&[0u8; NONCE_LEN + DATA_KEY_LEN + TAG_LEN]);
    assert!(matches!(
        import_keyfile(&v1, b"pw"),
        Err(CryptoError::KeyfileVersion(1))
    ));
}

#[test]
fn fr6_wrong_passphrase_fails_cleanly() {
    let mut r = rng(13);
    let data_key = DataKey::generate(draw32(&mut r));
    let chunk_id_key = ChunkIdKey::generate(draw32(&mut r));
    let file = export(&data_key, &chunk_id_key, b"right", &test_kdf(), &mut r).expect("export");
    assert!(matches!(
        import_keyfile(&file, b"wrong"),
        Err(CryptoError::KeyfileUnlock)
    ));
}

#[test]
fn keyfile_rejects_bad_magic_version_and_length() {
    let mut r = rng(14);
    let data_key = DataKey::generate(draw32(&mut r));
    let chunk_id_key = ChunkIdKey::generate(draw32(&mut r));
    let file = export(&data_key, &chunk_id_key, b"pw", &test_kdf(), &mut r).expect("export");

    let mut bad_magic = file.clone();
    bad_magic[0] ^= 0xFF;
    assert!(matches!(
        import_keyfile(&bad_magic, b"pw"),
        Err(CryptoError::KeyfileFormat(_))
    ));

    let mut bad_version = file.clone();
    bad_version[8] = 99;
    assert!(matches!(
        import_keyfile(&bad_version, b"pw"),
        Err(CryptoError::KeyfileVersion(99))
    ));

    let truncated = &file[..file.len() - 1];
    assert!(matches!(
        import_keyfile(truncated, b"pw"),
        Err(CryptoError::KeyfileFormat(_))
    ));

    assert!(matches!(
        import_keyfile(b"nope", b"pw"),
        Err(CryptoError::KeyfileFormat(_))
    ));
}

#[test]
fn keyfile_header_tamper_detected() {
    let mut r = rng(15);
    let data_key = DataKey::generate(draw32(&mut r));
    let chunk_id_key = ChunkIdKey::generate(draw32(&mut r));
    let file = export(&data_key, &chunk_id_key, b"pw", &test_kdf(), &mut r).expect("export");
    for pos in [9usize, 13, 17, 21] {
        let mut bad = file.clone();
        bad[pos] ^= 0x01;
        assert!(
            matches!(
                import_keyfile(&bad, b"pw"),
                Err(CryptoError::KeyfileUnlock) | Err(CryptoError::Kdf(_))
            ),
            "header tamper at {pos} must not import"
        );
    }
}

#[test]
fn keyfile_default_params_roundtrip() {
    let mut r = rng(16);
    let data_key = DataKey::generate(draw32(&mut r));
    let chunk_id_key = ChunkIdKey::generate(draw32(&mut r));
    let file = export(
        &data_key,
        &chunk_id_key,
        b"pw",
        &KdfParams::default(),
        &mut r,
    )
    .expect("export");
    let (imported_data, imported_chunk) = match import_keyfile(&file, b"pw") {
        Ok(keys) => keys,
        Err(e) => panic!("import: {e:?}"),
    };
    assert_eq!(imported_data.as_bytes(), data_key.as_bytes());
    assert_eq!(imported_chunk.as_bytes(), chunk_id_key.as_bytes());
}

#[test]
fn data_key_debug_is_redacted() {
    let mut r = rng(17);
    let key = DataKey::generate(draw32(&mut r));
    assert_eq!(key.redacted(), "DataKey(..redacted..)");
    assert_ne!(key.as_bytes(), &[0u8; DATA_KEY_LEN]);
}

#[test]
fn a_blob_is_nonce_then_ciphertext_then_tag() {
    let key = DataKey::from_bytes([1; 32]);
    let id = ChunkId::of(b"layout");
    let nonce = [5u8; 24];
    let blob = encrypt_chunk(&key, &id, b"layout", &nonce).unwrap();
    assert_eq!(blob.len(), NONCE_LEN + 6 + TAG_LEN);
    assert_eq!(&blob[..NONCE_LEN], &nonce);
    assert_ne!(&blob[NONCE_LEN..NONCE_LEN + 6], b"layout");
    // The same nonce gives the same blob.
    assert_eq!(blob, encrypt_chunk(&key, &id, b"layout", &nonce).unwrap());
}

#[test]
fn a_short_blob_reports_its_length() {
    let key = DataKey::from_bytes([1; 32]);
    let id = ChunkId::of(b"x");
    assert_eq!(
        decrypt_chunk(&key, &id, &[0; 39]),
        Err(CryptoError::BlobTooShort { got: 39 })
    );
    assert_eq!(
        decrypt_manifest(&key, SnapshotId::from_parts(1, 1), &[]),
        Err(CryptoError::BlobTooShort { got: 0 })
    );
    assert_eq!(decrypt_chunk(&key, &id, &[0; 40]), Err(CryptoError::Decrypt));
}

#[test]
fn a_keyfile_starts_with_its_header() {
    let params = KdfParams { m_cost_kib: 24, t_cost: 2, p_cost: 3 };
    let salt = [6u8; 16];
    let nonce = [7u8; 24];
    let file = export_keyfile(
        &DataKey::from_bytes([1; 32]),
        &ChunkIdKey::from_bytes([2; 32]),
        b"pw",
        &params,
        &salt,
        &nonce,
    )
    .unwrap();
    assert_eq!(&file[..8], b"BUSYNCRK");
    assert_eq!(file[8], 2);
    assert_eq!(&file[9..21], &[24, 0, 0, 0, 2, 0, 0, 0, 3, 0, 0, 0]);
    assert_eq!(&file[21..37], &salt);
    assert_eq!(&file[37..61], &nonce);
    assert_eq!(file.len(), 141);
}

#[test]
fn unusable_derivation_parameters_are_reported() {
    let mut r = rng(18);
    let data_key = DataKey::from_bytes([1; 32]);
    let chunk_id_key = ChunkIdKey::from_bytes([2; 32]);
    for params in [
        KdfParams { m_cost_kib: 7, t_cost: 1, p_cost: 1 },
        KdfParams { m_cost_kib: 16, t_cost: 0, p_cost: 1 },
        KdfParams { m_cost_kib: 16, t_cost: 1, p_cost: 0 },
    ] {
        assert!(matches!(
            export(&data_key, &chunk_id_key, b"pw", &params, &mut r),
            Err(CryptoError::Kdf(_))
        ));
    }
}

#[test]
fn default_derivation_parameters() {
    let params = KdfParams::default();
    assert_eq!(
        (params.m_cost_kib, params.t_cost, params.p_cost),
        (64 * 1024, 3, 1)
    );
}
