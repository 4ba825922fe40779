//! Client-side encryption and the passphrase-protected keyfile.
//!
//! Everything that leaves the client is sealed with XChaCha20-Poly1305 under
//! the backup set's [`DataKey`]: a fresh 24-byte nonce, then ciphertext and
//! tag. A chunk is bound to its identity and a manifest to its snapshot, as
//! associated data. Nonces, salts and keys are drawn by the caller and handed
//! in.
use vstd::prelude::*;

use chacha20poly1305::aead::{Aead, KeyInit, Payload};
use chacha20poly1305::{Key, XChaCha20Poly1305, XNonce};

use crate::bytes::{
    array16, array24, array32, le_bytes, le_value, lemma_le_roundtrip, lemma_pow256, push_bytes,
    push_u32, read_u32, same_bytes,
};
use crate::chunking::{ChunkId, ChunkIdKey};
use crate::snapshot_id::SnapshotId;

verus! {

/// Length of a data key.
pub const DATA_KEY_LEN: usize = 32;

/// Length of a chunk-identity key.
pub const CHUNK_ID_KEY_LEN: usize = 32;

/// Length of the nonce in front of every blob.
pub const NONCE_LEN: usize = 24;

/// Length of the authentication tag at the end of every blob.
pub const TAG_LEN: usize = 16;

/// How much longer a blob is than its plaintext.
pub const BLOB_OVERHEAD: usize = 40;

/// Keyfile format version.
pub const KEYFILE_VERSION: u8 = 2;

/// Length of the salt in a keyfile.
pub const KEYFILE_SALT_LEN: usize = 16;

/// Length of the sealed secret: data key, then chunk-identity key.
pub const KEYFILE_PAYLOAD_LEN: usize = 64;

/// Length of the keyfile header: magic, version, three cost parameters and
/// the salt. It is bound to the sealed secret as associated data.
pub const KEYFILE_HEADER_LEN: usize = 37;

/// Length of a keyfile.
pub const KEYFILE_LEN: usize = 141;

/// The longest plaintext that one nonce can cover.
pub const MAX_PLAINTEXT_LEN: u64 = 274_877_906_816;

/// The first 8 bytes of a keyfile.
pub const KEYFILE_MAGIC: [u8; 8] = [66, 85, 83, 89, 78, 67, 82, 75];

/// Errors of encryption, decryption and keyfiles.
#[derive(Debug, Clone, PartialEq, Eq)]
pub enum CryptoError {
    /// The plaintext is too long to seal.
    Encrypt,
    /// The blob does not authenticate: tampered, wrong key or wrong context.
    Decrypt,
    /// The blob is shorter than nonce and tag.
    BlobTooShort {
        /// Length of the blob.
        got: usize,
    },
    /// The keyfile's structure is wrong.
    KeyfileFormat(&'static str),
    /// The keyfile has another version.
    KeyfileVersion(u8),
    /// The key derivation refused its parameters.
    Kdf(String),
    /// The keyfile's secret does not open: wrong passphrase or a damaged
    /// file.
    KeyfileUnlock,
}

/// The symmetric key of one backup set.
#[derive(Clone, PartialEq, Eq)]
pub struct DataKey {
    /// The raw key bytes.
    pub bytes: [u8; 32],
}

impl View for DataKey {
    type V = Seq<u8>;

    open spec fn view(&self) -> Seq<u8> {
        self.bytes@
    }
}

impl DataKey {
    /// Makes a key of freshly drawn random bytes.
    #[must_use]
    pub fn generate(drawn: [u8; 32]) -> (r: Self)
        ensures
            r@ == drawn@,
    {
        DataKey { bytes: drawn }
    }

    /// Wraps raw key bytes.
    #[must_use]
    pub fn from_bytes(bytes: [u8; 32]) -> (r: Self)
        ensures
            r@ == bytes@,
    {
        DataKey { bytes }
    }

    /// The raw key bytes.
    #[must_use]
    pub fn as_bytes(&self) -> (r: &[u8; 32])
        ensures
            r@ == self@,
    {
        &self.bytes
    }

    /// A description for logs that shows nothing of the key.
    #[must_use]
    pub fn redacted(&self) -> (r: String)
        ensures
            r@ == "DataKey(..redacted..)"@,
    {
        let mut out: String = String::new();
        out.push_str("DataKey(..redacted..)");
        proof {
            assert(out@ =~= "DataKey(..redacted..)"@);
        }
        out
    }
}

/// Argon2id cost parameters.
#[derive(Debug, Clone, Copy, PartialEq, Eq, Structural)]
pub struct KdfParams {
    /// Memory cost in KiB.
    pub m_cost_kib: u32,
    /// Number of passes.
    pub t_cost: u32,
    /// Degree of parallelism.
    pub p_cost: u32,
}

impl Default for KdfParams {
    /// 64 MiB, 3 passes, 1 lane.
    fn default() -> (r: Self)
        ensures
            r.m_cost_kib == 65_536,
            r.t_cost == 3,
            r.p_cost == 1,
    {
        KdfParams { m_cost_kib: 65_536, t_cost: 3, p_cost: 1 }
    }
}

/// What XChaCha20-Poly1305 encryption gives: the ciphertext, then the tag.
pub uninterp spec fn xchacha_sealed(
    key: Seq<u8>,
    nonce: Seq<u8>,
    aad: Seq<u8>,
    msg: Seq<u8>,
) -> Seq<u8>;

/// What XChaCha20-Poly1305 decryption gives, `None` where the input does not
/// authenticate.
pub uninterp spec fn xchacha_opened(
    key: Seq<u8>,
    nonce: Seq<u8>,
    aad: Seq<u8>,
    sealed: Seq<u8>,
) -> Option<Seq<u8>>;

/// What Argon2id (version 0x13) derives as a 32-byte key from passphrase,
/// salt and cost parameters.
pub uninterp spec fn argon2id_key(
    passphrase: Seq<u8>,
    salt: Seq<u8>,
    m_cost_kib: u32,
    t_cost: u32,
    p_cost: u32,
) -> Seq<u8>;

/// Calls `encrypt` of `chacha20poly1305::XChaCha20Poly1305`. Within the
/// length that the 32-bit block counter covers it succeeds, adds a 16-byte
/// tag, and decryption with the same key, nonce and associated data gives the
/// message back.
#[verifier::external_body]
fn aead_encrypt(key: &[u8; 32], nonce: &[u8; 24], aad: &[u8], msg: &[u8]) -> (r: Option<Vec<u8>>)
    requires
        msg@.len() <= MAX_PLAINTEXT_LEN,
    ensures
        r is Some,
        r->0@ == xchacha_sealed(key@, nonce@, aad@, msg@),
        r->0@.len() == msg@.len() + 16,
        xchacha_opened(key@, nonce@, aad@, r->0@) == Some(msg@),
{
    XChaCha20Poly1305::new(Key::from_slice(key))
        .encrypt(XNonce::from_slice(nonce), Payload { msg, aad })
        .ok()
}

/// Calls `decrypt` of `chacha20poly1305::XChaCha20Poly1305`. A message that
/// opens is 16 bytes shorter than its sealed form.
#[verifier::external_body]
fn aead_decrypt(key: &[u8; 32], nonce: &[u8; 24], aad: &[u8], msg: &[u8]) -> (r: Option<Vec<u8>>)
    requires
        msg@.len() <= MAX_PLAINTEXT_LEN + 16,
    ensures
        match r {
            Some(out) => {
                &&& xchacha_opened(key@, nonce@, aad@, msg@) == Some(out@)
                &&& out@.len() + 16 == msg@.len()
            },
            None => xchacha_opened(key@, nonce@, aad@, msg@) is None,
        },
{
    XChaCha20Poly1305::new(Key::from_slice(key))
        .decrypt(XNonce::from_slice(nonce), Payload { msg, aad })
        .ok()
}

/// Calls `argon2::Params::new` and `argon2::Argon2::hash_password_into` for
/// Argon2id, version 0x13, with 32 bytes of output. The parameters are
/// refused in the order of `kdf_refusal`, with the crate's own texts;
/// otherwise a key comes out. The bounds keep the crate's `8 * p_cost` and the
/// size of its memory within the machine's integers.
#[verifier::external_body]
fn argon2id(passphrase: &[u8], salt: &[u8; 16], m_cost_kib: u32, t_cost: u32, p_cost: u32) -> (r:
    Result<[u8; 32], String>)
    requires
        p_cost < 0x2000_0000,
        m_cost_kib * 1024 <= isize::MAX,
    ensures
        match r {
            Ok(key) => {
                &&& kdf_refusal(
                    passphrase@.len() as int,
                    m_cost_kib as int,
                    t_cost as int,
                    p_cost as int,
                ) is None
                &&& key@ == argon2id_key(passphrase@, salt@, m_cost_kib, t_cost, p_cost)
            },
            Err(m) => kdf_refusal(
                passphrase@.len() as int,
                m_cost_kib as int,
                t_cost as int,
                p_cost as int,
            ) == Some(m@),
        },
{
    let params = argon2::Params::new(m_cost_kib, t_cost, p_cost, Some(32))
        .map_err(|e| e.to_string())?;
    let mut key = [0u8; 32];
    argon2::Argon2::new(argon2::Algorithm::Argon2id, argon2::Version::V0x13, params)
        .hash_password_into(passphrase, salt, &mut key)
        .map_err(|e| e.to_string())?;
    Ok(key)
}

/// Why the key derivation refuses its input, if it does.
pub open spec fn kdf_refusal(
    passphrase_len: int,
    m_cost_kib: int,
    t_cost: int,
    p_cost: int,
) -> Option<Seq<char>> {
    if m_cost_kib * 1024 > isize::MAX {
        Some("memory cost is too large"@)
    } else if m_cost_kib < 8 || m_cost_kib < 8 * p_cost {
        Some("memory cost is too small"@)
    } else if t_cost < 1 {
        Some("time cost is too small"@)
    } else if p_cost < 1 {
        Some("not enough threads"@)
    } else if p_cost > 0xFF_FFFF {
        Some("too many threads"@)
    } else if passphrase_len > 0xFFFF_FFFF {
        Some("password is too long"@)
    } else {
        None
    }
}

/// The blob of a plaintext: the nonce, then ciphertext and tag.
pub open spec fn sealed_blob(
    key: Seq<u8>,
    nonce: Seq<u8>,
    aad: Seq<u8>,
    plaintext: Seq<u8>,
) -> Seq<u8> {
    nonce + xchacha_sealed(key, nonce, aad, plaintext)
}

/// What a blob opens to, if it does.
pub open spec fn opened_blob(key: Seq<u8>, aad: Seq<u8>, blob: Seq<u8>) -> Option<Seq<u8>> {
    if BLOB_OVERHEAD <= blob.len() <= MAX_PLAINTEXT_LEN + BLOB_OVERHEAD {
        xchacha_opened(key, blob.take(NONCE_LEN as int), aad, blob.skip(NONCE_LEN as int))
    } else {
        None
    }
}

/// Whether opening a blob fails with the given error.
pub open spec fn open_error(key: Seq<u8>, aad: Seq<u8>, blob: Seq<u8>, e: CryptoError) -> bool {
    match e {
        CryptoError::BlobTooShort { got } => blob.len() < BLOB_OVERHEAD && got == blob.len(),
        CryptoError::Decrypt => blob.len() >= BLOB_OVERHEAD && opened_blob(key, aad, blob) is None,
        _ => false,
    }
}

/// Seals a plaintext with the given nonce. Opening the blob with the same key
/// and associated data gives the plaintext back.
fn seal(key: &DataKey, aad: &[u8], plaintext: &[u8], nonce: &[u8; 24]) -> (r: Result<
    Vec<u8>,
    CryptoError,
>)
    ensures
        match r {
            Ok(blob) => {
                &&& plaintext@.len() <= MAX_PLAINTEXT_LEN
                &&& blob@ == sealed_blob(key@, nonce@, aad@, plaintext@)
                &&& blob@.len() == plaintext@.len() + BLOB_OVERHEAD
                &&& opened_blob(key@, aad@, blob@) == Some(plaintext@)
            },
            Err(e) => plaintext@.len() > MAX_PLAINTEXT_LEN && e is Encrypt,
        },
{
    if plaintext.len() as u64 > MAX_PLAINTEXT_LEN {
        return Err(CryptoError::Encrypt);
    }
    match aead_encrypt(&key.bytes, nonce, aad, plaintext) {
        None => Err(CryptoError::Encrypt),
        Some(sealed) => {
            let mut blob: Vec<u8> = Vec::new();
            push_bytes(&mut blob, nonce);
            push_bytes(&mut blob, &sealed);
            proof {
                assert(blob@ =~= sealed_blob(key@, nonce@, aad@, plaintext@));
                assert(blob@.take(24) =~= nonce@);
                assert(blob@.skip(24) =~= sealed@);
            }
            Ok(blob)
        },
    }
}

/// Opens a blob.
fn open(key: &DataKey, aad: &[u8], blob: &[u8]) -> (r: Result<Vec<u8>, CryptoError>)
    ensures
        match r {
            Ok(plaintext) => {
                &&& opened_blob(key@, aad@, blob@) == Some(plaintext@)
                &&& plaintext@.len() + BLOB_OVERHEAD == blob@.len()
            },
            Err(e) => opened_blob(key@, aad@, blob@) is None && open_error(key@, aad@, blob@, e),
        },
{
    if blob.len() < BLOB_OVERHEAD {
        return Err(CryptoError::BlobTooShort { got: blob.len() });
    }
    if blob.len() as u64 > MAX_PLAINTEXT_LEN + 40 {
        return Err(CryptoError::Decrypt);
    }
    let nonce: [u8; 24] = array24(blob, 0);
    let sealed = vstd::slice::slice_subrange(blob, NONCE_LEN, blob.len());
    proof {
        assert(nonce@ =~= blob@.take(24));
        assert(sealed@ =~= blob@.skip(24));
    }
    match aead_decrypt(&key.bytes, &nonce, aad, sealed) {
        Some(plaintext) => Ok(plaintext),
        None => Err(CryptoError::Decrypt),
    }
}

/// Encrypts a framed chunk for upload, bound to its identity.
pub fn encrypt_chunk(key: &DataKey, id: &ChunkId, plaintext: &[u8], nonce: &[u8; 24]) -> (r: Result<
    Vec<u8>,
    CryptoError,
>)
    ensures
        match r {
            Ok(blob) => {
                &&& plaintext@.len() <= MAX_PLAINTEXT_LEN
                &&& blob@ == sealed_blob(key@, nonce@, id@, plaintext@)
                &&& blob@.len() == plaintext@.len() + BLOB_OVERHEAD
                &&& opened_blob(key@, id@, blob@) == Some(plaintext@)
            },
            Err(e) => plaintext@.len() > MAX_PLAINTEXT_LEN && e is Encrypt,
        },
{
    seal(key, id.as_bytes(), plaintext, nonce)
}

/// Decrypts a chunk blob that was sealed under exactly this identity.
pub fn decrypt_chunk(key: &DataKey, id: &ChunkId, blob: &[u8]) -> (r: Result<Vec<u8>, CryptoError>)
    ensures
        match r {
            Ok(plaintext) => {
                &&& opened_blob(key@, id@, blob@) == Some(plaintext@)
                &&& plaintext@.len() + BLOB_OVERHEAD == blob@.len()
            },
            Err(e) => opened_blob(key@, id@, blob@) is None && open_error(key@, id@, blob@, e),
        },
{
    open(key, id.as_bytes(), blob)
}

/// Encrypts an encoded manifest, bound to its snapshot.
pub fn encrypt_manifest(
    key: &DataKey,
    snapshot_id: SnapshotId,
    plaintext: &[u8],
    nonce: &[u8; 24],
) -> (r: Result<Vec<u8>, CryptoError>)
    ensures
        match r {
            Ok(blob) => {
                &&& plaintext@.len() <= MAX_PLAINTEXT_LEN
                &&& blob@ == sealed_blob(key@, nonce@, snapshot_id.wire(), plaintext@)
                &&& blob@.len() == plaintext@.len() + BLOB_OVERHEAD
                &&& opened_blob(key@, snapshot_id.wire(), blob@) == Some(plaintext@)
            },
            Err(e) => plaintext@.len() > MAX_PLAINTEXT_LEN && e is Encrypt,
        },
{
    let aad: [u8; 16] = snapshot_id.to_bytes();
    seal(key, &aad, plaintext, nonce)
}

/// Decrypts a manifest blob that was sealed under exactly this snapshot.
pub fn decrypt_manifest(key: &DataKey, snapshot_id: SnapshotId, blob: &[u8]) -> (r: Result<
    Vec<u8>,
    CryptoError,
>)
    ensures
        match r {
            Ok(plaintext) => {
                &&& opened_blob(key@, snapshot_id.wire(), blob@) == Some(plaintext@)
                &&& plaintext@.len() + BLOB_OVERHEAD == blob@.len()
            },
            Err(e) => {
                &&& opened_blob(key@, snapshot_id.wire(), blob@) is None
                &&& open_error(key@, snapshot_id.wire(), blob@, e)
            },
        },
{
    let aad: [u8; 16] = snapshot_id.to_bytes();
    open(key, &aad, blob)
}

/// Derives the key that protects a keyfile's secret.
fn derive_kek(passphrase: &[u8], salt: &[u8; 16], params: &KdfParams) -> (r: Result<
    DataKey,
    CryptoError,
>)
    ensures
        match r {
            Ok(kek) => {
                &&& refusal_of(passphrase@, *params) is None
                &&& kek@ == kek_of(passphrase@, salt@, *params)
            },
            Err(e) => e matches CryptoError::Kdf(m) && refusal_of(passphrase@, *params) == Some(m@),
        },
{
    if (params.m_cost_kib as u64) * 1024 > isize::MAX as u64 {
        let mut m: String = String::new();
        m.push_str("memory cost is too large");
        proof {
            assert(m@ =~= "memory cost is too large"@);
        }
        return Err(CryptoError::Kdf(m));
    }
    if params.p_cost >= 0x2000_0000 {
        let mut m: String = String::new();
        m.push_str("memory cost is too small");
        proof {
            assert(m@ =~= "memory cost is too small"@);
        }
        return Err(CryptoError::Kdf(m));
    }
    match argon2id(passphrase, salt, params.m_cost_kib, params.t_cost, params.p_cost) {
        Ok(bytes) => Ok(DataKey { bytes }),
        Err(m) => Err(CryptoError::Kdf(m)),
    }
}

/// Why the key derivation refuses a passphrase under given parameters.
pub open spec fn refusal_of(passphrase: Seq<u8>, params: KdfParams) -> Option<Seq<char>> {
    kdf_refusal(
        passphrase.len() as int,
        params.m_cost_kib as int,
        params.t_cost as int,
        params.p_cost as int,
    )
}

/// The key that protects a keyfile's secret.
pub open spec fn kek_of(passphrase: Seq<u8>, salt: Seq<u8>, params: KdfParams) -> Seq<u8> {
    argon2id_key(passphrase, salt, params.m_cost_kib, params.t_cost, params.p_cost)
}

/// The keyfile header.
pub open spec fn keyfile_header(params: KdfParams, salt: Seq<u8>) -> Seq<u8> {
    KEYFILE_MAGIC@ + seq![KEYFILE_VERSION] + le_bytes(params.m_cost_kib as nat, 4) + le_bytes(
        params.t_cost as nat,
        4,
    ) + le_bytes(params.p_cost as nat, 4) + salt
}

/// The cost parameters that a keyfile header holds.
pub open spec fn header_params(file: Seq<u8>) -> KdfParams {
    KdfParams {
        m_cost_kib: le_value(file.subrange(9, 13)) as u32,
        t_cost: le_value(file.subrange(13, 17)) as u32,
        p_cost: le_value(file.subrange(17, 21)) as u32,
    }
}

/// The salt that a keyfile header holds.
pub open spec fn header_salt(file: Seq<u8>) -> Seq<u8> {
    file.subrange(21, 37)
}

/// Whether bytes have the structure of a keyfile.
pub open spec fn is_keyfile(file: Seq<u8>) -> bool {
    file.len() == KEYFILE_LEN && file.take(8) == KEYFILE_MAGIC@ && file[8] == KEYFILE_VERSION
}

/// The secret that a keyfile holds under a passphrase, if it opens.
pub open spec fn keyfile_secret(file: Seq<u8>, passphrase: Seq<u8>) -> Option<Seq<u8>> {
    opened_blob(
        kek_of(passphrase, header_salt(file), header_params(file)),
        file.take(KEYFILE_HEADER_LEN as int),
        file.skip(KEYFILE_HEADER_LEN as int),
    )
}

/// The data key and chunk-identity key that importing a keyfile gives, if it
/// gives any.
pub open spec fn keyfile_keys(file: Seq<u8>, passphrase: Seq<u8>) -> Option<(Seq<u8>, Seq<u8>)> {
    if is_keyfile(file) && refusal_of(passphrase, header_params(file)) is None {
        match keyfile_secret(file, passphrase) {
            Some(secret) => Some((secret.take(32), secret.skip(32))),
            None => None,
        }
    } else {
        None
    }
}

/// Whether importing a keyfile fails with the given error.
pub open spec fn import_error(file: Seq<u8>, passphrase: Seq<u8>, e: CryptoError) -> bool {
    match e {
        CryptoError::KeyfileFormat(m) => if file.len() < 9 {
            m@ == "file too short"@
        } else if file.take(8) != KEYFILE_MAGIC@ {
            m@ == "bad magic bytes"@
        } else {
            file[8] == KEYFILE_VERSION && file.len() != KEYFILE_LEN && m@
                == "wrong length for version 2"@
        },
        CryptoError::KeyfileVersion(v) => {
            &&& file.len() >= 9
            &&& file.take(8) == KEYFILE_MAGIC@
            &&& v == file[8]
            &&& v != KEYFILE_VERSION
        },
        CryptoError::Kdf(m) => {
            is_keyfile(file) && refusal_of(passphrase, header_params(file)) == Some(m@)
        },
        CryptoError::KeyfileUnlock => {
            &&& is_keyfile(file)
            &&& refusal_of(passphrase, header_params(file)) is None
            &&& keyfile_secret(file, passphrase) is None
        },
        _ => false,
    }
}

proof fn lemma_header(params: KdfParams, salt: Seq<u8>, rest: Seq<u8>)
    requires
        salt.len() == 16,
    ensures
        keyfile_header(params, salt).len() == KEYFILE_HEADER_LEN,
        ({
            let file = keyfile_header(params, salt) + rest;
            &&& file.take(8) == KEYFILE_MAGIC@
            &&& file[8] == KEYFILE_VERSION
            &&& header_params(file) == params
            &&& header_salt(file) == salt
            &&& file.take(37) == keyfile_header(params, salt)
            &&& file.skip(37) == rest
        }),
{
    let m = le_bytes(params.m_cost_kib as nat, 4);
    let t = le_bytes(params.t_cost as nat, 4);
    let p = le_bytes(params.p_cost as nat, 4);
    lemma_pow256();
    lemma_le_roundtrip(params.m_cost_kib as nat, 4);
    lemma_le_roundtrip(params.t_cost as nat, 4);
    lemma_le_roundtrip(params.p_cost as nat, 4);
    let header = keyfile_header(params, salt);
    let file = header + rest;
    assert(file.take(8) =~= KEYFILE_MAGIC@);
    assert(file.subrange(9, 13) =~= m);
    assert(file.subrange(13, 17) =~= t);
    assert(file.subrange(17, 21) =~= p);
    assert(file.subrange(21, 37) =~= salt);
    assert(file.take(37) =~= header);
    assert(file.skip(37) =~= rest);
}

/// Exports both keys of a backup set as a passphrase-protected keyfile:
/// header, nonce and sealed secret. Importing the file with the same
/// passphrase gives both keys back.
pub fn export_keyfile(
    data_key: &DataKey,
    chunk_id_key: &ChunkIdKey,
    passphrase: &[u8],
    params: &KdfParams,
    salt: &[u8; 16],
    nonce: &[u8; 24],
) -> (r: Result<Vec<u8>, CryptoError>)
    ensures
        match r {
            Ok(file) => {
                &&& refusal_of(passphrase@, *params) is None
                &&& file@ == keyfile_header(*params, salt@) + sealed_blob(
                    kek_of(passphrase@, salt@, *params),
                    nonce@,
                    keyfile_header(*params, salt@),
                    data_key@ + chunk_id_key@,
                )
                &&& file@.len() == KEYFILE_LEN
                &&& keyfile_keys(file@, passphrase@) == Some((data_key@, chunk_id_key@))
            },
            Err(e) => {
                e matches CryptoError::Kdf(m) && refusal_of(passphrase@, *params) == Some(m@)
            },
        },
{
    let kek: DataKey = match derive_kek(passphrase, salt, params) {
        Ok(k) => k,
        Err(e) => {
            return Err(e);
        },
    };
    let mut header: Vec<u8> = Vec::new();
    let magic: [u8; 8] = KEYFILE_MAGIC;
    push_bytes(&mut header, &magic);
    header.push(KEYFILE_VERSION);
    push_u32(&mut header, params.m_cost_kib);
    push_u32(&mut header, params.t_cost);
    push_u32(&mut header, params.p_cost);
    push_bytes(&mut header, salt);
    let mut payload: Vec<u8> = Vec::new();
    push_bytes(&mut payload, data_key.as_bytes());
    push_bytes(&mut payload, chunk_id_key.as_bytes());
    proof {
        assert(header@ =~= keyfile_header(*params, salt@));
        assert(payload@ =~= data_key@ + chunk_id_key@);
    }
    let sealed: Vec<u8> = match seal(&kek, &header, &payload, nonce) {
        Ok(s) => s,
        Err(e) => {
            return Err(e);
        },
    };
    let mut file: Vec<u8> = header;
    push_bytes(&mut file, &sealed);
    proof {
        lemma_header(*params, salt@, sealed@);
        assert(payload@.take(32) =~= data_key@);
        assert(payload@.skip(32) =~= chunk_id_key@);
    }
    Ok(file)
}

/// Imports a keyfile: both keys, or exactly why not.
pub fn import_keyfile(file: &[u8], passphrase: &[u8]) -> (r: Result<
    (DataKey, ChunkIdKey),
    CryptoError,
>)
    ensures
        match r {
            Ok((data_key, chunk_id_key)) => {
                keyfile_keys(file@, passphrase@) == Some((data_key@, chunk_id_key@))
            },
            Err(e) => {
                keyfile_keys(file@, passphrase@) is None && import_error(file@, passphrase@, e)
            },
        },
{
    if file.len() < 9 {
        return Err(CryptoError::KeyfileFormat("file too short"));
    }
    let magic: [u8; 8] = KEYFILE_MAGIC;
    let head = vstd::slice::slice_subrange(file, 0, 8);
    proof {
        assert(head@ =~= file@.take(8));
    }
    if !same_bytes(head, &magic) {
        return Err(CryptoError::KeyfileFormat("bad magic bytes"));
    }
    let version: u8 = file[8];
    if version != KEYFILE_VERSION {
        return Err(CryptoError::KeyfileVersion(version));
    }
    if file.len() != KEYFILE_LEN {
        return Err(CryptoError::KeyfileFormat("wrong length for version 2"));
    }
    let params: KdfParams = KdfParams {
        m_cost_kib: read_u32(file, 9),
        t_cost: read_u32(file, 13),
        p_cost: read_u32(file, 17),
    };
    let salt: [u8; 16] = array16(file, 21);
    let header = vstd::slice::slice_subrange(file, 0, KEYFILE_HEADER_LEN);
    let sealed = vstd::slice::slice_subrange(file, KEYFILE_HEADER_LEN, KEYFILE_LEN);
    proof {
        assert(params == header_params(file@));
        assert(salt@ =~= header_salt(file@));
        assert(header@ =~= file@.take(37));
        assert(sealed@ =~= file@.skip(37));
    }
    let kek: DataKey = match derive_kek(passphrase, &salt, &params) {
        Ok(k) => k,
        Err(e) => {
            return Err(e);
        },
    };
    match open(&kek, header, sealed) {
        Err(_) => Err(CryptoError::KeyfileUnlock),
        Ok(payload) => {
            if payload.len() != KEYFILE_PAYLOAD_LEN {
                return Err(
                    CryptoError::KeyfileFormat(
                        "sealed payload is not a 64-byte data key + chunk-ID key",
                    ),
                );
            }
            let data_key: [u8; 32] = array32(&payload, 0);
            let chunk_id_key: [u8; 32] = array32(&payload, 32);
            proof {
                assert(data_key@ =~= payload@.take(32));
                assert(chunk_id_key@ =~= payload@.skip(32));
            }
            Ok((DataKey::from_bytes(data_key), ChunkIdKey::from_bytes(chunk_id_key)))
        },
    }
}

/// Two blobs sealed with different nonces differ, whatever they seal.
pub proof fn law_fresh_nonces_make_fresh_blobs(
    key_a: Seq<u8>,
    key_b: Seq<u8>,
    nonce_a: Seq<u8>,
    nonce_b: Seq<u8>,
    aad_a: Seq<u8>,
    aad_b: Seq<u8>,
    a: Seq<u8>,
    b: Seq<u8>,
)
    requires
        nonce_a.len() == NONCE_LEN,
        nonce_b.len() == NONCE_LEN,
        nonce_a != nonce_b,
    ensures
        sealed_blob(key_a, nonce_a, aad_a, a) != sealed_blob(key_b, nonce_b, aad_b, b),
{
    let x = sealed_blob(key_a, nonce_a, aad_a, a);
    let y = sealed_blob(key_b, nonce_b, aad_b, b);
    assert(x.take(24) =~= nonce_a);
    assert(y.take(24) =~= nonce_b);
}

/// No keyfile of another version imports, under any passphrase: it is refused
/// with its version.
pub proof fn law_other_versions_do_not_import(file: Seq<u8>, passphrase: Seq<u8>)
    requires
        file.len() >= 9,
        file.take(8) == KEYFILE_MAGIC@,
        file[8] != KEYFILE_VERSION,
    ensures
        keyfile_keys(file, passphrase) is None,
        import_error(file, passphrase, CryptoError::KeyfileVersion(file[8])),
        forall|e: CryptoError| #[trigger]
            import_error(file, passphrase, e) ==> e == CryptoError::KeyfileVersion(file[8]),
{
}

/// A blob is 24 bytes of nonce and what is sealed with it under the key, bound
/// to the associated data; it opens by the same three, and not at all if it is
/// shorter than nonce and tag.
pub proof fn law_blobs_are_bound(
    key: Seq<u8>,
    nonce: Seq<u8>,
    aad: Seq<u8>,
    plaintext: Seq<u8>,
    blob: Seq<u8>,
)
    requires
        nonce.len() == 24,
    ensures
        sealed_blob(key, nonce, aad, plaintext).take(24) == nonce,
        sealed_blob(key, nonce, aad, plaintext).skip(24) == xchacha_sealed(
            key,
            nonce,
            aad,
            plaintext,
        ),
        blob.len() < 40 ==> opened_blob(key, aad, blob) is None,
        40 <= blob.len() <= MAX_PLAINTEXT_LEN ==> opened_blob(key, aad, blob) == xchacha_opened(
            key,
            blob.take(24),
            aad,
            blob.skip(24),
        ),
{
    let b = sealed_blob(key, nonce, aad, plaintext);
    assert(b.take(24) =~= nonce);
    assert(b.skip(24) =~= xchacha_sealed(key, nonce, aad, plaintext));
}

/// A keyfile starts with eight magic bytes and its version, then holds the three
/// costs in four bytes each, the low byte first, and the salt.
pub proof fn law_keyfile_header(params: KdfParams, salt: Seq<u8>, rest: Seq<u8>)
    requires
        salt.len() == 16,
    ensures
        ({
            let file = keyfile_header(params, salt) + rest;
            &&& keyfile_header(params, salt).len() == 37
            &&& file.take(8) == KEYFILE_MAGIC@
            &&& file[8] == 2
            &&& le_value(file.subrange(9, 13)) == params.m_cost_kib
            &&& le_value(file.subrange(13, 17)) == params.t_cost
            &&& le_value(file.subrange(17, 21)) == params.p_cost
            &&& file.subrange(21, 37) == salt
            &&& header_params(file) == params
            &&& header_salt(file) == salt
        }),
{
    lemma_header(params, salt, rest);
    let file = keyfile_header(params, salt) + rest;
    lemma_pow256();
    lemma_le_roundtrip(params.m_cost_kib as nat, 4);
    lemma_le_roundtrip(params.t_cost as nat, 4);
    lemma_le_roundtrip(params.p_cost as nat, 4);
    assert(file.subrange(9, 13) =~= le_bytes(params.m_cost_kib as nat, 4));
    assert(file.subrange(13, 17) =~= le_bytes(params.t_cost as nat, 4));
    assert(file.subrange(17, 21) =~= le_bytes(params.p_cost as nat, 4));
}

/// A keyfile gives keys just if it has the right shape, the derivation takes the
/// passphrase, and the rest of the file opens under the derived key with the
/// header as associated data; the first 32 bytes of the secret are the data key
/// and the others the chunk-identity key.
pub proof fn law_keyfile_opens_just_if(file: Seq<u8>, passphrase: Seq<u8>)
    ensures
        keyfile_keys(file, passphrase) is Some <==> {
            &&& file.len() == KEYFILE_LEN
            &&& file.take(8) == KEYFILE_MAGIC@
            &&& file[8] == 2
            &&& refusal_of(passphrase, header_params(file)) is None
            &&& opened_blob(
                argon2id_key(
                    passphrase,
                    header_salt(file),
                    header_params(file).m_cost_kib,
                    header_params(file).t_cost,
                    header_params(file).p_cost,
                ),
                file.take(37),
                file.skip(37),
            ) is Some
        },
        keyfile_keys(file, passphrase) matches Some((data, chunk_id)) ==> {
            let secret = opened_blob(
                argon2id_key(
                    passphrase,
                    header_salt(file),
                    header_params(file).m_cost_kib,
                    header_params(file).t_cost,
                    header_params(file).p_cost,
                ),
                file.take(37),
                file.skip(37),
            )->0;
            data == secret.take(32) && chunk_id == secret.skip(32)
        },
{
}

/// The derivation takes a passphrase below four gibibytes at any time cost, with
/// from one to sixteen million threads, and at least eight kibibytes of memory
/// for each.
pub proof fn law_costs_taken(passphrase: Seq<u8>, params: KdfParams)
    ensures
        refusal_of(passphrase, params) is None <==> {
            &&& params.t_cost >= 1
            &&& 1 <= params.p_cost <= 0xFF_FFFF
            &&& params.m_cost_kib >= 8 * params.p_cost
            &&& params.m_cost_kib * 1024 <= isize::MAX
            &&& passphrase.len() <= 0xFFFF_FFFF
        },
{
}

/// Importing fails just where there are no keys, with one error for each cause:
/// a file that is too short or starts otherwise, another version, another
/// length, refused costs, and a secret that does not open.
pub proof fn law_import_fails_for_a_cause(file: Seq<u8>, passphrase: Seq<u8>, e: CryptoError)
    requires
        import_error(file, passphrase, e),
    ensures
        keyfile_keys(file, passphrase) is None,
        e is KeyfileFormat <==> file.len() < 9 || file.take(8) != KEYFILE_MAGIC@ || (file[8] == 2
            && file.len() != KEYFILE_LEN),
        e is KeyfileVersion <==> file.len() >= 9 && file.take(8) == KEYFILE_MAGIC@ && file[8] != 2,
        e is Kdf || e is KeyfileUnlock <==> file.len() == KEYFILE_LEN && file.take(8)
            == KEYFILE_MAGIC@ && file[8] == 2,
{
}

/// A blob that does not open is too short for nonce and tag, and its length is
/// told, or it does not authenticate.
pub proof fn law_opening_fails_for_a_cause(
    key: Seq<u8>,
    aad: Seq<u8>,
    blob: Seq<u8>,
    e: CryptoError,
)
    requires
        open_error(key, aad, blob, e),
    ensures
        opened_blob(key, aad, blob) is None,
        e is BlobTooShort <==> blob.len() < 40,
        e matches CryptoError::BlobTooShort { got } ==> got == blob.len(),
        e is Decrypt <==> blob.len() >= 40,
{
}

} // verus!
