//! Local state of an enrolled client.
use vstd::prelude::*;

use crate::bytes::array32;
use crate::chunking::ChunkIdKey;
use crate::crypto::DataKey;
use crate::text::{trim_chars, trimmed};

verus! {

/// File of the client's private key.
pub const CLIENT_KEY_FILE: &'static str = "client-key.pem";

/// File of the client's certificate.
pub const CLIENT_CERT_FILE: &'static str = "client-cert.pem";

/// File of the daemon's pinned certificate authority.
pub const CA_CERT_FILE: &'static str = "ca-cert.pem";

/// File of the backup set's data key.
pub const DATA_KEY_FILE: &'static str = "data.key";

/// File of the backup set's chunk-identity key.
pub const CHUNK_ID_KEY_FILE: &'static str = "chunk-id.key";

/// Errors of enrollment and of the local state.
#[derive(Debug, Clone, Copy, PartialEq, Eq)]
pub enum EnrollError {
    /// The daemon's answer makes no sense.
    BadResponse(&'static str),
    /// A key file does not hold 32 bytes.
    BadDataKey {
        /// How many it holds.
        found: usize,
    },
    /// A key file does not exist.
    NoKey,
}

fn key_bytes(contents: &[u8]) -> (r: Result<[u8; 32], EnrollError>)
    ensures
        match r {
            Ok(k) => contents@.len() == 32 && k@ == contents@,
            Err(e) => contents@.len() != 32 && e == (EnrollError::BadDataKey {
                found: contents@.len() as usize,
            }),
        },
{
    if contents.len() != 32 {
        return Err(EnrollError::BadDataKey { found: contents.len() });
    }
    let k: [u8; 32] = array32(contents, 0);
    proof {
        assert(k@ =~= contents@);
    }
    Ok(k)
}

/// The data key in a key file's contents, `None` for a file that does not
/// exist.
pub fn load_data_key(contents: Option<&[u8]>) -> (r: Result<DataKey, EnrollError>)
    ensures
        match contents {
            None => r == Err::<DataKey, EnrollError>(EnrollError::NoKey),
            Some(c) => match r {
                Ok(k) => c@.len() == 32 && k@ == c@,
                Err(e) => c@.len() != 32 && e == (EnrollError::BadDataKey {
                    found: c@.len() as usize,
                }),
            },
        },
{
    match contents {
        None => Err(EnrollError::NoKey),
        Some(c) => match key_bytes(c) {
            Ok(k) => Ok(DataKey::from_bytes(k)),
            Err(e) => Err(e),
        },
    }
}

/// The chunk-identity key in a key file's contents, `None` for a file that
/// does not exist.
pub fn load_chunk_id_key(contents: Option<&[u8]>) -> (r: Result<ChunkIdKey, EnrollError>)
    ensures
        match contents {
            None => r == Err::<ChunkIdKey, EnrollError>(EnrollError::NoKey),
            Some(c) => match r {
                Ok(k) => c@.len() == 32 && k@ == c@,
                Err(e) => c@.len() != 32 && e == (EnrollError::BadDataKey {
                    found: c@.len() as usize,
                }),
            },
        },
{
    match contents {
        None => Err(EnrollError::NoKey),
        Some(c) => match key_bytes(c) {
            Ok(k) => Ok(ChunkIdKey::from_bytes(k)),
            Err(e) => Err(e),
        },
    }
}

/// Decides whether a key has to be written: a freshly drawn one where there is
/// no file, none where there is a key. A file that is not a key is reported,
/// never overwritten.
pub fn ensure_data_key(contents: Option<&[u8]>, drawn: [u8; 32]) -> (r: Result<
    Option<[u8; 32]>,
    EnrollError,
>)
    ensures
        match contents {
            None => r matches Ok(Some(k)) && k@ == drawn@,
            Some(c) => if c@.len() == 32 {
                r == Ok::<Option<[u8; 32]>, EnrollError>(None)
            } else {
                r == Err::<Option<[u8; 32]>, EnrollError>(
                    EnrollError::BadDataKey { found: c@.len() as usize },
                )
            },
        },
{
    match contents {
        None => Ok(Some(drawn)),
        Some(c) => match key_bytes(c) {
            Ok(_) => Ok(None),
            Err(e) => Err(e),
        },
    }
}

/// Checks that the daemon sent a certificate.
pub fn check_certificate(cert_pem: &str) -> (r: Result<(), EnrollError>)
    ensures
        match r {
            Ok(()) => trimmed(cert_pem@).len() > 0,
            Err(e) => trimmed(cert_pem@).len() == 0 && (e matches EnrollError::BadResponse(m) && m@
                == "empty certificate"@),
        },
{
    let chars: Vec<char> = trim_chars(cert_pem);
    if chars.len() == 0 {
        return Err(EnrollError::BadResponse("empty certificate"));
    }
    Ok(())
}

/// The name of the file that is written before it takes another's place.
#[must_use]
pub fn temp_name(file_name: Option<&str>) -> (r: String)
    ensures
        r@ == ".tmp-"@ + match file_name {
            Some(n) => n@,
            None => "state"@,
        },
{
    let mut out: String = String::new();
    out.push_str(".tmp-");
    match file_name {
        Some(n) => {
            out.push_str(n);
        },
        None => {
            out.push_str("state");
        },
    }
    proof {
        assert(out@ =~= ".tmp-"@ + match file_name {
            Some(n) => n@,
            None => "state"@,
        });
    }
    out
}

} // verus!
