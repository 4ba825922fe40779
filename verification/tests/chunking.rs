use std::collections::HashSet;
use std::io::{Cursor, Read};

use busyncr::chunking::{
    chunk_bytes, chunk_bytes_keyed, identify_chunk, Chunk, ChunkId, ChunkIdKey, ChunkIdParseError,
    ChunkerConfig, ChunkingError, MAX_SIZE_CEILING, MAX_SIZE_FLOOR, MIN_SIZE_CEILING,
    MIN_SIZE_FLOOR, TARGET_SIZE_CEILING, TARGET_SIZE_FLOOR,
};
use rand::rngs::StdRng;
use rand::{Rng, SeedableRng};

/// Deterministic pseudo-random bytes for reproducible tests.
fn random_bytes(len: usize, seed: u64) -> Vec<u8> {
    let mut rng = StdRng::seed_from_u64(seed);
    let mut buf = vec![0u8; len];
    rng.fill_bytes(&mut buf);
    buf
}

/// A configuration small enough to give many chunks from a few MiB.
fn small_config() -> ChunkerConfig {
    ChunkerConfig::with_target(64 * 1024).unwrap()
}

/// The chunks of a reader, cut by the streaming chunker and identified by the library.
fn stream_chunks<R: Read>(source: R, config: &ChunkerConfig) -> Result<Vec<Chunk>, ChunkingError> {
    let cdc = fastcdc::v2020::StreamCDC::new(
        source,
        config.cut_min(),
        config.target_size(),
        config.max_size(),
    );
    let mut out = Vec::new();
    for item in cdc {
        match item {
            Ok(c) => out.push(identify_chunk(c.offset, c.data, None)),
            Err(fastcdc::v2020::Error::IoError(e)) => {
                return Err(ChunkingError::Io(e.to_string()))
            }
            Err(e) => return Err(ChunkingError::Internal(e.to_string())),
        }
    }
    Ok(out)
}

fn collect_stream(data: &[u8], config: &ChunkerConfig) -> Vec<Chunk> {
    stream_chunks(Cursor::new(data.to_vec()), config).unwrap()
}

#[test]
fn determinism_same_input_same_chunks_and_ids() {
    let data = random_bytes(3 * 1024 * 1024, 1);
    let cfg = small_config();
    let a = chunk_bytes(&data, &cfg);
    let b = chunk_bytes(&data, &cfg);
    assert!(!a.is_empty());
    assert_eq!(a, b, "same input must produce identical chunk sequences");

    let mut expected_offset = 0u64;
    let mut reassembled = Vec::with_capacity(data.len());
    for chunk in &a {
        assert_eq!(chunk.offset, expected_offset, "chunks must be contiguous");
        expected_offset += chunk.len() as u64;
        reassembled.extend_from_slice(&chunk.data);
    }
    assert_eq!(reassembled, data, "concatenated chunks must equal input");
}

#[test]
fn boundary_shift_one_byte_insert_keeps_over_90_percent_of_ids() {
    let original = random_bytes(10 * 1024 * 1024, 2);
    let mut shifted = Vec::with_capacity(original.len() + 1);
    shifted.push(0xA5);
    shifted.extend_from_slice(&original);

    let cfg = small_config();
    let ids_original: Vec<ChunkId> = chunk_bytes(&original, &cfg).iter().map(|c| c.id).collect();
    let ids_shifted: HashSet<ChunkId> = chunk_bytes(&shifted, &cfg).iter().map(|c| c.id).collect();

    assert!(
        ids_original.len() >= 100,
        "need a statistically meaningful chunk count, got {}",
        ids_original.len()
    );
    let surviving = ids_original
        .iter()
        .filter(|id| ids_shifted.contains(id))
        .count();
    let ratio = surviving as f64 / ids_original.len() as f64;
    assert!(
        ratio > 0.90,
        "expected >90% of chunk IDs to survive a 1-byte prefix insert, \
         got {surviving}/{} ({ratio:.3})",
        ids_original.len()
    );
}

#[test]
fn size_bounds_honored() {
    let data = random_bytes(5 * 1024 * 1024, 3);
    let cfg = small_config();
    let chunks = chunk_bytes(&data, &cfg);
    assert!(chunks.len() > 1);
    for (i, chunk) in chunks.iter().enumerate() {
        assert!(
            chunk.len() <= cfg.max_size(),
            "chunk {i} length {} exceeds max {}",
            chunk.len(),
            cfg.max_size()
        );
        if i + 1 != chunks.len() {
            assert!(
                chunk.len() >= cfg.min_size(),
                "non-final chunk {i} length {} below min {}",
                chunk.len(),
                cfg.min_size()
            );
        }
        assert!(!chunk.is_empty());
    }
}

#[test]
fn empty_input_yields_zero_chunks() {
    let cfg = small_config();
    assert!(chunk_bytes(&[], &cfg).is_empty());
    assert!(collect_stream(&[], &cfg).is_empty());
}

#[test]
fn input_smaller_than_min_yields_single_chunk() {
    let cfg = small_config();
    let data = random_bytes(100, 4);
    assert!(data.len() < cfg.min_size());

    for chunks in [chunk_bytes(&data, &cfg), collect_stream(&data, &cfg)] {
        assert_eq!(chunks.len(), 1, "sub-min input must yield exactly 1 chunk");
        assert_eq!(chunks[0].offset, 0);
        assert_eq!(chunks[0].data, data);
        assert_eq!(chunks[0].id, ChunkId::of(&data));
    }
}

#[test]
fn streaming_equals_in_memory() {
    let data = random_bytes(4 * 1024 * 1024 + 12345, 5);
    let cfg = small_config();
    let in_memory = chunk_bytes(&data, &cfg);
    let streamed = collect_stream(&data, &cfg);
    assert!(in_memory.len() > 1);
    assert_eq!(
        in_memory, streamed,
        "streaming and in-memory chunking must produce identical results"
    );
}

struct FailingReader;

impl Read for FailingReader {
    fn read(&mut self, _buf: &mut [u8]) -> std::io::Result<usize> {
        Err(std::io::Error::other("simulated disk failure"))
    }
}

#[test]
fn streaming_propagates_io_errors() {
    let cfg = small_config();
    let result = stream_chunks(FailingReader, &cfg);
    assert!(matches!(result, Err(ChunkingError::Io(_))));
}

#[test]
fn chunk_id_is_blake3_of_plaintext() {
    let data = b"busyncr chunk identity check";
    let id = ChunkId::of(data);
    assert_eq!(id.as_bytes(), blake3::hash(data).as_bytes());
    assert_eq!(id.to_string(), blake3::hash(data).to_hex().to_string());
}

#[test]
fn chunk_id_hex_display_fromstr_roundtrip() {
    let id = ChunkId::of(b"roundtrip");
    let hex = id.to_string();
    assert_eq!(hex.len(), 64);
    assert!(hex.chars().all(|c| c.is_ascii_hexdigit()));
    let parsed: ChunkId = hex.parse().unwrap();
    assert_eq!(parsed, id);

    let parsed_upper: ChunkId = hex.to_uppercase().parse().unwrap();
    assert_eq!(parsed_upper, id);
}

#[test]
fn chunk_id_fromstr_rejects_bad_input() {
    assert_eq!(
        "abc".parse::<ChunkId>(),
        Err(ChunkIdParseError::BadLength(3))
    );
    let too_long = "0".repeat(65);
    assert_eq!(
        too_long.parse::<ChunkId>(),
        Err(ChunkIdParseError::BadLength(65))
    );
    let bad_char = format!("g{}", "0".repeat(63));
    assert_eq!(
        bad_char.parse::<ChunkId>(),
        Err(ChunkIdParseError::BadChar('g'))
    );
    let emoji = "🦀".repeat(32);
    assert!(emoji.parse::<ChunkId>().is_err());
}

#[test]
fn config_defaults_follow_target_ratios() {
    let cfg = ChunkerConfig::with_target(1024 * 1024).unwrap();
    assert_eq!(cfg.min_size(), 256 * 1024);
    assert_eq!(cfg.target_size(), 1024 * 1024);
    assert_eq!(cfg.max_size(), 4 * 1024 * 1024);
    assert_eq!(cfg, ChunkerConfig::default());
}

#[test]
fn config_rejects_invalid_sizes() {
    // Unordered.
    assert!(matches!(
        ChunkerConfig::new(8192, 4096, 65536),
        Err(ChunkingError::InvalidConfig(_))
    ));
    // A minimum below the chunker's floor.
    assert!(matches!(
        ChunkerConfig::new(16, 4096, 65536),
        Err(ChunkingError::InvalidConfig(_))
    ));
    // A maximum above the chunker's ceiling.
    assert!(matches!(
        ChunkerConfig::new(4096, 65536, MAX_SIZE_CEILING + 1),
        Err(ChunkingError::InvalidConfig(_))
    ));
    // A target above the chunker's ceiling.
    assert!(matches!(
        ChunkerConfig::with_target(32 * 1024 * 1024),
        Err(ChunkingError::InvalidConfig(_))
    ));
    // The largest benchmark candidate must be valid.
    let cfg = ChunkerConfig::with_target(4 * 1024 * 1024).unwrap();
    assert_eq!(cfg.max_size(), MAX_SIZE_CEILING);
}

#[test]
fn the_size_limits_are_those_of_the_chunker() {
    assert_eq!(MIN_SIZE_FLOOR, fastcdc::v2020::MINIMUM_MIN);
    assert_eq!(MIN_SIZE_CEILING, fastcdc::v2020::MINIMUM_MAX);
    assert_eq!(TARGET_SIZE_FLOOR, fastcdc::v2020::AVERAGE_MIN);
    assert_eq!(TARGET_SIZE_CEILING, fastcdc::v2020::AVERAGE_MAX);
    assert_eq!(MAX_SIZE_FLOOR, fastcdc::v2020::MAXIMUM_MIN);
    assert_eq!(MAX_SIZE_CEILING, fastcdc::v2020::MAXIMUM_MAX);
}

#[test]
fn keying_keeps_the_cut_points_and_changes_the_identities() {
    let data = random_bytes(1024 * 1024, 6);
    let cfg = small_config();
    let key = ChunkIdKey::generate([7; 32]);
    let plain = chunk_bytes(&data, &cfg);
    let keyed = chunk_bytes_keyed(&data, &cfg, &key);
    assert!(plain.len() > 1);
    assert_eq!(plain.len(), keyed.len());
    for (p, k) in plain.iter().zip(&keyed) {
        assert_eq!(p.offset, k.offset);
        assert_eq!(p.data, k.data);
        assert_ne!(p.id, k.id);
        assert_eq!(k.id, ChunkId::keyed(&key, &p.data));
    }
}

#[test]
fn a_keyed_identity_is_the_keyed_digest() {
    let data = b"keyed identity";
    let bytes = [9u8; 32];
    let key = ChunkIdKey::from_bytes(bytes);
    assert_eq!(key.as_bytes(), &bytes);
    let id = ChunkId::keyed(&key, data);
    assert_eq!(id.as_bytes(), blake3::keyed_hash(&bytes, data).as_bytes());
    assert_ne!(id, ChunkId::of(data));
    let other = ChunkId::keyed(&ChunkIdKey::from_bytes([10; 32]), data);
    assert_ne!(id, other);
    assert_eq!(identify_chunk(5, data.to_vec(), Some(&key)).id, id);
    assert_eq!(identify_chunk(5, data.to_vec(), None).id, ChunkId::of(data));
    assert_eq!(identify_chunk(5, data.to_vec(), None).offset, 5);
}

#[test]
fn a_wire_identity_has_the_digest_length() {
    let id = ChunkId::of(b"wire");
    assert_eq!(id.to_wire(), id.as_bytes().to_vec());
    assert_eq!(ChunkId::from_wire(&id.to_wire()), Some(id));
    assert_eq!(ChunkId::from_wire(&[0; 31]), None);
    assert_eq!(ChunkId::from_wire(&[0; 33]), None);
    assert!(id.same(&ChunkId::from_bytes(*id.as_bytes())));
    assert!(!id.same(&ChunkId::of(b"other")));
}

#[test]
fn a_refused_configuration_says_why() {
    assert_eq!(
        ChunkerConfig::new(64, 255, 1024),
        Err(ChunkingError::InvalidConfig(
            "target_size 255 outside supported range 256..=4194304".to_string()
        ))
    );
    assert!(ChunkerConfig::new(64, 256, 1024).is_ok());
    assert!(ChunkerConfig::new(64, 256, 1023).is_err());
    assert!(ChunkerConfig::new(63, 256, 1024).is_err());
}

#[test]
fn an_odd_minimum_is_kept_to_the_byte() {
    let cfg = ChunkerConfig::new(1025, 4096, 16384).unwrap();
    assert_eq!(cfg.min_size(), 1025);
    assert_eq!(cfg.cut_min(), 1026);
    let data = random_bytes(2 * 1024 * 1024, 8);
    let chunks = chunk_bytes(&data, &cfg);
    assert!(chunks.len() > 100);
    for chunk in &chunks[..chunks.len() - 1] {
        assert!(chunk.len() >= 1025 && chunk.len() <= 16384);
    }
    assert_eq!(chunks, collect_stream(&data, &cfg));

    let fixed = ChunkerConfig::new(1025, 1025, 1025).unwrap();
    assert_eq!(fixed.cut_min(), 1025);
    let lens: Vec<usize> = chunk_bytes(&data[..2060], &fixed).iter().map(Chunk::len).collect();
    assert_eq!(lens, vec![1025, 1025, 10]);

    let even = ChunkerConfig::with_target(4096).unwrap();
    assert_eq!(even.cut_min(), even.min_size());
}
