use std::borrow::Cow;

use busyncr::chunking::ChunkId;
use busyncr::compression::{
    choose_codec, compress_zstd, decide, decode_chunk, decompress_zstd, encode_chunk, frame,
    lz4_probe_len, unframe, CodecId, CompressionError, Decision, Phase, PolicyConfig,
    PolicyCounters, Stored, DEFAULT_ESCALATE_LEVEL, DEFAULT_ESCALATE_RATIO, DEFAULT_KEEP_THRESHOLD,
    DEFAULT_PROBE_THRESHOLD, DEFAULT_ZSTD_LEVEL,
};
use busyncr::crypto::{decrypt_chunk, encrypt_chunk, DataKey};
use busyncr::ratio::Ratio;
use rand::rngs::StdRng;
use rand::{Rng, SeedableRng};

fn rng(seed: u64) -> StdRng {
    StdRng::seed_from_u64(seed)
}

fn draw32(r: &mut StdRng) -> [u8; 32] {
    let mut out = [0u8; 32];
    r.fill_bytes(&mut out);
    out
}

fn draw24(r: &mut StdRng) -> [u8; 24] {
    let mut out = [0u8; 24];
    r.fill_bytes(&mut out);
    out
}

/// Repetitive text, which zstd compresses well.
fn compressible_chunk(len: usize) -> Vec<u8> {
    b"the quick brown fox jumps over the lazy dog. "
        .iter()
        .copied()
        .cycle()
        .take(len)
        .collect()
}

fn incompressible_chunk(len: usize, seed: u64) -> Vec<u8> {
    let mut r = rng(seed);
    let mut buf = vec![0u8; len];
    r.fill_bytes(&mut buf);
    buf
}

#[test]
fn frame_prepends_exactly_one_codec_byte() {
    let payload = b"hello world";
    let framed_raw = frame(CodecId::Raw, payload);
    assert_eq!(framed_raw.len(), payload.len() + 1);
    assert_eq!(framed_raw[0], 0);
    assert_eq!(&framed_raw[1..], payload);

    let framed_zstd = frame(CodecId::Zstd, payload);
    assert_eq!(framed_zstd[0], 1);
}

#[test]
fn unframe_rejects_empty_and_unknown_codec() {
    assert!(matches!(unframe(&[]), Err(CompressionError::Empty)));
    for reserved in [2u8, 3, 42, 255] {
        let framed = frame_raw_byte(reserved, b"payload");
        assert!(matches!(
            unframe(&framed),
            Err(CompressionError::UnknownCodec(b)) if b == reserved
        ));
    }
}

fn frame_raw_byte(byte: u8, payload: &[u8]) -> Vec<u8> {
    let mut out = vec![byte];
    out.extend_from_slice(payload);
    out
}

#[test]
fn codec_id_byte_roundtrip() {
    assert_eq!(CodecId::from_byte(0).unwrap(), CodecId::Raw);
    assert_eq!(CodecId::from_byte(1).unwrap(), CodecId::Zstd);
    assert_eq!(CodecId::Raw.to_byte(), 0);
    assert_eq!(CodecId::Zstd.to_byte(), 1);
}

#[test]
fn frc1_raw_codec_roundtrips_byte_exact() {
    let mut r = rng(1);
    let key = DataKey::generate(draw32(&mut r));
    let plaintext = compressible_chunk(50_000);
    let id = ChunkId::of(&plaintext);

    let framed = frame(CodecId::Raw, &plaintext);
    let blob = encrypt_chunk(&key, &id, &framed, &draw24(&mut r)).unwrap();
    let decrypted = decrypt_chunk(&key, &id, &blob).unwrap();
    let decoded = decode_chunk(&decrypted).unwrap();
    assert_eq!(decoded, plaintext);
}

#[test]
fn frc1_zstd_codec_roundtrips_byte_exact() {
    let mut r = rng(2);
    let key = DataKey::generate(draw32(&mut r));
    let plaintext = compressible_chunk(50_000);
    let id = ChunkId::of(&plaintext);

    let compressed = compress_zstd(&plaintext, DEFAULT_ZSTD_LEVEL).unwrap();
    assert!(
        compressed.len() < plaintext.len(),
        "sanity: repetitive text must actually compress"
    );
    let framed = frame(CodecId::Zstd, &compressed);
    let blob = encrypt_chunk(&key, &id, &framed, &draw24(&mut r)).unwrap();
    let decrypted = decrypt_chunk(&key, &id, &blob).unwrap();
    let decoded = decode_chunk(&decrypted).unwrap();
    assert_eq!(decoded, plaintext);
}

#[test]
fn frc1_empty_chunk_roundtrips_under_both_codecs() {
    let mut r = rng(3);
    let key = DataKey::generate(draw32(&mut r));
    let id = ChunkId::of(b"");

    for codec in [CodecId::Raw, CodecId::Zstd] {
        let payload: Vec<u8> = if codec == CodecId::Zstd {
            compress_zstd(b"", DEFAULT_ZSTD_LEVEL).unwrap()
        } else {
            Vec::new()
        };
        let framed = frame(codec, &payload);
        let blob = encrypt_chunk(&key, &id, &framed, &draw24(&mut r)).unwrap();
        let decrypted = decrypt_chunk(&key, &id, &blob).unwrap();
        assert_eq!(decode_chunk(&decrypted).unwrap(), Vec::<u8>::new());
    }
}

#[test]
fn frc1_unknown_codec_byte_is_integrity_error_not_silent_output() {
    let mut r = rng(4);
    let key = DataKey::generate(draw32(&mut r));
    let payload = b"some plaintext payload".to_vec();
    let id = ChunkId::of(&payload);

    for reserved in [2u8, 200, 255] {
        let framed = frame_raw_byte(reserved, &payload);
        let blob = encrypt_chunk(&key, &id, &framed, &draw24(&mut r)).unwrap();
        let decrypted = decrypt_chunk(&key, &id, &blob).unwrap();
        let result = decode_chunk(&decrypted);
        assert!(
            matches!(result, Err(CompressionError::UnknownCodec(b)) if b == reserved),
            "reserved codec byte {reserved} must error, not decode silently"
        );
    }
}

#[test]
fn frc1_encode_decode_chunk_helpers_agree_with_choose_codec() {
    let mut counters = PolicyCounters::default();
    let cfg = PolicyConfig::default();
    let plaintext = compressible_chunk(80_000);
    let framed = encode_chunk(&plaintext, Phase::Incremental, &cfg, &mut counters);
    let decoded = decode_chunk(&framed).unwrap();
    assert_eq!(decoded, plaintext);
    assert_eq!(counters.zstd3, 1);
    assert_eq!(counters.raw, 0);
}

#[test]
fn policy_keeps_compression_exactly_at_keep_threshold_boundary() {
    let plaintext = compressible_chunk(200_000);
    let zstd3 = compress_zstd(&plaintext, DEFAULT_ZSTD_LEVEL).unwrap();
    // The achieved share is `achieved` out of `whole`; `hundredth` is 0.01 of it.
    let whole = plaintext.len() as u64 * 100;
    let achieved = zstd3.len() as u64 * 100;
    let hundredth = plaintext.len() as u64;

    // A looser threshold keeps the compressed form.
    let mut counters_keep = PolicyCounters::default();
    let cfg_keep = PolicyConfig {
        keep_threshold: Ratio::new(achieved + hundredth, whole),
        ..PolicyConfig::default()
    };
    let (codec, _) = choose_codec(
        &plaintext,
        Phase::InitialFull,
        &cfg_keep,
        &mut counters_keep,
    );
    assert_eq!(codec, CodecId::Zstd);
    assert_eq!(counters_keep.zstd3, 1);

    // A tighter threshold falls back to raw. The achieved share is under one
    // hundredth here, so a threshold one hundredth below it is negative: no
    // compressed form meets it, nor does any meet zero.
    let mut counters_raw = PolicyCounters::default();
    let cfg_raw = PolicyConfig {
        keep_threshold: Ratio::new(achieved.saturating_sub(hundredth), whole),
        ..PolicyConfig::default()
    };
    let (codec, payload) =
        choose_codec(&plaintext, Phase::InitialFull, &cfg_raw, &mut counters_raw);
    assert_eq!(codec, CodecId::Raw);
    assert_eq!(payload.as_ref(), plaintext.as_slice());
    assert_eq!(counters_raw.raw, 1);

    // Exactly at the achieved share the compressed form is kept; one byte
    // below, it is not.
    let mut counters = PolicyCounters::default();
    let cfg_exact = PolicyConfig {
        keep_threshold: Ratio::new(zstd3.len() as u64, plaintext.len() as u64),
        ..PolicyConfig::default()
    };
    let (codec, _) = choose_codec(&plaintext, Phase::InitialFull, &cfg_exact, &mut counters);
    assert_eq!(codec, CodecId::Zstd);
    let cfg_below = PolicyConfig {
        keep_threshold: Ratio::new(zstd3.len() as u64 - 1, plaintext.len() as u64),
        ..PolicyConfig::default()
    };
    let (codec, _) = choose_codec(&plaintext, Phase::InitialFull, &cfg_below, &mut counters);
    assert_eq!(codec, CodecId::Raw);
}

#[test]
fn policy_stores_incompressible_data_raw_by_default() {
    let mut counters = PolicyCounters::default();
    let chunk = incompressible_chunk(64 * 1024, 42);
    let (codec, payload) = choose_codec(
        &chunk,
        Phase::InitialFull,
        &PolicyConfig::default(),
        &mut counters,
    );
    assert_eq!(codec, CodecId::Raw);
    assert_eq!(payload.len(), chunk.len());
    assert_eq!(counters.raw, 1);
    assert_eq!(counters.bytes_saved(), 0);
}

#[test]
fn policy_compresses_repetitive_data_by_default() {
    let mut counters = PolicyCounters::default();
    let chunk = compressible_chunk(200_000);
    let (codec, payload) = choose_codec(
        &chunk,
        Phase::InitialFull,
        &PolicyConfig::default(),
        &mut counters,
    );
    assert_eq!(codec, CodecId::Zstd);
    assert!(payload.len() < chunk.len());
    assert_eq!(counters.zstd3, 1);
    assert!(counters.bytes_saved() > 0);
}

#[test]
fn policy_empty_chunk_is_always_raw() {
    let mut counters = PolicyCounters::default();
    let (codec, payload) = choose_codec(
        &[],
        Phase::Incremental,
        &PolicyConfig::default(),
        &mut counters,
    );
    assert_eq!(codec, CodecId::Raw);
    assert!(payload.is_empty());
    assert_eq!(counters.raw, 1);
    assert_eq!(counters.total(), 1);
}

#[test]
fn policy_raw_payload_is_borrowed_not_copied() {
    let chunk = incompressible_chunk(4096, 99);
    let mut counters = PolicyCounters::default();
    let (codec, payload) = choose_codec(
        &chunk,
        Phase::InitialFull,
        &PolicyConfig::default(),
        &mut counters,
    );
    assert_eq!(codec, CodecId::Raw);
    assert!(
        matches!(payload, Cow::Borrowed(_)),
        "raw path must be zero-copy"
    );
}

#[test]
fn probe_rejects_low_compressibility_without_invoking_zstd_keep() {
    let chunk = incompressible_chunk(64 * 1024, 7);
    let mut counters = PolicyCounters::default();
    let cfg = PolicyConfig {
        use_probe: true,
        ..PolicyConfig::default()
    };
    let (codec, _) = choose_codec(&chunk, Phase::InitialFull, &cfg, &mut counters);
    assert_eq!(codec, CodecId::Raw);
    assert_eq!(counters.raw, 1);
}

#[test]
fn probe_allows_compressible_data_through_to_zstd() {
    let chunk = compressible_chunk(200_000);
    let mut counters = PolicyCounters::default();
    let cfg = PolicyConfig {
        use_probe: true,
        ..PolicyConfig::default()
    };
    let (codec, payload) = choose_codec(&chunk, Phase::InitialFull, &cfg, &mut counters);
    assert_eq!(codec, CodecId::Zstd);
    assert!(payload.len() < chunk.len());
    assert_eq!(counters.zstd3, 1);
}

#[test]
fn probe_threshold_boundary_flips_outcome() {
    let chunk = incompressible_chunk(64 * 1024, 11);
    let probe_len = lz4_probe_len(&chunk).max(1) as u64;
    // The achieved ratio is `achieved` out of `whole`; `half` is 0.5 of it.
    let achieved = chunk.len() as u64 * 2;
    let whole = probe_len * 2;
    let half = probe_len;

    let mut counters_raw = PolicyCounters::default();
    let cfg_raw = PolicyConfig {
        use_probe: true,
        probe_threshold: Ratio::new(achieved + half, whole),
        ..PolicyConfig::default()
    };
    let (codec, _) = choose_codec(&chunk, Phase::InitialFull, &cfg_raw, &mut counters_raw);
    assert_eq!(codec, CodecId::Raw);

    let mut counters_pass = PolicyCounters::default();
    let cfg_pass = PolicyConfig {
        use_probe: true,
        probe_threshold: Ratio::new(achieved.saturating_sub(half), whole),
        ..PolicyConfig::default()
    };
    let (_, _) = choose_codec(&chunk, Phase::InitialFull, &cfg_pass, &mut counters_pass);
    assert_eq!(counters_pass.total(), 1);
}

/// A chunk that clears the default escalation ratio at the base level, and in
/// which the higher level still finds more redundancy: 200 distinct 500-byte
/// records, repeated in the same order 4 times.
fn escalation_candidate() -> Vec<u8> {
    let mut r = rng(777);
    let mut records: Vec<Vec<u8>> = Vec::with_capacity(200);
    for _ in 0..200 {
        let mut rec = vec![0u8; 500];
        r.fill_bytes(&mut rec);
        records.push(rec);
    }
    let mut out = Vec::with_capacity(200 * 500 * 4);
    for _ in 0..4 {
        for rec in &records {
            out.extend_from_slice(rec);
        }
    }
    out
}

#[test]
fn frc6_escalation_never_fires_during_initial_full_backup() {
    let chunk = escalation_candidate();
    let mut counters = PolicyCounters::default();
    let cfg = PolicyConfig {
        escalate: true,
        ..PolicyConfig::default()
    };
    let (codec, _) = choose_codec(&chunk, Phase::InitialFull, &cfg, &mut counters);
    assert_eq!(codec, CodecId::Zstd);
    assert_eq!(
        counters.escalation_attempts, 0,
        "level-9 must never be invoked during the initial full backup, \
         regardless of cfg.escalate"
    );
    assert_eq!(counters.escalated, 0);
}

#[test]
fn frc6_escalation_fires_for_qualifying_chunks_during_incremental() {
    let chunk = escalation_candidate();
    let zstd3 = compress_zstd(&chunk, DEFAULT_ZSTD_LEVEL).unwrap();
    let ratio = chunk.len() as f64 / zstd3.len() as f64;
    assert!(
        ratio >= DEFAULT_ESCALATE_RATIO as f64 / 100.0,
        "test fixture must actually qualify for escalation (ratio {ratio})"
    );

    let mut counters = PolicyCounters::default();
    let cfg = PolicyConfig {
        escalate: true,
        ..PolicyConfig::default()
    };
    let (codec, payload) = choose_codec(&chunk, Phase::Incremental, &cfg, &mut counters);
    assert_eq!(codec, CodecId::Zstd);
    assert_eq!(
        counters.escalation_attempts, 1,
        "level-9 must be invoked for a qualifying chunk in incremental phase"
    );
    assert_eq!(counters.escalated, 1);
    assert_eq!(counters.zstd3, 0);
    assert!(payload.len() <= zstd3.len());
    let framed = frame(codec, &payload);
    assert_eq!(decode_chunk(&framed).unwrap(), chunk);
}

#[test]
fn escalation_disabled_by_config_never_fires_even_in_incremental() {
    let chunk = escalation_candidate();
    let mut counters = PolicyCounters::default();
    let cfg = PolicyConfig::default();
    let (codec, _) = choose_codec(&chunk, Phase::Incremental, &cfg, &mut counters);
    assert_eq!(codec, CodecId::Zstd);
    assert_eq!(counters.escalation_attempts, 0);
    assert_eq!(counters.escalated, 0);
    assert_eq!(counters.zstd3, 1);
}

#[test]
fn escalation_below_ratio_threshold_does_not_attempt_level_nine() {
    let chunk = incompressible_chunk(200_000, 55);
    let mut counters = PolicyCounters::default();
    let cfg = PolicyConfig {
        escalate: true,
        ..PolicyConfig::default()
    };
    let _ = choose_codec(&chunk, Phase::Incremental, &cfg, &mut counters);
    assert_eq!(counters.escalation_attempts, 0);
}

#[test]
fn counters_accumulate_across_multiple_chunks() {
    let mut counters = PolicyCounters::default();
    let cfg = PolicyConfig::default();
    let chunks = [
        incompressible_chunk(10_000, 1),
        compressible_chunk(10_000),
        incompressible_chunk(10_000, 2),
    ];
    for chunk in &chunks {
        let _ = choose_codec(chunk, Phase::InitialFull, &cfg, &mut counters);
    }
    assert_eq!(counters.total(), 3);
    assert_eq!(counters.raw, 2);
    assert_eq!(counters.zstd3, 1);
    assert_eq!(
        counters.bytes_in,
        chunks.iter().map(|c| c.len() as u64).sum::<u64>()
    );
}

#[test]
fn the_default_policy_has_the_documented_values() {
    let cfg = PolicyConfig::default();
    assert!(!cfg.use_probe);
    assert!(!cfg.escalate);
    assert_eq!(cfg.zstd_level, 3);
    assert_eq!(cfg.escalate_level, 9);
    assert_eq!(cfg.zstd_level, DEFAULT_ZSTD_LEVEL);
    assert_eq!(cfg.escalate_level, DEFAULT_ESCALATE_LEVEL);
    assert_eq!(cfg.keep_threshold, Ratio::new(DEFAULT_KEEP_THRESHOLD, 100));
    assert_eq!(cfg.probe_threshold, Ratio::new(DEFAULT_PROBE_THRESHOLD, 100));
    assert_eq!(cfg.escalate_ratio, Ratio::new(DEFAULT_ESCALATE_RATIO, 100));
    assert_eq!(cfg.keep_threshold, Ratio::new(95, 100));
    assert_eq!(cfg.probe_threshold, Ratio::new(102, 100));
    assert_eq!(cfg.escalate_ratio, Ratio::new(200, 100));
}

#[test]
fn the_codec_decision_on_given_lengths() {
    let cfg = PolicyConfig {
        use_probe: true,
        escalate: true,
        ..PolicyConfig::default()
    };
    let inc = Phase::Incremental;
    let raw = Decision { stored: Stored::Raw, attempted: false };
    // An empty chunk, a failed probe and a failed compression are stored raw.
    assert_eq!(decide(0, 1, Some(1), Some(1), inc, &cfg), raw);
    assert_eq!(decide(1019, 1000, Some(10), Some(5), inc, &cfg), raw);
    assert_eq!(decide(1020, 1000, None, Some(5), inc, &cfg), raw);
    // 95 of 100 bytes are kept, 96 are not.
    assert_eq!(
        decide(100, 50, Some(95), Some(50), inc, &cfg),
        Decision { stored: Stored::Base, attempted: false }
    );
    assert_eq!(decide(100, 50, Some(96), Some(50), inc, &cfg), raw);
    // Twofold compression is retried; the retry is kept only where it is smaller.
    assert_eq!(
        decide(100, 50, Some(50), Some(49), inc, &cfg),
        Decision { stored: Stored::Escalated, attempted: true }
    );
    assert_eq!(
        decide(100, 50, Some(50), Some(51), inc, &cfg),
        Decision { stored: Stored::Base, attempted: true }
    );
    assert_eq!(
        decide(100, 50, Some(50), None, inc, &cfg),
        Decision { stored: Stored::Base, attempted: true }
    );
    assert_eq!(
        decide(100, 50, Some(51), Some(10), inc, &cfg),
        Decision { stored: Stored::Base, attempted: false }
    );
    assert_eq!(
        decide(100, 50, Some(50), Some(49), Phase::InitialFull, &cfg),
        Decision { stored: Stored::Base, attempted: false }
    );
}

#[test]
fn bytes_that_are_no_zstd_frame_do_not_decode() {
    assert!(matches!(
        decompress_zstd(b"not a zstd frame"),
        Err(CompressionError::Decompress(_))
    ));
    assert!(matches!(
        decode_chunk(&frame(CodecId::Zstd, b"not a zstd frame")),
        Err(CompressionError::Decompress(_))
    ));
    assert_eq!(decode_chunk(&[]), Err(CompressionError::Empty));
    let data = compressible_chunk(1000);
    let packed = compress_zstd(&data, 9).unwrap();
    assert_ne!(packed, data);
    assert_eq!(decompress_zstd(&packed).unwrap(), data);
}

#[test]
fn the_probe_gives_the_length_that_lz4_makes() {
    let data = compressible_chunk(20_000);
    assert_eq!(lz4_probe_len(&data), lz4_flex::compress(&data).len());
    assert!(lz4_probe_len(&data) < data.len() / 10);
    assert_eq!(lz4_probe_len(&[]), 1);
    assert_eq!(lz4_probe_len(&[0; 12]), 13);
}

#[test]
fn a_mixed_run_counts_every_chunk_once() {
    let cfg = PolicyConfig {
        escalate: true,
        ..PolicyConfig::default()
    };
    let mut counters = PolicyCounters::default();
    let chunks = [
        escalation_candidate(),
        compressible_chunk(0),
        incompressible_chunk(5_000, 3),
    ];
    let mut bytes_out = 0u64;
    for chunk in &chunks {
        let framed = encode_chunk(chunk, Phase::Incremental, &cfg, &mut counters);
        bytes_out += framed.len() as u64 - 1;
        assert_eq!(&decode_chunk(&framed).unwrap(), chunk);
    }
    assert_eq!(counters.total(), 3);
    assert_eq!((counters.raw, counters.zstd3, counters.escalated), (2, 0, 1));
    assert_eq!(counters.bytes_in, 405_000);
    assert_eq!(counters.bytes_out, bytes_out);
    assert_eq!(counters.bytes_saved(), 405_000 - bytes_out);
}

#[test]
fn counters_add_up_over_mixed_configurations_and_phases() {
    let chunks = [
        escalation_candidate(),
        escalation_candidate(),
        compressible_chunk(9_000),
        incompressible_chunk(7_000, 12),
    ];
    let raw_only = PolicyConfig {
        keep_threshold: Ratio::new(0, 1),
        ..PolicyConfig::default()
    };
    let escalating = PolicyConfig {
        escalate: true,
        ..PolicyConfig::default()
    };
    let calls = [
        (Phase::Incremental, escalating),
        (Phase::InitialFull, escalating),
        (Phase::Incremental, raw_only),
        (Phase::InitialFull, PolicyConfig::default()),
    ];
    let mut counters = PolicyCounters::default();
    let mut payload_bytes = 0u64;
    let mut codecs = Vec::new();
    for (chunk, (phase, cfg)) in chunks.iter().zip(&calls) {
        let (codec, payload) = choose_codec(chunk, *phase, cfg, &mut counters);
        payload_bytes += payload.len() as u64;
        codecs.push(codec);
    }
    assert_eq!(codecs, vec![CodecId::Zstd, CodecId::Zstd, CodecId::Raw, CodecId::Raw]);
    assert_eq!(counters.total(), 4);
    assert_eq!((counters.raw, counters.zstd3, counters.escalated), (2, 1, 1));
    assert_eq!(counters.escalation_attempts, 1);
    assert_eq!(counters.bytes_in, 816_000);
    assert_eq!(counters.bytes_out, payload_bytes);
    assert_eq!(counters.bytes_saved(), 816_000 - payload_bytes);
}
