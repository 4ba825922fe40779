use std::io::Read;
use std::time::Instant;

use busyncr::chunking::{chunk_bytes, Chunk, ChunkerConfig};
use busyncr::compression::{choose_codec, frame, CodecId, Phase, PolicyCounters};
use busyncr::crypto::BLOB_OVERHEAD;
use busyncr::idset::IdSet;
use busyncr::policy_bench::{
    build_compression_report, build_incremental, build_policy_row, chunk_ids,
    chunk_tree_with_bytes, class_rows, classed_chunks, file_class_diagnostics, measure_policy,
    new_chunks, recommend_policy, scale_stats, simulate_policy, stored_stats, BuildInputs, ChurnSource, FileClass, PolicyKind,
    PolicyRow, PolicyStoredStats, TimingReader,
};
use busyncr::ratio::Ratio;
use busyncr::span::Span;
use rand::rngs::StdRng;
use rand::{Rng, SeedableRng};

fn compressible(len: usize) -> Vec<u8> {
    b"the quick brown fox jumps over the lazy dog. "
        .iter()
        .copied()
        .cycle()
        .take(len)
        .collect()
}

fn incompressible(len: usize, seed: u64) -> Vec<u8> {
    let mut r = StdRng::seed_from_u64(seed);
    let mut buf = vec![0u8; len];
    r.fill_bytes(&mut buf);
    buf
}

#[test]
fn raw_only_never_keeps_compression() {
    let chunk = compressible(200_000);
    let mut counters = PolicyCounters::default();
    let (codec, payload) = choose_codec(
        &chunk,
        Phase::InitialFull,
        &PolicyKind::RawOnly.config(),
        &mut counters,
    );
    assert_eq!(codec, CodecId::Raw);
    assert_eq!(payload.len(), chunk.len());
}

#[test]
fn zstd3_always_never_falls_back_to_raw_for_compressible_data() {
    let chunk = compressible(200_000);
    let mut counters = PolicyCounters::default();
    let (codec, payload) = choose_codec(
        &chunk,
        Phase::InitialFull,
        &PolicyKind::Zstd3Always.config(),
        &mut counters,
    );
    assert_eq!(codec, CodecId::Zstd);
    assert!(payload.len() < chunk.len());
}

#[test]
fn frc5a_chunk_tree_with_bytes_reads_each_file_exactly_once() {
    let a = incompressible(300 * 1024, 1);
    let b = compressible(150 * 1024);
    let sources = vec![("b.txt".to_string(), b.clone()), ("a.bin".to_string(), a.clone())];

    let cfg = ChunkerConfig::with_target(64 * 1024).unwrap();
    let files = chunk_tree_with_bytes(&sources, &cfg);

    assert_eq!(files.len(), 2);
    for (file, expected) in files.iter().zip([&a, &b]) {
        let total: usize = file.chunks.iter().map(Chunk::len).sum();
        assert_eq!(
            total,
            expected.len(),
            "chunks for {} must tile the whole file exactly once",
            file.rel_path
        );
        let reassembled: Vec<u8> = file.chunks.iter().flat_map(|c| c.data.clone()).collect();
        assert_eq!(&reassembled, expected);
    }
}

#[test]
fn frc5a_matches_single_candidate_reference_chunks() {
    let data = incompressible(500 * 1024, 9);
    let cfg = ChunkerConfig::with_target(64 * 1024).unwrap();

    let files = chunk_tree_with_bytes(&vec![("f.bin".to_string(), data.clone())], &cfg);
    let reference = chunk_bytes(&data, &cfg);
    assert_eq!(files[0].chunks, reference);
}

#[test]
fn frc5b_simulate_policy_matches_manual_frame_plus_aead_accounting() {
    let chunks = vec![compressible(80_000), incompressible(80_000, 3)];
    let stats = simulate_policy(&chunks, PolicyKind::Zstd3, Phase::InitialFull);

    let cfg = PolicyKind::Zstd3.config();
    let mut counters = PolicyCounters::default();
    let mut expected_stored = 0u64;
    for c in &chunks {
        let (codec, payload) = choose_codec(c, Phase::InitialFull, &cfg, &mut counters);
        let framed = frame(codec, &payload);
        expected_stored += (framed.len() + BLOB_OVERHEAD) as u64;
    }
    assert_eq!(stats.stored_bytes, expected_stored);
    assert_eq!(stats.chunk_count, 2);
    assert_eq!(stats.bytes_in, counters.bytes_in);
}

#[test]
fn file_class_classifies_by_extension() {
    assert_eq!(FileClass::classify("data/x.sqlite3"), FileClass::DbSqlite);
    assert_eq!(
        FileClass::classify("docs/report.DOCX"),
        FileClass::OfficeZip
    );
    assert_eq!(FileClass::classify("a/b/c.pdf"), FileClass::Pdf);
    assert_eq!(FileClass::classify("img/pic.PNG"), FileClass::Image);
    assert_eq!(FileClass::classify("src/main.rs"), FileClass::TextCode);
    assert_eq!(FileClass::classify("noext"), FileClass::Other);
    assert_eq!(FileClass::classify("weird.xyz"), FileClass::Other);
    assert_eq!(FileClass::classify("dir/.hidden"), FileClass::Other);
}

#[test]
fn file_class_diagnostics_bytes_in_sums_match_input() {
    let chunks = vec![
        (FileClass::TextCode, compressible(60_000)),
        (FileClass::Image, incompressible(60_000, 4)),
    ];
    let rows = file_class_diagnostics(&chunks, PolicyKind::Zstd3);
    let total_in: u64 = rows.iter().map(|r| r.bytes_in).sum();
    assert_eq!(total_in, 120_000);
    let text = rows.iter().find(|r| r.class == "text/code").unwrap();
    assert!(text.bytes_out < text.bytes_in);
}

#[test]
fn every_policy_kind_has_a_distinct_name() {
    let names: Vec<&str> = PolicyKind::ALL.iter().map(|k| k.name()).collect();
    let mut sorted = names.clone();
    sorted.sort_unstable();
    sorted.dedup();
    assert_eq!(sorted.len(), names.len(), "policy names must be unique");
}

fn dummy_stats() -> PolicyStoredStats {
    PolicyStoredStats {
        chunk_count: 1,
        bytes_in: 100,
        bytes_out: 100,
        framed_bytes: 101,
        stored_bytes: 141,
        ratio: Ratio::new(1, 1),
        raw_chunks: 1,
        zstd3_chunks: 0,
        escalated_chunks: 0,
        escalation_attempts: 0,
    }
}

fn dummy_row(policy: &'static str, cpu_millis: u64, steady_state: u64) -> PolicyRow {
    PolicyRow {
        policy,
        stored: dummy_stats(),
        cpu_bound_nanos: cpu_millis * 1_000_000,
        incremental: None,
        projected_steady_state_bytes: steady_state,
    }
}

#[test]
fn recommend_policy_picks_smallest_steady_state_within_1_5x_cpu_bound() {
    let rows = vec![
        dummy_row("raw-only", 1000, 1000),
        dummy_row("zstd3-always", 1000, 200),
        dummy_row("zstd3", 1000, 500),
        dummy_row("probe+zstd3", 1600, 50),
        dummy_row("zstd3+escalate", 1400, 300),
    ];
    assert_eq!(recommend_policy(&rows), Some("zstd3-always"));
}

#[test]
fn timing_reader_counts_bytes_and_accumulates_time() {
    let data = vec![0u8; 128 * 1024];
    let mut tr = TimingReader::new(std::io::Cursor::new(data.clone()));
    let mut buf = [0u8; 4096];
    let mut total = 0usize;
    loop {
        let start = Instant::now();
        let n = tr.inner.read(&mut buf).unwrap();
        tr.record(n as u64, Span { nanos: start.elapsed().as_nanos() });
        if n == 0 {
            break;
        }
        total += n;
    }
    assert_eq!(total, data.len());
    assert_eq!(tr.bytes, data.len() as u64);
}

#[test]
fn timing_adds_up() {
    let mut tr = TimingReader::new(());
    assert_eq!((tr.bytes, tr.io_time), (0, Span::zero()));
    tr.record(10, Span::from_millis(5));
    tr.record(7, Span::from_millis(6));
    assert_eq!((tr.bytes, tr.io_time), (17, Span::from_millis(11)));
}

#[test]
fn policies_are_found_by_their_names() {
    for kind in PolicyKind::ALL {
        assert_eq!(PolicyKind::from_name(kind.name()), Some(kind));
    }
    assert_eq!(PolicyKind::from_name("gzip"), None);
    assert_eq!(PolicyKind::ProbeZstd3.name(), "probe+zstd3");
    assert!(PolicyKind::ProbeZstd3.config().use_probe);
    assert!(PolicyKind::Zstd3Escalate.config().escalate);
    assert!(!PolicyKind::Zstd3.config().escalate);
}

#[test]
fn stored_bytes_add_a_codec_byte_and_the_seal() {
    let counters = PolicyCounters {
        raw: 2,
        zstd3: 3,
        escalated: 1,
        escalation_attempts: 4,
        bytes_in: 1000,
        bytes_out: 600,
    };
    let stats = stored_stats(&counters);
    assert_eq!(stats.chunk_count, 6);
    assert_eq!(stats.framed_bytes, 606);
    assert_eq!(stats.stored_bytes, 606 + 6 * 40);
    assert_eq!(stats.ratio, Ratio::new(1000, 846));
    assert_eq!(
        (stats.raw_chunks, stats.zstd3_chunks, stats.escalated_chunks, stats.escalation_attempts),
        (2, 3, 1, 4)
    );
    assert_eq!(stored_stats(&PolicyCounters::default()).ratio, Ratio::new(1, 1));
}

#[test]
fn class_rows_follow_the_fixed_order_and_share_the_savings() {
    let samples = vec![
        (FileClass::TextCode, 100, 40),
        (FileClass::Pdf, 50, 50),
        (FileClass::TextCode, 100, 20),
        (FileClass::Image, 60, 100),
    ];
    let rows = class_rows(&samples);
    let got: Vec<(&str, u64, u64)> = rows
        .iter()
        .map(|r| (r.class, r.bytes_in, r.bytes_out))
        .collect();
    assert_eq!(
        got,
        vec![("pdf", 50, 50), ("image", 60, 100), ("text/code", 200, 60)]
    );
    // 140 bytes saved and 40 lost: 100 saved in all.
    let shares: Vec<(i128, i128)> = rows.iter().map(|r| (r.share_part, r.share_whole)).collect();
    assert_eq!(shares, vec![(0, 100), (-40, 100), (140, 100)]);
}

#[test]
fn assumed_churn_scales_every_count() {
    let chunks = vec![compressible(10_000), incompressible(10_000, 8)];
    let none = BuildInputs {
        unique_chunks: &chunks,
        delta_chunks: None,
        assume_churn_percent: None,
    };
    assert!(build_incremental(PolicyKind::Zstd3, &none).is_none());

    let measured = BuildInputs {
        unique_chunks: &chunks,
        delta_chunks: Some(&chunks[1..]),
        assume_churn_percent: Some(Ratio::new(50, 1)),
    };
    let got = build_incremental(PolicyKind::Zstd3, &measured).unwrap();
    assert_eq!(got.source, ChurnSource::Measured);
    assert_eq!(
        got.delta,
        simulate_policy(&chunks[1..], PolicyKind::Zstd3, Phase::Incremental)
    );

    let assumed = BuildInputs {
        unique_chunks: &chunks,
        delta_chunks: None,
        assume_churn_percent: Some(Ratio::new(50, 1)),
    };
    let got = build_incremental(PolicyKind::Zstd3, &assumed).unwrap();
    assert_eq!(got.source, ChurnSource::Assumed { percent: Ratio::new(50, 1) });
    assert_eq!(got.delta.chunk_count, 1);
    assert_eq!(got.delta.bytes_in, 10_000);
    let whole = simulate_policy(&chunks, PolicyKind::Zstd3, Phase::Incremental);
    assert_eq!(got.delta, scale_stats(&whole, Ratio::new(50, 1)));
}

#[test]
fn the_steady_state_adds_the_bookkeeping() {
    let row = build_policy_row(PolicyKind::Zstd3, dummy_stats(), 7, None, 1000);
    assert_eq!(row.policy, "zstd3");
    assert_eq!(row.cpu_bound_nanos, 7);
    assert_eq!(row.projected_steady_state_bytes, 1141);
}

#[test]
fn a_recommendation_needs_the_plain_row() {
    assert_eq!(recommend_policy(&[]), None);
    assert_eq!(recommend_policy(&[dummy_row("raw-only", 1, 1)]), None);
    // Exactly one and a half times as slow still counts.
    let rows = vec![dummy_row("zstd3", 1000, 500), dummy_row("probe+zstd3", 1500, 50)];
    assert_eq!(recommend_policy(&rows), Some("probe+zstd3"));
    // Of policies that store as much, the first of all policies wins.
    let rows = vec![dummy_row("zstd3", 1000, 500), dummy_row("raw-only", 1000, 500)];
    assert_eq!(recommend_policy(&rows), Some("raw-only"));
}

#[test]
fn a_policy_is_measured_as_a_first_and_a_later_backup() {
    let chunks = vec![compressible(20_000), incompressible(5_000, 4)];
    let inputs = BuildInputs {
        unique_chunks: &chunks,
        delta_chunks: Some(&chunks[..1]),
        assume_churn_percent: None,
    };
    for kind in PolicyKind::ALL {
        let (stored, incremental) = measure_policy(kind, &inputs);
        assert_eq!(stored, simulate_policy(&chunks, kind, Phase::InitialFull));
        assert_eq!(incremental, build_incremental(kind, &inputs));
    }
}

#[test]
fn the_report_has_a_row_for_each_policy() {
    let measured = [(dummy_stats(), 5, None); 5];
    let rows = build_compression_report(&measured, 1000);
    let names: Vec<&str> = rows.iter().map(|r| r.policy).collect();
    assert_eq!(
        names,
        vec!["raw-only", "zstd3-always", "zstd3", "probe+zstd3", "zstd3+escalate"]
    );
    assert!(rows.iter().all(|r| r.projected_steady_state_bytes == 1141));
    assert_eq!(rows[2], build_policy_row(PolicyKind::Zstd3, dummy_stats(), 5, None, 1000));
}

#[test]
fn new_chunks_are_those_that_an_older_tree_lacks() {
    let cfg = ChunkerConfig::with_target(16 * 1024).unwrap();
    let a = incompressible(60_000, 1);
    let b = incompressible(60_000, 2);
    let older = chunk_tree_with_bytes(&vec![("a".to_string(), a.clone())], &cfg);
    let newer = chunk_tree_with_bytes(
        &vec![
            ("a".to_string(), a.clone()),
            ("b".to_string(), b.clone()),
            ("c".to_string(), a.clone()),
        ],
        &cfg,
    );
    let all: Vec<u8> = new_chunks(&newer, &IdSet::new()).concat();
    assert_eq!(all, [a, b.clone()].concat());
    let changed: Vec<u8> = new_chunks(&newer, &chunk_ids(&older)).concat();
    assert_eq!(changed, b);
    assert!(new_chunks(&older, &chunk_ids(&newer)).is_empty());
}

#[test]
fn a_chunk_counts_for_the_first_file_that_holds_it() {
    let cfg = ChunkerConfig::with_target(16 * 1024).unwrap();
    let (a, b) = (incompressible(1_000, 1), incompressible(1_000, 2));
    let files = chunk_tree_with_bytes(
        &vec![
            ("z.pdf".to_string(), b.clone()),
            ("y.pdf".to_string(), a.clone()),
            ("src/main.rs".to_string(), a.clone()),
        ],
        &cfg,
    );
    assert_eq!(classed_chunks(&files), vec![(FileClass::TextCode, a), (FileClass::Pdf, b)]);
}

#[test]
fn a_policy_is_a_function_of_the_chunks() {
    let chunks = vec![compressible(30_000), incompressible(30_000, 6), compressible(10)];
    for kind in PolicyKind::ALL {
        assert_eq!(
            simulate_policy(&chunks, kind, Phase::Incremental),
            simulate_policy(&chunks, kind, Phase::Incremental)
        );
    }
    let first = simulate_policy(&chunks, PolicyKind::Zstd3Escalate, Phase::InitialFull);
    assert_eq!((first.escalation_attempts, first.escalated_chunks), (0, 0));
}
