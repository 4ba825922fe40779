use std::collections::HashSet;

use busyncr::bench::{
    build_report, chunk_meta, chunk_sources, chunk_tree, fan_out_chunks, recommend,
    steady_state_snapshots, BenchError, BenchReport, CandidateReport, ChunkMeta, FileChunking,
    DEFAULT_PROJECTION_HORIZON_DAYS, MANIFEST_HEADER_BYTES, RETENTION_TIERS,
};
use busyncr::chunking::{chunk_bytes, ChunkId, ChunkerConfig};
use busyncr::index::IndexEntry;
use busyncr::manifest::{FileEntry, Manifest};
use busyncr::ratio::Ratio;
use busyncr::snapshot_id::SnapshotId;
use rand::rngs::StdRng;
use rand::{Rng, SeedableRng};

fn random_bytes(len: usize, seed: u64) -> Vec<u8> {
    let mut rng = StdRng::seed_from_u64(seed);
    let mut buf = vec![0u8; len];
    rng.fill_bytes(&mut buf);
    buf
}

fn cfg(target: usize) -> ChunkerConfig {
    ChunkerConfig::with_target(target).unwrap()
}

fn value(r: Ratio) -> f64 {
    r.num as f64 / r.den as f64
}

fn reference(data: &[u8], config: &ChunkerConfig) -> Vec<ChunkMeta> {
    chunk_bytes(data, config)
        .into_iter()
        .map(|c| ChunkMeta {
            id: c.id,
            len: c.len() as u64,
        })
        .collect()
}

#[test]
fn fr10_each_file_read_exactly_once_despite_many_candidates() {
    let configs = [cfg(16 * 1024), cfg(32 * 1024), cfg(64 * 1024)];
    let file_sizes = [512 * 1024, 300 * 1024 + 7, 64 * 1024];
    let sources: Vec<(String, Vec<u8>)> = file_sizes
        .iter()
        .enumerate()
        .map(|(i, &len)| (format!("file{i}.bin"), random_bytes(len, 42 + i as u64)))
        .collect();

    let files = chunk_sources(&sources, &configs);

    assert_eq!(files.len(), 3);
    for (expected_len, file) in file_sizes.iter().zip(&files) {
        assert_eq!(file.file_bytes, *expected_len as u64);
        assert_eq!(file.per_candidate.len(), configs.len());
        for metas in &file.per_candidate {
            let sum: u64 = metas.iter().map(|m| m.len).sum();
            assert_eq!(sum, *expected_len as u64);
        }
    }
}

#[test]
fn fr10_fan_out_matches_single_candidate_reference_runs() {
    let data = random_bytes(3 * 1024 * 1024 + 123, 7);
    let configs = [cfg(16 * 1024), cfg(64 * 1024), cfg(256 * 1024)];

    let fan = fan_out_chunks(&data, &configs);
    assert_eq!(fan.bytes_read, data.len() as u64);
    assert_eq!(fan.per_candidate.len(), configs.len());

    for (config, fanned) in configs.iter().zip(&fan.per_candidate) {
        let reference = reference(&data, config);
        assert!(!reference.is_empty());
        assert_eq!(
            fanned,
            &reference,
            "fan-out chunks must match a standalone run for target {}",
            config.target_size()
        );
    }
}

#[test]
fn fr10_chunk_tree_matches_references_and_orders_paths() {
    let a = random_bytes(200 * 1024, 11);
    let b = random_bytes(90 * 1024, 12);
    let c = random_bytes(10, 13);
    let sources = vec![
        ("zeta.bin".to_string(), a.clone()),
        ("sub/alpha.bin".to_string(), b.clone()),
        ("sub/inner/tiny.bin".to_string(), c.clone()),
    ];

    let configs = [cfg(16 * 1024), cfg(64 * 1024)];
    let files = chunk_tree(&sources, &configs);

    let rel_paths: Vec<&str> = files.iter().map(|f| f.rel_path.as_str()).collect();
    assert_eq!(
        rel_paths,
        ["sub/alpha.bin", "sub/inner/tiny.bin", "zeta.bin"],
        "files must be sorted by /-separated relative path"
    );

    for (file, data) in files.iter().zip([&b, &c, &a]) {
        assert_eq!(file.file_bytes, data.len() as u64);
        for (config, fanned) in configs.iter().zip(&file.per_candidate) {
            assert_eq!(fanned, &reference(data, config));
        }
    }
}

fn small_corpus() -> [FileChunking; 2] {
    let id1 = ChunkId::from_bytes([1; 32]);
    let id2 = ChunkId::from_bytes([2; 32]);
    [
        FileChunking {
            rel_path: "a/b.txt".into(),
            file_bytes: 300,
            per_candidate: vec![vec![
                ChunkMeta { id: id1, len: 100 },
                ChunkMeta { id: id2, len: 200 },
            ]],
        },
        FileChunking {
            rel_path: "c.bin".into(),
            file_bytes: 200,
            per_candidate: vec![vec![ChunkMeta { id: id2, len: 200 }]],
        },
    ]
}

#[test]
fn fr10_projection_arithmetic_exact() {
    let configs = [cfg(64 * 1024)];
    let files = small_corpus();

    let report = build_report("corpus", &files, &configs, 17, None).unwrap();
    assert_eq!(report.files_scanned, 2);
    assert_eq!(report.total_bytes, 500);
    assert_eq!(report.snapshots_projected, 17);

    let c = &report.candidates[0];
    assert_eq!(c.total_chunks, 3);
    assert_eq!(c.unique_chunks, 2);
    assert_eq!(c.total_bytes, 500);
    assert_eq!(c.unique_bytes, 300);
    assert!((value(c.dedup_ratio) - 500.0 / 300.0).abs() < 1e-12);
    assert!((value(c.mean_chunk_size) - 500.0 / 3.0).abs() < 1e-12);
    assert_eq!(c.median_chunk_size, 200);
    assert_eq!(c.p95_chunk_size, 200);
    assert_eq!(c.index_bytes, 2 * IndexEntry::WIRE_SIZE);
    assert_eq!(c.index_bytes, 96);
    assert_eq!(
        c.manifest_bytes_per_snapshot,
        MANIFEST_HEADER_BYTES + (32 + 7 + 64) + (32 + 5 + 32)
    );
    assert_eq!(c.manifest_bytes_per_snapshot, 200);
    assert_eq!(c.projected_bookkeeping_bytes, 96 + 17 * 200);
    assert!(c.baseline.is_none());
}

#[test]
fn fr10_steady_state_grid_occupancy() {
    assert_eq!(steady_state_snapshots(1), 8);
    assert_eq!(steady_state_snapshots(60), 17);
    assert_eq!(steady_state_snapshots(DEFAULT_PROJECTION_HORIZON_DAYS), 36);
}

#[test]
fn fr10_baseline_overlap_correct_for_known_mutation_rate() {
    let configs = [cfg(16 * 1024)];
    let n_files = 10usize;
    let mutated = 3usize;
    let file_len = 128 * 1024;

    let mut current_data = Vec::new();
    let mut baseline_data = Vec::new();
    let mut current_sources = Vec::new();
    let mut baseline_sources = Vec::new();
    for i in 0..n_files {
        let old = random_bytes(file_len, 1000 + i as u64);
        let new = if i < n_files - mutated {
            old.clone()
        } else {
            random_bytes(file_len, 9000 + i as u64)
        };
        baseline_sources.push((format!("f{i}.bin"), old.clone()));
        current_sources.push((format!("f{i}.bin"), new.clone()));
        baseline_data.push(old);
        current_data.push(new);
    }

    let current = chunk_tree(&current_sources, &configs);
    let baseline = chunk_tree(&baseline_sources, &configs);
    let report = build_report(
        "current",
        &current,
        &configs,
        1,
        Some(("baseline", &baseline)),
    )
    .unwrap();

    let set_of = |datasets: &[Vec<u8>]| -> HashSet<ChunkId> {
        datasets
            .iter()
            .flat_map(|d| chunk_bytes(d, &configs[0]))
            .map(|c| c.id)
            .collect()
    };
    let current_ids = set_of(&current_data);
    let baseline_ids = set_of(&baseline_data);
    let expected_shared = current_ids.intersection(&baseline_ids).count() as u64;

    let c = &report.candidates[0];
    let overlap = c.baseline.as_ref().unwrap();
    assert_eq!(c.unique_chunks, current_ids.len() as u64);
    assert_eq!(overlap.baseline_unique_chunks, baseline_ids.len() as u64);
    assert_eq!(overlap.shared_unique_chunks, expected_shared);
    let expected_percent = expected_shared as f64 / current_ids.len() as f64 * 100.0;
    let overlap_percent = value(overlap.overlap) * 100.0;
    assert!((overlap_percent - expected_percent).abs() < 1e-9);
    assert!(
        (60.0..=80.0).contains(&overlap_percent),
        "expected ~70% overlap for a 30% mutation rate, got {overlap_percent:.2}%"
    );
}

fn candidate(target: u64, unique_bytes: u64, projected: u64) -> CandidateReport {
    CandidateReport {
        target_size: target,
        min_size: target / 4,
        max_size: target * 4,
        total_chunks: 1,
        unique_chunks: 1,
        total_bytes: unique_bytes,
        unique_bytes,
        dedup_ratio: Ratio::new(1, 1),
        mean_chunk_size: Ratio::new(unique_bytes, 1),
        median_chunk_size: unique_bytes,
        p95_chunk_size: unique_bytes,
        index_bytes: 48,
        manifest_bytes_per_snapshot: projected,
        projected_bookkeeping_bytes: projected,
        baseline: None,
    }
}

#[test]
fn recommend_picks_lowest_combined_cost_smaller_target_on_tie() {
    let report = BenchReport {
        root: "r".into(),
        baseline_root: None,
        files_scanned: 1,
        total_bytes: 100,
        snapshots_projected: 1,
        candidates: vec![
            candidate(1024, 100, 50),
            candidate(512, 100, 40),
            candidate(256, 100, 40),
        ],
    };
    assert_eq!(recommend(&report), Some(256));
    let empty = BenchReport {
        candidates: Vec::new(),
        ..report
    };
    assert_eq!(recommend(&empty), None);
}

#[test]
fn empty_tree_produces_zeroed_report() {
    let configs = [cfg(64 * 1024)];
    let files = chunk_tree(&vec![], &configs);
    assert!(files.is_empty());
    let report = build_report("empty", &files, &configs, 36, None).unwrap();
    let c = &report.candidates[0];
    assert_eq!(c.total_chunks, 0);
    assert_eq!(c.unique_chunks, 0);
    assert_eq!(c.index_bytes, 0);
    assert_eq!(c.manifest_bytes_per_snapshot, MANIFEST_HEADER_BYTES);
    assert_eq!(value(c.dedup_ratio), 1.0);
    assert_eq!(c.median_chunk_size, 0);
}

#[test]
fn build_report_rejects_candidate_count_mismatch() {
    let configs = [cfg(64 * 1024), cfg(128 * 1024)];
    let files = [FileChunking {
        rel_path: "x".into(),
        file_bytes: 0,
        per_candidate: vec![Vec::new()],
    }];
    assert!(matches!(
        build_report("r", &files, &configs, 1, None),
        Err(BenchError::CandidateMismatch { .. })
    ));
    assert_eq!(
        build_report("r", &files, &configs, 1, None),
        Err(BenchError::CandidateMismatch {
            path: "x".into(),
            got: 1,
            expected: 2
        })
    );
}

#[test]
fn a_mismatched_baseline_is_reported_too() {
    let configs = [cfg(64 * 1024)];
    let files = small_corpus();
    let baseline = [FileChunking {
        rel_path: "old".into(),
        file_bytes: 0,
        per_candidate: vec![],
    }];
    assert_eq!(
        build_report("r", &files, &configs, 1, Some(("b", &baseline))),
        Err(BenchError::CandidateMismatch {
            path: "old".into(),
            got: 0,
            expected: 1
        })
    );
}

#[test]
fn a_tree_overlaps_itself_wholly() {
    let configs = [cfg(64 * 1024)];
    let files = small_corpus();
    let report = build_report("r", &files, &configs, 1, Some(("b", &files))).unwrap();
    assert_eq!(report.baseline_root, Some("b".to_string()));
    let overlap = report.candidates[0].baseline.as_ref().unwrap();
    assert_eq!(overlap.baseline_unique_chunks, 2);
    assert_eq!(overlap.shared_unique_chunks, 2);
    assert_eq!(value(overlap.overlap), 1.0);
}

#[test]
fn projected_manifest_bytes_are_what_the_encoder_writes() {
    let files = small_corpus();
    let manifest = Manifest {
        snapshot_id: SnapshotId::from_parts(0, 0),
        created_at: 0,
        files: files
            .iter()
            .map(|f| FileEntry {
                path: f.rel_path.clone(),
                size: f.file_bytes,
                mtime_secs: 0,
                mtime_nanos: 0,
                mode: 0,
                chunks: f.per_candidate[0].iter().map(|m| m.id).collect(),
            })
            .collect(),
    };
    let report = build_report("r", &files, &[cfg(64 * 1024)], 1, None).unwrap();
    assert_eq!(
        report.candidates[0].manifest_bytes_per_snapshot,
        manifest.encode().unwrap().len() as u64
    );
}

#[test]
fn percentiles_use_the_nearest_rank() {
    let metas: Vec<ChunkMeta> = (1..=20u64)
        .rev()
        .map(|len| ChunkMeta {
            id: ChunkId::from_bytes([len as u8; 32]),
            len,
        })
        .collect();
    let files = [FileChunking {
        rel_path: "x".into(),
        file_bytes: 210,
        per_candidate: vec![metas],
    }];
    let report = build_report("r", &files, &[cfg(64 * 1024)], 2, None).unwrap();
    let c = &report.candidates[0];
    assert_eq!(c.median_chunk_size, 10);
    assert_eq!(c.p95_chunk_size, 19);
    assert_eq!(c.mean_chunk_size, Ratio::new(210, 20));
    assert_eq!(c.index_bytes, 960);
    assert_eq!(c.manifest_bytes_per_snapshot, 28 + 32 + 1 + 640);
    assert_eq!(c.projected_bookkeeping_bytes, 960 + 2 * 701);
}

#[test]
fn the_grid_of_the_projection() {
    assert_eq!(RETENTION_TIERS, [(0, 3), (24, 24), (96, 96), (384, 384)]);
    assert_eq!(steady_state_snapshots(0), 0);
    assert_eq!(steady_state_snapshots(4), 11);
    assert_eq!(steady_state_snapshots(16), 14);
    assert_eq!(steady_state_snapshots(17), 15);
}

#[test]
fn a_measured_chunk_keeps_its_identity_and_length() {
    let data = random_bytes(5000, 1);
    let chunk = &chunk_bytes(&data, &cfg(16 * 1024))[0];
    let meta = chunk_meta(chunk);
    assert_eq!(meta.id, ChunkId::of(&data));
    assert_eq!(meta.len, 5000);
}
