use busyncr::backup::{
    add_root_name, child_path, mtime_parts, walk_order, BackupError, BackupReport, BackupTotals,
    DirItem, EntryKind,
};
use busyncr::bench::{
    build_report, steady_state_snapshots, ChunkMeta, FileChunking,
    DEFAULT_PROJECTION_HORIZON_DAYS,
};
use busyncr::bench_cmd::{
    candidate_configs, check_single_candidate, dedup_note, human_bytes, render_table, size_label,
    SizesError,
};
use busyncr::chunking::{ChunkId, ChunkIdKey, ChunkerConfig, ChunkingError};
use busyncr::compression::{PolicyConfig, PolicyCounters};
use busyncr::config::{
    policy_from, ClientConfig, CompressionSettings, ConfigError, CHUNK_SIZE_UNSET,
};
use busyncr::crypto::{CryptoError, DataKey, KdfParams};
use busyncr::enroll::{
    check_certificate, ensure_data_key, load_chunk_id_key, load_data_key, temp_name, EnrollError,
    DATA_KEY_FILE,
};
use busyncr::keys::{
    backup_slot_name, export_key, first_free_slot, import_actions, import_key, passphrase_in_file,
    passphrase_typed, ImportOutcome, KeyAction, KeyError, KeyState,
};
use busyncr::progress::{eta_secs, mb_per_sec, Mode, ProgressReporter, Rendered};
use busyncr::ratio::Ratio;
use busyncr::restore::{
    ensure_empty_target, sanitize_path, RestoreError, RestoreReport, RestoreTotals, TargetState,
};
use busyncr::run::{attempt_duration_ms, created_at, step, RunAction, RunEvent, RunState};
use busyncr::scheduler::{parse_jitter, SchedulePolicy};
use busyncr::snapshot_id::{SnapshotId, SnapshotIdError};
use busyncr::snapshots::{
    civil_from_days, format_utc_ms, format_utc_secs, list_snapshots, recent, ListError,
    SnapshotEntry,
};
use busyncr::span::Span;
use busyncr::status::{render_status, ClientStatus, LastBackupRecord};
use busyncr::summary::{
    render_backup, render_failed_tick, render_list, render_restore, render_tick,
};

#[test]
fn bench_cmd_parse_size_understands_suffixes() {
    assert_eq!(busyncr::bench_cmd::parse_size("256K").unwrap(), 256 * 1024);
    assert_eq!(busyncr::bench_cmd::parse_size("1m").unwrap(), 1024 * 1024);
    assert_eq!(busyncr::bench_cmd::parse_size("4096").unwrap(), 4096);
    assert!(busyncr::bench_cmd::parse_size("").is_err());
    assert!(busyncr::bench_cmd::parse_size("12Q").is_err());
}

#[test]
fn size_label_roundtrips_common_sizes() {
    assert_eq!(size_label(256 * 1024), "256K");
    assert_eq!(size_label(4 * 1024 * 1024), "4M");
    assert_eq!(size_label(1000), "1000B");
}

#[test]
fn candidate_configs_dedupes_and_validates() {
    let configs = candidate_configs(&["256K".into(), "256K".into(), "1M".into()]).unwrap();
    assert_eq!(configs.len(), 2);
    assert!(candidate_configs(&["32M".into()]).is_err());
}

#[test]
fn documented_default_snapshot_count_is_36() {
    assert_eq!(steady_state_snapshots(DEFAULT_PROJECTION_HORIZON_DAYS), 36);
}

#[test]
fn candidate_sizes_fail_with_their_reasons() {
    assert_eq!(candidate_configs(&[]), Err(SizesError::NoCandidates));
    assert_eq!(
        candidate_configs(&["1M".into(), " ".into()]),
        Err(SizesError::EmptySize)
    );
    assert_eq!(
        candidate_configs(&[" x ".into()]),
        Err(SizesError::InvalidSize("x".into()))
    );
    assert_eq!(
        candidate_configs(&["18446744073709551615K".into()]),
        Err(SizesError::SizeOverflows("18446744073709551615K".into()))
    );
    assert!(matches!(
        candidate_configs(&["32M".into()]),
        Err(SizesError::Unusable { raw, source: ChunkingError::InvalidConfig(_) }) if raw == "32M"
    ));
    assert_eq!(check_single_candidate(1), Ok(()));
    assert_eq!(
        check_single_candidate(4),
        Err(SizesError::NotExactlyOne { got: 4 })
    );
}

#[test]
fn byte_counts_are_shown_in_binary_units() {
    assert_eq!(human_bytes(Ratio::new(0, 1)), "0 B");
    assert_eq!(human_bytes(Ratio::new(1023, 1)), "1023 B");
    assert_eq!(human_bytes(Ratio::new(1536, 1)), "1.50 KiB");
    assert_eq!(human_bytes(Ratio::new(5 * 1024 * 1024, 2)), "2.50 MiB");
}

#[test]
fn the_table_marks_the_recommendation() {
    let id = ChunkId::from_bytes([1; 32]);
    let files = [FileChunking {
        rel_path: "a".into(),
        file_bytes: 2048,
        per_candidate: vec![vec![ChunkMeta { id, len: 2048 }], vec![ChunkMeta { id, len: 2048 }]],
    }];
    let configs = [
        ChunkerConfig::with_target(64 * 1024).unwrap(),
        ChunkerConfig::with_target(128 * 1024).unwrap(),
    ];
    let report = build_report("corpus", &files, &configs, 36, None).unwrap();
    assert_eq!(
        render_table(&report, Some(64 * 1024)),
        "bench-chunking: corpus — 1 files, 2.00 KiB\n\
         bookkeeping projected for N = 36 retained snapshots\n\n\
         \x20 target     chunks     unique   dedup        mean         p50         p95       index  manifest/snap    bookkeeping\n\
         \x20    64K          1          1   1.000    2.00 KiB    2.00 KiB    2.00 KiB        48 B           93 B       3.32 KiB  <== recommended\n\
         \x20   128K          1          1   1.000    2.00 KiB    2.00 KiB    2.00 KiB        48 B           93 B       3.32 KiB\n\n\
         recommended: 64K (lowest unique_bytes + projected bookkeeping; see --help for the heuristic — the choice stays with you)\n\
         note: no --baseline given: dedup figures are intra-snapshot only and understate versioned savings.\n"
    );
    assert!(dedup_note(&report).starts_with("no --baseline given"));
}

#[test]
fn config_parse_size_understands_suffixes() {
    assert_eq!(busyncr::config::parse_size("256K").unwrap(), 256 * 1024);
    assert_eq!(busyncr::config::parse_size("1m").unwrap(), 1024 * 1024);
    assert_eq!(busyncr::config::parse_size("4096").unwrap(), 4096);
    assert!(busyncr::config::parse_size("").is_err());
    assert!(busyncr::config::parse_size("12Q").is_err());
}

fn config(folders: &[&str], chunk_target_size: Option<&str>) -> ClientConfig {
    ClientConfig {
        daemon: "https://h:1".into(),
        folders: folders.iter().map(|f| f.to_string()).collect(),
        chunk_target_size: chunk_target_size.map(str::to_string),
        compression: PolicyConfig::default(),
    }
}

#[test]
fn a_committed_chunk_size_makes_a_chunker() {
    let config = config(&["data", "/absolute/other"], Some("4K"));
    assert_eq!(config.validate(), Ok(()));
    let chunker = config.chunker(false).unwrap();
    assert_eq!(chunker.target_size(), 4096);
    assert_eq!(chunker.min_size(), 1024);
    assert_eq!(chunker.max_size(), 16384);
}

#[test]
fn unset_chunk_size_refuses_and_points_at_bench_chunking() {
    let config = config(&["x"], None);
    let err = config.chunker(false).unwrap_err();
    assert!(matches!(err, ConfigError::ChunkSizeUnset));
    assert!(
        CHUNK_SIZE_UNSET.contains("bench-chunking"),
        "refusal must point the operator at bench-chunking"
    );
    assert!(
        CHUNK_SIZE_UNSET.contains("--default-chunking"),
        "refusal must mention the escape hatch"
    );

    let chunker = config.chunker(true).unwrap();
    assert_eq!(chunker.target_size(), 1024 * 1024);
}

#[test]
fn bad_settings_are_typed_errors() {
    assert_eq!(config(&[], None).validate(), Err(ConfigError::NoFolders));
    assert!(matches!(
        config(&["x"], Some("12Q")).chunker(false),
        Err(ConfigError::BadChunkSize { .. })
    ));
    assert!(matches!(
        config(&["x"], Some("12Q")).chunker(true),
        Err(ConfigError::BadChunkSize { value, reason: "not a number" }) if value == "12Q"
    ));
    assert!(matches!(
        config(&["x"], Some("32M")).chunker(false),
        Err(ConfigError::Chunking(ChunkingError::InvalidConfig(_)))
    ));
}

#[test]
fn unset_compression_settings_take_the_defaults() {
    let none = CompressionSettings {
        use_probe: None,
        escalate: None,
        zstd_level: None,
        escalate_level: None,
        keep_threshold: None,
        probe_threshold: None,
        escalate_ratio: None,
    };
    assert_eq!(policy_from(&none), PolicyConfig::default());
    let nan = CompressionSettings {
        escalate_ratio: Ratio::parse("nan"),
        ..none
    };
    assert_eq!(policy_from(&nan).escalate_ratio, Ratio::new(1, 0));
    let some = CompressionSettings {
        use_probe: Some(true),
        zstd_level: Some(5),
        keep_threshold: Some(Ratio::new(9, 10)),
        ..none
    };
    assert_eq!(
        policy_from(&some),
        PolicyConfig {
            use_probe: true,
            zstd_level: 5,
            keep_threshold: Ratio::new(9, 10),
            ..PolicyConfig::default()
        }
    );
}

#[test]
fn thresholds_are_read_from_decimals() {
    assert_eq!(Ratio::parse("0.95"), Some(Ratio::new(95, 100)));
    assert_eq!(Ratio::parse("2"), Some(Ratio::new(2, 1)));
    assert_eq!(Ratio::parse(".5"), Some(Ratio::new(5, 10)));
    assert_eq!(Ratio::parse("1."), Some(Ratio::new(1, 1)));
    assert_eq!(Ratio::parse("1e-1"), Some(Ratio::new(1, 10)));
    assert_eq!(Ratio::parse("2.5E+3"), Some(Ratio::new(2500, 1)));
    assert_eq!(Ratio::parse("+0.1"), Some(Ratio::new(1, 10)));
    assert_eq!(Ratio::parse("0000000000000000000000.95"), Some(Ratio::new(95, 100)));
    assert_eq!(
        Ratio::parse("0.12345678901234567890"),
        Some(Ratio::new(123_456_789_012_345_678, 1_000_000_000_000_000_000))
    );
    assert_eq!(
        Ratio::parse("18446744073709551615.9"),
        Some(Ratio::new(18_446_744_073_709_551_615, 1))
    );
    assert_eq!(Ratio::parse("1e-400"), Some(Ratio::new(0, 1_000_000_000_000_000_000)));
    assert_eq!(Ratio::parse("1e20"), Some(Ratio::new(1, 0)));
    assert_eq!(Ratio::parse("1e99999999999999999999999999999999999999999"), Some(Ratio::new(1, 0)));
    assert_eq!(Ratio::parse("0e99999999999999999999999999999999999999999"), Some(Ratio::new(0, 1)));
    assert_eq!(Ratio::parse("Infinity"), Some(Ratio::new(1, 0)));
    assert_eq!(Ratio::parse("inf"), Some(Ratio::new(1, 0)));
    assert_eq!(Ratio::parse("NaN"), Some(Ratio::new(0, 0)));
    assert_eq!(Ratio::parse("-1"), Some(Ratio::new(0, 1)));
    assert_eq!(Ratio::parse_signed("-1.5"), Some((true, Ratio::new(15, 10))));
    for text in ["", ".", "+", "e5", "1e", "1e+", "1.2.3", " 1", "1_0", "infin", "0x1"] {
        assert_eq!(Ratio::parse(text), None, "{text:?}");
        assert!(text.parse::<f64>().is_err());
    }
}

#[test]
fn jitter_is_read_with_its_sign() {
    assert_eq!(parse_jitter("0.1"), Some((1, 10)));
    assert_eq!(parse_jitter("1e-1"), Some((1, 10)));
    assert_eq!(parse_jitter("-0.1"), Some((-1, 10)));
    assert_eq!(parse_jitter("-0"), Some((0, 1)));
    assert_eq!(parse_jitter("-1e-30"), Some((-1, 1_000_000_000_000_000_000)));
    assert_eq!(parse_jitter("inf"), Some((i64::MAX, 1)));
    assert_eq!(parse_jitter("nan"), Some((i64::MAX, 1)));
    assert_eq!(parse_jitter("a"), None);
}

#[test]
fn data_key_created_once_and_reloaded_stable() {
    let drawn = [7u8; 32];
    let written = ensure_data_key(None, drawn).unwrap().expect("first call creates");
    let key = load_data_key(Some(&written)).unwrap_or_else(|e| panic!("{e:?}"));
    assert_eq!(key.as_bytes(), &drawn);
    assert_eq!(
        ensure_data_key(Some(&written), [8; 32]),
        Ok(None),
        "second call must keep the existing key"
    );
    let again = load_data_key(Some(&written)).unwrap_or_else(|e| panic!("{e:?}"));
    assert!(again == key);
}

#[test]
fn corrupt_data_key_is_reported_not_used() {
    let contents: &[u8] = b"short";
    assert!(matches!(
        load_data_key(Some(contents)),
        Err(EnrollError::BadDataKey { found: 5, .. })
    ));
    assert!(matches!(
        ensure_data_key(Some(contents), [7; 32]).unwrap_err(),
        EnrollError::BadDataKey { .. }
    ));
}

#[test]
fn malformed_keys_and_certificates_are_reported() {
    assert!(matches!(
        load_chunk_id_key(Some(&[0; 33])),
        Err(EnrollError::BadDataKey { found: 33 })
    ));
    assert_eq!(
        check_certificate(" \n"),
        Err(EnrollError::BadResponse("empty certificate"))
    );
    assert_eq!(check_certificate("-----BEGIN CERTIFICATE-----"), Ok(()));
    assert_eq!(temp_name(Some("data.key")), ".tmp-data.key");
    assert_eq!(temp_name(None), ".tmp-state");
}

fn test_kdf() -> KdfParams {
    KdfParams {
        m_cost_kib: 16,
        t_cost: 1,
        p_cost: 1,
    }
}

fn exported(data: u8, chunk_id: u8, passphrase: &[u8]) -> Vec<u8> {
    export_key(
        false,
        &DataKey::from_bytes([data; 32]),
        &ChunkIdKey::from_bytes([chunk_id; 32]),
        passphrase,
        &test_kdf(),
        &[3; 16],
        &[4; 24],
    )
    .unwrap()
}

fn imported(
    file: &[u8],
    passphrase: &[u8],
    data: KeyState,
    chunk_id: KeyState,
) -> Result<([u8; 32], [u8; 32], ImportOutcome), KeyError> {
    import_key(file, passphrase, &data, &chunk_id)
        .map(|(d, c, outcome)| (*d.as_bytes(), *c.as_bytes(), outcome))
}

#[test]
fn fr6_export_import_roundtrip_installs_identical_key() {
    let file = exported(1, 2, b"pass");
    assert_eq!(
        imported(&file, b"pass", KeyState::Missing, KeyState::Missing),
        Ok(([1; 32], [2; 32], ImportOutcome::Installed))
    );
}

#[test]
fn fr6_import_preserves_existing_different_key() {
    let file = exported(1, 2, b"pass");
    assert_eq!(
        imported(
            &file,
            b"pass",
            KeyState::Present([9; 32]),
            KeyState::Present([8; 32])
        ),
        Ok(([1; 32], [2; 32], ImportOutcome::Replaced))
    );
    assert_eq!(backup_slot_name(DATA_KEY_FILE, 1), "data.key.old-1");
    assert_eq!(
        imported(
            &file,
            b"pass",
            KeyState::Present([1; 32]),
            KeyState::Present([2; 32])
        ),
        Ok(([1; 32], [2; 32], ImportOutcome::AlreadyCurrent)),
        "importing the same keyfile again is a no-op"
    );
    assert_eq!(
        imported(&file, b"pass", KeyState::Malformed, KeyState::Missing),
        Ok(([1; 32], [2; 32], ImportOutcome::Replaced))
    );
}

#[test]
fn fr6_wrong_passphrase_fails_and_leaves_state_untouched() {
    let file = exported(1, 2, b"right");
    assert_eq!(
        imported(&file, b"wrong", KeyState::Present([9; 32]), KeyState::Missing),
        Err(KeyError::Crypto(CryptoError::KeyfileUnlock))
    );
}

#[test]
fn fr6_export_refuses_to_overwrite_existing_keyfile() {
    assert_eq!(
        export_key(
            true,
            &DataKey::from_bytes([1; 32]),
            &ChunkIdKey::from_bytes([2; 32]),
            b"pass",
            &test_kdf(),
            &[3; 16],
            &[4; 24],
        ),
        Err(KeyError::OutputExists)
    );
}

#[test]
fn export_without_enrollment_fails_cleanly() {
    assert!(matches!(load_data_key(None), Err(EnrollError::NoKey)));
    assert!(matches!(load_chunk_id_key(None), Err(EnrollError::NoKey)));
}

#[test]
fn import_of_garbage_keyfile_fails_cleanly() {
    assert!(matches!(
        imported(b"not a keyfile", b"pass", KeyState::Missing, KeyState::Missing),
        Err(KeyError::Crypto(CryptoError::KeyfileFormat(_)))
    ));
}

#[test]
fn the_first_free_name_is_taken() {
    let mut taken = vec![false; 1000];
    assert_eq!(first_free_slot(&taken), Ok(1));
    taken[0] = true;
    taken[2] = true;
    assert_eq!(first_free_slot(&taken), Ok(2));
    assert_eq!(first_free_slot(&vec![true; 1000]), Err(KeyError::NoBackupSlot));
    assert_eq!(backup_slot_name("chunk-id.key", 12), "chunk-id.key.old-12");
    assert_ne!(backup_slot_name("k", 1), backup_slot_name("k", 11));
}

#[test]
fn the_outcome_tells_what_importing_does() {
    let file = exported(1, 2, b"pass");
    let free = vec![false; 1000];
    let (data_key, chunk_id_key) = (DataKey::from_bytes([1; 32]), ChunkIdKey::from_bytes([2; 32]));
    let found = |byte: u8| [KeyState::Missing, KeyState::Malformed, KeyState::Present([byte; 32])];
    let mut outcomes = Vec::new();
    for data in found(1) {
        for chunk_id in found(2) {
            let actions =
                import_actions(&data_key, &chunk_id_key, &data, &chunk_id, &free, &free).unwrap();
            let (_, _, outcome) = import_key(&file, b"pass", &data, &chunk_id).unwrap();
            let sets_aside = actions.iter().any(|a| matches!(a, KeyAction::SetAside { .. }));
            assert_eq!(outcome == ImportOutcome::Replaced, sets_aside);
            assert_eq!(outcome == ImportOutcome::AlreadyCurrent, actions.is_empty());
            outcomes.push(outcome);
        }
    }
    assert_eq!(
        outcomes,
        vec![
            ImportOutcome::Installed,
            ImportOutcome::Replaced,
            ImportOutcome::Installed,
            ImportOutcome::Replaced,
            ImportOutcome::Replaced,
            ImportOutcome::Replaced,
            ImportOutcome::Installed,
            ImportOutcome::Replaced,
            ImportOutcome::AlreadyCurrent,
        ]
    );
}

#[test]
fn importing_sets_other_keys_aside_and_then_writes() {
    let (data, chunk_id) = (DataKey::from_bytes([1; 32]), ChunkIdKey::from_bytes([2; 32]));
    let free = vec![false; 1000];
    let mut taken = free.clone();
    taken[0] = true;
    let write = |file: &str, byte: u8| KeyAction::Write {
        file: file.to_string(),
        key: [byte; 32],
    };
    assert_eq!(
        import_actions(&data, &chunk_id, &KeyState::Missing, &KeyState::Missing, &free, &free),
        Ok(vec![write("data.key", 1), write("chunk-id.key", 2)])
    );
    assert_eq!(
        import_actions(
            &data,
            &chunk_id,
            &KeyState::Present([9; 32]),
            &KeyState::Present([2; 32]),
            &taken,
            &free
        ),
        Ok(vec![
            KeyAction::SetAside {
                file: "data.key".to_string(),
                to: "data.key.old-2".to_string()
            },
            write("data.key", 1),
        ])
    );
    assert_eq!(
        import_actions(
            &data,
            &chunk_id,
            &KeyState::Present([1; 32]),
            &KeyState::Present([2; 32]),
            &free,
            &free
        ),
        Ok(vec![])
    );
    assert_eq!(
        import_actions(
            &data,
            &chunk_id,
            &KeyState::Missing,
            &KeyState::Malformed,
            &free,
            &vec![true; 1000]
        ),
        Err(KeyError::NoBackupSlot)
    );
}

#[test]
fn passphrases_lose_their_line_ends() {
    assert_eq!(passphrase_in_file("secret\r\nmore"), Ok("secret".to_string()));
    assert_eq!(passphrase_in_file("secret"), Ok("secret".to_string()));
    assert_eq!(passphrase_in_file("\nsecret"), Err(KeyError::EmptyPassphrase));
    assert_eq!(passphrase_in_file(""), Err(KeyError::EmptyPassphrase));
    assert_eq!(passphrase_typed(" pw \r\n"), Ok(" pw ".to_string()));
    assert_eq!(passphrase_typed("\r\n"), Err(KeyError::EmptyPassphrase));
}

#[test]
fn mb_per_sec_is_zero_at_the_very_start() {
    let (num, den) = mb_per_sec(1_000_000, Span::zero());
    assert_eq!(num as f64 / den as f64, 0.0);
}

#[test]
fn eta_secs_is_none_until_something_is_done_or_total_is_reached() {
    assert_eq!(eta_secs(100, 0, Span::from_secs(1)), None);
    assert_eq!(eta_secs(100, 100, Span::from_secs(1)), None);
    assert_eq!(eta_secs(100, 150, Span::from_secs(1)), None);
    assert!(eta_secs(100, 50, Span::from_secs(1)).is_some());
}

#[test]
fn eta_secs_extrapolates_linearly() {
    let (num, den) = eta_secs(100, 50, Span::from_secs(10)).unwrap();
    let eta = num as f64 / den as f64;
    assert!((eta - 10.0).abs() < 1e-9, "got {eta}");
}

fn one_of_each() -> BackupReport {
    BackupReport {
        snapshot_id: SnapshotId::from_parts(0, 0),
        files: 1,
        source_bytes: 1,
        chunks_total: 1,
        chunks_unique: 1,
        chunks_uploaded: 1,
        chunks_deduped: 0,
        upload_bytes: 1,
        manifest_bytes: 1,
        compression: PolicyCounters::default(),
    }
}

#[test]
fn quiet_mode_never_renders() {
    let mut reporter = ProgressReporter::new(true, false, true);
    assert_eq!(reporter.mode, Mode::Quiet);
    let totals = BackupTotals {
        total_files: 1,
        total_bytes: 1,
    };
    let shown = reporter.backup_tick(&one_of_each(), totals, Span::zero(), true);
    assert_eq!(shown, Rendered::Nothing);
    assert!(!reporter.finish());
}

#[test]
fn updates_keep_their_distance_and_the_last_is_shown() {
    let totals = BackupTotals {
        total_files: 4,
        total_bytes: 4,
    };
    let mut plain = ProgressReporter::new(false, false, false);
    assert_eq!(
        plain.backup_tick(&one_of_each(), totals, Span::from_secs(1), false),
        Rendered::Text(
            "backup: 1/4 files, 1 chunks hashed, 1 to ship, 1 shipped, 1 bytes up, 0.00 MB/s, ETA ~3s\n"
                .to_string()
        )
    );
    assert_eq!(
        plain.backup_tick(&one_of_each(), totals, Span::from_millis(1149), false),
        Rendered::Nothing
    );
    assert!(matches!(
        plain.backup_tick(&one_of_each(), totals, Span::from_millis(1150), false),
        Rendered::Text(_)
    ));
    assert!(matches!(
        plain.backup_tick(&one_of_each(), totals, Span::from_millis(1151), true),
        Rendered::Text(_)
    ));

    let mut json = ProgressReporter::new(false, true, true);
    assert_eq!(json.mode, Mode::Json);
    let a = json.backup_tick(&one_of_each(), totals, Span::zero(), false);
    let b = json.backup_tick(&one_of_each(), totals, Span::zero(), true);
    assert!(matches!((a, b), (Rendered::Event { seq: x }, Rendered::Event { seq: y }) if x < y));
}

#[test]
fn a_shorter_line_covers_the_one_before() {
    let totals = RestoreTotals {
        total_files: 2,
        total_bytes: 1_048_576,
    };
    let mut tty = ProgressReporter::new(false, false, true);
    let mut report = RestoreReport {
        snapshot_id: SnapshotId::from_parts(0, 0),
        files: 1,
        bytes: 524_288,
        chunks_fetched: 1,
    };
    assert_eq!(
        tty.restore_tick(&report, totals, Span::from_secs(1), false),
        Rendered::Text(
            "\rrestore: 1/2 files, 1 chunks fetched, 524288/1048576 bytes down, 0.50 MB/s, ETA ~1s"
                .to_string()
        )
    );
    report.files = 2;
    report.bytes = 1_048_576;
    report.chunks_fetched = 2;
    assert_eq!(
        tty.restore_tick(&report, totals, Span::from_secs(2), true),
        Rendered::Text(
            "\rrestore: 2/2 files, 2 chunks fetched, 1048576/1048576 bytes down, 0.50 MB/s        \n"
                .to_string()
        )
    );
    assert!(!tty.finish());
}

#[test]
fn sanitize_path_accepts_ordinary_relative_paths() {
    assert_eq!(
        sanitize_path("data/sub/file.txt").unwrap(),
        vec!["data", "sub", "file.txt"]
    );
    assert_eq!(
        sanitize_path("data/sub/file.txt").unwrap().join("/"),
        "data/sub/file.txt"
    );
    assert_eq!(
        sanitize_path("a/./b"),
        Err(RestoreError::UnsafePath { path: "a/./b".to_string() })
    );
}

#[test]
fn sanitize_path_rejects_traversal_and_absolute() {
    assert!(matches!(
        sanitize_path("../etc/passwd"),
        Err(RestoreError::UnsafePath { .. })
    ));
    assert!(matches!(
        sanitize_path("/etc/passwd"),
        Err(RestoreError::UnsafePath { .. })
    ));
    assert!(matches!(
        sanitize_path("data/../../escape"),
        Err(RestoreError::UnsafePath { .. })
    ));
    assert!(matches!(
        sanitize_path(""),
        Err(RestoreError::UnsafePath { .. })
    ));
    assert!(matches!(
        sanitize_path("data//double"),
        Err(RestoreError::UnsafePath { .. })
    ));
}

#[test]
fn ensure_empty_target_creates_missing_and_accepts_empty() {
    assert_eq!(ensure_empty_target(TargetState::Missing), Ok(true));
    assert_eq!(ensure_empty_target(TargetState::EmptyDirectory), Ok(false));
}

#[test]
fn ensure_empty_target_refuses_nonempty_and_files() {
    assert!(matches!(
        ensure_empty_target(TargetState::OccupiedDirectory),
        Err(RestoreError::TargetNotEmpty)
    ));
    assert!(matches!(
        ensure_empty_target(TargetState::NotDirectory),
        Err(RestoreError::TargetNotEmpty)
    ));
}

#[test]
fn mtime_parts_handles_pre_epoch() {
    assert_eq!(mtime_parts(Some((false, 3, 250_000_000))), (-4, 750_000_000));
    assert_eq!(mtime_parts(Some((false, 3, 0))), (-3, 0));
    assert_eq!(mtime_parts(Some((true, 3, 250_000_000))), (3, 250_000_000));
    assert_eq!(mtime_parts(None), (0, 0));
    let most = i64::MAX as u64;
    assert_eq!(mtime_parts(Some((true, most, 999_999_999))), (i64::MAX, 999_999_999));
    assert_eq!(mtime_parts(Some((false, most, 0))), (-i64::MAX, 0));
    assert_eq!(mtime_parts(Some((false, most - 1, 1))), (-i64::MAX, 999_999_999));
}

fn item(name: &str, kind: EntryKind) -> DirItem {
    DirItem {
        name: name.to_string(),
        kind,
    }
}

#[test]
fn collect_files_is_sorted_prefixed_and_skips_non_files() {
    let items = vec![
        item("sub", EntryKind::Directory),
        item("b.txt", EntryKind::File),
        item("link", EntryKind::Other),
        item("a.txt", EntryKind::File),
    ];
    let order = walk_order(&items);
    let names: Vec<&str> = order.iter().map(|i| items[*i].name.as_str()).collect();
    assert_eq!(names, vec!["a.txt", "b.txt", "sub"]);
    assert_eq!(child_path("data", "a.txt"), "data/a.txt");
    assert_eq!(child_path(&child_path("data", "sub"), "c.txt"), "data/sub/c.txt");
}

#[test]
fn colliding_roots_are_refused() {
    let mut names = Vec::new();
    assert_eq!(add_root_name(&mut names, "same".to_string()), Ok(()));
    assert_eq!(add_root_name(&mut names, "other".to_string()), Ok(()));
    assert!(matches!(
        add_root_name(&mut names, "same".to_string()),
        Err(BackupError::DuplicateRootName { name }) if name == "same"
    ));
    assert_eq!(names, vec!["same", "other"]);
}

#[test]
fn first_tick_is_immediate_then_spaced_by_the_schedule() {
    let schedule = SchedulePolicy::new(Span::from_secs(3 * 60 * 60), 0, 1).unwrap();
    let mut now_ms = 0i64;
    let mut slept = 0;
    let mut started = Vec::new();
    let (mut state, mut action) = step(RunState::Starting, RunEvent::Started { now_ms });
    while started.len() < 4 {
        match action {
            RunAction::BackUp { .. } => {
                started.push(now_ms);
                (state, action) = step(state, RunEvent::BackupEnded { succeeded: false });
            }
            RunAction::Wait => {
                now_ms += schedule.next_delay(0).as_millis() as i64;
                slept += 1;
                (state, action) = step(state, RunEvent::WaitOver { now_ms });
            }
            other => panic!("unexpected {other:?}"),
        }
    }
    assert_eq!(started.len(), 4, "must have run exactly 4 ticks");
    assert_eq!(started[0], 0, "first tick must fire immediately");
    for pair in started.windows(2) {
        assert_eq!(pair[1] - pair[0], 3 * 60 * 60 * 1000);
    }
    assert_eq!(slept, 3, "one sleep between each pair of ticks");
    assert_eq!(step(state, RunEvent::Shutdown), (RunState::Stopped, RunAction::Stop));
}

#[test]
fn times_of_a_run() {
    assert_eq!(created_at(1_700_000_000_999), 1_700_000_000);
    assert_eq!(created_at(-1), -1);
    assert_eq!(attempt_duration_ms(1000, 1250), 250);
    assert_eq!(attempt_duration_ms(1250, 1000), 0);
}

#[test]
fn formats_known_timestamps() {
    assert_eq!(format_utc_ms(0), "1970-01-01 00:00:00 UTC");
    assert_eq!(format_utc_ms(1_700_000_000_000), "2023-11-14 22:13:20 UTC");
    assert_eq!(format_utc_ms(1_709_208_000_000), "2024-02-29 12:00:00 UTC");
    assert_eq!(format_utc_ms(999), "1970-01-01 00:00:00 UTC");
    assert_eq!(format_utc_secs(1_700_000_000), "2023-11-14 22:13:20 UTC");
    assert_eq!(civil_from_days(0), (1970, 1, 1));
    assert_eq!(civil_from_days(11_016), (2000, 2, 29));
    assert_eq!(civil_from_days(47_541), (2100, 3, 1));
}

#[test]
fn ulid_timestamp_matches_from_parts() {
    let id = SnapshotId::from_parts(1_700_000_000_000, 7);
    assert_eq!(id.timestamp_ms(), 1_700_000_000_000);
    assert_eq!(format_utc_ms(id.timestamp_ms()), "2023-11-14 22:13:20 UTC");
}

#[test]
fn snapshot_ids_agree_with_ulid() {
    let id = SnapshotId::from_parts(1_700_000_000_000, 42);
    let ulid = ulid::Ulid::from_parts(1_700_000_000_000, 42);
    assert_eq!(id.value, ulid.0);
    assert_eq!(id.to_bytes(), ulid.to_bytes());
    assert_eq!(id.to_string(), ulid.to_string());
    assert_eq!(id.to_string().len(), 26);
    assert_eq!(SnapshotId::parse(&ulid.to_string()), Ok(id));
    assert_eq!(SnapshotId::parse(&ulid.to_string().to_lowercase()), Ok(id));
    let high = "8000000000000000000000000A";
    assert_eq!(SnapshotId::parse(high), Ok(SnapshotId { value: 10 }));
    assert_eq!(ulid::Ulid::from_string(high).unwrap().0, 10);
    assert_eq!(SnapshotId { value: u128::MAX }.to_string(), "7ZZZZZZZZZZZZZZZZZZZZZZZZZ");
    assert_eq!(SnapshotId::parse("short"), Err(SnapshotIdError::InvalidLength));
    assert_eq!(
        SnapshotId::parse("0000000000000000000000000!"),
        Err(SnapshotIdError::InvalidChar)
    );
    assert_eq!(SnapshotId::from_bytes(id.to_bytes()), id);
    assert_eq!(SnapshotId::from_wire(&id.to_bytes()), Some(id));
    assert_eq!(SnapshotId::from_wire(&[0; 15]), None);
}

#[test]
fn snapshots_are_listed_oldest_first() {
    let ids: Vec<SnapshotId> = [3u64, 1, 2]
        .iter()
        .map(|t| SnapshotId::from_parts(*t, 9))
        .collect();
    let raw: Vec<Vec<u8>> = ids.iter().map(|id| id.to_bytes().to_vec()).collect();
    let entries = list_snapshots(&raw).unwrap();
    let times: Vec<u64> = entries.iter().map(|e| e.timestamp_ms).collect();
    assert_eq!(times, vec![1, 2, 3]);
    assert_eq!(entries[0].id, ids[1]);
    let last: Vec<u64> = recent(&entries, 2).iter().map(|e| e.timestamp_ms).collect();
    assert_eq!(last, vec![2, 3]);
    assert_eq!(recent(&entries, 5).len(), 3);
    assert_eq!(
        list_snapshots(&vec![vec![0; 16], vec![0; 5]]),
        Err(ListError::BadSnapshotId { len: 5 })
    );
}

#[test]
fn a_record_holds_the_report() {
    let report = BackupReport {
        snapshot_id: SnapshotId::from_parts(1_700_000_000_000, 1),
        files: 3,
        source_bytes: 1000,
        chunks_total: 5,
        chunks_unique: 4,
        chunks_uploaded: 2,
        chunks_deduped: 2,
        upload_bytes: 512,
        manifest_bytes: 64,
        compression: PolicyCounters::default(),
    };
    let record = LastBackupRecord::from_report(&report, 1_700_000_000, 1234);
    assert_eq!(
        record,
        LastBackupRecord {
            snapshot_id: report.snapshot_id.to_string(),
            created_at: 1_700_000_000,
            files: 3,
            upload_bytes: 512,
            duration_ms: 1234,
        }
    );
}

#[test]
fn the_status_is_rendered_line_by_line() {
    let id = SnapshotId::from_parts(1_700_000_000_000, 1);
    let status = ClientStatus {
        state_dir: "/state".into(),
        name: Some("laptop".into()),
        cert_fingerprint: Some("ab:cd".into()),
        daemon_url: None,
        chunk_target_size: Some("1M".into()),
        last_backup: Some(LastBackupRecord {
            snapshot_id: id.to_string(),
            created_at: 1_700_000_000,
            files: 3,
            upload_bytes: 512,
            duration_ms: 1234,
        }),
        has_config: true,
        recent: Some(vec![
            SnapshotEntry { id: SnapshotId::from_parts(0, 0), timestamp_ms: 0 },
            SnapshotEntry { id, timestamp_ms: 1_700_000_000_000 },
        ]),
    };
    assert!(status.enrolled());
    let (who, last, history) = render_status(&status);
    assert_eq!(
        who,
        vec![
            "state:               /state",
            "enrolled as:         laptop",
            "cert fingerprint:    ab:cd",
            "daemon:              (unknown — pass --config)",
            "chunk_target_size:   1M",
        ]
    );
    assert_eq!(
        last,
        vec![
            "last backup:".to_string(),
            format!("  snapshot:          {}", id.to_string()),
            "  created:           2023-11-14 22:13:20 UTC".to_string(),
            "  files:             3".to_string(),
            "  upload bytes:      512".to_string(),
            "  duration:          1234 ms".to_string(),
        ]
    );
    assert_eq!(
        history,
        vec![
            "recent snapshots (daemon reachable, newest first):".to_string(),
            format!("  {}  2023-11-14 22:13:20 UTC", id.to_string()),
            "  00000000000000000000000000  1970-01-01 00:00:00 UTC".to_string(),
        ]
    );
}

#[test]
fn the_commands_say_what_they_did() {
    let report = BackupReport {
        snapshot_id: SnapshotId::from_parts(0, 1),
        files: 3,
        source_bytes: 1000,
        chunks_total: 5,
        chunks_unique: 4,
        chunks_uploaded: 2,
        chunks_deduped: 2,
        upload_bytes: 512,
        manifest_bytes: 64,
        compression: PolicyCounters {
            raw: 1,
            zstd3: 1,
            escalated: 0,
            escalation_attempts: 0,
            bytes_in: 900,
            bytes_out: 430,
        },
    };
    assert_eq!(
        render_backup(&report, "https://h:1"),
        vec![
            "snapshot 00000000000000000000000001 stored on https://h:1",
            "  3 file(s), 1000 bytes scanned; 5 chunk refs (4 unique)",
            "  shipped 2 new chunk(s) = 512 encrypted bytes; 2 deduplicated; manifest 64 bytes (encrypted)",
            "  compression: 1 raw, 1 zstd3, 0 escalated (470 bytes saved)",
        ]
    );
    assert_eq!(
        render_tick(-5, &report),
        "[t=-5ms] snapshot 00000000000000000000000001 stored: 3 file(s), 2 chunk(s) shipped (512 bytes), 2 deduplicated"
    );
    assert_eq!(
        render_failed_tick(7, "daemon unreachable"),
        "[t=7ms] backup attempt failed: daemon unreachable"
    );
    let restored = RestoreReport {
        snapshot_id: SnapshotId::from_parts(0, 1),
        files: 3,
        bytes: 1000,
        chunks_fetched: 5,
    };
    assert_eq!(
        render_restore(&restored, "/target"),
        vec![
            "snapshot 00000000000000000000000001 restored to /target",
            "  3 file(s), 1000 bytes written, 5 chunk(s) fetched and verified",
        ]
    );
    let entries = vec![SnapshotEntry {
        id: SnapshotId::from_parts(0, 1),
        timestamp_ms: 0,
    }];
    assert_eq!(
        render_list(&entries, "d"),
        vec![
            "1 snapshot(s) on d (oldest first):",
            "  00000000000000000000000001  1970-01-01 00:00:00 UTC",
        ]
    );
    assert_eq!(render_list(&vec![], "d"), vec!["no snapshots stored on d"]);
}
