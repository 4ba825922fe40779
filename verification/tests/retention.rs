use std::collections::HashMap;

use busyncr::retention::{plan, Plan, RetentionError, RetentionPolicy, Tier};
use busyncr::scheduler::{SchedulePolicy, ScheduleError};
use busyncr::span::Span;
use rand::rngs::StdRng;
use rand::{RngExt, SeedableRng};

const HOUR_MS: i64 = 60 * 60 * 1000;
const DAY_MS: i64 = 24 * HOUR_MS;

fn hours(n: u64) -> Span {
    Span::from_secs(n * 3600)
}

#[test]
fn from_tiers_validates() {
    assert_eq!(
        RetentionPolicy::from_tiers(vec![]),
        Err(RetentionError::NoTiers)
    );
    assert_eq!(
        RetentionPolicy::from_tiers(vec![Tier::new(hours(24), Span::zero())]),
        Err(RetentionError::ZeroCell { index: 0 })
    );
    assert_eq!(
        RetentionPolicy::from_tiers(vec![
            Tier::new(hours(96), hours(24)),
            Tier::new(hours(24), hours(3)),
        ]),
        Err(RetentionError::Unordered { index: 1 })
    );
    assert!(RetentionPolicy::from_tiers(vec![Tier::new(hours(24), hours(3))]).is_ok());
}

#[test]
fn empty_input_and_single_snapshot() {
    let policy = RetentionPolicy::default_grid();
    let empty: [(i64, u32); 0] = [];
    assert_eq!(
        plan(0, &empty, &policy),
        Plan {
            keep: vec![],
            drop: vec![]
        }
    );
    assert_eq!(
        plan(1_000, &[(1_000, 7u32)], &policy),
        Plan {
            keep: vec![7],
            drop: vec![]
        }
    );
}

#[test]
fn two_snapshots_in_one_cell_keep_the_newest() {
    let policy = RetentionPolicy::default_grid();
    let now = 100 * DAY_MS;
    let a = (now - 3 * HOUR_MS, 'a');
    let b = (now - 1, 'b');
    let got = plan(now, &[a, b], &policy);
    assert_eq!(got.keep, vec!['b']);
    assert_eq!(got.drop, vec!['a']);
}

#[test]
fn distinct_cells_all_survive() {
    let policy = RetentionPolicy::default_grid();
    let now = 100 * DAY_MS;
    let snaps = [(now, 0u32), (now - 3 * HOUR_MS, 1), (now - 6 * HOUR_MS, 2)];
    let got = plan(now, &snaps, &policy);
    assert_eq!(got.keep, vec![0, 1, 2]);
    assert!(got.drop.is_empty());
}

/// 60 days of snapshots taken exactly every 3 hours, against the surviving set
/// computed by hand.
#[test]
fn fr5_sixty_day_three_hourly_simulation_matches_hand_computed_survivors() {
    let policy = RetentionPolicy::default_grid();
    let step = 3 * HOUR_MS;
    let last: i64 = 60 * 8;
    let snaps: Vec<(i64, i64)> = (0..=last).map(|k| (k * step, k)).collect();
    let now = last * step;

    let got = plan(now, &snaps, &policy);
    let mut kept: Vec<i64> = got.keep.clone();
    kept.sort_unstable();

    let mut expected = vec![
        127, 255, 352, // 16 days and older
        383, 415, 447, 448, // 4 to 16 days
        455, 463, 471, 472, // 1 to 4 days
        473, 474, 475, 476, 477, 478, 479, 480, // under a day
    ];
    expected.sort_unstable();
    assert_eq!(kept, expected, "surviving snapshot set must match the grid");
    assert_eq!(got.keep.len() + got.drop.len(), snaps.len());
    for id in &got.drop {
        assert!(!got.keep.contains(id));
    }
}

#[test]
fn plan_is_idempotent_over_survivors() {
    let policy = RetentionPolicy::default_grid();
    let step = 3 * HOUR_MS;
    let last: i64 = 60 * 8;
    let snaps: Vec<(i64, i64)> = (0..=last).map(|k| (k * step, k)).collect();
    let now = last * step;

    let first = plan(now, &snaps, &policy);
    let survivor_pairs: Vec<(i64, i64)> = snaps
        .iter()
        .copied()
        .filter(|(_, id)| first.keep.contains(id))
        .collect();
    let second = plan(now, &survivor_pairs, &policy);
    assert_eq!(
        second.keep, first.keep,
        "planning survivors must keep them all"
    );
    assert!(second.drop.is_empty());
}

#[test]
fn every_cell_keeps_exactly_one_survivor() {
    let policy = RetentionPolicy::default_grid();
    let step = 3 * HOUR_MS;
    let last: i64 = 60 * 8;
    let snaps: Vec<(i64, i64)> = (0..=last).map(|k| (k * step, k)).collect();
    let now = last * step;
    let got = plan(now, &snaps, &policy);

    let cell_of = |t: i64| -> (usize, i64) {
        let age = Span::from_millis((now - t).max(0) as u64);
        let (ti, tier) = policy.tier_for(age);
        (ti, t.div_euclid(tier.cell_ms()))
    };

    let mut per_cell: HashMap<(usize, i64), Vec<i64>> = HashMap::new();
    for &id in &got.keep {
        per_cell.entry(cell_of(id * step)).or_default().push(id);
    }
    for (cell, members) in &per_cell {
        assert_eq!(members.len(), 1, "cell {cell:?} kept {members:?}");
    }
    for &dropped in &got.drop {
        let cell = cell_of(dropped * step);
        let survivor = per_cell.get(&cell).and_then(|v| v.first()).copied();
        assert!(
            survivor.is_some_and(|s| s > dropped),
            "dropped {dropped} must yield to a newer survivor in cell {cell:?}"
        );
    }
}

#[test]
fn future_dated_snapshot_is_youngest_tier() {
    let policy = RetentionPolicy::default_grid();
    let now = 10 * DAY_MS;
    let got = plan(now, &[(now + DAY_MS, 1u32), (now, 2u32)], &policy);
    assert_eq!(got.keep.len(), 2);
    assert!(got.drop.is_empty());
}

#[test]
fn the_default_grid_has_the_documented_tiers() {
    let policy = RetentionPolicy::default_grid();
    let tiers: Vec<(Span, Span)> = policy
        .tiers()
        .iter()
        .map(|t| (t.max_age(), t.cell()))
        .collect();
    assert_eq!(
        tiers,
        vec![
            (hours(24), hours(3)),
            (hours(96), hours(24)),
            (hours(384), hours(96)),
            (Span::max(), hours(384)),
        ]
    );
    assert_eq!(policy.clone(), policy);
    assert_eq!(policy.tier_for(Span::zero()).0, 0);
    assert_eq!(policy.tier_for(hours(24)).0, 1);
    assert_eq!(policy.tier_for(hours(96)).0, 2);
    assert_eq!(policy.tier_for(hours(384)).0, 3);
}

#[test]
fn cells_before_the_epoch_are_aligned_downwards() {
    let policy = RetentionPolicy::default_grid();
    // -1 ms and 0 ms lie in different cells; -1 ms and -3 h share one.
    let got = plan(
        0,
        &[(-3 * HOUR_MS, 'a'), (-1, 'b'), (0, 'c')],
        &policy,
    );
    assert_eq!(got.keep, vec!['b', 'c']);
    assert_eq!(got.drop, vec!['a']);
}

#[test]
fn new_rejects_zero_interval_and_bad_jitter() {
    assert_eq!(
        SchedulePolicy::new(Span::zero(), 1, 10),
        Err(ScheduleError::ZeroInterval)
    );
    assert_eq!(
        SchedulePolicy::new(Span::from_secs(1), 15, 10),
        Err(ScheduleError::JitterOutOfRange { num: 15, den: 10 })
    );
    assert_eq!(
        SchedulePolicy::new(Span::from_secs(1), -1, 10),
        Err(ScheduleError::JitterOutOfRange { num: -1, den: 10 })
    );
    assert!(SchedulePolicy::new(Span::from_secs(1), 0, 1).is_ok());
    assert!(SchedulePolicy::new(Span::from_secs(1), 1, 1).is_ok());
}

#[test]
fn default_policy_matches_prd_3_5() {
    let policy = SchedulePolicy::default_policy();
    assert_eq!(policy.interval(), Span::from_secs(3 * 60 * 60));
    let (num, den) = policy.jitter();
    assert_eq!(num as f64 / den as f64, 0.1);
}

fn draw(policy: &SchedulePolicy, rng: &mut StdRng) -> Span {
    policy.next_delay(rng.random_range(0..=2 * policy.max_deviation()))
}

#[test]
fn zero_jitter_returns_the_exact_interval_every_time() {
    let policy = SchedulePolicy::new(Span::from_secs(1000), 0, 1).unwrap();
    let mut rng = StdRng::seed_from_u64(1);
    for _ in 0..50 {
        assert_eq!(draw(&policy, &mut rng), Span::from_secs(1000));
    }
}

#[test]
fn next_delay_stays_within_the_jitter_band() {
    let interval = Span::from_secs(3 * 60 * 60);
    let policy = SchedulePolicy::new(interval, 1, 10).unwrap();
    let lo = Span::from_secs(9_720);
    let hi = Span::from_secs(11_880);
    let mut rng = StdRng::seed_from_u64(99);
    let mut saw_below_nominal = false;
    let mut saw_above_nominal = false;
    for _ in 0..2000 {
        let delay = draw(&policy, &mut rng);
        assert!(
            delay >= lo && delay <= hi,
            "delay {delay:?} escaped the jitter band [{lo:?}, {hi:?}]"
        );
        if delay < interval {
            saw_below_nominal = true;
        }
        if delay > interval {
            saw_above_nominal = true;
        }
    }
    assert!(
        saw_below_nominal,
        "jitter must be able to shorten the delay"
    );
    assert!(
        saw_above_nominal,
        "jitter must be able to lengthen the delay"
    );
}

#[test]
fn next_delay_is_deterministic_given_the_same_seed() {
    let policy = SchedulePolicy::default_policy();
    let seq = |seed: u64| {
        let mut rng = StdRng::seed_from_u64(seed);
        (0..10).map(|_| draw(&policy, &mut rng)).collect::<Vec<_>>()
    };
    assert_eq!(seq(7), seq(7), "same seed must reproduce the same delays");
    assert_ne!(
        seq(7),
        seq(8),
        "different seeds should (overwhelmingly likely) diverge"
    );
}

#[test]
fn full_jitter_never_produces_a_negative_duration() {
    let policy = SchedulePolicy::new(Span { nanos: 1 }, 1, 1).unwrap();
    let mut rng = StdRng::seed_from_u64(3);
    for _ in 0..200 {
        let _ = draw(&policy, &mut rng);
    }
    assert_eq!(policy.next_delay(0), Span::zero());
}

#[test]
fn the_band_is_reached_at_both_ends() {
    let policy = SchedulePolicy::default_policy();
    let deviation = policy.max_deviation();
    assert_eq!(deviation, 1_080_000_000_000);
    assert_eq!(policy.next_delay(0), Span::from_secs(9_720));
    assert_eq!(policy.next_delay(deviation), Span::from_secs(10_800));
    assert_eq!(policy.next_delay(2 * deviation), Span::from_secs(11_880));
}
