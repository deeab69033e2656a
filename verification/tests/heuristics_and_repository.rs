use std::collections::{BTreeMap, HashMap};

use timed_stats::diff_points::{
    DiffPoint, DiffPointId, DiffSequence, DiffSequenceChoice, FullSnapshotPoint, IdIndexedDiffPoints,
};
use timed_stats::heuristics::{
    choose_base_diff_sequence_for_snapshot_with_heuristics, loss_factors_for_snapshot,
    settle_base_diff_sequence, BaseDiffSequenceDecision, LossFactorAtParticularDepthInSequence,
};
use timed_stats::repository::{
    choose_snapshot_point_location, diff_point_ids_towards_tip, diff_points_from_rows,
    full_snapshot_point_from_rows, snapshot_from_upstream_entries,
    DiffPointRowsError, SnapshotPointLocation, TimeBasedSnapshotSearchCondition, UpstreamDataError,
};
use timed_stats::snapshot::{SnapshotDiff, StatsSnapshot};
use timed_stats::statistics::{BreakCount, PlayTicks, UtcTimestamp};
use timed_stats::uuid::{Player, PlayerUuidString, UuidStringError};

fn uuid_text(n: u32) -> String {
    format!("00000000-0000-0000-0000-{:012}", n)
}

fn uuid(n: u32) -> PlayerUuidString {
    PlayerUuidString::from_string(&uuid_text(n)).unwrap()
}

fn player(n: u32) -> Player {
    Player { uuid: uuid(n) }
}

fn snapshot(t: i128, stats: &[(u32, u64)]) -> StatsSnapshot<BreakCount> {
    let mut s = StatsSnapshot::new(UtcTimestamp(t));
    for (p, v) in stats {
        s.insert(player(*p), BreakCount(*v));
    }
    s
}

fn full_point(id: u64, t: i128, stats: &[(u32, u64)]) -> FullSnapshotPoint<BreakCount> {
    FullSnapshotPoint { id, full_snapshot: snapshot(t, stats) }
}

fn diff_point(id: u64, prev: Option<u64>, t: i128, stats: &[(u32, u64)]) -> DiffPoint<BreakCount> {
    let mut diff = SnapshotDiff::new(UtcTimestamp(t));
    for (p, v) in stats {
        diff.insert(uuid(*p), BreakCount(*v));
    }
    DiffPoint { id: DiffPointId(id), previous_diff_point_id: prev.map(DiffPointId), diff }
}

fn ids(points: &[DiffPoint<BreakCount>]) -> Vec<u64> {
    points.iter().map(|p| p.id.0).collect()
}

fn factor(depth: usize, total: usize, required: usize) -> LossFactorAtParticularDepthInSequence {
    LossFactorAtParticularDepthInSequence {
        diff_sequence_depth: depth,
        total_diffs_on_current_diff_sequence: total,
        diffs_required_to_extend_from_the_point: required,
    }
}

fn chain(n: u64) -> Vec<DiffPoint<BreakCount>> {
    (1..=n)
        .map(|i| diff_point(i, if i == 1 { None } else { Some(i - 1) }, i as i128, &[(1, i)]))
        .collect()
}

#[test]
fn loss_factors_of_the_documented_example() {
    // full snapshot F = {a: 1, b: 1, c: 1}, one diff D = {a: 2, b: 2},
    // snapshot to record {a: 3, b: 2, c: 1}
    let sequence = DiffSequence::new(
        full_point(1, 0, &[(1, 1), (2, 1), (3, 1)]),
        vec![diff_point(1, None, 1, &[(1, 2), (2, 2)])],
    );
    let target = snapshot(2, &[(1, 3), (2, 2), (3, 1)]);
    let factors = loss_factors_for_snapshot(&sequence, &target);
    assert_eq!(factors, vec![factor(1, 0, 2), factor(2, 2, 1)]);
}

#[test]
fn loss_factors_of_a_full_snapshot_alone() {
    let sequence = DiffSequence::without_any_diffs(full_point(1, 0, &[(1, 1), (2, 1)]));
    let target = snapshot(2, &[(1, 1), (2, 5), (3, 7)]);
    assert_eq!(loss_factors_for_snapshot(&sequence, &target), vec![factor(1, 0, 2)]);
}

#[test]
fn loss_factors_along_a_chain() {
    let sequence = DiffSequence::new(
        full_point(1, 0, &[(1, 0), (2, 0)]),
        vec![
            diff_point(1, None, 1, &[(1, 5)]),
            diff_point(2, Some(1), 2, &[(1, 6), (2, 4)]),
            diff_point(3, Some(2), 3, &[(2, 9)]),
        ],
    );
    let target = snapshot(4, &[(1, 6), (2, 9)]);
    assert_eq!(
        loss_factors_for_snapshot(&sequence, &target),
        vec![factor(1, 0, 2), factor(2, 1, 2), factor(3, 3, 1), factor(4, 4, 0)]
    );
}

#[test]
fn without_diff_points_the_snapshot_goes_on_the_full_snapshot() {
    let points: IdIndexedDiffPoints<BreakCount> = IdIndexedDiffPoints::new(vec![]);
    let r = choose_base_diff_sequence_for_snapshot_with_heuristics(full_point(4, 0, &[]), points, &snapshot(1, &[]));
    match r {
        Ok(BaseDiffSequenceDecision::Decided(DiffSequenceChoice::OptimalAccordingToHeuristics(s))) => {
            assert_eq!(s.base_point.id, 4);
            assert!(s.diff_points.is_empty());
        }
        _ => panic!("the full snapshot alone was expected"),
    }
}

#[test]
fn over_2500_diff_points_ask_for_a_full_snapshot() {
    let points = IdIndexedDiffPoints::new(chain(2501));
    let r = choose_base_diff_sequence_for_snapshot_with_heuristics(full_point(4, 0, &[]), points, &snapshot(9999, &[]));
    assert!(matches!(r, Ok(BaseDiffSequenceDecision::Decided(DiffSequenceChoice::NoAppropriatePointFound))));
}

#[test]
fn up_to_2500_diff_points_are_ranked() {
    let points = IdIndexedDiffPoints::new(chain(3));
    let target = snapshot(10, &[(1, 2)]);
    let r = choose_base_diff_sequence_for_snapshot_with_heuristics(full_point(4, 0, &[(1, 0)]), points, &target);
    match r {
        Ok(BaseDiffSequenceDecision::RankByLoss { sequence, loss_factors }) => {
            assert_eq!(sequence.base_point.id, 4);
            assert_eq!(ids(&sequence.diff_points), vec![1, 2, 3]);
            assert_eq!(loss_factors, vec![factor(1, 0, 1), factor(2, 1, 1), factor(3, 2, 0), factor(4, 3, 0)]);
        }
        _ => panic!("a ranking was expected"),
    }
}

#[test]
fn a_cycle_among_diff_points_is_reported() {
    let points = IdIndexedDiffPoints::new(vec![diff_point(1, Some(2), 1, &[]), diff_point(2, Some(1), 2, &[])]);
    let r = choose_base_diff_sequence_for_snapshot_with_heuristics(full_point(4, 0, &[]), points, &snapshot(3, &[]));
    match r {
        Err(e) => assert_eq!(e.cycle, vec![DiffPointId(2), DiffPointId(1), DiffPointId(2)]),
        Ok(_) => panic!("a cycle was expected"),
    }
}

#[test]
fn settling_keeps_the_prefix_of_the_chosen_depth() {
    let sequence = DiffSequence::new(full_point(4, 0, &[]), chain(3));
    match settle_base_diff_sequence(sequence, 2) {
        DiffSequenceChoice::OptimalAccordingToHeuristics(s) => {
            assert_eq!(s.base_point.id, 4);
            assert_eq!(ids(&s.diff_points), vec![1]);
        }
        DiffSequenceChoice::NoAppropriatePointFound => panic!("a prefix was expected"),
    }
    let sequence = DiffSequence::new(full_point(4, 0, &[]), chain(3));
    match settle_base_diff_sequence(sequence, 1) {
        DiffSequenceChoice::OptimalAccordingToHeuristics(s) => assert!(s.diff_points.is_empty()),
        DiffSequenceChoice::NoAppropriatePointFound => panic!("a prefix was expected"),
    }
}

#[test]
fn settling_on_more_than_1000_points_asks_for_a_full_snapshot() {
    let sequence = DiffSequence::new(full_point(4, 0, &[]), chain(1000));
    assert!(matches!(settle_base_diff_sequence(sequence, 1001), DiffSequenceChoice::NoAppropriatePointFound));
    let sequence = DiffSequence::new(full_point(4, 0, &[]), chain(1000));
    match settle_base_diff_sequence(sequence, 1000) {
        DiffSequenceChoice::OptimalAccordingToHeuristics(s) => assert_eq!(s.diff_points.len(), 999),
        DiffSequenceChoice::NoAppropriatePointFound => panic!("a prefix was expected"),
    }
}

#[test]
fn prefix_of_depth_counts_the_full_snapshot() {
    let s = DiffSequence::new(full_point(4, 0, &[]), chain(5)).prefix_of_depth(3);
    assert_eq!(ids(&s.diff_points), vec![1, 2]);
}

#[test]
fn search_picks_the_only_match() {
    let cond = TimeBasedSnapshotSearchCondition::NewestBefore(UtcTimestamp(10));
    assert_eq!(choose_snapshot_point_location(cond, None, None), None);
    assert_eq!(
        choose_snapshot_point_location(cond, Some((3, UtcTimestamp(5))), None),
        Some(SnapshotPointLocation::Full(3))
    );
    assert_eq!(
        choose_snapshot_point_location(cond, None, Some((DiffPointId(8), UtcTimestamp(5)))),
        Some(SnapshotPointLocation::Diff(DiffPointId(8)))
    );
}

#[test]
fn newest_before_picks_the_later_point() {
    let cond = TimeBasedSnapshotSearchCondition::NewestBefore(UtcTimestamp(10));
    assert_eq!(
        choose_snapshot_point_location(cond, Some((3, UtcTimestamp(9))), Some((DiffPointId(8), UtcTimestamp(5)))),
        Some(SnapshotPointLocation::Full(3))
    );
    assert_eq!(
        choose_snapshot_point_location(cond, Some((3, UtcTimestamp(4))), Some((DiffPointId(8), UtcTimestamp(5)))),
        Some(SnapshotPointLocation::Diff(DiffPointId(8)))
    );
    assert_eq!(
        choose_snapshot_point_location(cond, Some((3, UtcTimestamp(5))), Some((DiffPointId(8), UtcTimestamp(5)))),
        Some(SnapshotPointLocation::Diff(DiffPointId(8)))
    );
}

#[test]
fn oldest_after_picks_the_earlier_point() {
    let cond = TimeBasedSnapshotSearchCondition::OldestAfter(UtcTimestamp(0));
    assert_eq!(
        choose_snapshot_point_location(cond, Some((3, UtcTimestamp(2))), Some((DiffPointId(8), UtcTimestamp(5)))),
        Some(SnapshotPointLocation::Full(3))
    );
    assert_eq!(
        choose_snapshot_point_location(cond, Some((3, UtcTimestamp(7))), Some((DiffPointId(8), UtcTimestamp(5)))),
        Some(SnapshotPointLocation::Diff(DiffPointId(8)))
    );
}

fn links(pairs: &[(u64, Option<u64>)]) -> HashMap<u64, Option<DiffPointId>> {
    pairs.iter().map(|(k, v)| (*k, v.map(DiffPointId))).collect()
}

#[test]
fn ids_towards_the_tip_stop_at_an_unrecorded_point() {
    let m = links(&[(2, Some(1)), (5, Some(2))]);
    let r = diff_point_ids_towards_tip(DiffPointId(5), &m).unwrap();
    assert_eq!(r, vec![DiffPointId(1), DiffPointId(2), DiffPointId(5)]);
    assert!(!m.contains_key(&r[0].0));
    let r = diff_point_ids_towards_tip(DiffPointId(7), &m).unwrap();
    assert_eq!(r, vec![DiffPointId(7)]);
}

#[test]
fn ids_towards_the_tip_start_at_the_root() {
    let m = links(&[(1, None), (2, Some(1)), (5, Some(2)), (9, Some(1))]);
    let r = diff_point_ids_towards_tip(DiffPointId(5), &m).unwrap();
    assert_eq!(r, vec![DiffPointId(1), DiffPointId(2), DiffPointId(5)]);
    let r = diff_point_ids_towards_tip(DiffPointId(1), &m).unwrap();
    assert_eq!(r, vec![DiffPointId(1)]);
}

#[test]
fn ids_towards_the_tip_report_a_cycle() {
    let m = links(&[(1, Some(3)), (2, Some(1)), (3, Some(2))]);
    let e = diff_point_ids_towards_tip(DiffPointId(3), &m).unwrap_err();
    assert_eq!(e.cycle, vec![DiffPointId(3), DiffPointId(2), DiffPointId(1), DiffPointId(3)]);
}

#[test]
fn full_snapshot_from_rows() {
    let rows = vec![(uuid_text(1), 10), (uuid_text(2), 20), (uuid_text(1), 11)];
    let p = match full_snapshot_point_from_rows::<PlayTicks>(5, UtcTimestamp(100), rows) {
        Ok(p) => p,
        Err(e) => panic!("unexpected {:?}", e),
    };
    assert_eq!(p.id, 5);
    assert_eq!(p.full_snapshot.utc_timestamp, UtcTimestamp(100));
    assert_eq!(p.full_snapshot.len(), 2);
    assert_eq!(p.full_snapshot.get(&player(1)), Some(PlayTicks(11)));
    assert_eq!(p.full_snapshot.get(&player(2)), Some(PlayTicks(20)));
}

#[test]
fn full_snapshot_from_rows_fails_on_the_first_invalid_uuid() {
    let rows = vec![(uuid_text(1), 10), ("short".to_string(), 20), ("ü".to_string(), 30)];
    match full_snapshot_point_from_rows::<PlayTicks>(5, UtcTimestamp(100), rows) {
        Err(e) => assert_eq!(e, UuidStringError::WrongLength { got: "short".to_string() }),
        Ok(_) => panic!("an error was expected"),
    }
    let rows = vec![("ü".to_string(), 30), ("short".to_string(), 20)];
    match full_snapshot_point_from_rows::<PlayTicks>(5, UtcTimestamp(100), rows) {
        Err(e) => assert_eq!(e, UuidStringError::NotAscii { got: "ü".to_string() }),
        Ok(_) => panic!("an error was expected"),
    }
}

#[test]
fn snapshot_from_upstream_entries_keeps_the_last_entry_of_a_player() {
    let entries = vec![
        (Some(uuid_text(1)), BreakCount(1)),
        (Some(uuid_text(2)), BreakCount(2)),
        (Some(uuid_text(1)), BreakCount(3)),
    ];
    let s = match snapshot_from_upstream_entries(UtcTimestamp(42), entries) {
        Ok(s) => s,
        Err(e) => panic!("unexpected {:?}", e),
    };
    assert_eq!(s.utc_timestamp, UtcTimestamp(42));
    assert_eq!(s.len(), 2);
    assert_eq!(s.get(&player(1)), Some(BreakCount(3)));
}

#[test]
fn upstream_entries_without_a_player_fail() {
    let entries = vec![(Some(uuid_text(1)), BreakCount(1)), (None, BreakCount(2)), (Some("x".to_string()), BreakCount(3))];
    match snapshot_from_upstream_entries(UtcTimestamp(42), entries) {
        Err(e) => assert_eq!(e, UpstreamDataError::PlayerUuidMissing),
        Ok(_) => panic!("an error was expected"),
    }
}

#[test]
fn upstream_entries_with_an_invalid_uuid_fail() {
    let entries = vec![(Some("x".to_string()), BreakCount(3)), (None, BreakCount(2))];
    match snapshot_from_upstream_entries(UtcTimestamp(42), entries) {
        Err(e) => assert_eq!(
            e,
            UpstreamDataError::InvalidPlayerUuid(UuidStringError::WrongLength { got: "x".to_string() })
        ),
        Ok(_) => panic!("an error was expected"),
    }
}

#[test]
fn diff_points_from_rows_lists_the_missing_points() {
    let requested = vec![DiffPointId(1), DiffPointId(2), DiffPointId(3)];
    let point_rows = vec![(DiffPointId(2), None, UtcTimestamp(1))];
    match diff_points_from_rows::<BreakCount>(&requested, point_rows, vec![]) {
        Err(e) => assert_eq!(e, DiffPointRowsError::DiffPointsNotFound(vec![DiffPointId(1), DiffPointId(3)])),
        Ok(_) => panic!("an error was expected"),
    }
}

#[test]
fn diff_points_from_rows_fails_on_an_invalid_uuid() {
    let requested = vec![DiffPointId(1)];
    let point_rows = vec![(DiffPointId(1), None, UtcTimestamp(1))];
    let value_rows = vec![(DiffPointId(1), uuid_text(1), 3), (DiffPointId(1), "bad".to_string(), 4)];
    match diff_points_from_rows::<BreakCount>(&requested, point_rows, value_rows) {
        Err(e) => assert_eq!(
            e,
            DiffPointRowsError::InvalidPlayerUuid(UuidStringError::WrongLength { got: "bad".to_string() })
        ),
        Ok(_) => panic!("an error was expected"),
    }
}

#[test]
fn diff_points_from_rows_builds_each_point_from_its_value_rows() {
    let requested = vec![DiffPointId(1), DiffPointId(2), DiffPointId(3)];
    let point_rows = vec![
        (DiffPointId(1), None, UtcTimestamp(10)),
        (DiffPointId(2), Some(DiffPointId(1)), UtcTimestamp(20)),
        (DiffPointId(3), Some(DiffPointId(2)), UtcTimestamp(30)),
    ];
    let value_rows = vec![
        (DiffPointId(2), uuid_text(1), 5),
        (DiffPointId(1), uuid_text(1), 4),
        (DiffPointId(2), uuid_text(2), 7),
        (DiffPointId(2), uuid_text(1), 6),
    ];
    let mut points = match diff_points_from_rows::<BreakCount>(&requested, point_rows, value_rows) {
        Ok(p) => p,
        Err(e) => panic!("unexpected {:?}", e),
    };
    // point 3 has no value rows and is left out
    assert_eq!(points.size(), 2);
    assert!(points.remove(&DiffPointId(3)).is_none());
    let p2 = points.remove(&DiffPointId(2)).unwrap();
    assert_eq!(p2.previous_diff_point_id, Some(DiffPointId(1)));
    assert_eq!(p2.diff.utc_timestamp, UtcTimestamp(20));
    let mut expected = BTreeMap::new();
    expected.insert(player(1).key(), BreakCount(6));
    expected.insert(player(2).key(), BreakCount(7));
    assert_eq!(p2.diff.player_stats_diffs, expected);
    let p1 = points.remove(&DiffPointId(1)).unwrap();
    assert_eq!(p1.previous_diff_point_id, None);
    assert_eq!(p1.diff.utc_timestamp, UtcTimestamp(10));
    assert_eq!(p1.diff.player_stats_diffs.len(), 1);
}
