use std::collections::{BTreeMap, HashMap};

use timed_stats::cycle_free_path::construct_cycle_free_path;
use timed_stats::debugging_utils::display_diff_point_ids_for_tracing;
use timed_stats::heuristics::settle_base_diff_sequence;
use timed_stats::repository::diff_point_ids_towards_tip;
use timed_stats::diff_points::{
    recording_action_for_choice, DiffPoint, DiffPointId, DiffSequence, DiffSequenceChoice,
    FullSnapshotPoint, IdIndexedDiffPoints, RecordingAction,
};
use timed_stats::snapshot::{SnapshotDiff, StatsSnapshot};
use timed_stats::statistics::{BreakCount, UtcTimestamp};
use timed_stats::uuid::{Player, PlayerUuidString};

fn uuid(n: u32) -> PlayerUuidString {
    PlayerUuidString::from_string(&format!("00000000-0000-0000-0000-{:012}", n)).unwrap()
}

fn player(n: u32) -> Player {
    Player { uuid: uuid(n) }
}

fn snapshot(t: i128, stats: &[(u32, u64)]) -> StatsSnapshot<BreakCount> {
    let mut s = StatsSnapshot::new(UtcTimestamp(t));
    for (p, v) in stats {
        s.insert(player(*p), BreakCount(*v));
    }
    s
}

fn full_point(id: u64, t: i128, stats: &[(u32, u64)]) -> FullSnapshotPoint<BreakCount> {
    FullSnapshotPoint { id, full_snapshot: snapshot(t, stats) }
}

fn diff_point(id: u64, prev: Option<u64>, t: i128, stats: &[(u32, u64)]) -> DiffPoint<BreakCount> {
    let mut diff = SnapshotDiff::new(UtcTimestamp(t));
    for (p, v) in stats {
        diff.insert(uuid(*p), BreakCount(*v));
    }
    DiffPoint { id: DiffPointId(id), previous_diff_point_id: prev.map(DiffPointId), diff }
}

fn stats_map(stats: &[(u32, u64)]) -> BTreeMap<(u64, u64, u64, u64, u32), BreakCount> {
    let mut m = BTreeMap::new();
    for (p, v) in stats {
        m.insert(player(*p).key(), BreakCount(*v));
    }
    m
}

fn ids(points: &[DiffPoint<BreakCount>]) -> Vec<u64> {
    points.iter().map(|p| p.id.0).collect()
}

fn two_step_sequence() -> DiffSequence<BreakCount> {
    DiffSequence::new(
        full_point(7, 1, &[(1, 10), (2, 20)]),
        vec![diff_point(1, None, 2, &[(1, 11)]), diff_point(2, Some(1), 3, &[(2, 22), (3, 5)])],
    )
}

#[test]
fn cycle_free_path_follows_links_to_the_end() {
    let next = |n: DiffPointId| match n.0 {
        3 => Some(DiffPointId(2)),
        2 => Some(DiffPointId(1)),
        _ => None,
    };
    let path = construct_cycle_free_path(DiffPointId(3), next).unwrap();
    assert_eq!(path, vec![DiffPointId(3), DiffPointId(2), DiffPointId(1)]);
}

#[test]
fn cycle_free_path_of_a_single_node() {
    let path = construct_cycle_free_path(DiffPointId(9), |_| None).unwrap();
    assert_eq!(path, vec![DiffPointId(9)]);
}

#[test]
fn cycle_free_path_reports_the_cycle() {
    let next = |n: DiffPointId| match n.0 {
        1 => Some(DiffPointId(2)),
        2 => Some(DiffPointId(3)),
        3 => Some(DiffPointId(2)),
        _ => None,
    };
    let e = construct_cycle_free_path(DiffPointId(1), next).unwrap_err();
    assert_eq!(e.cycle, vec![DiffPointId(1), DiffPointId(2), DiffPointId(3), DiffPointId(2)]);
}

#[test]
fn cycle_free_path_reports_a_self_loop() {
    let e = construct_cycle_free_path(DiffPointId(5), |n| Some(n)).unwrap_err();
    assert_eq!(e.cycle, vec![DiffPointId(5), DiffPointId(5)]);
}

#[test]
fn sequence_without_diffs_is_its_full_snapshot() {
    let s = DiffSequence::without_any_diffs(full_point(3, 8, &[(1, 1)]));
    assert_eq!(s.len(), 1);
    assert!(s.is_sufficiently_short_to_extend());
    let tip = s.into_snapshot_at_the_tip();
    assert_eq!(tip.utc_timestamp, UtcTimestamp(8));
    assert_eq!(tip.player_stats, stats_map(&[(1, 1)]));
}

#[test]
fn tip_of_a_sequence_applies_every_diff() {
    let s = two_step_sequence();
    assert_eq!(s.len(), 3);
    let tip = s.into_snapshot_at_the_tip();
    assert_eq!(tip.utc_timestamp, UtcTimestamp(3));
    assert_eq!(tip.player_stats, stats_map(&[(1, 11), (2, 22), (3, 5)]));
}

#[test]
fn end_of_a_sequence_is_its_tip() {
    let tip = two_step_sequence().into_snapshot_at_the_tip();
    let end = two_step_sequence().into_snapshot_at_the_end();
    assert_eq!(end.utc_timestamp, tip.utc_timestamp);
    assert_eq!(end.player_stats, tip.player_stats);
}

#[test]
fn a_sequence_of_1001_diffs_is_too_long_to_extend() {
    let short: Vec<_> = (0..1000).map(|i| diff_point(i, None, i as i128, &[])).collect();
    assert!(DiffSequence::new(full_point(1, 0, &[]), short).is_sufficiently_short_to_extend());
    let long: Vec<_> = (0..1001).map(|i| diff_point(i, None, i as i128, &[])).collect();
    assert!(!DiffSequence::new(full_point(1, 0, &[]), long).is_sufficiently_short_to_extend());
}

#[test]
fn new_diff_point_holds_the_difference_from_the_tip() {
    let target = snapshot(4, &[(1, 11), (2, 23), (3, 5), (4, 1)]);
    let p = two_step_sequence().diff_point_to_record(&target);
    assert_eq!(p.root_point_id, 7);
    assert_eq!(p.previous_point_id, Some(DiffPointId(2)));
    assert_eq!(p.diff.utc_timestamp, UtcTimestamp(4));
    assert_eq!(p.diff.player_stats_diffs, stats_map(&[(2, 23), (4, 1)]));
}

#[test]
fn new_diff_point_on_a_full_snapshot_follows_no_diff_point() {
    let s = DiffSequence::without_any_diffs(full_point(3, 1, &[(1, 1)]));
    let p = s.diff_point_to_record(&snapshot(2, &[(1, 2)]));
    assert_eq!(p.root_point_id, 3);
    assert_eq!(p.previous_point_id, None);
    assert_eq!(p.diff.player_stats_diffs, stats_map(&[(1, 2)]));
}

#[test]
fn a_recorded_snapshot_is_restored() {
    let target = snapshot(4, &[(1, 11), (2, 23), (3, 5), (4, 1)]);
    let p = two_step_sequence().diff_point_to_record(&target);
    let mut s = two_step_sequence();
    s.diff_points.push(DiffPoint { id: DiffPointId(3), previous_diff_point_id: p.previous_point_id, diff: p.diff });
    let restored = s.into_snapshot_at_the_tip();
    assert_eq!(restored.utc_timestamp, target.utc_timestamp);
    assert_eq!(restored.player_stats, target.player_stats);
}

#[test]
fn indexed_points_keep_the_last_point_of_an_id() {
    let points = IdIndexedDiffPoints::new(vec![
        diff_point(1, None, 5, &[]),
        diff_point(2, Some(1), 6, &[]),
        diff_point(1, None, 9, &[]),
    ]);
    assert_eq!(points.size(), 2);
    let latest = points.latest().unwrap();
    assert_eq!(latest.id, DiffPointId(1));
    assert_eq!(latest.diff.utc_timestamp, UtcTimestamp(9));
}

#[test]
fn no_latest_point_among_none() {
    let points: IdIndexedDiffPoints<BreakCount> = IdIndexedDiffPoints::new(vec![]);
    assert_eq!(points.size(), 0);
    assert!(points.latest().is_none());
}

#[test]
fn points_before_keeps_strictly_earlier_points() {
    let points = IdIndexedDiffPoints::new(vec![
        diff_point(1, None, 1, &[]),
        diff_point(2, Some(1), 2, &[]),
        diff_point(3, Some(2), 3, &[]),
    ]);
    let before = points.points_before(UtcTimestamp(3));
    assert_eq!(before.size(), 2);
    assert_eq!(before.latest().unwrap().id, DiffPointId(2));
}

#[test]
fn remove_takes_a_point_out_once() {
    let mut points = IdIndexedDiffPoints::new(vec![diff_point(1, None, 1, &[]), diff_point(2, Some(1), 2, &[])]);
    let removed = points.remove(&DiffPointId(2)).unwrap();
    assert_eq!(removed.id, DiffPointId(2));
    assert_eq!(points.size(), 1);
    assert!(points.remove(&DiffPointId(2)).is_none());
    assert_eq!(points.size(), 1);
}

#[test]
fn map_ids_keeps_the_order_of_the_ids() {
    let points = IdIndexedDiffPoints::new(vec![
        diff_point(1, None, 1, &[]),
        diff_point(2, Some(1), 2, &[]),
        diff_point(3, Some(2), 3, &[]),
    ]);
    let mapped = points.map_ids_to_diff_points(&[DiffPointId(3), DiffPointId(1)]);
    assert_eq!(ids(&mapped), vec![3, 1]);
}

#[test]
fn sequence_towards_the_latest_point_goes_from_the_root() {
    let points = IdIndexedDiffPoints::new(vec![
        diff_point(1, None, 1, &[(1, 1)]),
        diff_point(2, Some(1), 2, &[(1, 2)]),
        diff_point(4, Some(1), 3, &[(1, 9)]),
        diff_point(3, Some(2), 4, &[(1, 3)]),
    ]);
    let s = match points.diff_sequence_towards_latest_diff_point(full_point(10, 0, &[(1, 0)])) {
        Ok(s) => s,
        Err(e) => panic!("unexpected cycle {:?}", e),
    };
    assert_eq!(s.base_point.id, 10);
    assert_eq!(ids(&s.diff_points), vec![1, 2, 3]);
    assert_eq!(s.into_snapshot_at_the_tip().player_stats, stats_map(&[(1, 3)]));
}

#[test]
fn sequence_towards_the_latest_point_reports_a_cycle() {
    let points = IdIndexedDiffPoints::new(vec![diff_point(1, Some(2), 1, &[]), diff_point(2, Some(1), 2, &[])]);
    match points.diff_sequence_towards_latest_diff_point(full_point(10, 0, &[])) {
        Ok(_) => panic!("a cycle was expected"),
        Err(e) => assert_eq!(e.cycle, vec![DiffPointId(2), DiffPointId(1), DiffPointId(2)]),
    }
}

#[test]
fn no_sequence_means_a_full_snapshot() {
    let choice: DiffSequenceChoice<BreakCount> = DiffSequenceChoice::NoAppropriatePointFound;
    let action = recording_action_for_choice(choice, &snapshot(1, &[(1, 1)]));
    assert!(matches!(action, RecordingAction::CreateFullSnapshot));
}

#[test]
fn a_chosen_sequence_means_a_diff_point_on_it() {
    let choice = DiffSequenceChoice::OptimalAccordingToHeuristics(two_step_sequence());
    let action = recording_action_for_choice(choice, &snapshot(5, &[(1, 11), (2, 22), (3, 6)]));
    match action {
        RecordingAction::CreateDiffPoint(p) => {
            assert_eq!(p.root_point_id, 7);
            assert_eq!(p.previous_point_id, Some(DiffPointId(2)));
            assert_eq!(p.diff.utc_timestamp, UtcTimestamp(5));
            assert_eq!(p.diff.player_stats_diffs, stats_map(&[(3, 6)]));
        }
        RecordingAction::CreateFullSnapshot => panic!("a diff point was expected"),
    }
}

#[test]
fn ids_are_listed_for_tracing() {
    assert_eq!(display_diff_point_ids_for_tracing(&[]), "[]");
    assert_eq!(display_diff_point_ids_for_tracing(&[DiffPointId(7)]), "[7]");
    assert_eq!(
        display_diff_point_ids_for_tracing(&[DiffPointId(3), DiffPointId(1), DiffPointId(40)]),
        "[3, 1, 40]"
    );
    assert_eq!(display_diff_point_ids_for_tracing(&[DiffPointId(0), DiffPointId(u64::MAX)]), "[0, 18446744073709551615]");
}

#[test]
fn links_from_the_latest_points_must_be_stored() {
    let complete = IdIndexedDiffPoints::new(vec![
        diff_point(1, None, 1, &[]),
        diff_point(2, Some(1), 2, &[]),
        diff_point(3, Some(2), 3, &[]),
        diff_point(4, Some(9), 1, &[]),
    ]);
    // point 4 follows a missing point, but no walk from the latest point reaches it
    assert!(complete.links_from_latest_are_stored());
    let broken = IdIndexedDiffPoints::new(vec![diff_point(2, Some(1), 2, &[]), diff_point(3, Some(2), 3, &[])]);
    assert!(!broken.links_from_latest_are_stored());
    let cyclic = IdIndexedDiffPoints::new(vec![diff_point(1, Some(2), 1, &[]), diff_point(2, Some(1), 2, &[])]);
    assert!(cyclic.links_from_latest_are_stored());
    let tied = IdIndexedDiffPoints::new(vec![diff_point(1, None, 5, &[]), diff_point(2, Some(7), 5, &[])]);
    assert!(!tied.links_from_latest_are_stored());
    let none: IdIndexedDiffPoints<BreakCount> = IdIndexedDiffPoints::new(vec![]);
    assert!(none.links_from_latest_are_stored());
}

#[test]
fn checked_map_ids_needs_every_id_once() {
    let make = || {
        IdIndexedDiffPoints::new(vec![
            diff_point(1, None, 1, &[]),
            diff_point(2, Some(1), 2, &[]),
            diff_point(3, Some(2), 3, &[]),
        ])
    };
    let mapped = make().checked_map_ids_to_diff_points(&[DiffPointId(2), DiffPointId(3)]).unwrap();
    assert_eq!(ids(&mapped), vec![2, 3]);
    assert!(make().checked_map_ids_to_diff_points(&[DiffPointId(2), DiffPointId(4)]).is_none());
    assert!(make().checked_map_ids_to_diff_points(&[DiffPointId(2), DiffPointId(2)]).is_none());
    assert!(make().checked_map_ids_to_diff_points(&[]).unwrap().is_empty());
}

#[test]
fn small_diff_totals_fit() {
    let points = IdIndexedDiffPoints::new(vec![diff_point(1, None, 1, &[(1, 1), (2, 2)]), diff_point(2, Some(1), 2, &[(1, 3)])]);
    assert!(points.diff_totals_fit_in_usize());
    let none: IdIndexedDiffPoints<BreakCount> = IdIndexedDiffPoints::new(vec![]);
    assert!(none.diff_totals_fit_in_usize());
}

#[test]
fn a_recorded_snapshot_is_rebuilt_from_the_recorded_links() {
    let target = snapshot(4, &[(1, 11), (2, 23), (3, 5), (4, 1)]);
    let p = two_step_sequence().diff_point_to_record(&target);
    let recorded = DiffPoint { id: DiffPointId(3), previous_diff_point_id: p.previous_point_id, diff: p.diff };
    let mut stored = two_step_sequence().diff_points;
    stored.push(recorded);
    let links: HashMap<u64, Option<DiffPointId>> =
        stored.iter().map(|q| (q.id.0, q.previous_diff_point_id)).collect();
    let ids = diff_point_ids_towards_tip(DiffPointId(3), &links).unwrap();
    assert_eq!(ids, vec![DiffPointId(1), DiffPointId(2), DiffPointId(3)]);
    let points = IdIndexedDiffPoints::new(stored).checked_map_ids_to_diff_points(&ids).unwrap();
    let rebuilt = DiffSequence::new(full_point(7, 1, &[(1, 10), (2, 20)]), points).into_snapshot_at_the_tip();
    assert_eq!(rebuilt.utc_timestamp, target.utc_timestamp);
    assert_eq!(rebuilt.player_stats, target.player_stats);
}

#[test]
fn diff_points_added_on_a_settled_prefix_stay_within_1000() {
    let chain: Vec<_> = (1..=1000u64)
        .map(|i| diff_point(i, if i == 1 { None } else { Some(i - 1) }, i as i128, &[]))
        .collect();
    match settle_base_diff_sequence(DiffSequence::new(full_point(1, 0, &[]), chain), 1000) {
        DiffSequenceChoice::OptimalAccordingToHeuristics(s) => {
            let action = recording_action_for_choice(
                DiffSequenceChoice::OptimalAccordingToHeuristics(s),
                &snapshot(2000, &[]),
            );
            match action {
                RecordingAction::CreateDiffPoint(p) => assert_eq!(p.previous_point_id, Some(DiffPointId(999))),
                RecordingAction::CreateFullSnapshot => panic!("a diff point was expected"),
            }
        }
        DiffSequenceChoice::NoAppropriatePointFound => panic!("a prefix was expected"),
    }
}
