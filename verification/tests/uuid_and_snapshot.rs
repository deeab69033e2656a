use std::collections::BTreeMap;

use timed_stats::snapshot::{ComputeDiff, SnapshotDiff, StatsSnapshot};
use timed_stats::statistics::{BreakCount, FromValueColumn, UtcTimestamp, VoteCount};
use timed_stats::uuid::{Player, PlayerUuidString, UuidStringError};

fn uuid(n: u32) -> PlayerUuidString {
    PlayerUuidString::from_string(&format!("00000000-0000-0000-0000-{:012}", n)).unwrap()
}

fn player(n: u32) -> Player {
    Player { uuid: uuid(n) }
}

fn snapshot(t: i128, stats: &[(u32, u64)]) -> StatsSnapshot<BreakCount> {
    let mut s = StatsSnapshot::new(UtcTimestamp(t));
    for (p, v) in stats {
        s.insert(player(*p), BreakCount(*v));
    }
    s
}

#[test]
fn uuid_string_round_trips_through_as_str() {
    let text = "3f1a9c2e-0b7d-4e55-9a1c-6d2f8e4b7a10".to_string();
    let u = PlayerUuidString::from_string(&text).unwrap();
    assert_eq!(u.as_str(), Ok(text.as_str()));
}

#[test]
fn uuid_string_rejects_non_ascii() {
    let text = "3f1a9c2e-0b7d-4e55-9a1c-6d2f8e4b7aé".to_string();
    assert_eq!(
        PlayerUuidString::from_string(&text),
        Err(UuidStringError::NotAscii { got: text.clone() })
    );
}

#[test]
fn uuid_string_rejects_wrong_length() {
    let short = "3f1a9c2e".to_string();
    assert_eq!(
        PlayerUuidString::from_string(&short),
        Err(UuidStringError::WrongLength { got: short.clone() })
    );
    let long = "3f1a9c2e-0b7d-4e55-9a1c-6d2f8e4b7a100".to_string();
    assert_eq!(
        PlayerUuidString::from_string(&long),
        Err(UuidStringError::WrongLength { got: long.clone() })
    );
}

#[test]
fn uuid_key_round_trips() {
    let u = uuid(42);
    let k = u.key();
    assert_eq!(PlayerUuidString::from_key(k), u);
    assert_ne!(uuid(43).key(), k);
}

#[test]
fn keys_order_uuids_lexicographically() {
    let a = PlayerUuidString::from_string(&"a0000000-0000-0000-0000-000000000000".to_string()).unwrap();
    let b = PlayerUuidString::from_string(&"b0000000-0000-0000-0000-000000000000".to_string()).unwrap();
    let c = PlayerUuidString::from_string(&"a0000000-0000-0000-0000-000000000001".to_string()).unwrap();
    assert!(a.key() < b.key());
    assert!(a.key() < c.key());
    assert!(c.key() < b.key());
}

#[test]
fn snapshot_insert_get_len() {
    let mut s: StatsSnapshot<VoteCount> = StatsSnapshot::new(UtcTimestamp(5));
    assert_eq!(s.len(), 0);
    s.insert(player(1), VoteCount(3));
    s.insert(player(2), VoteCount(4));
    s.insert(player(1), VoteCount(7));
    assert_eq!(s.len(), 2);
    assert_eq!(s.get(&player(1)), Some(VoteCount(7)));
    assert_eq!(s.get(&player(3)), None);
    let listed = s.players_and_stats();
    assert_eq!(listed.len(), 2);
    assert_eq!(listed[0].0, player(1));
    assert_eq!(listed[0].1, VoteCount(7));
    assert_eq!(listed[1].1, VoteCount(4));
}

#[test]
fn diff_to_keeps_only_changed_or_new_players() {
    let from = snapshot(1, &[(1, 10), (2, 20), (3, 30)]);
    let to = snapshot(2, &[(1, 10), (2, 25), (4, 40)]);
    let d = from.diff_to(&to);
    assert_eq!(d.utc_timestamp, UtcTimestamp(2));
    let mut expected = BTreeMap::new();
    expected.insert(player(2).key(), BreakCount(25));
    expected.insert(player(4).key(), BreakCount(40));
    assert_eq!(d.player_stats_diffs, expected);
}

#[test]
fn diff_to_itself_is_empty() {
    let s = snapshot(1, &[(1, 10), (2, 20)]);
    assert_eq!(s.diff_to(&s).len(), 0);
    assert_eq!(s.size_of_diff_to(&s), 0);
}

#[test]
fn size_of_diff_counts_players_on_either_side() {
    let a = snapshot(1, &[(1, 10), (2, 20), (3, 30)]);
    let b = snapshot(2, &[(1, 10), (2, 25), (4, 40)]);
    // player 2 changed, player 3 only in a, player 4 only in b
    assert_eq!(a.size_of_diff_to(&b), 3);
    assert_eq!(b.size_of_diff_to(&a), 3);
}

#[test]
fn applying_the_diff_restores_the_target() {
    let from = snapshot(1, &[(1, 10), (2, 20)]);
    let to = snapshot(9, &[(1, 11), (2, 20), (3, 1)]);
    let d = from.diff_to(&to);
    let restored = d.apply_to(from.clone_snapshot());
    assert_eq!(restored.utc_timestamp, UtcTimestamp(9));
    assert_eq!(restored.player_stats, to.player_stats);
}

#[test]
fn applying_a_diff_keeps_players_it_does_not_name() {
    let from = snapshot(1, &[(1, 10), (2, 20), (5, 50)]);
    let to = snapshot(3, &[(1, 11)]);
    let d = from.diff_to(&to);
    let restored = d.apply_to(from.clone_snapshot());
    assert_eq!(restored.get(&player(1)), Some(BreakCount(11)));
    assert_eq!(restored.get(&player(5)), Some(BreakCount(50)));
    assert_eq!(restored.len(), 3);
}

#[test]
fn apply_to_mut_keeps_the_base_instant() {
    let mut base = snapshot(1, &[(1, 10)]);
    let mut d: SnapshotDiff<BreakCount> = SnapshotDiff::new(UtcTimestamp(7));
    d.insert(uuid(1), BreakCount(12));
    d.insert(uuid(2), BreakCount(3));
    d.apply_to_mut(&mut base);
    assert_eq!(base.utc_timestamp, UtcTimestamp(1));
    assert_eq!(base.get(&player(1)), Some(BreakCount(12)));
    assert_eq!(base.get(&player(2)), Some(BreakCount(3)));
}

#[test]
fn empty_diff_changes_nothing() {
    let base = snapshot(1, &[(1, 10), (2, 20)]);
    let d: SnapshotDiff<BreakCount> = SnapshotDiff::new(UtcTimestamp(4));
    let after = d.apply_to(base.clone_snapshot());
    assert_eq!(after.player_stats, base.player_stats);
    assert_eq!(after.utc_timestamp, UtcTimestamp(4));
}

#[test]
fn value_columns_become_stats() {
    assert_eq!(BreakCount::from_value_column(8), BreakCount(8));
    assert_eq!(VoteCount::from_value_column(0), VoteCount(0));
}

#[test]
fn size_of_diff_is_zero_only_for_equal_stats() {
    let a = snapshot(1, &[(1, 10), (2, 20)]);
    let same = snapshot(5, &[(2, 20), (1, 10)]);
    assert_eq!(a.size_of_diff_to(&same), 0);
    let fewer = snapshot(1, &[(1, 10)]);
    assert_eq!(a.size_of_diff_to(&fewer), 1);
    assert_eq!(fewer.size_of_diff_to(&a), 1);
}
