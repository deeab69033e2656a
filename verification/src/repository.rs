//! The decisions of the timed stats repository that do not touch storage:
//! which stored point answers a search, which chain of diff points leads to
//! a point, and how stored rows and upstream replies become snapshots.
use std::collections::HashMap;
use vstd::prelude::*;

use crate::cycle_free_path::{construct_cycle_free_path, CycleFoundError};
use crate::diff_points::{
    extended_chain, fold_diffs, index_by_id, is_linked_chain, lemma_fold_diffs_push, recorded_point, reversed,
    DiffPoint, DiffPointId, FullSnapshotPoint, IdIndexedDiffPoints, NewDiffPoint,
};
use crate::snapshot::{diff_stats, SnapshotDiff};
use std::collections::BTreeMap;
use crate::player_map::seq_to_map;
use crate::snapshot::StatsSnapshot;
use crate::statistics::{FromValueColumn, StatValue, UtcTimestamp};
use crate::uuid::{ascii_bytes, key_of_bytes, PlayerKey, PlayerUuidString, UuidStringError};
use vstd::utf8::is_ascii_chars;

verus! {

/// Which stored snapshot a search asks for.
#[derive(Debug, Clone, Copy, PartialEq, Eq, Structural)]
pub enum TimeBasedSnapshotSearchCondition {
    /// The newest snapshot taken at or before the instant.
    NewestBefore(UtcTimestamp),
    /// The oldest snapshot taken at or after the instant.
    OldestAfter(UtcTimestamp),
}

/// A stored point, by kind and identifier.
#[derive(Debug, Clone, Copy, PartialEq, Eq, Structural)]
pub enum SnapshotPointLocation {
    Full(u64),
    Diff(DiffPointId),
}

/// Whether a full snapshot taken at `full` answers a search better than a
/// diff point taken at `diff`: it is strictly closer to the condition's
/// instant.
pub open spec fn full_is_closer(
    condition: TimeBasedSnapshotSearchCondition,
    full: UtcTimestamp,
    diff: UtcTimestamp,
) -> bool {
    match condition {
        TimeBasedSnapshotSearchCondition::NewestBefore(_) => full.0 > diff.0,
        TimeBasedSnapshotSearchCondition::OldestAfter(_) => full.0 < diff.0,
    }
}

/// A full snapshot is closer than a diff point exactly when, as counts of
/// nanoseconds, it is strictly later for a search of the newest point before
/// an instant, and strictly earlier for a search of the oldest point after
/// one; at the same instant the diff point is taken.
pub proof fn lemma_full_is_closer_compares_instants(
    condition: TimeBasedSnapshotSearchCondition,
    full: UtcTimestamp,
    diff: UtcTimestamp,
)
    ensures
        full_is_closer(condition, full, diff) <==> (condition is NewestBefore && full.0 > diff.0) || (
        condition is OldestAfter && full.0 < diff.0),
        !full_is_closer(condition, full, full),
{
}

/// Moving the full snapshot towards the instant of the search never turns
/// the answer from the full snapshot to the diff point: later for the
/// newest point before an instant, earlier for the oldest point after one.
pub proof fn lemma_full_is_closer_monotone(
    condition: TimeBasedSnapshotSearchCondition,
    full: UtcTimestamp,
    moved: UtcTimestamp,
    diff: UtcTimestamp,
)
    requires
        full_is_closer(condition, full, diff),
        condition is NewestBefore ==> full.0 <= moved.0,
        condition is OldestAfter ==> moved.0 <= full.0,
    ensures
        full_is_closer(condition, moved, diff),
{
}

/// Chooses the point that answers a search, among the full snapshot and the
/// diff point that each match the condition: the one closer to the
/// condition's instant, the diff point when both are as close, and the only
/// one when one kind has no match.
pub fn choose_snapshot_point_location(
    condition: TimeBasedSnapshotSearchCondition,
    found_full: Option<(u64, UtcTimestamp)>,
    found_diff: Option<(DiffPointId, UtcTimestamp)>,
) -> (r: Option<SnapshotPointLocation>)
    ensures
        r == (match (found_full, found_diff) {
            (None, None) => None,
            (Some(f), None) => Some(SnapshotPointLocation::Full(f.0)),
            (None, Some(d)) => Some(SnapshotPointLocation::Diff(d.0)),
            (Some(f), Some(d)) => if full_is_closer(condition, f.1, d.1) {
                Some(SnapshotPointLocation::Full(f.0))
            } else {
                Some(SnapshotPointLocation::Diff(d.0))
            },
        }),
        found_full is Some && found_diff is Some ==> (r == Some(
            SnapshotPointLocation::Full(found_full.unwrap().0),
        ) <==> (condition is NewestBefore && found_full.unwrap().1.0 > found_diff.unwrap().1.0) || (
        condition is OldestAfter && found_full.unwrap().1.0 < found_diff.unwrap().1.0)),
{
    match (found_full, found_diff) {
        (None, None) => None,
        (Some((full_id, _)), None) => Some(SnapshotPointLocation::Full(full_id)),
        (None, Some((diff_id, _))) => Some(SnapshotPointLocation::Diff(diff_id)),
        (Some((full_id, full_timestamp)), Some((diff_id, diff_timestamp))) => {
            let full_is_closer = match condition {
                TimeBasedSnapshotSearchCondition::NewestBefore(_) => full_timestamp.0
                    > diff_timestamp.0,
                TimeBasedSnapshotSearchCondition::OldestAfter(_) => full_timestamp.0
                    < diff_timestamp.0,
            };
            if full_is_closer {
                Some(SnapshotPointLocation::Full(full_id))
            } else {
                Some(SnapshotPointLocation::Diff(diff_id))
            }
        },
    }
}

/// The point that `id` follows, as `previous` records it (none when it is
/// not recorded).
pub open spec fn recorded_previous(
    previous: Map<u64, Option<DiffPointId>>,
    id: DiffPointId,
) -> Option<DiffPointId> {
    if previous.contains_key(id.0) {
        previous[id.0]
    } else {
        None
    }
}

/// The identifiers of the diff points from the root's first one up to
/// `tip`, following the recorded links back from `tip`.  Fails when the
/// links come back to a point.
///
/// The walk back ends at a point that follows no point, or at a point that
/// is not recorded; in the latter case that point comes first.
pub fn diff_point_ids_towards_tip(
    tip: DiffPointId,
    previous: &HashMap<u64, Option<DiffPointId>>,
) -> (r: Result<Vec<DiffPointId>, CycleFoundError<DiffPointId>>)
    ensures
        r matches Ok(ids) ==> {
            &&& ids@.len() >= 1
            &&& ids@.last() == tip
            &&& ids@.no_duplicates()
            &&& forall|i: int|
                #![trigger ids@[i]]
                0 < i < ids@.len() ==> previous@.contains_key(ids@[i].0) && previous@[ids@[i].0]
                    == Some(ids@[i - 1])
            &&& recorded_previous(previous@, ids@[0]) is None
        },
        r matches Err(e) ==> {
            &&& e.cycle@.len() >= 2
            &&& e.cycle@[0] == tip
            &&& forall|i: int|
                #![trigger e.cycle@[i]]
                0 <= i < e.cycle@.len() - 1 ==> previous@.contains_key(e.cycle@[i].0)
                    && previous@[e.cycle@[i].0] == Some(e.cycle@[i + 1])
            &&& e.cycle@.drop_last().no_duplicates()
            &&& e.cycle@.drop_last().contains(e.cycle@.last())
        },
{
    let follow = |id: DiffPointId| -> (prev: Option<DiffPointId>)
        ensures
            prev == recorded_previous(previous@, id),
        {
            match previous.get(&id.0) {
                Some(p) => *p,
                None => None,
            }
        };
    match construct_cycle_free_path(tip, follow) {
        Err(e) => {
            proof {
                let c = e.cycle@;
                assert forall|i: int|
                    #![trigger c[i]]
                    0 <= i < c.len() - 1 implies previous@.contains_key(c[i].0) && previous@[c[i].0]
                    == Some(c[i + 1]) by {
                    assert(recorded_previous(previous@, c[i]) == Some(c[i + 1]));
                }
            }
            Err(e)
        },
        Ok(path) => {
            let ghost p = path@;
            proof {
                assert forall|i: int|
                    #![trigger p[i]]
                    0 <= i < p.len() - 1 implies recorded_previous(previous@, p[i]) == Some(p[i + 1]) by {}
                assert(recorded_previous(previous@, p.last()) == None::<DiffPointId>);
            }
            let ids = reversed(&path);
            proof {
                assert forall|a: int, b: int| 0 <= a < ids@.len() && 0 <= b < ids@.len() && a != b implies ids@[a]
                    != ids@[b] by {
                    assert(ids@[a] == p[p.len() - 1 - a]);
                    assert(ids@[b] == p[p.len() - 1 - b]);
                }
                assert forall|i: int| #![trigger ids@[i]] 0 < i < ids@.len() implies previous@.contains_key(
                    ids@[i].0,
                ) && previous@[ids@[i].0] == Some(ids@[i - 1]) by {
                    let t = p.len() - 1 - i;
                    assert(ids@[i] == p[t]);
                    assert(ids@[i - 1] == p[t + 1]);
                    assert(recorded_previous(previous@, p[t]) == Some(p[t + 1]));
                }
                assert(ids@[0] == p[p.len() - 1]);
                assert(ids@.last() == p[0]);
            }
            Ok(ids)
        },
    }
}

/// The identifiers walked back from the top of a linked chain whose links
/// are recorded are those of the chain, from the top down, as far as both
/// go.
proof fn lemma_walk_back_matches_chain<S>(
    full: Seq<DiffPoint<S>>,
    previous: Map<u64, Option<DiffPointId>>,
    ids: Seq<DiffPointId>,
    j: int,
)
    requires
        is_linked_chain(full),
        full.len() >= 1,
        forall|t: int|
            0 <= t < full.len() ==> previous.contains_key(#[trigger] full[t].id.0) && previous[full[t].id.0]
                == full[t].previous_diff_point_id,
        ids.len() >= 1,
        ids.last() == full.last().id,
        forall|i: int|
            #![trigger ids[i]]
            0 < i < ids.len() ==> previous.contains_key(ids[i].0) && previous[ids[i].0] == Some(ids[i - 1]),
        0 <= j < full.len(),
        j < ids.len(),
    ensures
        ids[ids.len() - 1 - j] == full[full.len() - 1 - j].id,
    decreases j,
{
    if j > 0 {
        lemma_walk_back_matches_chain(full, previous, ids, j - 1);
        let i = ids.len() - j;
        let t = full.len() - j;
        assert(ids[i] == full[t].id);
        assert(previous[full[t].id.0] == full[t].previous_diff_point_id);
        assert(full[t].previous_diff_point_id == Some(full[t - 1].id));
        assert(previous[ids[i].0] == Some(ids[i - 1]));
    }
}

/// A snapshot recorded as the diff point `p` under `id`, on top of `chain`
/// over the full snapshot `base`, is rebuilt by a search that reaches that
/// point: walking the recorded links back from `id` gives the identifiers of
/// `chain` and then `id`, the points read under them are those stored, and
/// applying them to the full snapshot gives the recorded snapshot, at its
/// instant.  This holds when every player of the chain's tip is in the
/// snapshot.
pub proof fn lemma_rebuilt_sequence_restores_recorded_snapshot<S>(
    base: FullSnapshotPoint<S>,
    chain: Seq<DiffPoint<S>>,
    id: DiffPointId,
    p: NewDiffPoint<S>,
    snapshot: StatsSnapshot<S>,
    previous: Map<u64, Option<DiffPointId>>,
    ids: Seq<DiffPointId>,
    read: Map<u64, DiffPoint<S>>,
)
    requires
        p.previous_point_id == (if chain.len() == 0 {
            None::<DiffPointId>
        } else {
            Some(chain.last().id)
        }),
        p.diff.utc_timestamp == snapshot.utc_timestamp,
        p.diff.player_stats_diffs@ == diff_stats(
            fold_diffs(base.full_snapshot.player_stats@, chain),
            snapshot.player_stats@,
        ),
        fold_diffs(base.full_snapshot.player_stats@, chain).dom().subset_of(
            snapshot.player_stats@.dom(),
        ),
        is_linked_chain(extended_chain(chain, id, p)),
        forall|t: int|
            0 <= t < extended_chain(chain, id, p).len() ==> previous.contains_key(
                #[trigger] extended_chain(chain, id, p)[t].id.0,
            ) && previous[extended_chain(chain, id, p)[t].id.0] == extended_chain(
                chain,
                id,
                p,
            )[t].previous_diff_point_id,
        ids.len() >= 1,
        ids.last() == id,
        forall|i: int|
            #![trigger ids[i]]
            0 < i < ids.len() ==> previous.contains_key(ids[i].0) && previous[ids[i].0] == Some(ids[i - 1]),
        recorded_previous(previous, ids[0]) is None,
        forall|t: int|
            0 <= t < extended_chain(chain, id, p).len() ==> read.contains_key(
                #[trigger] extended_chain(chain, id, p)[t].id.0,
            ) && read[extended_chain(chain, id, p)[t].id.0] == extended_chain(chain, id, p)[t],
    ensures
        ids == extended_chain(chain, id, p).map_values(|q: DiffPoint<S>| q.id),
        ids.map_values(|i: DiffPointId| read[i.0]) == extended_chain(chain, id, p),
        fold_diffs(base.full_snapshot.player_stats@, ids.map_values(|i: DiffPointId| read[i.0]))
            == snapshot.player_stats@,
        ids.map_values(|i: DiffPointId| read[i.0]).last().diff.utc_timestamp == snapshot.utc_timestamp,
{
    let full = extended_chain(chain, id, p);
    let n = full.len() as int;
    let l = ids.len() as int;
    assert(full.last().id == id);
    if l > n {
        lemma_walk_back_matches_chain(full, previous, ids, n - 1);
        assert(ids[l - n] == full[0].id);
        assert(previous[ids[l - n].0] == Some(ids[l - n - 1]));
        assert(previous[full[0].id.0] == full[0].previous_diff_point_id);
    }
    if l < n {
        lemma_walk_back_matches_chain(full, previous, ids, l - 1);
        assert(ids[0] == full[n - l].id);
        assert(previous[full[n - l].id.0] == full[n - l].previous_diff_point_id);
        assert(full[n - l].previous_diff_point_id == Some(full[n - l - 1].id));
    }
    assert forall|i: int| 0 <= i < l implies ids[i] == full[i].id by {
        lemma_walk_back_matches_chain(full, previous, ids, l - 1 - i);
    }
    assert(ids =~= full.map_values(|q: DiffPoint<S>| q.id));
    assert(ids.map_values(|i: DiffPointId| read[i.0]) =~= full);
    lemma_fold_diffs_push(base.full_snapshot.player_stats@, chain, recorded_point(id, p));
    crate::snapshot::lemma_apply_diff_restores(
        fold_diffs(base.full_snapshot.player_stats@, chain),
        snapshot.player_stats@,
    );
}

/// A UUID string that [`PlayerUuidString::from_string`] takes.
pub open spec fn is_uuid_text(s: Seq<char>) -> bool {
    is_ascii_chars(s) && s.len() == 36
}

/// The key of the player that a valid UUID string names.
pub open spec fn key_of_text(s: Seq<char>) -> PlayerKey {
    key_of_bytes(ascii_bytes(s))
}

/// The stats of the rows `(uuid, value)`, a later row replacing an earlier
/// one for the same player.
pub open spec fn stats_of_rows<Stats: FromValueColumn<ValueColumnType = u64>>(
    rows: Seq<(String, u64)>,
) -> Map<PlayerKey, Stats> {
    seq_to_map(
        rows.map_values(
            |r: (String, u64)| (key_of_text(r.0@), Stats::spec_from_value_column(r.1)),
        ),
    )
}

/// The stats of rows `(uuid, value)` hold the player of every row and no
/// other player, each with the value of the last row that names it.
pub proof fn lemma_stats_of_rows_holds_every_row<Stats: FromValueColumn<ValueColumnType = u64>>(
    rows: Seq<(String, u64)>,
    stats: Map<PlayerKey, Stats>,
)
    requires
        stats == stats_of_rows::<Stats>(rows),
    ensures
        forall|i: int|
            0 <= i < rows.len() ==> stats.contains_key(
                key_of_text(#[trigger] rows[i].0@),
            ),
        forall|k: PlayerKey|
            #[trigger] stats.contains_key(k) ==> exists|i: int|
                0 <= i < rows.len() && key_of_text(rows[i].0@) == k,
        forall|i: int|
            0 <= i < rows.len() && (forall|j: int|
                i < j < rows.len() ==> key_of_text(rows[j].0@) != key_of_text(rows[i].0@))
                ==> stats[key_of_text(#[trigger] rows[i].0@)]
                == Stats::spec_from_value_column(rows[i].1),
{
    let mapped = rows.map_values(
        |r: (String, u64)| (key_of_text(r.0@), Stats::spec_from_value_column(r.1)),
    );
    crate::player_map::lemma_seq_to_map_last_wins(mapped);
    assert forall|i: int| 0 <= i < rows.len() implies stats.contains_key(
        key_of_text(#[trigger] rows[i].0@),
    ) by {
        assert(mapped[i].0 == key_of_text(rows[i].0@));
    }
    assert forall|k: PlayerKey| #[trigger] stats.contains_key(k) implies exists|i: int|
        0 <= i < rows.len() && key_of_text(rows[i].0@) == k by {
        let i = choose|i: int| 0 <= i < mapped.len() && mapped[i].0 == k;
        assert(mapped[i].0 == key_of_text(rows[i].0@));
    }
    assert forall|i: int|
        0 <= i < rows.len() && (forall|j: int|
            i < j < rows.len() ==> key_of_text(rows[j].0@) != key_of_text(rows[i].0@)) implies stats[key_of_text(#[trigger] rows[i].0@)] == Stats::spec_from_value_column(rows[i].1) by {
        assert forall|j: int| i < j < mapped.len() implies mapped[j].0 != mapped[i].0 by {
            assert(mapped[j].0 == key_of_text(rows[j].0@));
            assert(mapped[i].0 == key_of_text(rows[i].0@));
        }
        assert(mapped[i] == (key_of_text(rows[i].0@), Stats::spec_from_value_column(rows[i].1)));
    }
}

/// The stats of upstream entries `(uuid, stats)` hold the player of every
/// entry and no other player, each with the stats of the last entry that
/// names it.
#[verifier::spinoff_prover]
#[verifier::rlimit(60)]
pub proof fn lemma_stats_of_entries_holds_every_entry<Stats>(
    entries: Seq<(Option<String>, Stats)>,
    stats: Map<PlayerKey, Stats>,
)
    requires
        stats == stats_of_entries(entries),
    ensures
        forall|i: int|
            0 <= i < entries.len() ==> stats.contains_key(
                key_of_text((#[trigger] entries[i]).0.unwrap()@),
            ),
        forall|k: PlayerKey|
            #[trigger] stats.contains_key(k) ==> exists|i: int|
                0 <= i < entries.len() && key_of_text(entries[i].0.unwrap()@) == k,
        forall|i: int|
            0 <= i < entries.len() && (forall|j: int|
                i < j < entries.len() ==> key_of_text(entries[j].0.unwrap()@) != key_of_text(
                    entries[i].0.unwrap()@,
                )) ==> stats[key_of_text((#[trigger] entries[i]).0.unwrap()@)]
                == entries[i].1,
{
    let mapped = entries.map_values(
        |e: (Option<String>, Stats)| (key_of_text(e.0.unwrap()@), e.1),
    );
    crate::player_map::lemma_seq_to_map_last_wins(mapped);
    assert forall|i: int| 0 <= i < entries.len() implies stats.contains_key(
        key_of_text((#[trigger] entries[i]).0.unwrap()@),
    ) by {
        assert(mapped[i].0 == key_of_text(entries[i].0.unwrap()@));
    }
    assert forall|k: PlayerKey| #[trigger] stats.contains_key(k) implies exists|i: int|
        0 <= i < entries.len() && key_of_text(entries[i].0.unwrap()@) == k by {
        let i = choose|i: int| 0 <= i < mapped.len() && mapped[i].0 == k;
        assert(mapped[i].0 == key_of_text(entries[i].0.unwrap()@));
    }
    assert forall|i: int|
        0 <= i < entries.len() && (forall|j: int|
            i < j < entries.len() ==> key_of_text(entries[j].0.unwrap()@) != key_of_text(
                entries[i].0.unwrap()@,
            )) implies stats[key_of_text((#[trigger] entries[i]).0.unwrap()@)]
        == entries[i].1 by {
        assert forall|j: int| i < j < mapped.len() implies mapped[j].0 != mapped[i].0 by {
            assert(mapped[j].0 == key_of_text(entries[j].0.unwrap()@));
            assert(mapped[i].0 == key_of_text(entries[i].0.unwrap()@));
        }
        assert(mapped[i] == (key_of_text(entries[i].0.unwrap()@), entries[i].1));
    }
}

/// The first row whose UUID string is not valid, if any.
pub open spec fn first_invalid_row(rows: Seq<(String, u64)>, i: int) -> bool {
    &&& 0 <= i < rows.len()
    &&& !is_uuid_text(rows[i].0@)
    &&& forall|j: int| 0 <= j < i ==> is_uuid_text(#[trigger] rows[j].0@)
}

/// The error that [`PlayerUuidString::from_string`] gives for a string that
/// is not a valid UUID string.
pub open spec fn uuid_error_of(s: String) -> UuidStringError {
    if !is_ascii_chars(s@) {
        UuidStringError::NotAscii { got: s }
    } else {
        UuidStringError::WrongLength { got: s }
    }
}

/// The full snapshot stored under `id` at `timestamp`, from its rows of
/// `(uuid, value)`; a later row replaces an earlier one for the same
/// player.  Fails on the first row whose UUID string is not valid.
pub fn full_snapshot_point_from_rows<Stats: StatValue + FromValueColumn<ValueColumnType = u64>>(
    id: u64,
    timestamp: UtcTimestamp,
    rows: Vec<(String, u64)>,
) -> (r: Result<FullSnapshotPoint<Stats>, UuidStringError>)
    ensures
        r is Ok <==> forall|i: int| 0 <= i < rows@.len() ==> is_uuid_text(#[trigger] rows@[i].0@),
        r matches Ok(p) ==> {
            &&& p.id == id
            &&& p.full_snapshot.utc_timestamp == timestamp
            &&& p.full_snapshot.player_stats@ == stats_of_rows::<Stats>(rows@)
            &&& forall|i: int|
                0 <= i < rows@.len() ==> p.full_snapshot.player_stats@.contains_key(
                    key_of_text(#[trigger] rows@[i].0@),
                )
            &&& forall|k: PlayerKey|
                #[trigger] p.full_snapshot.player_stats@.contains_key(k) ==> exists|i: int|
                    0 <= i < rows@.len() && key_of_text(rows@[i].0@) == k
            &&& forall|i: int|
                0 <= i < rows@.len() && (forall|j: int|
                    i < j < rows@.len() ==> key_of_text(rows@[j].0@) != key_of_text(rows@[i].0@))
                    ==> p.full_snapshot.player_stats@[key_of_text(#[trigger] rows@[i].0@)]
                    == Stats::spec_from_value_column(rows@[i].1)
        },
        r matches Err(e) ==> exists|i: int| first_invalid_row(rows@, i) && e == uuid_error_of(rows@[i].0),
{
    let mut snapshot: StatsSnapshot<Stats> = StatsSnapshot::new(timestamp);
    let ghost mapped = rows@.map_values(
        |r: (String, u64)| (key_of_text(r.0@), Stats::spec_from_value_column(r.1)),
    );
    let mut i: usize = 0;
    while i < rows.len()
        invariant
            0 <= i <= rows@.len(),
            mapped == rows@.map_values(
                |r: (String, u64)| (key_of_text(r.0@), Stats::spec_from_value_column(r.1)),
            ),
            snapshot.utc_timestamp == timestamp,
            snapshot.player_stats@ == seq_to_map(mapped.take(i as int)),
            forall|j: int| 0 <= j < i ==> is_uuid_text(#[trigger] rows@[j].0@),
        decreases rows@.len() - i,
    {
        let uuid = match PlayerUuidString::from_string(&rows[i].0) {
            Ok(uuid) => uuid,
            Err(e) => {
                proof {
                    assert(first_invalid_row(rows@, i as int));
                }
                return Err(e);
            },
        };
        let k = uuid.key();
        let v = Stats::from_value_column(rows[i].1);
        proof {
            assert(mapped.take(i + 1).drop_last() =~= mapped.take(i as int));
            assert(mapped.take(i + 1).last() == (k, v));
        }
        snapshot.player_stats.insert(k, v);
        i += 1;
    }
    proof {
        assert(mapped.take(rows@.len() as int) =~= mapped);
        lemma_stats_of_rows_holds_every_row::<Stats>(rows@, snapshot.player_stats@);
    }
    Ok(FullSnapshotPoint { id, full_snapshot: snapshot })
}

/// Errors in a reply of the upstream service.
#[derive(Debug, Clone, PartialEq, Eq)]
pub enum UpstreamDataError {
    /// An entry names no player.
    PlayerUuidMissing,
    /// An entry names a player by a string that is not a valid UUID string.
    InvalidPlayerUuid(UuidStringError),
}

/// The stats of the upstream entries `(uuid, stats)`, a later entry
/// replacing an earlier one for the same player.
pub open spec fn stats_of_entries<Stats>(entries: Seq<(Option<String>, Stats)>) -> Map<PlayerKey, Stats> {
    seq_to_map(
        entries.map_values(
            |e: (Option<String>, Stats)| (key_of_text(e.0.unwrap()@), e.1),
        ),
    )
}

/// An upstream entry names a player by a valid UUID string.
pub open spec fn is_valid_entry<Stats>(e: (Option<String>, Stats)) -> bool {
    e.0 matches Some(s) && is_uuid_text(s@)
}

/// The error that the upstream entry `e` gives.
pub open spec fn entry_error_of<Stats>(e: (Option<String>, Stats)) -> UpstreamDataError {
    match e.0 {
        None => UpstreamDataError::PlayerUuidMissing,
        Some(s) => UpstreamDataError::InvalidPlayerUuid(uuid_error_of(s)),
    }
}

/// The snapshot at `request_time` made of the entries `(uuid, stats)` that
/// the upstream service replied with; a later entry replaces an earlier one
/// for the same player.  Fails on the first entry that names no player or
/// names one by a string that is not a valid UUID string.
pub fn snapshot_from_upstream_entries<Stats: StatValue>(
    request_time: UtcTimestamp,
    entries: Vec<(Option<String>, Stats)>,
) -> (r: Result<StatsSnapshot<Stats>, UpstreamDataError>)
    ensures
        r is Ok <==> forall|i: int| 0 <= i < entries@.len() ==> is_valid_entry(#[trigger] entries@[i]),
        r matches Ok(s) ==> {
            &&& s.utc_timestamp == request_time
            &&& s.player_stats@ == stats_of_entries(entries@)
            &&& forall|i: int|
                0 <= i < entries@.len() ==> s.player_stats@.contains_key(
                    key_of_text((#[trigger] entries@[i]).0.unwrap()@),
                )
            &&& forall|k: PlayerKey|
                #[trigger] s.player_stats@.contains_key(k) ==> exists|i: int|
                    0 <= i < entries@.len() && key_of_text(entries@[i].0.unwrap()@) == k
            &&& forall|i: int|
                0 <= i < entries@.len() && (forall|j: int|
                    i < j < entries@.len() ==> key_of_text(entries@[j].0.unwrap()@) != key_of_text(
                        entries@[i].0.unwrap()@,
                    )) ==> s.player_stats@[key_of_text((#[trigger] entries@[i]).0.unwrap()@)]
                    == entries@[i].1
        },
        r matches Err(e) ==> exists|i: int|
            {
                &&& 0 <= i < entries@.len()
                &&& !is_valid_entry(entries@[i])
                &&& forall|j: int| 0 <= j < i ==> is_valid_entry(#[trigger] entries@[j])
                &&& e == entry_error_of(entries@[i])
            },
{
    let mut snapshot: StatsSnapshot<Stats> = StatsSnapshot::new(request_time);
    let ghost mapped = entries@.map_values(
        |e: (Option<String>, Stats)| (key_of_text(e.0.unwrap()@), e.1),
    );
    let mut i: usize = 0;
    while i < entries.len()
        invariant
            0 <= i <= entries@.len(),
            mapped == entries@.map_values(
                |e: (Option<String>, Stats)| (key_of_text(e.0.unwrap()@), e.1),
            ),
            snapshot.utc_timestamp == request_time,
            snapshot.player_stats@ == seq_to_map(mapped.take(i as int)),
            forall|j: int| 0 <= j < i ==> is_valid_entry(#[trigger] entries@[j]),
        decreases entries@.len() - i,
    {
        let uuid = match &entries[i].0 {
            None => {
                return Err(UpstreamDataError::PlayerUuidMissing);
            },
            Some(s) => match PlayerUuidString::from_string(s) {
                Ok(uuid) => uuid,
                Err(e) => {
                    return Err(UpstreamDataError::InvalidPlayerUuid(e));
                },
            },
        };
        let k = uuid.key();
        let v = entries[i].1;
        proof {
            assert(mapped.take(i + 1).drop_last() =~= mapped.take(i as int));
            assert(mapped.take(i + 1).last() == (k, v));
        }
        snapshot.player_stats.insert(k, v);
        i += 1;
    }
    proof {
        assert(mapped.take(entries@.len() as int) =~= mapped);
        lemma_stats_of_entries_holds_every_entry(entries@, snapshot.player_stats@);
    }
    Ok(snapshot)
}


/// Errors in the stored rows of diff points.
#[derive(Debug, Clone, PartialEq, Eq)]
pub enum DiffPointRowsError {
    /// Some requested diff points have no row in the diff point table.
    DiffPointsNotFound(Vec<DiffPointId>),
    /// A row names a player by a string that is not a valid UUID string.
    InvalidPlayerUuid(UuidStringError),
}

/// What the rows of the diff point table say of each point: the point it
/// follows and its instant (a later row replacing an earlier one).
pub open spec fn point_data_of_rows(
    rows: Seq<(DiffPointId, Option<DiffPointId>, UtcTimestamp)>,
) -> Map<u64, (Option<DiffPointId>, UtcTimestamp)> {
    seq_to_map(
        rows.map_values(
            |r: (DiffPointId, Option<DiffPointId>, UtcTimestamp)| (r.0.0, (r.1, r.2)),
        ),
    )
}

/// The changed stats that the value rows hold for the point `id`, a later
/// row replacing an earlier one for the same player.
pub open spec fn diff_of_rows<Stats: FromValueColumn<ValueColumnType = u64>>(
    rows: Seq<(DiffPointId, String, u64)>,
    id: u64,
) -> Map<PlayerKey, Stats>
    decreases rows.len(),
{
    if rows.len() == 0 {
        Map::empty()
    } else {
        let before = diff_of_rows::<Stats>(rows.drop_last(), id);
        let r = rows.last();
        if r.0.0 == id {
            before.insert(key_of_text(r.1@), Stats::spec_from_value_column(r.2))
        } else {
            before
        }
    }
}

/// Some value row is for the point `id`.
pub open spec fn has_value_row(rows: Seq<(DiffPointId, String, u64)>, id: u64) -> bool {
    exists|j: int| 0 <= j < rows.len() && (#[trigger] rows[j]).0.0 == id
}

/// The changed stats that the value rows hold for a point: the player of
/// every row of that point and no other player, each with the value of the
/// last row of that point that names it.
pub proof fn lemma_diff_of_rows_holds_every_row<Stats: FromValueColumn<ValueColumnType = u64>>(
    rows: Seq<(DiffPointId, String, u64)>,
    id: u64,
)
    ensures
        forall|i: int|
            0 <= i < rows.len() && rows[i].0.0 == id ==> diff_of_rows::<Stats>(rows, id).contains_key(
                key_of_text((#[trigger] rows[i]).1@),
            ),
        forall|k: PlayerKey| #[trigger]
            diff_of_rows::<Stats>(rows, id).contains_key(k) ==> exists|i: int|
                0 <= i < rows.len() && rows[i].0.0 == id && key_of_text(rows[i].1@) == k,
        forall|i: int|
            0 <= i < rows.len() && rows[i].0.0 == id && (forall|j: int|
                i < j < rows.len() && rows[j].0.0 == id ==> key_of_text(rows[j].1@) != key_of_text(
                    rows[i].1@,
                )) ==> diff_of_rows::<Stats>(rows, id)[key_of_text((#[trigger] rows[i]).1@)]
                == Stats::spec_from_value_column(rows[i].2),
    decreases rows.len(),
{
    if rows.len() > 0 {
        let t = rows.drop_last();
        lemma_diff_of_rows_holds_every_row::<Stats>(t, id);
        let last = rows.last();
        let m = diff_of_rows::<Stats>(rows, id);
        assert forall|i: int|
            0 <= i < rows.len() && rows[i].0.0 == id implies m.contains_key(
            key_of_text((#[trigger] rows[i]).1@),
        ) by {
            if i < rows.len() - 1 {
                assert(t[i] == rows[i]);
            }
        }
        assert forall|k: PlayerKey| #[trigger] m.contains_key(k) implies exists|i: int|
            0 <= i < rows.len() && rows[i].0.0 == id && key_of_text(rows[i].1@) == k by {
            if last.0.0 == id && k == key_of_text(last.1@) {
                assert(rows[rows.len() - 1] == last);
            } else {
                assert(diff_of_rows::<Stats>(t, id).contains_key(k));
                let i = choose|i: int| 0 <= i < t.len() && t[i].0.0 == id && key_of_text(t[i].1@) == k;
                assert(rows[i] == t[i]);
            }
        }
        assert forall|i: int|
            0 <= i < rows.len() && rows[i].0.0 == id && (forall|j: int|
                i < j < rows.len() && rows[j].0.0 == id ==> key_of_text(rows[j].1@) != key_of_text(
                    rows[i].1@,
                )) implies m[key_of_text((#[trigger] rows[i]).1@)] == Stats::spec_from_value_column(
            rows[i].2,
        ) by {
            if i < rows.len() - 1 {
                assert(t[i] == rows[i]);
                assert(rows[rows.len() - 1] == last);
                assert forall|j: int|
                    i < j < t.len() && t[j].0.0 == id implies key_of_text(t[j].1@) != key_of_text(
                    t[i].1@,
                ) by {
                    assert(t[j] == rows[j]);
                }
            }
        }
    }
}

/// What the rows of the diff point table say of each point: the point of
/// every row and no other, each with the previous point and the instant of
/// the last row of that point.
pub proof fn lemma_point_data_of_rows_holds_every_row(
    rows: Seq<(DiffPointId, Option<DiffPointId>, UtcTimestamp)>,
)
    ensures
        forall|i: int|
            0 <= i < rows.len() ==> point_data_of_rows(rows).contains_key((#[trigger] rows[i]).0.0),
        forall|k: u64| #[trigger]
            point_data_of_rows(rows).contains_key(k) ==> exists|i: int|
                0 <= i < rows.len() && rows[i].0.0 == k,
        forall|i: int|
            0 <= i < rows.len() && (forall|j: int| i < j < rows.len() ==> rows[j].0.0 != rows[i].0.0)
                ==> point_data_of_rows(rows)[(#[trigger] rows[i]).0.0] == (rows[i].1, rows[i].2),
{
    let mapped = rows.map_values(
        |r: (DiffPointId, Option<DiffPointId>, UtcTimestamp)| (r.0.0, (r.1, r.2)),
    );
    crate::player_map::lemma_seq_to_map_last_wins(mapped);
    assert forall|i: int| 0 <= i < rows.len() implies point_data_of_rows(rows).contains_key(
        (#[trigger] rows[i]).0.0,
    ) by {
        assert(mapped[i].0 == rows[i].0.0);
    }
    assert forall|k: u64| #[trigger] point_data_of_rows(rows).contains_key(k) implies exists|i: int|
        0 <= i < rows.len() && rows[i].0.0 == k by {
        let i = choose|i: int| 0 <= i < mapped.len() && mapped[i].0 == k;
        assert(mapped[i].0 == rows[i].0.0);
    }
    assert forall|i: int|
        0 <= i < rows.len() && (forall|j: int| i < j < rows.len() ==> rows[j].0.0 != rows[i].0.0) implies point_data_of_rows(
        rows,
    )[(#[trigger] rows[i]).0.0] == (rows[i].1, rows[i].2) by {
        assert forall|j: int| i < j < mapped.len() implies mapped[j].0 != mapped[i].0 by {
            assert(mapped[j].0 == rows[j].0.0);
        }
        assert(mapped[i] == (rows[i].0.0, (rows[i].1, rows[i].2)));
    }
}

proof fn lemma_diff_of_rows_without_id<Stats: FromValueColumn<ValueColumnType = u64>>(
    rows: Seq<(DiffPointId, String, u64)>,
    id: u64,
)
    requires
        !has_value_row(rows, id),
    ensures
        diff_of_rows::<Stats>(rows, id) == Map::<PlayerKey, Stats>::empty(),
    decreases rows.len(),
{
    if rows.len() > 0 {
        let t = rows.drop_last();
        assert(!has_value_row(t, id)) by {
            if has_value_row(t, id) {
                let j = choose|j: int| 0 <= j < t.len() && (#[trigger] t[j]).0.0 == id;
                assert(rows[j] == t[j]);
            }
        }
        lemma_diff_of_rows_without_id::<Stats>(t, id);
        assert(rows[rows.len() - 1].0.0 != id);
    }
}

proof fn lemma_index_by_distinct_ids<S>(s: Seq<DiffPoint<S>>)
    requires
        forall|a: int, b: int| 0 <= a < b < s.len() ==> s[a].id != s[b].id,
    ensures
        forall|k: u64| #[trigger] index_by_id(s).contains_key(k) <==> exists|j: int| 0 <= j < s.len() && s[j].id.0 == k,
        forall|j: int| 0 <= j < s.len() ==> #[trigger] index_by_id(s)[s[j].id.0] == s[j],
    decreases s.len(),
{
    if s.len() > 0 {
        let t = s.drop_first();
        assert forall|a: int, b: int| 0 <= a < b < t.len() implies t[a].id != t[b].id by {
            assert(t[a] == s[a + 1] && t[b] == s[b + 1]);
        }
        lemma_index_by_distinct_ids(t);
        assert(!index_by_id(t).contains_key(s[0].id.0)) by {
            if index_by_id(t).contains_key(s[0].id.0) {
                let j = choose|j: int| 0 <= j < t.len() && t[j].id.0 == s[0].id.0;
                assert(t[j] == s[j + 1]);
                assert(s[j + 1].id == s[0].id);
            }
        }
        assert forall|k: u64| #[trigger] index_by_id(s).contains_key(k) <==> exists|j: int|
            0 <= j < s.len() && s[j].id.0 == k by {
            if index_by_id(s).contains_key(k) && k != s[0].id.0 {
                let j = choose|j: int| 0 <= j < t.len() && t[j].id.0 == k;
                assert(s[j + 1] == t[j]);
            }
            if exists|j: int| 0 <= j < s.len() && s[j].id.0 == k {
                let j = choose|j: int| 0 <= j < s.len() && s[j].id.0 == k;
                if j > 0 {
                    assert(t[j - 1] == s[j]);
                }
            }
        }
        assert forall|j: int| 0 <= j < s.len() implies #[trigger] index_by_id(s)[s[j].id.0] == s[j] by {
            if j > 0 {
                assert(t[j - 1] == s[j]);
                assert(s[j].id != s[0].id);
            }
        }
    }
}

/// The diff points requested by `requested`, from their rows in the diff
/// point table `(id, previous id, instant)` and their value rows
/// `(id, uuid, value)`; a point is made of its value rows, so a point without
/// value rows is left out.
///
/// Fails when the diff point table does not have a row for every requested
/// point (with those that have none), then on the first value row whose
/// UUID string is not valid.
pub fn diff_points_from_rows<Stats: StatValue + FromValueColumn<ValueColumnType = u64>>(
    requested: &Vec<DiffPointId>,
    point_rows: Vec<(DiffPointId, Option<DiffPointId>, UtcTimestamp)>,
    value_rows: Vec<(DiffPointId, String, u64)>,
) -> (r: Result<IdIndexedDiffPoints<Stats>, DiffPointRowsError>)
    requires
        requested@.no_duplicates(),
        forall|i: int| 0 <= i < point_rows@.len() ==> requested@.contains(#[trigger] point_rows@[i].0),
        forall|i: int| 0 <= i < value_rows@.len() ==> requested@.contains(#[trigger] value_rows@[i].0),
    ensures
        point_data_of_rows(point_rows@).len() != requested@.len() ==> (r matches Err(
            DiffPointRowsError::DiffPointsNotFound(missing),
        ) && missing@ == requested@.filter(
            |id: DiffPointId| !point_data_of_rows(point_rows@).contains_key(id.0),
        )),
        point_data_of_rows(point_rows@).len() == requested@.len() ==> {
            &&& (r is Err) <==> exists|i: int| first_invalid_value_row(value_rows@, i)
            &&& (r matches Err(DiffPointRowsError::InvalidPlayerUuid(e)) ==> exists|i: int|
                first_invalid_value_row(value_rows@, i) && e == uuid_error_of(value_rows@[i].1))
            &&& (r matches Err(err) ==> err is InvalidPlayerUuid)
            &&& r is Ok <==> forall|i: int|
                0 <= i < value_rows@.len() ==> is_uuid_text(#[trigger] value_rows@[i].1@)
        },
        r matches Ok(points) ==> {
            &&& forall|id: u64| #[trigger] points@.contains_key(id) <==> has_value_row(value_rows@, id)
            &&& forall|id: u64| #[trigger]
                points@.contains_key(id) ==> {
                    let data = point_data_of_rows(point_rows@)[id];
                    &&& points@[id].id == DiffPointId(id)
                    &&& points@[id].previous_diff_point_id == data.0
                    &&& points@[id].diff.utc_timestamp == data.1
                    &&& points@[id].diff.player_stats_diffs@ == diff_of_rows::<Stats>(value_rows@, id)
                }
        },
{
    let ghost mapped = point_rows@.map_values(
        |r: (DiffPointId, Option<DiffPointId>, UtcTimestamp)| (r.0.0, (r.1, r.2)),
    );
    let mut data: HashMap<u64, (Option<DiffPointId>, UtcTimestamp)> = HashMap::new();
    let mut i: usize = 0;
    while i < point_rows.len()
        invariant
            0 <= i <= point_rows@.len(),
            mapped == point_rows@.map_values(
                |r: (DiffPointId, Option<DiffPointId>, UtcTimestamp)| (r.0.0, (r.1, r.2)),
            ),
            data@ == seq_to_map(mapped.take(i as int)),
        decreases point_rows@.len() - i,
    {
        let (id, previous, timestamp) = point_rows[i];
        proof {
            assert(mapped.take(i + 1).drop_last() =~= mapped.take(i as int));
            assert(mapped.take(i + 1).last() == (id.0, (previous, timestamp)));
        }
        data.insert(id.0, (previous, timestamp));
        i += 1;
    }
    proof {
        assert(mapped.take(point_rows@.len() as int) =~= mapped);
    }
    let ghost data_map = data@;
    if data.len() != requested.len() {
        let mut missing: Vec<DiffPointId> = Vec::new();
        let mut j: usize = 0;
        while j < requested.len()
            invariant
                0 <= j <= requested@.len(),
                data@ == data_map,
                data_map == point_data_of_rows(point_rows@),
                missing@ == requested@.take(j as int).filter(
                    |id: DiffPointId| !data_map.contains_key(id.0),
                ),
            decreases requested@.len() - j,
        {
            let id = requested[j];
            proof {
                assert(requested@.take(j + 1).drop_last() =~= requested@.take(j as int));
                reveal(Seq::filter);
            }
            if !data.contains_key(&id.0) {
                missing.push(id);
            }
            j += 1;
        }
        proof {
            assert(requested@.take(requested@.len() as int) =~= requested@);
        }
        return Err(DiffPointRowsError::DiffPointsNotFound(missing));
    }
    // Every point that a value row is for has a row in the diff point table.
    let ghost wanted_seq = requested@.map_values(|id: DiffPointId| id.0);
    proof {
        let keys = data_map.dom();
        let wanted = wanted_seq.to_set();
        let point_mapped = mapped;
        assert(keys.subset_of(wanted)) by {
            assert forall|k: u64| #[trigger] keys.contains(k) implies wanted.contains(k) by {
                lemma_seq_to_map_key_from(point_mapped, k);
                let i = choose|i: int| 0 <= i < point_mapped.len() && point_mapped[i].0 == k;
                assert(point_mapped[i].0 == point_rows@[i].0.0);
                assert(requested@.contains(point_rows@[i].0));
                let t = choose|t: int| 0 <= t < requested@.len() && requested@[t] == point_rows@[i].0;
                assert(wanted_seq[t] == k);
            }
        }
        assert(wanted_seq.no_duplicates()) by {
            assert forall|a: int, b: int| 0 <= a < wanted_seq.len() && 0 <= b < wanted_seq.len() && a != b implies wanted_seq[a] != wanted_seq[b] by {
                assert(requested@[a] != requested@[b]);
            }
        }
        wanted_seq.unique_seq_to_set();
        lemma_seq_to_map_finite(point_mapped);
        vstd::set_lib::lemma_subset_equality(keys, wanted);
    }
    let mut ids: Vec<DiffPointId> = Vec::new();
    let mut diffs: Vec<BTreeMap<PlayerKey, Stats>> = Vec::new();
    let mut index: HashMap<u64, usize> = HashMap::new();
    let mut i: usize = 0;
    while i < value_rows.len()
        invariant
            0 <= i <= value_rows@.len(),
            data_map == point_data_of_rows(point_rows@),
            wanted_seq == requested@.map_values(|id: DiffPointId| id.0),
            data_map.dom() == wanted_seq.to_set(),
            data_map.len() == requested@.len(),
            forall|t: int| 0 <= t < value_rows@.len() ==> requested@.contains(#[trigger] value_rows@[t].0),
            ids@.len() == diffs@.len(),
            forall|j: int| 0 <= j < i ==> is_uuid_text(#[trigger] value_rows@[j].1@),
            forall|id: u64| #[trigger] index@.contains_key(id) <==> has_value_row(value_rows@.take(i as int), id),
            forall|id: u64| #[trigger] index@.contains_key(id) ==> index@[id] < ids@.len() && ids@[index@[id] as int].0 == id,
            forall|p: int| 0 <= p < ids@.len() ==> index@.contains_key(#[trigger] ids@[p].0) && index@[ids@[p].0] == p,
            forall|p: int| 0 <= p < ids@.len() ==> #[trigger] diffs@[p]@ == diff_of_rows::<Stats>(value_rows@.take(i as int), ids@[p].0),
            forall|p: int| 0 <= p < ids@.len() ==> data_map.contains_key(#[trigger] ids@[p].0),
        decreases value_rows@.len() - i,
    {
        let uuid = match PlayerUuidString::from_string(&value_rows[i].1) {
            Ok(uuid) => uuid,
            Err(e) => {
                proof {
                    assert(first_invalid_value_row(value_rows@, i as int));
                }
                return Err(DiffPointRowsError::InvalidPlayerUuid(e));
            },
        };
        let id = value_rows[i].0;
        let k = uuid.key();
        let v = Stats::from_value_column(value_rows[i].2);
        let ghost before = value_rows@.take(i as int);
        let ghost after = value_rows@.take(i + 1);
        proof {
            assert(after.drop_last() =~= before);
            assert(after.last() == value_rows@[i as int]);
            assert forall|x: u64| #[trigger] has_value_row(after, x) <==> has_value_row(before, x) || x == id.0 by {
                if has_value_row(after, x) {
                    let j = choose|j: int| 0 <= j < after.len() && (#[trigger] after[j]).0.0 == x;
                    if j < i {
                        assert(before[j] == after[j]);
                    }
                }
                if x == id.0 {
                    assert(after[i as int].0.0 == x);
                }
                if has_value_row(before, x) {
                    let j = choose|j: int| 0 <= j < before.len() && (#[trigger] before[j]).0.0 == x;
                    assert(after[j] == before[j]);
                }
            }
            assert(requested@.contains(id));
            let t = choose|t: int| 0 <= t < requested@.len() && requested@[t] == id;
            assert(wanted_seq[t] == id.0);
            assert(wanted_seq.to_set().contains(wanted_seq[t]));
        }
        match index.get(&id.0) {
            Some(pos) => {
                let pos = *pos;
                diffs[pos].insert(k, v);
                proof {
                    assert forall|p: int| 0 <= p < ids@.len() implies #[trigger] diffs@[p]@ == diff_of_rows::<Stats>(after, ids@[p].0) by {
                        if p != pos {
                            assert(ids@[p].0 != id.0);
                        }
                    }
                }
            },
            None => {
                let mut m: BTreeMap<PlayerKey, Stats> = BTreeMap::new();
                m.insert(k, v);
                proof {
                    lemma_diff_of_rows_without_id::<Stats>(before, id.0);
                    assert forall|p: int| 0 <= p < ids@.len() implies ids@[p].0 != id.0 by {
                        assert(index@.contains_key(ids@[p].0));
                    }
                }
                index.insert(id.0, ids.len());
                ids.push(id);
                diffs.push(m);
                proof {
                    assert forall|p: int| 0 <= p < ids@.len() implies #[trigger] diffs@[p]@ == diff_of_rows::<Stats>(after, ids@[p].0) by {
                    }
                    assert forall|p: int| 0 <= p < ids@.len() implies index@.contains_key(#[trigger] ids@[p].0) && index@[ids@[p].0] == p by {
                    }
                }
            },
        }
        i += 1;
    }
    proof {
        assert(i == value_rows@.len());
        assert(value_rows@.take(value_rows@.len() as int) =~= value_rows@);
        assert forall|id: u64| #[trigger] index@.contains_key(id) <==> has_value_row(value_rows@, id) by {
            assert(value_rows@.take(i as int) == value_rows@);
        }
    }
    let mut points: Vec<DiffPoint<Stats>> = Vec::new();
    let ghost all_ids = ids@;
    let ghost all_diffs = diffs@;
    proof {
        assert forall|p: int, q: int| 0 <= p < q < all_ids.len() implies all_ids[p] != all_ids[q] by {
            assert(index@[all_ids[p].0] == p);
            assert(index@[all_ids[q].0] == q);
        }
        assert(all_ids.take(all_ids.len() as int) =~= all_ids);
        assert forall|id: u64| has_value_row(value_rows@, id) implies #[trigger] index@.contains_key(id)
            && index@[id] < all_ids.len() && all_ids[index@[id] as int].0 == id by {
            assert(index@.contains_key(id));
        }
        assert(all_diffs.take(all_diffs.len() as int) =~= all_diffs);
    }
    while diffs.len() > 0
        invariant
            ids@.len() == diffs@.len(),
            ids@ == all_ids.take(ids@.len() as int),
            diffs@ == all_diffs.take(diffs@.len() as int),
            all_ids.len() == all_diffs.len(),
            ids@.len() + points@.len() == all_ids.len(),
            forall|p: int| 0 <= p < all_ids.len() ==> data_map.contains_key(#[trigger] all_ids[p].0),
            forall|p: int, q: int| 0 <= p < q < all_ids.len() ==> all_ids[p] != all_ids[q],
            data@ == data_map,
            forall|t: int| #![trigger points@[t]] 0 <= t < points@.len() ==> {
                let p = all_ids.len() - 1 - t;
                &&& points@[t].id == all_ids[p]
                &&& points@[t].previous_diff_point_id == data_map[all_ids[p].0].0
                &&& points@[t].diff.utc_timestamp == data_map[all_ids[p].0].1
                &&& points@[t].diff.player_stats_diffs@ == all_diffs[p]@
            },
        decreases diffs@.len(),
    {
        let ghost n = diffs@.len() as int;
        let m = diffs.pop().unwrap();
        let id = ids.pop().unwrap();
        proof {
            assert(diffs@ =~= all_diffs.take(n - 1));
            assert(ids@ =~= all_ids.take(n - 1));
            assert(data_map.contains_key(all_ids[n - 1].0));
        }
        let (previous, timestamp) = *data.get(&id.0).unwrap();
        points.push(
            DiffPoint {
                id,
                previous_diff_point_id: previous,
                diff: SnapshotDiff { utc_timestamp: timestamp, player_stats_diffs: m },
            },
        );
    }
    proof {
        assert(points@.len() == all_ids.len());
        assert forall|a: int, b: int| 0 <= a < b < points@.len() implies points@[a].id != points@[b].id by {
            assert(points@[a].id == all_ids[all_ids.len() - 1 - a]);
            assert(points@[b].id == all_ids[all_ids.len() - 1 - b]);
        }
        lemma_index_by_distinct_ids(points@);
    }
    let ghost pts = points@;
    proof {
        assert forall|t: int| 0 <= t < pts.len() implies #[trigger] pts[t].id == all_ids[all_ids.len() - 1 - t]
            && pts[t].previous_diff_point_id == data_map[all_ids[all_ids.len() - 1 - t].0].0
            && pts[t].diff.utc_timestamp == data_map[all_ids[all_ids.len() - 1 - t].0].1
            && pts[t].diff.player_stats_diffs@ == all_diffs[all_ids.len() - 1 - t]@ by {
            assert(points@[t] == pts[t]);
        }
    }
    let result = IdIndexedDiffPoints::new(points);
    proof {
        assert forall|id: u64| #[trigger] result@.contains_key(id) <==> has_value_row(value_rows@, id) by {
            if result@.contains_key(id) {
                let t = choose|t: int| 0 <= t < pts.len() && pts[t].id.0 == id;
                let p = all_ids.len() - 1 - t;
                assert(pts[t].id == all_ids[p]);
            }
            if has_value_row(value_rows@, id) {
                assert(index@.contains_key(id));
                let p = index@[id] as int;
                let t = all_ids.len() - 1 - p;
                assert(pts[t].id == all_ids[p]);
            }
        }
        assert forall|id: u64| #[trigger] result@.contains_key(id) implies {
            let d = point_data_of_rows(point_rows@)[id];
            &&& result@[id].id == DiffPointId(id)
            &&& result@[id].previous_diff_point_id == d.0
            &&& result@[id].diff.utc_timestamp == d.1
            &&& result@[id].diff.player_stats_diffs@ == diff_of_rows::<Stats>(value_rows@, id)
        } by {
            let t = choose|t: int| 0 <= t < pts.len() && pts[t].id.0 == id;
            let p = all_ids.len() - 1 - t;
            assert(pts[t].id == all_ids[p]);
            assert(result@[pts[t].id.0] == pts[t]);
        }
    }
    Ok(result)
}

/// The first value row whose UUID string is not valid.
pub open spec fn first_invalid_value_row(rows: Seq<(DiffPointId, String, u64)>, i: int) -> bool {
    &&& 0 <= i < rows.len()
    &&& !is_uuid_text(rows[i].1@)
    &&& forall|j: int| 0 <= j < i ==> is_uuid_text(#[trigger] rows[j].1@)
}

proof fn lemma_seq_to_map_key_from<K, V>(s: Seq<(K, V)>, k: K)
    requires
        seq_to_map(s).contains_key(k),
    ensures
        exists|i: int| 0 <= i < s.len() && s[i].0 == k,
    decreases s.len(),
{
    if s.len() > 0 && s.last().0 != k {
        lemma_seq_to_map_key_from(s.drop_last(), k);
        let i = choose|i: int| 0 <= i < s.drop_last().len() && s.drop_last()[i].0 == k;
        assert(s[i] == s.drop_last()[i]);
    }
}

proof fn lemma_seq_to_map_finite<K, V>(s: Seq<(K, V)>)
    ensures
        seq_to_map(s).dom().finite(),
    decreases s.len(),
{
    if s.len() > 0 {
        lemma_seq_to_map_finite(s.drop_last());
    }
}

} // verus!
