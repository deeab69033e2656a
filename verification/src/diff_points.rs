//! Snapshot points as they are stored: full snapshots, and diff points that
//! each hold the difference to the point before them.
use std::collections::{HashMap, HashSet};
use vstd::prelude::*;

use crate::cycle_free_path::{construct_cycle_free_path, CycleFoundError};
use crate::heuristics::{diff_totals_fit, points_of, total_diffs};
use crate::snapshot::{diff_stats, ComputeDiff, SnapshotDiff, StatsSnapshot};
use crate::statistics::{StatValue, UtcTimestamp};
use crate::uuid::PlayerKey;

verus! {

/// The identifier of a stored diff point.
#[derive(Debug, Clone, Copy, PartialEq, Eq, Hash, Structural)]
pub struct DiffPointId(pub u64);

/// A stored full snapshot and its identifier.
#[derive(Clone)]
pub struct FullSnapshotPoint<Stats> {
    pub id: u64,
    pub full_snapshot: StatsSnapshot<Stats>,
}

/// A stored difference, and the diff point it follows (none when it follows
/// the full snapshot directly).
pub struct DiffPoint<Stats> {
    pub id: DiffPointId,
    pub previous_diff_point_id: Option<DiffPointId>,
    pub diff: SnapshotDiff<Stats>,
}

/// A stored point of either kind.
pub enum SnapshotPoint<Stats> {
    Full(FullSnapshotPoint<Stats>),
    Diff(DiffPoint<Stats>),
}

/// A full snapshot followed by differences, oldest first.
pub struct DiffSequence<Stats> {
    pub base_point: FullSnapshotPoint<Stats>,
    pub diff_points: Vec<DiffPoint<Stats>>,
}

/// The stats reached from `base` by applying the differences of `diffs` in
/// order.
pub open spec fn fold_diffs<S>(base: Map<PlayerKey, S>, diffs: Seq<DiffPoint<S>>) -> Map<
    PlayerKey,
    S,
>
    decreases diffs.len(),
{
    if diffs.len() == 0 {
        base
    } else {
        fold_diffs(base, diffs.drop_last()).union_prefer_right(
            diffs.last().diff.player_stats_diffs@,
        )
    }
}

impl<Stats> DiffSequence<Stats> {
    /// The stats at the tip of the sequence.
    pub open spec fn tip_stats(&self) -> Map<PlayerKey, Stats> {
        fold_diffs(self.base_point.full_snapshot.player_stats@, self.diff_points@)
    }

    /// The instant of the tip of the sequence: that of its last difference, or
    /// of its full snapshot when it has no difference.
    pub open spec fn tip_timestamp(&self) -> UtcTimestamp {
        if self.diff_points@.len() == 0 {
            self.base_point.full_snapshot.utc_timestamp
        } else {
            self.diff_points@.last().diff.utc_timestamp
        }
    }
}

/// What the tip of a sequence is after one more difference.
pub proof fn lemma_fold_diffs_push<S>(base: Map<PlayerKey, S>, diffs: Seq<DiffPoint<S>>, p: DiffPoint<S>)
    ensures
        fold_diffs(base, diffs.push(p)) == fold_diffs(base, diffs).union_prefer_right(
            p.diff.player_stats_diffs@,
        ),
{
    assert(diffs.push(p).drop_last() =~= diffs);
}

/// The sequence built to decide where a new snapshot goes.
pub enum DiffSequenceChoice<Stats> {
    /// A new diff point goes on top of this sequence.
    OptimalAccordingToHeuristics(DiffSequence<Stats>),
    /// A new full snapshot is to be taken instead.
    NoAppropriatePointFound,
}

/// What a new diff point on top of a sequence holds.
pub struct NewDiffPoint<Stats> {
    /// The full snapshot at the root of the sequence.
    pub root_point_id: u64,
    /// The last diff point of the sequence, if it has any.
    pub previous_point_id: Option<DiffPointId>,
    /// The difference from the tip of the sequence to the new snapshot.
    pub diff: SnapshotDiff<Stats>,
}

impl<Stats: StatValue> DiffSequence<Stats> {
    /// A sequence made of a full snapshot alone.
    pub fn without_any_diffs(base_point: FullSnapshotPoint<Stats>) -> (s: Self)
        ensures
            s.base_point == base_point,
            s.diff_points@ == Seq::<DiffPoint<Stats>>::empty(),
    {
        DiffSequence { base_point, diff_points: Vec::new() }
    }

    /// A sequence from its parts.
    pub fn new(base_point: FullSnapshotPoint<Stats>, diff_points: Vec<DiffPoint<Stats>>) -> (s:
        Self)
        ensures
            s.base_point == base_point,
            s.diff_points == diff_points,
    {
        DiffSequence { base_point, diff_points }
    }

    /// The number of points in the sequence, the full snapshot included.
    pub fn len(&self) -> (n: usize)
        requires
            self.diff_points@.len() < usize::MAX,
        ensures
            n == self.diff_points@.len() + 1,
    {
        self.diff_points.len() + 1
    }

    /// Whether the sequence may still grow: it has at most 1000 diff points.
    pub fn is_sufficiently_short_to_extend(&self) -> (short: bool)
        ensures
            short == (self.diff_points@.len() <= 1000),
    {
        self.diff_points.len() <= 1000
    }

    /// The snapshot at the tip of the sequence, reached by applying each
    /// difference in turn to the full snapshot.
    pub fn into_snapshot_at_the_tip(self) -> (s: StatsSnapshot<Stats>)
        ensures
            s.player_stats@ == self.tip_stats(),
            s.utc_timestamp == self.tip_timestamp(),
    {
        let ghost whole = self;
        let DiffSequence { base_point, diff_points } = self;
        if diff_points.len() == 0 {
            base_point.full_snapshot
        } else {
            let mut updated_snapshot = base_point.full_snapshot;
            let ghost base = updated_snapshot.player_stats@;
            let mut i: usize = 0;
            while i < diff_points.len()
                invariant
                    0 <= i <= diff_points@.len(),
                    diff_points@.len() > 0,
                    updated_snapshot.player_stats@ == fold_diffs(
                        base,
                        diff_points@.take(i as int),
                    ),
                    i > 0 ==> updated_snapshot.utc_timestamp == diff_points@[i - 1].diff.utc_timestamp,
                decreases diff_points@.len() - i,
            {
                proof {
                    assert(diff_points@.take(i + 1).drop_last() =~= diff_points@.take(i as int));
                }
                updated_snapshot = diff_points[i].diff.apply_to(updated_snapshot);
                i += 1;
            }
            proof {
                assert(diff_points@.take(diff_points@.len() as int) =~= diff_points@);
            }
            updated_snapshot
        }
    }

    /// The snapshot at the end of the sequence, rebuilt by writing every
    /// changed stat of every difference into the full snapshot's stats.
    pub fn into_snapshot_at_the_end(self) -> (s: StatsSnapshot<Stats>)
        ensures
            s.player_stats@ == self.tip_stats(),
            s.utc_timestamp == self.tip_timestamp(),
    {
        let DiffSequence { base_point, diff_points } = self;
        let end_timestamp = if diff_points.len() == 0 {
            base_point.full_snapshot.utc_timestamp
        } else {
            diff_points[diff_points.len() - 1].diff.utc_timestamp
        };
        let mut restored = base_point.full_snapshot;
        let ghost base = restored.player_stats@;
        let mut i: usize = 0;
        while i < diff_points.len()
            invariant
                0 <= i <= diff_points@.len(),
                restored.player_stats@ == fold_diffs(base, diff_points@.take(i as int)),
            decreases diff_points@.len() - i,
        {
            proof {
                assert(diff_points@.take(i + 1).drop_last() =~= diff_points@.take(i as int));
            }
            diff_points[i].diff.apply_to_mut(&mut restored);
            i += 1;
        }
        proof {
            assert(diff_points@.take(diff_points@.len() as int) =~= diff_points@);
        }
        StatsSnapshot { utc_timestamp: end_timestamp, player_stats: restored.player_stats }
    }

    /// What a diff point recording `snapshot` on top of this sequence holds:
    /// the sequence's root, its last diff point, and the difference from its
    /// tip to `snapshot`.
    pub fn diff_point_to_record(self, snapshot: &StatsSnapshot<Stats>) -> (p: NewDiffPoint<Stats>)
        ensures
            p.root_point_id == self.base_point.id,
            p.previous_point_id == (if self.diff_points@.len() == 0 {
                None::<DiffPointId>
            } else {
                Some(self.diff_points@.last().id)
            }),
            p.diff.utc_timestamp == snapshot.utc_timestamp,
            p.diff.player_stats_diffs@ == diff_stats(self.tip_stats(), snapshot.player_stats@),
    {
        let root_point_id = self.base_point.id;
        let previous_point_id = if self.diff_points.len() == 0 {
            None
        } else {
            Some(self.diff_points[self.diff_points.len() - 1].id)
        };
        let tip = self.into_snapshot_at_the_tip();
        let diff = tip.diff_to(snapshot);
        NewDiffPoint { root_point_id, previous_point_id, diff }
    }
}

/// A snapshot recorded as a diff point on top of a sequence is restored from
/// the sequence extended by that point, provided every player of the
/// sequence's tip is in the snapshot: a read gives back what was written.
pub proof fn lemma_recorded_snapshot_is_restored<S>(
    sequence: DiffSequence<S>,
    new_point: DiffPoint<S>,
    snapshot: StatsSnapshot<S>,
)
    requires
        new_point.diff.player_stats_diffs@ == diff_stats(sequence.tip_stats(), snapshot.player_stats@),
        new_point.diff.utc_timestamp == snapshot.utc_timestamp,
        sequence.tip_stats().dom().subset_of(snapshot.player_stats@.dom()),
    ensures
        fold_diffs(sequence.base_point.full_snapshot.player_stats@, sequence.diff_points@.push(new_point))
            == snapshot.player_stats@,
        sequence.diff_points@.push(new_point).last().diff.utc_timestamp == snapshot.utc_timestamp,
{
    lemma_fold_diffs_push(sequence.base_point.full_snapshot.player_stats@, sequence.diff_points@, new_point);
    crate::snapshot::lemma_apply_diff_restores(sequence.tip_stats(), snapshot.player_stats@);
}


/// `points` is a chain over a full snapshot: the first point follows no
/// diff point, each next point follows the one before it, and no identifier
/// repeats.
pub open spec fn is_linked_chain<S>(points: Seq<DiffPoint<S>>) -> bool {
    &&& points.len() > 0 ==> points[0].previous_diff_point_id is None
    &&& forall|i: int|
        #![trigger points[i]]
        0 < i < points.len() ==> points[i].previous_diff_point_id == Some(points[i - 1].id)
    &&& forall|i: int, j: int| 0 <= i < j < points.len() ==> points[i].id != points[j].id
}

/// `points` is a chain whose points are stored in `m` under their
/// identifiers.
pub open spec fn is_chain_in<S>(m: Map<u64, DiffPoint<S>>, points: Seq<DiffPoint<S>>) -> bool {
    &&& is_linked_chain(points)
    &&& forall|i: int|
        0 <= i < points.len() ==> m.contains_key(#[trigger] points[i].id.0) && m[points[i].id.0]
            == points[i]
}

/// Every point of `m` goes back to the full snapshot through at most
/// `limit` diff points, itself included.
pub open spec fn chains_within<S>(m: Map<u64, DiffPoint<S>>, limit: nat) -> bool {
    forall|k: u64| #[trigger]
        m.contains_key(k) ==> exists|path: Seq<DiffPointId>|
            is_path_to_root(m, path) && path[0].0 == k && path.len() <= limit
}

/// The diff point that `p` describes, stored under `id`.
pub open spec fn recorded_point<S>(id: DiffPointId, p: NewDiffPoint<S>) -> DiffPoint<S> {
    DiffPoint { id, previous_diff_point_id: p.previous_point_id, diff: p.diff }
}

/// `chain` with the diff point that `p` describes, stored under `id`, on
/// top.
pub open spec fn extended_chain<S>(chain: Seq<DiffPoint<S>>, id: DiffPointId, p: NewDiffPoint<S>) -> Seq<
    DiffPoint<S>,
> {
    chain.push(recorded_point(id, p))
}

/// A prefix of a chain stored in part of a map is a chain stored in the
/// whole map.
pub proof fn lemma_chain_prefix_in_larger_map<S>(
    part: Map<u64, DiffPoint<S>>,
    m: Map<u64, DiffPoint<S>>,
    chain: Seq<DiffPoint<S>>,
    n: int,
)
    requires
        is_chain_in(part, chain),
        part.submap_of(m),
        0 <= n <= chain.len(),
    ensures
        is_chain_in(m, chain.take(n)),
{
    let t = chain.take(n);
    assert forall|i: int| #![trigger t[i]] 0 < i < t.len() implies t[i].previous_diff_point_id == Some(
        t[i - 1].id,
    ) by {
        assert(t[i] == chain[i] && t[i - 1] == chain[i - 1]);
    }
    assert forall|i: int, j: int| 0 <= i < j < t.len() implies t[i].id != t[j].id by {
        assert(t[i] == chain[i] && t[j] == chain[j]);
    }
    assert forall|i: int| 0 <= i < t.len() implies m.contains_key(#[trigger] t[i].id.0) && m[t[i].id.0]
        == t[i] by {
        assert(t[i] == chain[i]);
        assert(part.contains_key(chain[i].id.0));
    }
}

/// Recording a snapshot as a new diff point, under a fresh identifier, on a
/// chain of at most 999 stored diff points keeps every chain within 1000
/// diff points: the new point's chain is the chosen chain and itself, and
/// the chains of the stored points stay as they were.
pub proof fn lemma_recording_keeps_chains_within_limit<S>(
    m: Map<u64, DiffPoint<S>>,
    chain: Seq<DiffPoint<S>>,
    id: DiffPointId,
    p: NewDiffPoint<S>,
)
    requires
        chains_within(m, 1000),
        is_chain_in(m, chain),
        chain.len() <= 999,
        p.previous_point_id == (if chain.len() == 0 {
            None::<DiffPointId>
        } else {
            Some(chain.last().id)
        }),
        !m.contains_key(id.0),
    ensures
        chains_within(m.insert(id.0, recorded_point(id, p)), 1000),
{
    let np = recorded_point(id, p);
    let m2 = m.insert(id.0, np);
    let n = chain.len() as int;
    let back = Seq::new(n as nat, |j: int| chain[n - 1 - j].id);
    let new_path = seq![id] + back;
    assert forall|i: int| 0 <= i < chain.len() implies chain[i].id.0 != id.0 by {
        assert(m.contains_key(chain[i].id.0));
    }
    assert(is_path_to_root(m2, new_path)) by {
        assert forall|i: int| 0 <= i < new_path.len() implies m2.contains_key(#[trigger] new_path[i].0) by {
            if i > 0 {
                assert(new_path[i] == chain[n - i].id);
                assert(m.contains_key(chain[n - i].id.0));
            }
        }
        assert forall|i: int|
            #![trigger new_path[i]]
            0 <= i < new_path.len() - 1 implies m2[new_path[i].0].previous_diff_point_id == Some(
            new_path[i + 1],
        ) by {
            assert(new_path[i + 1] == chain[n - 1 - i].id);
            if i > 0 {
                assert(new_path[i] == chain[n - i].id);
                assert(m2[chain[n - i].id.0] == chain[n - i]);
                assert(chain[n - i].previous_diff_point_id == Some(chain[n - i - 1].id));
            }
        }
        assert forall|a: int, b: int| 0 <= a < new_path.len() && 0 <= b < new_path.len() && a != b implies new_path[a]
            != new_path[b] by {
            if a > 0 && b > 0 {
                assert(new_path[a] == chain[n - a].id);
                assert(new_path[b] == chain[n - b].id);
                if n - a < n - b {
                    assert(chain[n - a].id != chain[n - b].id);
                } else {
                    assert(chain[n - b].id != chain[n - a].id);
                }
            } else if a > 0 {
                assert(new_path[a] == chain[n - a].id);
            } else if b > 0 {
                assert(new_path[b] == chain[n - b].id);
            }
        }
        if n > 0 {
            assert(new_path.last() == chain[0].id);
            assert(m2[chain[0].id.0] == chain[0]);
        }
    }
    assert forall|k: u64| #[trigger] m2.contains_key(k) implies exists|path: Seq<DiffPointId>|
        is_path_to_root(m2, path) && path[0].0 == k && path.len() <= 1000 by {
        if k == id.0 {
            assert(is_path_to_root(m2, new_path) && new_path[0].0 == k && new_path.len() <= 1000);
        } else {
            assert(m.contains_key(k));
            let path = choose|path: Seq<DiffPointId>|
                is_path_to_root(m, path) && path[0].0 == k && path.len() <= 1000;
            assert forall|i: int| 0 <= i < path.len() implies path[i].0 != id.0 by {
                assert(m.contains_key(path[i].0));
            }
            assert forall|i: int| 0 <= i < path.len() implies m2.contains_key(#[trigger] path[i].0) by {
                assert(m.contains_key(path[i].0));
            }
            assert forall|i: int|
                #![trigger path[i]]
                0 <= i < path.len() - 1 implies m2[path[i].0].previous_diff_point_id == Some(path[i + 1]) by {
                assert(path[i].0 != id.0);
            }
            assert(path.last().0 != id.0);
            assert(is_path_to_root(m2, path));
        }
    }
}

/// Every point of `m` is stored under its own identifier.
pub open spec fn ids_match<S>(m: Map<u64, DiffPoint<S>>) -> bool {
    forall|k: u64| #[trigger] m.contains_key(k) ==> m[k].id.0 == k
}

/// The points of `s` by identifier; of points with the same identifier, the
/// last one is kept.
pub open spec fn index_by_id<S>(s: Seq<DiffPoint<S>>) -> Map<u64, DiffPoint<S>>
    decreases s.len(),
{
    if s.len() == 0 {
        Map::empty()
    } else {
        let rest = index_by_id(s.drop_first());
        if rest.contains_key(s[0].id.0) {
            rest
        } else {
            rest.insert(s[0].id.0, s[0])
        }
    }
}

/// The points of `m` taken strictly before `timestamp`.
pub open spec fn points_before_spec<S>(m: Map<u64, DiffPoint<S>>, timestamp: UtcTimestamp) -> Map<
    u64,
    DiffPoint<S>,
> {
    m.restrict(Set::new(|k: u64| m[k].diff.utc_timestamp.0 < timestamp.0))
}

/// The points taken before an instant are exactly the points taken, as a
/// count of nanoseconds, strictly earlier than it, unchanged.
pub proof fn lemma_points_before_keeps_exactly_the_earlier_points<S>(
    m: Map<u64, DiffPoint<S>>,
    timestamp: UtcTimestamp,
)
    ensures
        forall|k: u64| #[trigger]
            points_before_spec(m, timestamp).contains_key(k) <==> m.contains_key(k)
                && m[k].diff.utc_timestamp.0 < timestamp.0,
        forall|k: u64| #[trigger]
            points_before_spec(m, timestamp).contains_key(k) ==> points_before_spec(m, timestamp)[k]
                == m[k],
{
}

/// `id` is a point of `m` taken no earlier than any other point of `m`.
pub open spec fn is_latest_point<S>(m: Map<u64, DiffPoint<S>>, id: u64) -> bool {
    &&& m.contains_key(id)
    &&& forall|k: u64| #[trigger]
        m.contains_key(k) ==> m[k].diff.utc_timestamp.0 <= m[id].diff.utc_timestamp.0
}

/// `path` starts at `start` and goes from each point of `m` to the point it
/// follows.
pub open spec fn is_walk_from<S>(m: Map<u64, DiffPoint<S>>, start: DiffPointId, path: Seq<DiffPointId>) -> bool {
    &&& path.len() >= 1
    &&& path[0] == start
    &&& forall|i: int|
        #![trigger path[i]]
        0 <= i < path.len() - 1 ==> m.contains_key(path[i].0) && m[path[i].0].previous_diff_point_id
            == Some(path[i + 1])
}

/// Every point reached from `start` by going to the point followed is a
/// point of `m`.
pub open spec fn links_stay_within<S>(m: Map<u64, DiffPoint<S>>, start: DiffPointId) -> bool {
    forall|path: Seq<DiffPointId>| #[trigger] is_walk_from(m, start, path) ==> m.contains_key(path.last().0)
}

/// From every latest point of `m`, the points reached by going to the point
/// followed are points of `m`.
pub open spec fn links_from_latest_stay_within<S>(m: Map<u64, DiffPoint<S>>) -> bool {
    forall|k: u64| #[trigger] is_latest_point(m, k) ==> links_stay_within(m, DiffPointId(k))
}

/// The point that the point `id` follows, as `m` records it (none when `m`
/// does not hold `id`).
pub open spec fn previous_of<S>(m: Map<u64, DiffPoint<S>>, id: DiffPointId) -> Option<DiffPointId> {
    if m.contains_key(id.0) {
        m[id.0].previous_diff_point_id
    } else {
        None
    }
}

/// `path` walks the points of `m` from its first point, each next point
/// being the one the point before follows.
pub open spec fn walks_previous_links<S>(m: Map<u64, DiffPoint<S>>, path: Seq<DiffPointId>) -> bool {
    &&& forall|i: int| 0 <= i < path.len() ==> m.contains_key(#[trigger] path[i].0)
    &&& forall|i: int|
        #![trigger path[i]]
        0 <= i < path.len() - 1 ==> m[path[i].0].previous_diff_point_id == Some(path[i + 1])
}

/// `path` goes from a point of `m` back to the full snapshot: it follows
/// the links, never repeats a point, and ends at a point that follows the
/// full snapshot directly.
pub open spec fn is_path_to_root<S>(m: Map<u64, DiffPoint<S>>, path: Seq<DiffPointId>) -> bool {
    &&& path.len() >= 1
    &&& path.no_duplicates()
    &&& walks_previous_links(m, path)
    &&& m[path.last().0].previous_diff_point_id is None
}

/// Diff points by identifier.
pub struct IdIndexedDiffPoints<Stats>(HashMap<u64, DiffPoint<Stats>>);

impl<Stats> View for IdIndexedDiffPoints<Stats> {
    type V = Map<u64, DiffPoint<Stats>>;

    closed spec fn view(&self) -> Map<u64, DiffPoint<Stats>> {
        self.0@
    }
}

impl<Stats> IdIndexedDiffPoints<Stats> {
    #[verifier::type_invariant]
    spec fn keys_are_ids(self) -> bool {
        ids_match(self.0@)
    }
}

impl<Stats: StatValue> IdIndexedDiffPoints<Stats> {
    /// The points by identifier; a later point replaces an earlier one with
    /// the same identifier.
    pub fn new(diff_points: Vec<DiffPoint<Stats>>) -> (r: Self)
        ensures
            r@ == index_by_id(diff_points@),
            ids_match(r@),
    {
        let ghost orig = diff_points@;
        let mut rest = diff_points;
        let mut m: HashMap<u64, DiffPoint<Stats>> = HashMap::new();
        proof {
            assert(orig.skip(orig.len() as int) =~= Seq::<DiffPoint<Stats>>::empty());
            assert(orig.take(orig.len() as int) =~= orig);
        }
        while rest.len() > 0
            invariant
                rest@.len() <= orig.len(),
                rest@ == orig.take(rest@.len() as int),
                m@ == index_by_id(orig.skip(rest@.len() as int)),
                ids_match(m@),
            decreases rest@.len(),
        {
            let ghost n = rest@.len() as int;
            let point = match rest.pop() {
                Some(p) => p,
                None => {
                    proof {
                        assert(false);
                    }
                    return IdIndexedDiffPoints(m);
                },
            };
            proof {
                assert(point == orig[n - 1]);
                assert(orig.skip(n - 1).drop_first() =~= orig.skip(n));
                assert(orig.skip(n - 1)[0] == orig[n - 1]);
                assert(rest@ =~= orig.take(n - 1));
            }
            if !m.contains_key(&point.id.0) {
                m.insert(point.id.0, point);
            }
        }
        proof {
            assert(orig.skip(0) =~= orig);
        }
        IdIndexedDiffPoints(m)
    }

    /// The number of points; every point is stored under its own
    /// identifier.
    pub fn size(&self) -> (n: usize)
        ensures
            n == self@.len(),
            ids_match(self@),
    {
        proof {
            use_type_invariant(self);
        }
        self.0.len()
    }

    /// A point taken no earlier than any other (the last one met among
    /// those taken at the latest instant), if there are points.
    pub fn latest(&self) -> (r: Option<&DiffPoint<Stats>>)
        ensures
            r is None <==> self@.dom() == Set::<u64>::empty(),
            r matches Some(p) ==> is_latest_point(self@, p.id.0) && self@[p.id.0] == *p,
            ids_match(self@),
    {
        proof {
            use_type_invariant(self);
        }
        let iter = self.0.iter();
        let ghost s = vstd::std_specs::iter::IteratorSpec::remaining(&iter);
        let mut best: Option<&DiffPoint<Stats>> = None;
        for kv in it: iter
            invariant
                it.seq() == s,
                s.len() == self@.dom().len(),
                forall|i: int| 0 <= i < s.len() ==> #[trigger] self@.contains_key(*s[i].0) && self@[*s[i].0] == *s[i].1,
                best is None <==> it.index() == 0,
                best matches Some(b) ==> {
                    &&& exists|j: int| 0 <= j < it.index() && *s[j].1 == *b && *s[j].0 == b.id.0
                    &&& forall|j: int| 0 <= j < it.index() ==> (#[trigger] s[j]).1.diff.utc_timestamp.0 <= b.diff.utc_timestamp.0
                },
                ids_match(self@),
        {
            let (_, p) = kv;
            proof {
                assert(self@.contains_key(*s[it.index() as int].0));
            }
            match best {
                None => {
                    best = Some(p);
                },
                Some(b) => {
                    if p.diff.utc_timestamp.0 >= b.diff.utc_timestamp.0 {
                        best = Some(p);
                    }
                },
            }
        }
        proof {
            if self@.dom() =~= Set::<u64>::empty() {
                assert(s.len() == 0);
            } else {
                let k = self@.dom().choose();
                assert(self@.contains_key(k));
                assert(s.len() > 0);
            }
            if let Some(b) = best {
                let j = choose|j: int| 0 <= j < s.len() && *s[j].1 == *b && *s[j].0 == b.id.0;
                assert(self@.contains_key(b.id.0));
                assert forall|k: u64| #[trigger] self@.contains_key(k) implies self@[k].diff.utc_timestamp.0
                    <= self@[b.id.0].diff.utc_timestamp.0 by {
                    assert(s.contains((&k, &self@[k])));
                    let i = choose|i: int| 0 <= i < s.len() && s[i] == (&k, &self@[k]);
                    assert(s[i].1.diff.utc_timestamp.0 <= b.diff.utc_timestamp.0);
                }
            }
        }
        best
    }

    /// The point stored under `id`, which must be there.
    fn unsafe_get(&self, id: DiffPointId) -> (p: &DiffPoint<Stats>)
        requires
            self@.contains_key(id.0),
        ensures
            *p == self@[id.0],
    {
        self.0.get(&id.0).unwrap()
    }

    /// The points taken strictly before `timestamp`.
    pub fn points_before(self, timestamp: UtcTimestamp) -> (r: Self)
        ensures
            r@ == points_before_spec(self@, timestamp),
            forall|k: u64| #[trigger]
                r@.contains_key(k) <==> self@.contains_key(k) && self@[k].diff.utc_timestamp.0
                    < timestamp.0,
            forall|k: u64| #[trigger] r@.contains_key(k) ==> r@[k] == self@[k],
            ids_match(r@),
    {
        proof {
            use_type_invariant(&self);
        }
        let ghost orig = self@;
        let IdIndexedDiffPoints(mut m) = self;
        let mut keys: Vec<u64> = Vec::new();
        let entry_iter = m.iter();
        let ghost ks = vstd::std_specs::iter::IteratorSpec::remaining(&entry_iter);
        for kv in it: entry_iter
            invariant
                it.seq() == ks,
                keys@.len() == it.index(),
                forall|i: int| 0 <= i < keys@.len() ==> keys@[i] == *ks[i].0,
        {
            keys.push(*kv.0);
        }
        proof {
            assert forall|k: u64| #[trigger] orig.contains_key(k) implies keys@.contains(k) by {
                assert(ks.contains((&k, &orig[k])));
                let i = choose|i: int| 0 <= i < ks.len() && ks[i] == (&k, &orig[k]);
                assert(keys@[i] == k);
            }
        }
        let mut i: usize = 0;
        while i < keys.len()
            invariant
                0 <= i <= keys@.len(),
                forall|k: u64| #[trigger] orig.contains_key(k) ==> keys@.contains(k),
                ids_match(orig),
                forall|k: u64| #[trigger]
                    m@.contains_key(k) <==> orig.contains_key(k) && (orig[k].diff.utc_timestamp.0
                        < timestamp.0 || !keys@.take(i as int).contains(k)),
                forall|k: u64| #[trigger] m@.contains_key(k) ==> m@[k] == orig[k],
            decreases keys@.len() - i,
        {
            let k = keys[i];
            let drop = match m.get(&k) {
                Some(p) => !(p.diff.utc_timestamp.0 < timestamp.0),
                None => false,
            };
            if drop {
                m.remove(&k);
            }
            proof {
                let t1 = keys@.take(i + 1);
                let t0 = keys@.take(i as int);
                assert forall|x: u64| #[trigger] t1.contains(x) <==> t0.contains(x) || x == k by {
                    if t1.contains(x) {
                        let j = choose|j: int| 0 <= j < t1.len() && t1[j] == x;
                        if j < i {
                            assert(t0[j] == x);
                        }
                    }
                    if x == k {
                        assert(t1[i as int] == x);
                    }
                    if t0.contains(x) {
                        let j = choose|j: int| 0 <= j < t0.len() && t0[j] == x;
                        assert(t1[j] == x);
                    }
                }
            }
            i += 1;
        }
        proof {
            assert(keys@.take(keys@.len() as int) =~= keys@);
            assert(m@ =~= points_before_spec(orig, timestamp));
        }
        IdIndexedDiffPoints(m)
    }

    /// Takes the point stored under `id` out, if there is one.
    pub fn remove(&mut self, id: &DiffPointId) -> (r: Option<DiffPoint<Stats>>)
        ensures
            r == (if old(self)@.contains_key(id.0) {
                Some(old(self)@[id.0])
            } else {
                None::<DiffPoint<Stats>>
            }),
            final(self)@ == old(self)@.remove(id.0),
            ids_match(final(self)@),
    {
        proof {
            use_type_invariant(&*self);
        }
        let mut m: HashMap<u64, DiffPoint<Stats>> = HashMap::new();
        std::mem::swap(&mut m, &mut self.0);
        let r = m.remove(&id.0);
        self.0 = m;
        r
    }

    /// The points stored under `ids`, in the order of `ids`; each identifier
    /// must be there, and only once in `ids`.
    pub fn map_ids_to_diff_points(self, ids: &[DiffPointId]) -> (r: Vec<DiffPoint<Stats>>)
        requires
            ids@.no_duplicates(),
            forall|i: int| 0 <= i < ids@.len() ==> self@.contains_key(#[trigger] ids@[i].0),
        ensures
            r@.len() == ids@.len(),
            forall|i: int| 0 <= i < ids@.len() ==> r@[i] == self@[#[trigger] ids@[i].0],
    {
        let ghost orig = self@;
        let IdIndexedDiffPoints(mut m) = self;
        let mut out: Vec<DiffPoint<Stats>> = Vec::new();
        let mut i: usize = 0;
        while i < ids.len()
            invariant
                0 <= i <= ids@.len(),
                ids@.no_duplicates(),
                out@.len() == i,
                forall|j: int| 0 <= j < i ==> out@[j] == orig[#[trigger] ids@[j].0],
                forall|j: int| i <= j < ids@.len() ==> m@.contains_key(#[trigger] ids@[j].0),
                forall|k: u64| #[trigger] m@.contains_key(k) ==> m@[k] == orig[k],
            decreases ids@.len() - i,
        {
            let id = ids[i];
            let point = match m.remove(&id.0) {
                Some(p) => p,
                None => {
                    proof {
                        assert(false);
                    }
                    return out;
                },
            };
            proof {
                assert forall|j: int| i + 1 <= j < ids@.len() implies m@.contains_key(
                    #[trigger] ids@[j].0,
                ) by {
                    assert(ids@[j] != ids@[i as int]);
                }
            }
            out.push(point);
            i += 1;
        }
        out
    }
}


impl<Stats: StatValue> IdIndexedDiffPoints<Stats> {
    /// The points stored under `ids`, in the order of `ids`, when `ids`
    /// names stored points, each once; none otherwise.
    pub fn checked_map_ids_to_diff_points(self, ids: &[DiffPointId]) -> (r: Option<Vec<DiffPoint<Stats>>>)
        ensures
            r is Some <==> ids@.no_duplicates() && forall|i: int|
                0 <= i < ids@.len() ==> self@.contains_key(#[trigger] ids@[i].0),
            r matches Some(points) ==> {
                &&& points@.len() == ids@.len()
                &&& forall|i: int| 0 <= i < ids@.len() ==> points@[i] == self@[#[trigger] ids@[i].0]
            },
    {
        let ghost orig = self@;
        let IdIndexedDiffPoints(mut m) = self;
        let mut out: Vec<DiffPoint<Stats>> = Vec::new();
        let mut i: usize = 0;
        while i < ids.len()
            invariant
                orig == self@,
                0 <= i <= ids@.len(),
                out@.len() == i,
                ids@.take(i as int).no_duplicates(),
                forall|j: int| 0 <= j < i ==> orig.contains_key(#[trigger] ids@[j].0),
                forall|j: int| 0 <= j < i ==> out@[j] == orig[#[trigger] ids@[j].0],
                forall|k: u64| #[trigger] m@.contains_key(k) <==> orig.contains_key(k) && !exists|j: int|
                    0 <= j < i && ids@[j].0 == k,
                forall|k: u64| #[trigger] m@.contains_key(k) ==> m@[k] == orig[k],
            decreases ids@.len() - i,
        {
            let id = ids[i];
            let point = match m.remove(&id.0) {
                Some(p) => p,
                None => {
                    proof {
                        if orig.contains_key(id.0) {
                            let j = choose|j: int| 0 <= j < i && ids@[j].0 == id.0;
                            assert(ids@[j] == ids@[i as int]);
                            assert(!ids@.no_duplicates());
                        } else {
                            assert(!orig.contains_key(ids@[i as int].0));
                        }
                    }
                    return None;
                },
            };
            proof {
                let t0 = ids@.take(i as int);
                let t1 = ids@.take(i + 1);
                assert forall|a: int, b: int| 0 <= a < t1.len() && 0 <= b < t1.len() && a != b implies t1[a]
                    != t1[b] by {
                    if a < i && b < i {
                        assert(t0[a] == t1[a] && t0[b] == t1[b]);
                    } else if a == i && b < i {
                        assert(t1[b].0 != id.0);
                    } else if b == i && a < i {
                        assert(t1[a].0 != id.0);
                    }
                }
                assert forall|k: u64| #[trigger] m@.contains_key(k) <==> orig.contains_key(k) && !exists|j: int|
                    0 <= j < i + 1 && ids@[j].0 == k by {
                    if exists|j: int| 0 <= j < i + 1 && ids@[j].0 == k {
                        let j = choose|j: int| 0 <= j < i + 1 && ids@[j].0 == k;
                        if j < i {
                            assert(exists|j: int| 0 <= j < i && ids@[j].0 == k);
                        }
                    }
                }
            }
            out.push(point);
            i += 1;
        }
        proof {
            assert(ids@.take(ids@.len() as int) =~= ids@);
        }
        Some(out)
    }
}

/// A path along the links of `m` from a point where the links stay within
/// `m` is made of points of `m`.
proof fn lemma_walk_stays_in_map<S>(m: Map<u64, DiffPoint<S>>, path: Seq<DiffPointId>, n: int)
    requires
        path.len() >= 1,
        links_stay_within(m, path[0]),
        forall|i: int|
            #![trigger path[i]]
            0 <= i < path.len() - 1 ==> previous_of(m, path[i]) == Some(path[i + 1]),
        0 <= n < path.len(),
    ensures
        m.contains_key(path[n].0),
{
    let prefix = path.take(n + 1);
    assert forall|i: int| #![trigger prefix[i]] 0 <= i < prefix.len() - 1 implies m.contains_key(
        prefix[i].0,
    ) && m[prefix[i].0].previous_diff_point_id == Some(prefix[i + 1]) by {
        assert(prefix[i] == path[i] && prefix[i + 1] == path[i + 1]);
        assert(previous_of(m, path[i]) == Some(path[i + 1]));
    }
    assert(is_walk_from(m, path[0], prefix));
    assert(prefix.last() == path[n]);
}

/// A walk from a point of a set that holds, with each of its points, the
/// point it follows stays in the set.
proof fn lemma_walk_stays_in_closed_set<S>(
    m: Map<u64, DiffPoint<S>>,
    start: DiffPointId,
    path: Seq<DiffPointId>,
    set: Set<u64>,
    n: int,
)
    requires
        is_walk_from(m, start, path),
        set.contains(start.0),
        forall|x: u64| #[trigger]
            set.contains(x) ==> (m[x].previous_diff_point_id matches Some(w) ==> set.contains(w.0)),
        0 <= n < path.len(),
    ensures
        set.contains(path[n].0),
    decreases n,
{
    if n > 0 {
        lemma_walk_stays_in_closed_set(m, start, path, set, n - 1);
        assert(m[path[n - 1].0].previous_diff_point_id == Some(path[n]));
    }
}

/// The reverse of a sequence, as a vector.
pub(crate) fn reversed(path: &Vec<DiffPointId>) -> (r: Vec<DiffPointId>)
    ensures
        r@ == path@.reverse(),
{
    let mut out: Vec<DiffPointId> = Vec::new();
    let mut j: usize = path.len();
    while j > 0
        invariant
            0 <= j <= path@.len(),
            out@.len() == path@.len() - j,
            forall|t: int| 0 <= t < out@.len() ==> out@[t] == path@[path@.len() - 1 - t],
        decreases j,
    {
        j -= 1;
        out.push(path[j]);
    }
    assert(out@ =~= path@.reverse());
    out
}

impl<Stats: StatValue> IdIndexedDiffPoints<Stats> {
    /// Whether every point reached from the stored point `start` by going to
    /// the point followed is stored.
    fn links_stay_within_from(&self, start: DiffPointId) -> (r: bool)
        requires
            self@.contains_key(start.0),
        ensures
            r == links_stay_within(self@, start),
    {
        let ghost m = self@;
        let mut visited: HashSet<u64> = HashSet::new();
        visited.insert(start.0);
        let mut current = start;
        let ghost mut chain: Seq<DiffPointId> = seq![start];
        loop
            invariant
                m == self@,
                m.dom().finite(),
                is_walk_from(m, start, chain),
                chain.last() == current,
                m.contains_key(current.0),
                visited@.contains(current.0),
                visited@.contains(start.0),
                forall|x: u64| #[trigger] visited@.contains(x) ==> m.contains_key(x),
                forall|x: u64| #[trigger]
                    visited@.contains(x) && x != current.0 ==> (m[x].previous_diff_point_id matches Some(
                        w,
                    ) && visited@.contains(w.0)),
            decreases m.dom().len() - visited@.len(),
        {
            proof {
                vstd::set_lib::lemma_len_subset(visited@, m.dom());
            }
            let point = self.unsafe_get(current);
            match point.previous_diff_point_id {
                None => {
                    proof {
                        assert forall|path: Seq<DiffPointId>| #[trigger]
                            is_walk_from(m, start, path) implies m.contains_key(path.last().0) by {
                            lemma_walk_stays_in_closed_set(m, start, path, visited@, path.len() - 1);
                        }
                    }
                    return true;
                },
                Some(previous) => {
                    if !self.0.contains_key(&previous.0) {
                        proof {
                            let path = chain.push(previous);
                            assert forall|i: int| #![trigger path[i]] 0 <= i < path.len() - 1 implies m.contains_key(
                                path[i].0,
                            ) && m[path[i].0].previous_diff_point_id == Some(path[i + 1]) by {
                                if i < chain.len() - 1 {
                                    assert(path[i] == chain[i] && path[i + 1] == chain[i + 1]);
                                }
                            }
                            assert(is_walk_from(m, start, path));
                        }
                        return false;
                    }
                    if visited.contains(&previous.0) {
                        proof {
                            assert forall|path: Seq<DiffPointId>| #[trigger]
                                is_walk_from(m, start, path) implies m.contains_key(path.last().0) by {
                                lemma_walk_stays_in_closed_set(m, start, path, visited@, path.len() - 1);
                            }
                        }
                        return true;
                    }
                    let ghost before = chain;
                    let ghost before_visited = visited@;
                    visited.insert(previous.0);
                    proof {
                        assert(visited@ == before_visited.insert(previous.0));
                        assert(visited@.len() == before_visited.len() + 1);
                        vstd::set_lib::lemma_len_subset(visited@, m.dom());
                        chain = chain.push(previous);
                        assert forall|i: int| #![trigger chain[i]] 0 <= i < chain.len() - 1 implies m.contains_key(
                            chain[i].0,
                        ) && m[chain[i].0].previous_diff_point_id == Some(chain[i + 1]) by {
                            if i < before.len() - 1 {
                                assert(chain[i] == before[i] && chain[i + 1] == before[i + 1]);
                            }
                        }
                    }
                    current = previous;
                },
            }
        }
    }

    /// Whether every sequence of distinct stored points holds fewer changed
    /// stats and points together than `usize` counts; the sequence of all
    /// stored points is the largest of them.
    pub fn diff_totals_fit_in_usize(&self) -> (r: bool)
        ensures
            r == diff_totals_fit(self@),
    {
        let ghost m = self.0@;
        let keys = self.0.keys();
        let ghost ks = vstd::std_specs::iter::IteratorSpec::remaining(&keys);
        let ghost all = ks.unref().map_values(|k: u64| DiffPointId(k));
        proof {
            assert(all.no_duplicates()) by {
                assert forall|a: int, b: int| 0 <= a < all.len() && 0 <= b < all.len() && a != b implies all[a]
                    != all[b] by {
                    assert(ks[a] != ks[b]);
                }
            }
        }
        let mut total: usize = 0;
        for k in it: keys
            invariant
                it.seq() == ks,
                m == self.0@,
                all == ks.unref().map_values(|k: u64| DiffPointId(k)),
                all.no_duplicates(),
                ks.unref().to_set() == m.dom(),
                total < usize::MAX,
                total == total_diffs(points_of(m, all.take(it.index() as int))) + it.index(),
        {
            let ghost i = it.index() as int;
            proof {
                assert(ks.unref().to_set().contains(ks.unref()[i]));
            }
            let point = self.0.get(k).unwrap();
            let n = point.diff.player_stats_diffs.len();
            proof {
                let t = all.take(i + 1);
                assert(t.drop_last() =~= all.take(i));
                assert(points_of(m, t).drop_last() =~= points_of(m, all.take(i)));
                assert(points_of(m, t).last() == m[*k]);
                assert(total_diffs(points_of(m, t)) + t.len() == total + n + 1);
            }
            if n >= usize::MAX - 1 - total {
                proof {
                    let t = all.take(i + 1);
                    assert(t.no_duplicates()) by {
                        assert forall|a: int, b: int| 0 <= a < t.len() && 0 <= b < t.len() && a != b implies t[a]
                            != t[b] by {
                            assert(t[a] == all[a] && t[b] == all[b]);
                        }
                    }
                    assert forall|j: int| 0 <= j < t.len() implies m.contains_key(#[trigger] t[j].0) by {
                        assert(t[j] == all[j]);
                        assert(ks.unref().to_set().contains(ks.unref()[j]));
                    }
                    assert(!(total_diffs(points_of(m, t)) + t.len() < usize::MAX));
                }
                return false;
            }
            total = total + n + 1;
        }
        proof {
            assert(all.take(all.len() as int) =~= all);
            assert forall|ids: Seq<DiffPointId>|
                ids.no_duplicates() && (forall|i: int| 0 <= i < ids.len() ==> m.contains_key(#[trigger] ids[i].0))
                    implies #[trigger] total_diffs(points_of(m, ids)) + ids.len() < usize::MAX by {
                assert forall|i: int| 0 <= i < ids.len() implies all.contains(#[trigger] ids[i]) by {
                    assert(m.contains_key(ids[i].0));
                    assert(ks.unref().to_set().contains(ids[i].0));
                    let j = choose|j: int| 0 <= j < ks.unref().len() && ks.unref()[j] == ids[i].0;
                    assert(all[j] == ids[i]);
                }
                crate::heuristics::lemma_entry_count_of_part(m, ids, all);
            }
        }
        true
    }

    /// Whether, from every latest point, every point reached by going to the
    /// point followed is stored.
    pub fn links_from_latest_are_stored(&self) -> (r: bool)
        ensures
            r == links_from_latest_stay_within(self@),
    {
        let latest_timestamp = match self.latest() {
            None => {
                return true;
            },
            Some(p) => p.diff.utc_timestamp.0,
        };
        let ghost m = self@;
        let iter = self.0.iter();
        let ghost s = vstd::std_specs::iter::IteratorSpec::remaining(&iter);
        for kv in it: iter
            invariant
                it.seq() == s,
                m == self@,
                forall|i: int| 0 <= i < s.len() ==> #[trigger] m.contains_key(*s[i].0) && m[*s[i].0] == *s[i].1,
                exists|k: u64| #[trigger] is_latest_point(m, k) && m[k].diff.utc_timestamp.0 == latest_timestamp,
                forall|j: int|
                    #![trigger s[j]]
                    0 <= j < it.index() && s[j].1.diff.utc_timestamp.0 == latest_timestamp ==> links_stay_within(
                        m,
                        DiffPointId(*s[j].0),
                    ),
        {
            let (k, p) = kv;
            proof {
                assert(m.contains_key(*s[it.index() as int].0));
            }
            if p.diff.utc_timestamp.0 == latest_timestamp {
                if !self.links_stay_within_from(DiffPointId(*k)) {
                    proof {
                        let w = choose|w: u64| #[trigger] is_latest_point(m, w) && m[w].diff.utc_timestamp.0 == latest_timestamp;
                        assert(is_latest_point(m, *k));
                    }
                    return false;
                }
            }
        }
        proof {
            assert forall|k: u64| #[trigger] is_latest_point(m, k) implies links_stay_within(m, DiffPointId(k)) by {
                let w = choose|w: u64| #[trigger] is_latest_point(m, w) && m[w].diff.utc_timestamp.0 == latest_timestamp;
                assert(m.contains_key(w));
                assert(s.contains((&k, &m[k])));
                let i = choose|i: int| 0 <= i < s.len() && s[i] == (&k, &m[k]);
                assert(s[i].1.diff.utc_timestamp.0 == latest_timestamp);
            }
        }
        true
    }

    /// The sequence on `base_point` that ends at a latest point: the points
    /// from the full snapshot up to the latest one, following previous links
    /// back from it.  Fails when the links come back to a point.
    pub fn diff_sequence_towards_latest_diff_point(self, base_point: FullSnapshotPoint<Stats>) -> (r:
        Result<DiffSequence<Stats>, CycleFoundError<DiffPointId>>)
        requires
            self@.dom() != Set::<u64>::empty(),
            links_from_latest_stay_within(self@),
        ensures
            r matches Ok(seq) ==> {
                &&& seq.base_point == base_point
                &&& exists|path: Seq<DiffPointId>|
                    {
                        &&& is_path_to_root(self@, path)
                        &&& is_latest_point(self@, path[0].0)
                        &&& seq.diff_points@ == path.reverse().map_values(
                            |id: DiffPointId| self@[id.0],
                        )
                    }
            },
            r matches Err(e) ==> {
                &&& e.cycle@.len() >= 2
                &&& is_latest_point(self@, e.cycle@[0].0)
                &&& walks_previous_links(self@, e.cycle@)
                &&& e.cycle@.drop_last().no_duplicates()
                &&& e.cycle@.drop_last().contains(e.cycle@.last())
            },
    {
        proof {
            use_type_invariant(&self);
        }
        let ghost m = self@;
        let latest_id = self.latest().unwrap().id;
        proof {
            assert(is_latest_point(m, latest_id.0));
            assert(DiffPointId(latest_id.0) == latest_id);
        }
        let points = &self.0;
        let previous = |id: DiffPointId| -> (prev: Option<DiffPointId>)
            ensures
                prev == previous_of(points@, id),
            {
                match points.get(&id.0) {
                    Some(p) => p.previous_diff_point_id,
                    None => None,
                }
            };
        let path_result = construct_cycle_free_path(latest_id, previous);
        match path_result {
            Err(e) => {
                proof {
                    let c = e.cycle@;
                    assert forall|i: int|
                        #![trigger c[i]]
                        0 <= i < c.len() - 1 implies previous_of(m, c[i]) == Some(c[i + 1]) by {
                    }
                    assert forall|i: int| 0 <= i < c.len() implies m.contains_key(#[trigger] c[i].0) by {
                        lemma_walk_stays_in_map(m, c, i);
                    }
                }
                Err(e)
            },
            Ok(path) => {
                let ghost p = path@;
                proof {
                    assert forall|i: int|
                        #![trigger p[i]]
                        0 <= i < p.len() - 1 implies previous_of(m, p[i]) == Some(p[i + 1]) by {
                    }
                    assert forall|i: int| 0 <= i < p.len() implies m.contains_key(#[trigger] p[i].0) by {
                        lemma_walk_stays_in_map(m, p, i);
                    }
                    assert(previous_of(m, p.last()) == None::<DiffPointId>);
                }
                let ids = reversed(&path);
                proof {
                    assert(ids@.no_duplicates()) by {
                        assert forall|a: int, b: int| 0 <= a < ids@.len() && 0 <= b < ids@.len() && a != b implies ids@[a] != ids@[b] by {
                            assert(ids@[a] == p[p.len() - 1 - a]);
                            assert(ids@[b] == p[p.len() - 1 - b]);
                        }
                    }
                    assert forall|i: int| 0 <= i < ids@.len() implies m.contains_key(#[trigger] ids@[i].0) by {
                        assert(ids@[i] == p[p.len() - 1 - i]);
                    }
                }
                let points = self.map_ids_to_diff_points(ids.as_slice());
                proof {
                    assert(points@ =~= p.reverse().map_values(|id: DiffPointId| m[id.0]));
                    assert(is_path_to_root(m, p));
                }
                Ok(DiffSequence::new(base_point, points))
            },
        }
    }
}

/// What recording a snapshot does once the base sequence is chosen.
pub enum RecordingAction<Stats> {
    /// Take the snapshot as a new full snapshot.
    CreateFullSnapshot,
    /// Record the snapshot as this new diff point.
    CreateDiffPoint(NewDiffPoint<Stats>),
}

/// Records the snapshot on top of the chosen sequence, or as a new full
/// snapshot when no sequence was chosen.
pub fn recording_action_for_choice<Stats: StatValue>(
    choice: DiffSequenceChoice<Stats>,
    snapshot: &StatsSnapshot<Stats>,
) -> (a: RecordingAction<Stats>)
    ensures
        choice is NoAppropriatePointFound ==> a is CreateFullSnapshot,
        choice matches DiffSequenceChoice::OptimalAccordingToHeuristics(sequence) ==> (a matches RecordingAction::CreateDiffPoint(p) && {
            &&& p.root_point_id == sequence.base_point.id
            &&& p.previous_point_id == (if sequence.diff_points@.len() == 0 {
                None::<DiffPointId>
            } else {
                Some(sequence.diff_points@.last().id)
            })
            &&& p.diff.utc_timestamp == snapshot.utc_timestamp
            &&& p.diff.player_stats_diffs@ == diff_stats(sequence.tip_stats(), snapshot.player_stats@)
        }),
{
    match choice {
        DiffSequenceChoice::OptimalAccordingToHeuristics(sequence) => RecordingAction::CreateDiffPoint(
            sequence.diff_point_to_record(snapshot),
        ),
        DiffSequenceChoice::NoAppropriatePointFound => RecordingAction::CreateFullSnapshot,
    }
}

} // verus!
