//! Choosing the diff sequence that a new snapshot is recorded on top of.
//!
//! Recording a snapshot on top of a long sequence keeps the new difference
//! small but makes the sequence costlier to restore; recording it closer to
//! the full snapshot does the opposite.  For each prefix of the sequence that
//! ends at the latest diff point, the factors of that trade-off are computed
//! here; ranking them by loss is left to the caller, and the chosen prefix is
//! then settled here.
use std::collections::BTreeMap;
use vstd::prelude::*;

use crate::cycle_free_path::CycleFoundError;
use crate::diff_points::{
    fold_diffs, is_chain_in, is_latest_point, is_path_to_root, links_from_latest_stay_within, walks_previous_links, DiffPoint, DiffPointId,
    DiffSequence, DiffSequenceChoice, FullSnapshotPoint, IdIndexedDiffPoints,
};
use crate::player_map::{entries, keys_distinct, lemma_seq_to_map_take_all, lemma_seq_to_map_take_step, seq_to_map};
use crate::snapshot::{diff_stats, stats_of, ComputeDiff, StatsSnapshot};
use crate::statistics::StatValue;
use crate::uuid::PlayerKey;

verus! {

/// What the loss of recording a snapshot on top of one prefix of a diff
/// sequence depends on.
#[derive(Debug, Clone, Copy, PartialEq, Eq, Structural)]
pub struct LossFactorAtParticularDepthInSequence {
    /// The number of points of the prefix, its full snapshot included.
    pub diff_sequence_depth: usize,
    /// The number of changed stats held by the differences of the prefix.
    pub total_diffs_on_current_diff_sequence: usize,
    /// The estimated number of changed stats a new difference on top of the
    /// prefix would hold.
    pub diffs_required_to_extend_from_the_point: usize,
}

/// The number of changed stats held by the differences of `diffs`.
pub open spec fn total_diffs<S>(diffs: Seq<DiffPoint<S>>) -> nat
    decreases diffs.len(),
{
    if diffs.len() == 0 {
        0
    } else {
        total_diffs(diffs.drop_last()) + diffs.last().diff.player_stats_diffs@.len()
    }
}

/// The players whose stats still differ from the target after the
/// differences of `diffs`, with their stats in the target.
///
/// It starts from the players whose stats in the full snapshot `base` are
/// missing or not those of `target`; a player leaves once a difference sets
/// its stats to those of the target.  A player never comes back: the stats
/// are taken to only grow, so that a stat once equal to the target's stays
/// so up to the target.
pub open spec fn stats_still_to_change<S>(
    base: Map<PlayerKey, S>,
    target: Map<PlayerKey, S>,
    diffs: Seq<DiffPoint<S>>,
) -> Map<PlayerKey, S>
    decreases diffs.len(),
{
    if diffs.len() == 0 {
        diff_stats(base, target)
    } else {
        let before = stats_still_to_change(base, target, diffs.drop_last());
        let d = diffs.last().diff.player_stats_diffs@;
        before.restrict(
            Set::new(|k: PlayerKey| !(d.contains_key(k) && stats_of(before, k) == Some(d[k]))),
        )
    }
}

/// The loss factors of the prefix of `diffs` with `n` differences, recorded
/// towards `target` from the full snapshot `base`.
pub open spec fn loss_factor_at<S>(
    base: Map<PlayerKey, S>,
    target: Map<PlayerKey, S>,
    diffs: Seq<DiffPoint<S>>,
    n: int,
) -> LossFactorAtParticularDepthInSequence {
    LossFactorAtParticularDepthInSequence {
        diff_sequence_depth: (n + 1) as usize,
        total_diffs_on_current_diff_sequence: total_diffs(diffs.take(n)) as usize,
        diffs_required_to_extend_from_the_point: stats_still_to_change(
            base,
            target,
            diffs.take(n),
        ).len() as usize,
    }
}

proof fn lemma_total_diffs_prefix<S>(diffs: Seq<DiffPoint<S>>, n: int)
    requires
        0 <= n <= diffs.len(),
    ensures
        total_diffs(diffs.take(n)) <= total_diffs(diffs),
    decreases diffs.len() - n,
{
    if n < diffs.len() {
        lemma_total_diffs_prefix(diffs, n + 1);
        assert(diffs.take(n + 1).drop_last() =~= diffs.take(n));
    } else {
        assert(diffs.take(n) =~= diffs);
    }
}

/// Before any difference, the stats still to change are the target stats
/// of exactly the players that the full snapshot lacks or holds with other
/// stats.
pub proof fn lemma_stats_still_to_change_at_start<S>(
    base: Map<PlayerKey, S>,
    target: Map<PlayerKey, S>,
    diffs: Seq<DiffPoint<S>>,
)
    ensures
        forall|k: PlayerKey|
            #[trigger] stats_still_to_change(base, target, diffs.take(0)).contains_key(k) <==> (
            target.contains_key(k) && stats_of(base, k) != Some(target[k])),
{
    assert(diffs.take(0).len() == 0);
}

/// The stats still to change after each prefix, in terms of the target and
/// of the tip of the prefix:
/// - each of them is a target stat, and the tip of the prefix does not hold
///   it yet;
/// - one more difference removes exactly the players that it sets to their
///   target stats, whatever players they are, and keeps every other one.
pub proof fn lemma_stats_still_to_change_step<S>(
    base: Map<PlayerKey, S>,
    target: Map<PlayerKey, S>,
    diffs: Seq<DiffPoint<S>>,
    n: int,
)
    requires
        0 <= n <= diffs.len(),
    ensures
        forall|k: PlayerKey| #[trigger]
            stats_still_to_change(base, target, diffs.take(n)).contains_key(k) ==> {
                &&& target.contains_key(k)
                &&& stats_still_to_change(base, target, diffs.take(n))[k] == target[k]
                &&& stats_of(fold_diffs(base, diffs.take(n)), k) != Some(target[k])
            },
        n < diffs.len() ==> forall|k: PlayerKey|
            #[trigger] stats_still_to_change(base, target, diffs.take(n + 1)).contains_key(k) <==> (
            stats_still_to_change(base, target, diffs.take(n)).contains_key(k) && !(
            diffs[n].diff.player_stats_diffs@.contains_key(k)
                && diffs[n].diff.player_stats_diffs@[k] == target[k])),
    decreases n,
{
    let cur = stats_still_to_change(base, target, diffs.take(n));
    if n > 0 {
        lemma_stats_still_to_change_step(base, target, diffs, n - 1);
        let t = diffs.take(n);
        assert(t.drop_last() =~= diffs.take(n - 1));
        assert(t.last() == diffs[n - 1]);
        let prev = stats_still_to_change(base, target, diffs.take(n - 1));
        let d = diffs[n - 1].diff.player_stats_diffs@;
        assert(cur == prev.restrict(
            Set::new(|k: PlayerKey| !(d.contains_key(k) && stats_of(prev, k) == Some(d[k]))),
        ));
        assert(fold_diffs(base, t) == fold_diffs(base, diffs.take(n - 1)).union_prefer_right(d));
        assert forall|k: PlayerKey| #[trigger] cur.contains_key(k) implies {
            &&& target.contains_key(k)
            &&& cur[k] == target[k]
            &&& stats_of(fold_diffs(base, diffs.take(n)), k) != Some(target[k])
        } by {
            assert(prev.contains_key(k));
        }
    } else {
        assert(diffs.take(0).len() == 0);
        assert(fold_diffs(base, diffs.take(0)) == base);
    }
    if n < diffs.len() {
        let t = diffs.take(n + 1);
        assert(t.drop_last() =~= diffs.take(n));
        assert(t.last() == diffs[n]);
        let d = diffs[n].diff.player_stats_diffs@;
        let next = stats_still_to_change(base, target, t);
        assert(next == cur.restrict(
            Set::new(|k: PlayerKey| !(d.contains_key(k) && stats_of(cur, k) == Some(d[k]))),
        ));
        assert forall|k: PlayerKey| #[trigger] next.contains_key(k) <==> (cur.contains_key(k) && !(
        d.contains_key(k) && d[k] == target[k])) by {
            if cur.contains_key(k) {
                assert(stats_of(cur, k) == Some(target[k]));
            }
        }
    }
}

proof fn lemma_still_to_change_finite<S>(
    base: Map<PlayerKey, S>,
    target: Map<PlayerKey, S>,
    diffs: Seq<DiffPoint<S>>,
)
    requires
        target.dom().finite(),
    ensures
        stats_still_to_change(base, target, diffs).dom().finite(),
        stats_still_to_change(base, target, diffs).len() <= target.len(),
        stats_still_to_change(base, target, diffs).dom().subset_of(target.dom()),
    decreases diffs.len(),
{
    if diffs.len() == 0 {
        let m = diff_stats(base, target);
        assert(m.dom().subset_of(target.dom()));
        vstd::set_lib::lemma_len_subset(m.dom(), target.dom());
    } else {
        lemma_still_to_change_finite(base, target, diffs.drop_last());
        let m = stats_still_to_change(base, target, diffs);
        assert(m.dom().subset_of(target.dom()));
        vstd::set_lib::lemma_len_subset(m.dom(), target.dom());
    }
}

/// Along a diff sequence, the number of stats still to change never grows
/// from one prefix to a longer one, and the number of changed stats the
/// prefix holds never shrinks.
pub proof fn lemma_loss_factors_monotone<S>(
    base: Map<PlayerKey, S>,
    target: Map<PlayerKey, S>,
    diffs: Seq<DiffPoint<S>>,
    n: int,
    m: int,
)
    requires
        target.dom().finite(),
        0 <= n <= m <= diffs.len(),
    ensures
        stats_still_to_change(base, target, diffs.take(m)).len() <= stats_still_to_change(
            base,
            target,
            diffs.take(n),
        ).len(),
        total_diffs(diffs.take(n)) <= total_diffs(diffs.take(m)),
    decreases m - n,
{
    if n < m {
        lemma_loss_factors_monotone(base, target, diffs, n, m - 1);
        let longer = diffs.take(m);
        assert(longer.drop_last() =~= diffs.take(m - 1));
        lemma_still_to_change_finite(base, target, diffs.take(m - 1));
        lemma_still_to_change_finite(base, target, longer);
        vstd::set_lib::lemma_len_subset(
            stats_still_to_change(base, target, longer).dom(),
            stats_still_to_change(base, target, diffs.take(m - 1)).dom(),
        );
    }
}

/// The loss factors of every prefix of `sequence` that is a candidate base
/// for `snapshot`: the prefix with the full snapshot alone, then each prefix
/// one difference longer, up to the whole sequence.
pub fn loss_factors_for_snapshot<Stats: StatValue>(
    sequence: &DiffSequence<Stats>,
    snapshot: &StatsSnapshot<Stats>,
) -> (r: Vec<LossFactorAtParticularDepthInSequence>)
    requires
        total_diffs(sequence.diff_points@) + sequence.diff_points@.len() < usize::MAX,
    ensures
        r@.len() == sequence.diff_points@.len() + 1,
        forall|n: int|
            0 <= n < r@.len() ==> #[trigger] r@[n] == loss_factor_at(
                sequence.base_point.full_snapshot.player_stats@,
                snapshot.player_stats@,
                sequence.diff_points@,
                n,
            ),
{
    let ghost base = sequence.base_point.full_snapshot.player_stats@;
    let ghost target = snapshot.player_stats@;
    let ghost diffs = sequence.diff_points@;
    let mut still: BTreeMap<PlayerKey, Stats> = sequence.base_point.full_snapshot.diff_to(
        snapshot,
    ).player_stats_diffs;
    let mut total: usize = 0;
    let mut out: Vec<LossFactorAtParticularDepthInSequence> = Vec::new();
    let mut n: usize = 0;
    proof {
        assert(diffs.take(0) =~= Seq::<DiffPoint<Stats>>::empty());
        lemma_still_to_change_finite(base, target, diffs.take(0));
    }
    while n <= sequence.diff_points.len()
        invariant
            0 <= n <= diffs.len() + 1,
            diffs == sequence.diff_points@,
            base == sequence.base_point.full_snapshot.player_stats@,
            target == snapshot.player_stats@,
            total_diffs(diffs) + diffs.len() < usize::MAX,
            out@.len() == n,
            n <= diffs.len() ==> total == total_diffs(diffs.take(n as int)),
            n <= diffs.len() ==> still@ == stats_still_to_change(base, target, diffs.take(n as int)),
            forall|j: int| 0 <= j < n ==> #[trigger] out@[j] == loss_factor_at(base, target, diffs, j),
        decreases diffs.len() + 1 - n,
    {
        proof {
            lemma_still_to_change_finite(base, target, diffs.take(n as int));
            lemma_total_diffs_prefix(diffs, n as int);
        }
        out.push(
            LossFactorAtParticularDepthInSequence {
                diff_sequence_depth: n + 1,
                total_diffs_on_current_diff_sequence: total,
                diffs_required_to_extend_from_the_point: still.len(),
            },
        );
        if n < sequence.diff_points.len() {
            let diff = &sequence.diff_points[n].diff;
            let ghost before = still@;
            let ghost d = diff.player_stats_diffs@;
            let e = entries(&diff.player_stats_diffs);
            let mut i: usize = 0;
            while i < e.len()
                invariant
                    0 <= i <= e@.len(),
                    keys_distinct(e@),
                    seq_to_map(e@) == d,
                    still@ == before.restrict(
                        Set::new(
                            |k: PlayerKey|
                                !(seq_to_map(e@.take(i as int)).contains_key(k) && stats_of(
                                    before,
                                    k,
                                ) == Some(seq_to_map(e@.take(i as int))[k])),
                        ),
                    ),
                decreases e@.len() - i,
            {
                let (k, v) = e[i];
                proof {
                    lemma_seq_to_map_take_step(e@, i as int);
                }
                let ghost prev = seq_to_map(e@.take(i as int));
                let matches_target = match still.get(&k) {
                    Some(x) => x.same_as(&v),
                    None => false,
                };
                if matches_target {
                    still.remove(&k);
                }
                proof {
                    let next = seq_to_map(e@.take(i + 1));
                    assert(next == prev.insert(k, v));
                    assert(still@ =~= before.restrict(
                        Set::new(
                            |x: PlayerKey|
                                !(next.contains_key(x) && stats_of(before, x) == Some(next[x])),
                        ),
                    ));
                }
                i += 1;
            }
            proof {
                lemma_seq_to_map_take_all(e@);
                let t = diffs.take(n + 1);
                assert(t.drop_last() =~= diffs.take(n as int));
                assert(t.last() == diffs[n as int]);
                assert(still@ =~= stats_still_to_change(base, target, t));
                lemma_total_diffs_prefix(diffs, n + 1);
            }
            total = total + diff.player_stats_diffs.len();
        }
        n += 1;
    }
    out
}

impl<Stats: StatValue> DiffSequence<Stats> {
    /// The prefix of the sequence with `depth` points, its full snapshot
    /// included.
    pub fn prefix_of_depth(self, depth: usize) -> (s: Self)
        requires
            1 <= depth <= self.diff_points@.len() + 1,
        ensures
            s.base_point == self.base_point,
            s.diff_points@ == self.diff_points@.take(depth - 1),
    {
        let DiffSequence { base_point, mut diff_points } = self;
        diff_points.truncate(depth - 1);
        DiffSequence { base_point, diff_points }
    }
}

/// Where the choice of a base sequence stands.
pub enum BaseDiffSequenceDecision<Stats> {
    /// The choice is made.
    Decided(DiffSequenceChoice<Stats>),
    /// One prefix of `sequence` is to be chosen by the least loss;
    /// `loss_factors[n]` describes the prefix with `n` differences.
    RankByLoss {
        sequence: DiffSequence<Stats>,
        loss_factors: Vec<LossFactorAtParticularDepthInSequence>,
    },
}

/// The points of `m` stored under `ids`, in that order.
pub open spec fn points_of<S>(m: Map<u64, DiffPoint<S>>, ids: Seq<DiffPointId>) -> Seq<DiffPoint<S>> {
    ids.map_values(|id: DiffPointId| m[id.0])
}

/// Every sequence of distinct points of `m` holds fewer changed stats and
/// points together than `usize` counts.
pub open spec fn diff_totals_fit<S>(m: Map<u64, DiffPoint<S>>) -> bool {
    forall|ids: Seq<DiffPointId>|
        ids.no_duplicates() && (forall|i: int| 0 <= i < ids.len() ==> m.contains_key(#[trigger] ids[i].0))
            ==> #[trigger] total_diffs(points_of(m, ids)) + ids.len() < usize::MAX
}

/// The changed stats held by two sequences of differences put together are
/// those of each sequence added up.
pub proof fn lemma_total_diffs_append<S>(a: Seq<DiffPoint<S>>, b: Seq<DiffPoint<S>>)
    ensures
        total_diffs(a + b) == total_diffs(a) + total_diffs(b),
    decreases b.len(),
{
    if b.len() == 0 {
        assert(a + b =~= a);
    } else {
        lemma_total_diffs_append(a, b.drop_last());
        assert((a + b).drop_last() =~= a + b.drop_last());
        assert((a + b).last() == b.last());
    }
}

/// A sequence of distinct points taken among the distinct points of `all`
/// holds no more changed stats and points together than `all` does.
pub(crate) proof fn lemma_entry_count_of_part<S>(
    m: Map<u64, DiffPoint<S>>,
    part: Seq<DiffPointId>,
    all: Seq<DiffPointId>,
)
    requires
        part.no_duplicates(),
        all.no_duplicates(),
        forall|i: int| 0 <= i < part.len() ==> all.contains(#[trigger] part[i]),
    ensures
        total_diffs(points_of(m, part)) + part.len() <= total_diffs(points_of(m, all)) + all.len(),
    decreases part.len(),
{
    if part.len() > 0 {
        let x = part.last();
        assert(all.contains(part[part.len() - 1]));
        let j = all.index_of(x);
        let before = all.subrange(0, j);
        let after = all.subrange(j + 1, all.len() as int);
        let rest = before + after;
        let smaller = part.drop_last();
        assert(all =~= before + seq![x] + after);
        assert(rest.no_duplicates()) by {
            assert forall|a: int, b: int| 0 <= a < rest.len() && 0 <= b < rest.len() && a != b implies rest[a]
                != rest[b] by {
                let ia = if a < j { a } else { a + 1 };
                let ib = if b < j { b } else { b + 1 };
                assert(rest[a] == all[ia]);
                assert(rest[b] == all[ib]);
            }
        }
        assert forall|i: int| 0 <= i < smaller.len() implies rest.contains(#[trigger] smaller[i]) by {
            assert(smaller[i] == part[i]);
            assert(all.contains(part[i]));
            let t = all.index_of(part[i]);
            assert(part[i] != x);
            assert(t != j);
            if t < j {
                assert(rest[t] == part[i]);
            } else {
                assert(rest[t - 1] == part[i]);
            }
        }
        lemma_entry_count_of_part(m, smaller, rest);
        assert(points_of(m, part).drop_last() =~= points_of(m, smaller));
        assert(points_of(m, all) =~= points_of(m, before) + seq![m[x.0]] + points_of(m, after));
        assert(points_of(m, rest) =~= points_of(m, before) + points_of(m, after));
        lemma_total_diffs_append(points_of(m, before) + seq![m[x.0]], points_of(m, after));
        lemma_total_diffs_append(points_of(m, before), seq![m[x.0]]);
        lemma_total_diffs_append(points_of(m, before), points_of(m, after));
        assert(seq![m[x.0]].drop_last() =~= Seq::<DiffPoint<S>>::empty());
    }
}

/// Chooses the sequence on which `snapshot` is recorded, among the diff
/// points over `base_point`.
///
/// Without diff points, the snapshot goes directly on the full snapshot.
/// With more than 2500 of them, a new full snapshot is to be taken.
/// Otherwise the candidates are the prefixes of the sequence that ends at a
/// latest diff point, to be ranked by loss.  Fails when the links between
/// the diff points come back to a point.
pub fn choose_base_diff_sequence_for_snapshot_with_heuristics<Stats: StatValue>(
    base_point: FullSnapshotPoint<Stats>,
    all_diff_points_over_base_point: IdIndexedDiffPoints<Stats>,
    snapshot: &StatsSnapshot<Stats>,
) -> (r: Result<BaseDiffSequenceDecision<Stats>, CycleFoundError<DiffPointId>>)
    requires
        0 < all_diff_points_over_base_point@.len() <= 2500 ==> links_from_latest_stay_within(
            all_diff_points_over_base_point@,
        ),
        0 < all_diff_points_over_base_point@.len() <= 2500 ==> diff_totals_fit(
            all_diff_points_over_base_point@,
        ),
    ensures
        all_diff_points_over_base_point@.len() == 0 ==> (r matches Ok(
            BaseDiffSequenceDecision::Decided(DiffSequenceChoice::OptimalAccordingToHeuristics(seq)),
        ) && seq.base_point == base_point && seq.diff_points@.len() == 0),
        all_diff_points_over_base_point@.len() > 2500 ==> r matches Ok(
            BaseDiffSequenceDecision::Decided(DiffSequenceChoice::NoAppropriatePointFound),
        ),
        0 < all_diff_points_over_base_point@.len() <= 2500 ==> (r is Err || r matches Ok(
            BaseDiffSequenceDecision::RankByLoss { .. },
        )),
        r matches Ok(BaseDiffSequenceDecision::RankByLoss { sequence, loss_factors }) ==> {
            &&& sequence.base_point == base_point
            &&& exists|path: Seq<DiffPointId>|
                {
                    &&& is_path_to_root(all_diff_points_over_base_point@, path)
                    &&& is_latest_point(all_diff_points_over_base_point@, path[0].0)
                    &&& sequence.diff_points@ == path.reverse().map_values(
                        |id: DiffPointId| all_diff_points_over_base_point@[id.0],
                    )
                }
            &&& is_chain_in(all_diff_points_over_base_point@, sequence.diff_points@)
            &&& loss_factors@.len() == sequence.diff_points@.len() + 1
            &&& forall|n: int|
                0 <= n < loss_factors@.len() ==> #[trigger] loss_factors@[n] == loss_factor_at(
                    base_point.full_snapshot.player_stats@,
                    snapshot.player_stats@,
                    sequence.diff_points@,
                    n,
                )
        },
        r matches Err(e) ==> {
            &&& 0 < all_diff_points_over_base_point@.len() <= 2500
            &&& e.cycle@.len() >= 2
            &&& is_latest_point(all_diff_points_over_base_point@, e.cycle@[0].0)
            &&& walks_previous_links(all_diff_points_over_base_point@, e.cycle@)
            &&& e.cycle@.drop_last().no_duplicates()
            &&& e.cycle@.drop_last().contains(e.cycle@.last())
        },
{
    let ghost m = all_diff_points_over_base_point@;
    let diff_points_count = all_diff_points_over_base_point.size();
    if diff_points_count == 0 {
        return Ok(
            BaseDiffSequenceDecision::Decided(
                DiffSequenceChoice::OptimalAccordingToHeuristics(
                    DiffSequence::new(base_point, Vec::new()),
                ),
            ),
        );
    }
    if diff_points_count > 2500 {
        return Ok(BaseDiffSequenceDecision::Decided(DiffSequenceChoice::NoAppropriatePointFound));
    }
    proof {
        if m.dom() == Set::<u64>::empty() {
            assert(m.len() == 0);
        }
    }
    let sequence = match all_diff_points_over_base_point.diff_sequence_towards_latest_diff_point(
        base_point,
    ) {
        Ok(sequence) => sequence,
        Err(e) => {
            return Err(e);
        },
    };
    proof {
        let path = choose|path: Seq<DiffPointId>|
            {
                &&& is_path_to_root(m, path)
                &&& is_latest_point(m, path[0].0)
                &&& sequence.diff_points@ == path.reverse().map_values(|id: DiffPointId| m[id.0])
            };
        let ids = path.reverse();
        assert(ids.no_duplicates()) by {
            assert forall|a: int, b: int| 0 <= a < ids.len() && 0 <= b < ids.len() && a != b implies ids[a]
                != ids[b] by {
                assert(ids[a] == path[path.len() - 1 - a]);
                assert(ids[b] == path[path.len() - 1 - b]);
            }
        }
        assert forall|i: int| 0 <= i < ids.len() implies m.contains_key(#[trigger] ids[i].0) by {
            assert(ids[i] == path[path.len() - 1 - i]);
        }
        assert(total_diffs(points_of(m, ids)) + ids.len() < usize::MAX);
        assert(points_of(m, ids) == sequence.diff_points@);
        let d = sequence.diff_points@;
        assert forall|i: int| 0 <= i < d.len() implies d[i].id == ids[i] by {
            assert(d[i] == m[ids[i].0]);
            assert(m.contains_key(ids[i].0));
        }
        assert forall|i: int| #![trigger d[i]] 0 < i < d.len() implies d[i].previous_diff_point_id == Some(
            d[i - 1].id,
        ) by {
            let t = path.len() - 1 - i;
            assert(ids[i] == path[t]);
            assert(ids[i - 1] == path[t + 1]);
            assert(d[i - 1].id == ids[i - 1]);
        }
        assert forall|i: int, j: int| 0 <= i < j < d.len() implies d[i].id != d[j].id by {
            assert(d[i].id == ids[i] && d[j].id == ids[j]);
        }
        if d.len() > 0 {
            assert(ids[0] == path[path.len() - 1]);
        }
        assert(is_chain_in(m, d));
    }
    let loss_factors = loss_factors_for_snapshot(&sequence, snapshot);
    Ok(BaseDiffSequenceDecision::RankByLoss { sequence, loss_factors })
}

/// Settles the choice on the prefix of `sequence` with `optimal_depth`
/// points: a new diff point goes on top of it, unless it has more than 1000
/// points, in which case a new full snapshot is to be taken.
pub fn settle_base_diff_sequence<Stats: StatValue>(
    sequence: DiffSequence<Stats>,
    optimal_depth: usize,
) -> (r: DiffSequenceChoice<Stats>)
    requires
        1 <= optimal_depth <= sequence.diff_points@.len() + 1,
    ensures
        optimal_depth > 1000 ==> r is NoAppropriatePointFound,
        optimal_depth <= 1000 ==> (r matches DiffSequenceChoice::OptimalAccordingToHeuristics(s)
            && s.base_point == sequence.base_point && s.diff_points@ == sequence.diff_points@.take(
            optimal_depth - 1,
        )),
{
    let sub_sequence = sequence.prefix_of_depth(optimal_depth);
    if sub_sequence.len() > 1000 {
        DiffSequenceChoice::NoAppropriatePointFound
    } else {
        DiffSequenceChoice::OptimalAccordingToHeuristics(sub_sequence)
    }
}

} // verus!
