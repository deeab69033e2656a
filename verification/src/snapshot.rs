//! Snapshots of every player's stats at one instant, the difference between
//! two snapshots, and how a difference is applied.
use std::collections::BTreeMap;
use vstd::prelude::*;

use crate::player_map::{
    entries, keys_distinct, lemma_seq_to_map_take_all, lemma_seq_to_map_take_step, seq_to_map,
};
use crate::statistics::{StatValue, UtcTimestamp};
use crate::uuid::{key_of_bytes, lemma_uuid_len, Player, PlayerKey, PlayerUuidString};

verus! {

broadcast use lemma_uuid_len;

/// The stats of player `k` in `m`, if `m` has any.
pub open spec fn stats_of<S>(m: Map<PlayerKey, S>, k: PlayerKey) -> Option<S> {
    if m.contains_key(k) {
        Some(m[k])
    } else {
        None
    }
}

/// What the players of `to` hold where `from` does not hold the same: the
/// entries that turn `from` into `to` (for players that `to` has).
pub open spec fn diff_stats<S>(from: Map<PlayerKey, S>, to: Map<PlayerKey, S>) -> Map<
    PlayerKey,
    S,
> {
    to.restrict(Set::new(|k: PlayerKey| stats_of(from, k) != Some(to[k])))
}

/// The players whose stats differ between `a` and `b`, counting a player
/// that only one of them has.
pub open spec fn differing_players<S>(a: Map<PlayerKey, S>, b: Map<PlayerKey, S>) -> Set<
    PlayerKey,
> {
    a.dom().union(b.dom()).filter(|k: PlayerKey| stats_of(a, k) != stats_of(b, k))
}

/// The stats of every player at one instant.
#[derive(Clone)]
pub struct StatsSnapshot<Stats> {
    pub utc_timestamp: UtcTimestamp,
    pub player_stats: BTreeMap<PlayerKey, Stats>,
}

/// The changed stats of the players whose stats changed, and the instant of
/// the change.
#[derive(Clone)]
pub struct SnapshotDiff<Stats> {
    pub utc_timestamp: UtcTimestamp,
    pub player_stats_diffs: BTreeMap<PlayerKey, Stats>,
}

impl<Stats: StatValue> StatsSnapshot<Stats> {
    /// A snapshot without any player.
    pub fn new(utc_timestamp: UtcTimestamp) -> (s: Self)
        ensures
            s.utc_timestamp == utc_timestamp,
            s.player_stats@ == Map::<PlayerKey, Stats>::empty(),
    {
        StatsSnapshot { utc_timestamp, player_stats: BTreeMap::new() }
    }

    /// The number of players in the snapshot.
    pub fn len(&self) -> (n: usize)
        ensures
            n == self.player_stats@.len(),
    {
        self.player_stats.len()
    }

    /// Records the stats of a player (replacing what it had).
    pub fn insert(&mut self, player: Player, stats: Stats)
        ensures
            final(self).utc_timestamp == old(self).utc_timestamp,
            final(self).player_stats@ == old(self).player_stats@.insert(
                key_of_bytes(player.uuid@),
                stats,
            ),
    {
        let k = player.key();
        self.player_stats.insert(k, stats);
    }

    /// The stats of a player, if the snapshot has the player.
    pub fn get(&self, player: &Player) -> (r: Option<Stats>)
        ensures
            r == stats_of(self.player_stats@, key_of_bytes(player.uuid@)),
    {
        let k = player.key();
        match self.player_stats.get(&k) {
            Some(v) => Some(*v),
            None => None,
        }
    }

    /// A copy of the snapshot.
    pub fn clone_snapshot(&self) -> (c: Self)
        ensures
            c.utc_timestamp == self.utc_timestamp,
            c.player_stats@ == self.player_stats@,
    {
        StatsSnapshot { utc_timestamp: self.utc_timestamp, player_stats: self.player_stats.clone() }
    }

    /// Every player of the snapshot with its stats, each player once.
    pub fn players_and_stats(&self) -> (r: Vec<(Player, Stats)>)
        ensures
            r@.len() == self.player_stats@.len(),
            forall|i: int, j: int|
                0 <= i < j < r@.len() ==> r@[i].0.uuid@ != r@[j].0.uuid@,
            forall|i: int|
                0 <= i < r@.len() ==> #[trigger] self.player_stats@.contains_key(
                    key_of_bytes(r@[i].0.uuid@),
                ) && self.player_stats@[key_of_bytes(r@[i].0.uuid@)] == r@[i].1,
            forall|k: PlayerKey| #[trigger]
                self.player_stats@.contains_key(k) ==> exists|i: int|
                    0 <= i < r@.len() && key_of_bytes(r@[i].0.uuid@) == k,
    {
        let e = entries(&self.player_stats);
        let mut out: Vec<(Player, Stats)> = Vec::new();
        let mut i: usize = 0;
        while i < e.len()
            invariant
                0 <= i <= e@.len(),
                out@.len() == i,
                keys_distinct(e@),
                forall|j: int|
                    0 <= j < i ==> key_of_bytes(#[trigger] out@[j].0.uuid@) == e@[j].0
                        && out@[j].1 == e@[j].1,
            decreases e@.len() - i,
        {
            let (k, v) = e[i];
            out.push((Player { uuid: PlayerUuidString::from_key(k) }, v));
            i += 1;
        }
        proof {
            crate::player_map::lemma_seq_to_map_distinct(e@);
            assert forall|i: int, j: int| 0 <= i < j < out@.len() implies out@[i].0.uuid@
                != out@[j].0.uuid@ by {
                assert(key_of_bytes(out@[i].0.uuid@) == e@[i].0);
                assert(key_of_bytes(out@[j].0.uuid@) == e@[j].0);
            }
            assert forall|k: PlayerKey| #[trigger]
                self.player_stats@.contains_key(k) implies exists|i: int|
                0 <= i < out@.len() && key_of_bytes(out@[i].0.uuid@) == k by {
                assert(seq_to_map(e@).contains_key(k));
                let i = choose|i: int| 0 <= i < e@.len() && e@[i].0 == k;
                assert(key_of_bytes(out@[i].0.uuid@) == k);
            }
        }
        out
    }
}

impl<Stats: StatValue> SnapshotDiff<Stats> {
    /// A difference that changes nothing.
    pub fn new(utc_timestamp: UtcTimestamp) -> (d: Self)
        ensures
            d.utc_timestamp == utc_timestamp,
            d.player_stats_diffs@ == Map::<PlayerKey, Stats>::empty(),
    {
        SnapshotDiff { utc_timestamp, player_stats_diffs: BTreeMap::new() }
    }

    /// Records the changed stats of a player.
    pub fn insert(&mut self, uuid: PlayerUuidString, stats: Stats)
        ensures
            final(self).utc_timestamp == old(self).utc_timestamp,
            final(self).player_stats_diffs@ == old(self).player_stats_diffs@.insert(
                key_of_bytes(uuid@),
                stats,
            ),
    {
        let k = uuid.key();
        self.player_stats_diffs.insert(k, stats);
    }

    /// The number of players whose stats changed.
    pub fn len(&self) -> (n: usize)
        ensures
            n == self.player_stats_diffs@.len(),
    {
        self.player_stats_diffs.len()
    }

    /// The snapshot `base_snapshot` turns into under this difference: the
    /// changed stats replace the old ones, and the instant is the
    /// difference's.
    pub fn apply_to(&self, base_snapshot: StatsSnapshot<Stats>) -> (s: StatsSnapshot<Stats>)
        ensures
            s.utc_timestamp == self.utc_timestamp,
            s.player_stats@ == base_snapshot.player_stats@.union_prefer_right(
                self.player_stats_diffs@,
            ),
    {
        let mut base_snapshot = base_snapshot;
        self.apply_to_mut(&mut base_snapshot);
        StatsSnapshot { utc_timestamp: self.utc_timestamp, player_stats: base_snapshot.player_stats }
    }

    /// Writes the changed stats into `base_snapshot`, whose instant stays.
    pub fn apply_to_mut(&self, base_snapshot: &mut StatsSnapshot<Stats>)
        ensures
            final(base_snapshot).utc_timestamp == old(base_snapshot).utc_timestamp,
            final(base_snapshot).player_stats@ == old(
                base_snapshot,
            ).player_stats@.union_prefer_right(self.player_stats_diffs@),
    {
        let e = entries(&self.player_stats_diffs);
        let ghost base0 = base_snapshot.player_stats@;
        let mut i: usize = 0;
        while i < e.len()
            invariant
                0 <= i <= e@.len(),
                keys_distinct(e@),
                seq_to_map(e@) == self.player_stats_diffs@,
                base_snapshot.utc_timestamp == old(base_snapshot).utc_timestamp,
                base0 == old(base_snapshot).player_stats@,
                base_snapshot.player_stats@ == base0.union_prefer_right(
                    seq_to_map(e@.take(i as int)),
                ),
            decreases e@.len() - i,
        {
            let (k, v) = e[i];
            proof {
                lemma_seq_to_map_take_step(e@, i as int);
                assert(base0.union_prefer_right(seq_to_map(e@.take(i as int))).insert(k, v)
                    =~= base0.union_prefer_right(seq_to_map(e@.take(i + 1))));
            }
            base_snapshot.player_stats.insert(k, v);
            i += 1;
        }
        proof {
            lemma_seq_to_map_take_all(e@);
        }
    }
}

/// Computing differences between two values of the same kind.
pub trait ComputeDiff: Sized {
    type Diff;

    /// How many entries the value holds.
    spec fn entry_count(&self) -> nat;

    /// The difference that turns `self` into `other`.
    fn diff_to(&self, other: &Self) -> Self::Diff;

    /// How many entries differ between `self` and `other`.
    fn size_of_diff_to(&self, other: &Self) -> usize
        requires
            self.entry_count() + other.entry_count() <= usize::MAX,
    ;
}

impl<Stats: StatValue> ComputeDiff for StatsSnapshot<Stats> {
    type Diff = SnapshotDiff<Stats>;

    open spec fn entry_count(&self) -> nat {
        self.player_stats@.len()
    }

    /// The difference from `self` to `other`: the stats of `other`'s players
    /// whose stats in `self` are missing or different, at `other`'s instant.
    fn diff_to(&self, other: &Self) -> (d: SnapshotDiff<Stats>)
        ensures
            d.utc_timestamp == other.utc_timestamp,
            d.player_stats_diffs@ == diff_stats(self.player_stats@, other.player_stats@),
    {
        let e = entries(&other.player_stats);
        let ghost from = self.player_stats@;
        let mut player_stats_diffs: BTreeMap<PlayerKey, Stats> = BTreeMap::new();
        let mut i: usize = 0;
        while i < e.len()
            invariant
                0 <= i <= e@.len(),
                keys_distinct(e@),
                seq_to_map(e@) == other.player_stats@,
                from == self.player_stats@,
                player_stats_diffs@ == diff_stats(from, seq_to_map(e@.take(i as int))),
            decreases e@.len() - i,
        {
            let (k, v) = e[i];
            let ghost before = seq_to_map(e@.take(i as int));
            proof {
                lemma_seq_to_map_take_step(e@, i as int);
            }
            let same = match self.player_stats.get(&k) {
                Some(x) => x.same_as(&v),
                None => false,
            };
            if !same {
                player_stats_diffs.insert(k, v);
                assert(diff_stats(from, before).insert(k, v) =~= diff_stats(
                    from,
                    before.insert(k, v),
                ));
            } else {
                assert(diff_stats(from, before) =~= diff_stats(from, before.insert(k, v)));
            }
            i += 1;
        }
        proof {
            lemma_seq_to_map_take_all(e@);
        }
        SnapshotDiff { utc_timestamp: other.utc_timestamp, player_stats_diffs }
    }

    /// The number of players whose stats differ between the two snapshots,
    /// counting a player that only one of them has.
    fn size_of_diff_to(&self, other: &Self) -> (n: usize)
        ensures
            n == differing_players(self.player_stats@, other.player_stats@).len(),
    {
        let ghost a = self.player_stats@;
        let ghost b = other.player_stats@;
        let ghost p1 = |k: PlayerKey| stats_of(b, k) != Some(a[k]);
        let ghost p2 = |k: PlayerKey| !a.contains_key(k);
        // players of `self` whose stats in `other` are missing or different
        let ea = entries(&self.player_stats);
        let mut changed: usize = 0;
        let ghost mut counted = Set::<PlayerKey>::empty();
        let mut i: usize = 0;
        while i < ea.len()
            invariant
                0 <= i <= ea@.len(),
                keys_distinct(ea@),
                seq_to_map(ea@) == a,
                a == self.player_stats@,
                b == other.player_stats@,
                p1 == (|k: PlayerKey| stats_of(b, k) != Some(a[k])),
                counted == seq_to_map(ea@.take(i as int)).dom().filter(p1),
                counted.finite(),
                changed == counted.len(),
                changed <= i,
            decreases ea@.len() - i,
        {
            let (k, v) = ea[i];
            proof {
                lemma_seq_to_map_take_step(ea@, i as int);
                crate::player_map::lemma_seq_to_map_distinct(ea@);
                assert(ea@[i as int].0 == k);
                assert(a[k] == v);
            }
            let same = match other.player_stats.get(&k) {
                Some(x) => x.same_as(&v),
                None => false,
            };
            let ghost before = seq_to_map(ea@.take(i as int));
            if !same {
                proof {
                    assert(before.insert(k, v).dom().filter(p1) =~= counted.insert(k));
                    counted = counted.insert(k);
                }
                changed = changed + 1;
            } else {
                proof {
                    assert(before.insert(k, v).dom().filter(p1) =~= counted);
                }
            }
            i += 1;
        }
        proof {
            lemma_seq_to_map_take_all(ea@);
        }
        // players that only `other` has
        let eb = entries(&other.player_stats);
        let mut added: usize = 0;
        let ghost mut counted2 = Set::<PlayerKey>::empty();
        let mut j: usize = 0;
        while j < eb.len()
            invariant
                0 <= j <= eb@.len(),
                keys_distinct(eb@),
                seq_to_map(eb@) == b,
                a == self.player_stats@,
                b == other.player_stats@,
                p2 == (|k: PlayerKey| !a.contains_key(k)),
                counted2 == seq_to_map(eb@.take(j as int)).dom().filter(p2),
                counted2.finite(),
                added == counted2.len(),
                added <= j,
            decreases eb@.len() - j,
        {
            let (k, v) = eb[j];
            proof {
                lemma_seq_to_map_take_step(eb@, j as int);
            }
            let ghost before = seq_to_map(eb@.take(j as int));
            if !self.player_stats.contains_key(&k) {
                proof {
                    assert(before.insert(k, v).dom().filter(p2) =~= counted2.insert(k));
                    counted2 = counted2.insert(k);
                }
                added = added + 1;
            } else {
                proof {
                    assert(before.insert(k, v).dom().filter(p2) =~= counted2);
                }
            }
            j += 1;
        }
        proof {
            lemma_seq_to_map_take_all(eb@);
            assert(counted == a.dom().filter(p1));
            assert(counted2 == b.dom().filter(p2));
            assert(counted.disjoint(counted2));
            vstd::set_lib::lemma_set_disjoint_lens(counted, counted2);
            assert(counted.union(counted2) =~= differing_players(a, b));
            assert(changed <= a.len());
            assert(added <= b.len());
        }
        changed + added
    }
}

/// Applying the difference from `from` to `to` on top of `from` gives `to`
/// back, when every player of `from` is still in `to`.
pub proof fn lemma_apply_diff_restores<S>(from: Map<PlayerKey, S>, to: Map<PlayerKey, S>)
    requires
        from.dom().subset_of(to.dom()),
    ensures
        from.union_prefer_right(diff_stats(from, to)) == to,
{
    assert(from.union_prefer_right(diff_stats(from, to)) =~= to);
}

/// The difference from a snapshot to itself is empty, and no player differs.
pub proof fn lemma_diff_to_self_is_empty<S>(m: Map<PlayerKey, S>)
    ensures
        diff_stats(m, m) == Map::<PlayerKey, S>::empty(),
        differing_players(m, m) == Set::<PlayerKey>::empty(),
{
    assert(diff_stats(m, m) =~= Map::<PlayerKey, S>::empty());
    assert(differing_players(m, m) =~= Set::<PlayerKey>::empty());
}

/// The players that differ between two snapshots do not depend on the
/// order in which the snapshots are compared.
pub proof fn lemma_differing_players_symmetric<S>(a: Map<PlayerKey, S>, b: Map<PlayerKey, S>)
    ensures
        differing_players(a, b) == differing_players(b, a),
{
    assert(differing_players(a, b) =~= differing_players(b, a));
}

/// The difference from `a` to `b` changes at most the players that differ
/// between them, and exactly those when every player of `a` is in `b`.
pub proof fn lemma_diff_within_differing_players<S>(a: Map<PlayerKey, S>, b: Map<PlayerKey, S>)
    requires
        a.dom().finite(),
        b.dom().finite(),
    ensures
        diff_stats(a, b).dom().subset_of(differing_players(a, b)),
        a.dom().subset_of(b.dom()) ==> diff_stats(a, b).dom() == differing_players(a, b),
{
    if a.dom().subset_of(b.dom()) {
        assert(diff_stats(a, b).dom() =~= differing_players(a, b));
    }
}

/// No player differs between two snapshots exactly when they hold the same
/// stats: the size of the difference is zero only for equal stats.
pub proof fn lemma_no_differing_players_iff_equal<S>(a: Map<PlayerKey, S>, b: Map<PlayerKey, S>)
    requires
        a.dom().finite(),
        b.dom().finite(),
    ensures
        differing_players(a, b).finite(),
        differing_players(a, b).len() == 0 <==> a == b,
{
    let d = differing_players(a, b);
    vstd::set_lib::lemma_len_subset(d, a.dom().union(b.dom()));
    if d.len() == 0 {
        d.lemma_len0_is_empty();
        assert forall|k: PlayerKey| #[trigger] a.contains_key(k) implies b.contains_key(k) && a[k] == b[k] by {
            assert(!d.contains(k));
        }
        assert forall|k: PlayerKey| #[trigger] b.contains_key(k) implies a.contains_key(k) by {
            assert(!d.contains(k));
        }
        assert(a =~= b);
    }
    if a == b {
        lemma_diff_to_self_is_empty(a);
    }
}

/// Applying a difference that changes nothing leaves the stats as they are.
pub proof fn lemma_apply_empty_diff<S>(m: Map<PlayerKey, S>)
    ensures
        m.union_prefer_right(Map::<PlayerKey, S>::empty()) == m,
{
    assert(m.union_prefer_right(Map::<PlayerKey, S>::empty()) =~= m);
}

} // verus!
