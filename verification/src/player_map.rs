//! Maps from players to statistics, and the list of their entries.
use std::collections::BTreeMap;
use vstd::prelude::*;

use crate::uuid::PlayerKey;

verus! {

/// The map built by inserting the pairs of `s` in order (a later pair
/// overrides an earlier one with the same key).
pub open spec fn seq_to_map<K, V>(s: Seq<(K, V)>) -> Map<K, V>
    decreases s.len(),
{
    if s.len() == 0 {
        Map::empty()
    } else {
        seq_to_map(s.drop_last()).insert(s.last().0, s.last().1)
    }
}

/// No two pairs of `s` have the same key.
pub open spec fn keys_distinct<K, V>(s: Seq<(K, V)>) -> bool {
    forall|i: int, j: int| 0 <= i < j < s.len() ==> s[i].0 != s[j].0
}

/// The map of a sequence of pairs holds the key of every pair and no other
/// key, and under each key the value of the last pair with that key.
pub proof fn lemma_seq_to_map_last_wins<K, V>(s: Seq<(K, V)>)
    ensures
        seq_to_map(s).dom().finite(),
        forall|k: K|
            #[trigger] seq_to_map(s).contains_key(k) <==> exists|i: int|
                0 <= i < s.len() && s[i].0 == k,
        forall|i: int|
            0 <= i < s.len() && (forall|j: int| i < j < s.len() ==> s[j].0 != s[i].0) ==> #[trigger] seq_to_map(
                s,
            )[s[i].0] == s[i].1,
    decreases s.len(),
{
    if s.len() > 0 {
        let t = s.drop_last();
        lemma_seq_to_map_last_wins(t);
        let last = s.last();
        assert forall|k: K| #[trigger] seq_to_map(s).contains_key(k) <==> exists|i: int|
            0 <= i < s.len() && s[i].0 == k by {
            if seq_to_map(s).contains_key(k) && k != last.0 {
                let i = choose|i: int| 0 <= i < t.len() && t[i].0 == k;
                assert(s[i].0 == k);
            }
            if k == last.0 {
                assert(s[s.len() - 1].0 == k);
            }
            if exists|i: int| 0 <= i < s.len() && s[i].0 == k {
                let i = choose|i: int| 0 <= i < s.len() && s[i].0 == k;
                if i < s.len() - 1 {
                    assert(t[i].0 == k);
                }
            }
        }
        assert forall|i: int|
            0 <= i < s.len() && (forall|j: int| i < j < s.len() ==> s[j].0 != s[i].0) implies #[trigger] seq_to_map(
            s,
        )[s[i].0] == s[i].1 by {
            if i < s.len() - 1 {
                assert(s[s.len() - 1].0 != s[i].0);
                assert(t[i] == s[i]);
                assert forall|j: int| i < j < t.len() implies t[j].0 != t[i].0 by {
                    assert(t[j] == s[j]);
                }
            }
        }
    }
}

/// What the map of a sequence of pairs with distinct keys holds.
pub proof fn lemma_seq_to_map_distinct<K, V>(s: Seq<(K, V)>)
    requires
        keys_distinct(s),
    ensures
        seq_to_map(s).dom().finite(),
        seq_to_map(s).len() == s.len(),
        forall|k: K|
            #[trigger] seq_to_map(s).contains_key(k) <==> exists|i: int|
                0 <= i < s.len() && s[i].0 == k,
        forall|i: int| 0 <= i < s.len() ==> #[trigger] seq_to_map(s)[s[i].0] == s[i].1,
    decreases s.len(),
{
    if s.len() > 0 {
        let t = s.drop_last();
        assert(keys_distinct(t));
        lemma_seq_to_map_distinct(t);
        let last = s.last();
        assert(!seq_to_map(t).contains_key(last.0)) by {
            if seq_to_map(t).contains_key(last.0) {
                let i = choose|i: int| 0 <= i < t.len() && t[i].0 == last.0;
                assert(s[i].0 == s[s.len() - 1].0);
            }
        }
        assert forall|k: K| #[trigger] seq_to_map(s).contains_key(k) <==> exists|i: int|
            0 <= i < s.len() && s[i].0 == k by {
            if seq_to_map(s).contains_key(k) && k != last.0 {
                let i = choose|i: int| 0 <= i < t.len() && t[i].0 == k;
                assert(s[i].0 == k);
            }
            if exists|i: int| 0 <= i < s.len() && s[i].0 == k {
                let i = choose|i: int| 0 <= i < s.len() && s[i].0 == k;
                if i < s.len() - 1 {
                    assert(t[i].0 == k);
                }
            }
        }
        assert forall|i: int| 0 <= i < s.len() implies #[trigger] seq_to_map(s)[s[i].0]
            == s[i].1 by {
            if i < s.len() - 1 {
                assert(t[i] == s[i]);
                assert(s[i].0 != last.0);
            }
        }
    }
}

/// The map of a sequence of distinct pairs that all agree with `m` and that
/// cover every key of `m` is `m` itself.
pub proof fn lemma_seq_to_map_covers<K, V>(s: Seq<(K, V)>, m: Map<K, V>)
    requires
        keys_distinct(s),
        forall|i: int| 0 <= i < s.len() ==> #[trigger] m.contains_key(s[i].0) && m[s[i].0] == s[i].1,
        forall|k: K| #[trigger] m.contains_key(k) ==> exists|i: int| 0 <= i < s.len() && s[i].0 == k,
    ensures
        seq_to_map(s) == m,
{
    lemma_seq_to_map_distinct(s);
    assert forall|k: K| #[trigger] seq_to_map(s).contains_key(k) implies m.contains_key(k)
        && seq_to_map(s)[k] == m[k] by {
        let i = choose|i: int| 0 <= i < s.len() && s[i].0 == k;
        assert(m.contains_key(s[i].0));
    }
    assert forall|k: K| #[trigger] m.contains_key(k) implies seq_to_map(s).contains_key(k) by {
        let i = choose|i: int| 0 <= i < s.len() && s[i].0 == k;
    }
    assert(seq_to_map(s) =~= m);
}

/// Taking one more pair of a sequence with distinct keys inserts that pair
/// into the map, under a key that was not there yet.
pub proof fn lemma_seq_to_map_take_step<K, V>(s: Seq<(K, V)>, i: int)
    requires
        keys_distinct(s),
        0 <= i < s.len(),
    ensures
        seq_to_map(s.take(i + 1)) == seq_to_map(s.take(i)).insert(s[i].0, s[i].1),
        !seq_to_map(s.take(i)).contains_key(s[i].0),
        seq_to_map(s.take(i)).dom().finite(),
{
    assert(s.take(i + 1).drop_last() =~= s.take(i));
    let t = s.take(i);
    assert(keys_distinct(t));
    lemma_seq_to_map_distinct(t);
    if seq_to_map(t).contains_key(s[i].0) {
        let j = choose|j: int| 0 <= j < t.len() && t[j].0 == s[i].0;
        assert(s[j].0 == s[i].0);
    }
}

/// The map of a whole sequence is the map of all of its prefix.
pub proof fn lemma_seq_to_map_take_all<K, V>(s: Seq<(K, V)>)
    ensures
        seq_to_map(s.take(s.len() as int)) == seq_to_map(s),
{
    assert(s.take(s.len() as int) =~= s);
}

/// The entries of a map of players, each key once.
pub fn entries<V: Copy>(m: &BTreeMap<PlayerKey, V>) -> (r: Vec<(PlayerKey, V)>)
    ensures
        keys_distinct(r@),
        seq_to_map(r@) == m@,
        r@.len() == m@.len(),
        forall|i: int| 0 <= i < r@.len() ==> #[trigger] m@.contains_key(r@[i].0) && m@[r@[i].0]
            == r@[i].1,
{
    let mut out: Vec<(PlayerKey, V)> = Vec::new();
    let iter = m.iter();
    let ghost s = vstd::std_specs::iter::IteratorSpec::remaining(&iter);
    for kv in it: iter
        invariant
            it.seq() == s,
            out@.len() == it.index(),
            forall|i: int| 0 <= i < out@.len() ==> out@[i] == (*it.seq()[i].0, *it.seq()[i].1),
    {
        out.push((*kv.0, *kv.1));
    }
    proof {
        assert(s.no_duplicates());
        assert forall|i: int| 0 <= i < out@.len() implies #[trigger] m@.contains_key(out@[i].0)
            && m@[out@[i].0] == out@[i].1 by {
            assert(m@.contains_key(*s[i].0));
        }
        assert forall|i: int, j: int| 0 <= i < j < out@.len() implies out@[i].0 != out@[j].0 by {
            assert(m@.contains_key(*s[i].0));
            assert(m@.contains_key(*s[j].0));
            if out@[i].0 == out@[j].0 {
                assert(s[i] == s[j]);
            }
        }
        assert forall|k: PlayerKey| #[trigger] m@.contains_key(k) implies exists|i: int|
            0 <= i < out@.len() && out@[i].0 == k by {
            assert(s.contains((&k, &m@[k])));
            let i = choose|i: int| 0 <= i < s.len() && s[i] == (&k, &m@[k]);
            assert(out@[i].0 == k);
        }
        lemma_seq_to_map_covers(out@, m@);
        lemma_seq_to_map_distinct(out@);
    }
    out
}

} // verus!
