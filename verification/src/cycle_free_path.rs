//! Following links from node to node until the links end or a node repeats.
use std::collections::HashSet;
use vstd::prelude::*;

use crate::diff_points::DiffPointId;

verus! {

/// The path that was followed, up to and including the first node that
/// was met a second time.
#[derive(Debug, Clone)]
pub struct CycleFoundError<N> {
    pub cycle: Vec<N>,
}

/// Every node of `path` after the first is the one that `next_node` gives
/// for the node before it.
pub open spec fn follows<F: Fn(DiffPointId) -> Option<DiffPointId>>(
    next_node: F,
    path: Seq<DiffPointId>,
) -> bool {
    forall|i: int| #![trigger path[i]] 0 <= i < path.len() - 1 ==> call_ensures(next_node, (path[i],), Some(path[i + 1]))
}

/// Follows `next_node` from `initial_node` until it gives no next node.
///
/// Returns the nodes met, starting with `initial_node`, when no node was met
/// twice; otherwise the nodes met up to the first node met a second time.
pub fn construct_cycle_free_path(
    initial_node: DiffPointId,
    next_node: impl Fn(DiffPointId) -> Option<DiffPointId>,
) -> (r: Result<Vec<DiffPointId>, CycleFoundError<DiffPointId>>)
    requires
        forall|n: DiffPointId| call_requires(next_node, (n,)),
    ensures
        r matches Ok(path) ==> {
            &&& path@.len() >= 1
            &&& path@[0] == initial_node
            &&& path@.no_duplicates()
            &&& follows(next_node, path@)
            &&& call_ensures(next_node, (path@.last(),), None)
        },
        r matches Err(e) ==> {
            &&& e.cycle@.len() >= 2
            &&& e.cycle@[0] == initial_node
            &&& e.cycle@.drop_last().no_duplicates()
            &&& follows(next_node, e.cycle@)
            &&& e.cycle@.drop_last().contains(e.cycle@.last())
        },
{
    let mut path: Vec<DiffPointId> = Vec::new();
    path.push(initial_node);
    let mut visited: HashSet<u64> = HashSet::new();
    visited.insert(initial_node.0);
    let mut current_node = initial_node;
    proof {
        assert forall|x: u64| #[trigger] visited@.contains(x) <==> exists|j: int|
            0 <= j < path@.len() && path@[j].0 == x by {
            if x == initial_node.0 {
                assert(path@[0].0 == x);
            }
        }
    }
    loop
        invariant
            forall|n: DiffPointId| call_requires(next_node, (n,)),
            path@.len() >= 1,
            path@[0] == initial_node,
            path@.last() == current_node,
            path@.no_duplicates(),
            follows(next_node, path@),
            forall|x: u64|
                #[trigger] visited@.contains(x) <==> exists|j: int|
                    0 <= j < path@.len() && path@[j].0 == x,
        decreases usize::MAX - path.len(),
    {
        match next_node(current_node) {
            None => {
                return Ok(path);
            },
            Some(next) => {
                if visited.contains(&next.0) {
                    let ghost before = path@;
                    path.push(next);
                    proof {
                        let j = choose|j: int| 0 <= j < before.len() && before[j].0 == next.0;
                        assert(path@.drop_last() =~= before);
                        assert(before[j] == next);
                        assert forall|i: int| #![trigger path@[i]] 0 <= i < path@.len() - 1 implies call_ensures(
                            next_node,
                            (path@[i],),
                            Some(path@[i + 1]),
                        ) by {
                            if i < before.len() - 1 {
                                assert(path@[i] == before[i] && path@[i + 1] == before[i + 1]);
                            }
                        }
                    }
                    return Err(CycleFoundError { cycle: path });
                }
                let ghost before = path@;
                visited.insert(next.0);
                path.push(next);
                proof {
                    assert forall|x: u64| #[trigger] visited@.contains(x) <==> exists|j: int|
                        0 <= j < path@.len() && path@[j].0 == x by {
                        if visited@.contains(x) && x != next.0 {
                            let j = choose|j: int| 0 <= j < before.len() && before[j].0 == x;
                            assert(path@[j].0 == x);
                        }
                        if x == next.0 {
                            assert(path@[path@.len() - 1].0 == x);
                        }
                        if exists|j: int| 0 <= j < path@.len() && path@[j].0 == x {
                            let j = choose|j: int| 0 <= j < path@.len() && path@[j].0 == x;
                            if j < before.len() {
                                assert(before[j].0 == x);
                            }
                        }
                    }
                    assert forall|i: int, j: int|
                        0 <= i < path@.len() && 0 <= j < path@.len() && i != j implies path@[i]
                        != path@[j] by {
                        if i == before.len() && j < before.len() {
                            assert(before[j].0 == path@[j].0);
                        }
                        if j == before.len() && i < before.len() {
                            assert(before[i].0 == path@[i].0);
                        }
                    }
                    assert forall|i: int| #![trigger path@[i]] 0 <= i < path@.len() - 1 implies call_ensures(
                        next_node,
                        (path@[i],),
                        Some(path@[i + 1]),
                    ) by {
                        if i < before.len() - 1 {
                            assert(path@[i] == before[i] && path@[i + 1] == before[i + 1]);
                        }
                    }
                }
                current_node = next;
            },
        }
    }
}

} // verus!
