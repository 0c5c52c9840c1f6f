//! Selection: which unvisited vertex is settled next.

use rayon::iter::{IndexedParallelIterator, IntoParallelRefIterator, ParallelIterator};
use vstd::prelude::*;

verus! {

/// The order in which vertices are selected: by distance, an unreachable
/// vertex after every reachable one, and by index where distances tie.
pub open spec fn precedes(a: Option<u128>, i: int, b: Option<u128>, j: int) -> bool {
    match (a, b) {
        (Some(x), Some(y)) => x < y || (x == y && i <= j),
        (Some(_), None) => true,
        (None, Some(_)) => false,
        (None, None) => i <= j,
    }
}

/// `r` is the unvisited vertex that precedes every other unvisited vertex,
/// or `None` when every vertex has been visited.
pub open spec fn is_selection(dist: Seq<Option<u128>>, visited: Seq<bool>, r: Option<usize>) -> bool {
    match r {
        None => forall|j: int| 0 <= j < visited.len() ==> #[trigger] visited[j],
        Some(u) => {
            &&& u < visited.len()
            &&& !visited[u as int]
            &&& forall|j: int|
                0 <= j < visited.len() && !#[trigger] visited[j] ==> precedes(
                    dist[u as int],
                    u as int,
                    dist[j],
                    j,
                )
        },
    }
}

/// At most one vertex can be the selection.
pub proof fn lemma_selection_unique(
    dist: Seq<Option<u128>>,
    visited: Seq<bool>,
    a: Option<usize>,
    b: Option<usize>,
)
    requires
        dist.len() == visited.len(),
        is_selection(dist, visited, a),
        is_selection(dist, visited, b),
    ensures
        a == b,
{
    match (a, b) {
        (Some(x), Some(y)) => {
            assert(!visited[x as int]);
            assert(!visited[y as int]);
            assert(precedes(dist[x as int], x as int, dist[y as int], y as int));
            assert(precedes(dist[y as int], y as int, dist[x as int], x as int));
        },
        (Some(x), None) => {
            assert(visited[x as int]);
        },
        (None, Some(y)) => {
            assert(visited[y as int]);
        },
        (None, None) => {},
    }
}

/// Whether distance `a` at index `i` comes strictly before distance `b` at a
/// later index `j`.
fn strictly_closer(a: Option<u128>, b: Option<u128>) -> (r: bool)
    ensures
        r == match (a, b) {
            (Some(x), Some(y)) => x < y,
            (Some(_), None) => true,
            _ => false,
        },
{
    match a {
        Some(x) => match b {
            Some(y) => x < y,
            None => true,
        },
        None => false,
    }
}

/// Finds the unvisited vertex of least tentative distance; among several of
/// the same distance, the one of lowest index. Returns `None` when no vertex
/// is left unvisited.
pub fn min_distance(dist: &Vec<Option<u128>>, visited: &Vec<bool>) -> (r: Option<usize>)
    requires
        dist.len() == visited.len(),
    ensures
        is_selection(dist@, visited@, r),
{
    let n = dist.len();
    let mut best: Option<usize> = None;
    let mut i: usize = 0;
    while i < n
        invariant
            n == dist.len(),
            n == visited.len(),
            i <= n,
            is_selection(dist@.take(i as int), visited@.take(i as int), best),
        decreases n - i,
    {
        let ghost before = best;
        if !visited[i] {
            match best {
                None => {
                    best = Some(i);
                },
                Some(b) => {
                    if strictly_closer(dist[i], dist[b]) {
                        best = Some(i);
                    }
                },
            }
        }
        proof {
            let d0 = dist@.take(i as int);
            let v0 = visited@.take(i as int);
            let d1 = dist@.take(i + 1);
            let v1 = visited@.take(i + 1);
            assert forall|j: int| 0 <= j < i implies v1[j] == v0[j] && d1[j] == d0[j] by {}
            match best {
                None => {
                    assert forall|j: int| 0 <= j < v1.len() implies #[trigger] v1[j] by {
                        if j < i {
                            assert(v0[j]);
                        }
                    }
                },
                Some(u) => {
                    assert forall|j: int| 0 <= j < v1.len() && !#[trigger] v1[j] implies precedes(
                        d1[u as int],
                        u as int,
                        d1[j],
                        j,
                    ) by {
                        if j < i {
                            assert(!v0[j]);
                            match before {
                                Some(b) => {
                                    assert(precedes(d0[b as int], b as int, d0[j], j));
                                },
                                None => {
                                    assert(v0[j]);
                                },
                            }
                        }
                    }
                },
            }
        }
        i += 1;
    }
    proof {
        assert(dist@.take(n as int) =~= dist@);
        assert(visited@.take(n as int) =~= visited@);
    }
    best
}

/// The key by which the parallel reduction orders a vertex: whether it is
/// unreachable, then its distance, then its index.
pub open spec fn selection_key_spec(i: usize, d: Option<u128>) -> (bool, u128, usize) {
    match d {
        Some(x) => (false, x, i),
        None => (true, 0u128, i),
    }
}

/// The order of the keys: component by component, the first difference
/// deciding, with `false` before `true`.
pub open spec fn key_le(a: (bool, u128, usize), b: (bool, u128, usize)) -> bool {
    if a.0 != b.0 {
        !a.0
    } else if a.1 != b.1 {
        a.1 < b.1
    } else {
        a.2 <= b.2
    }
}

/// Computes the key of vertex `i` at distance `d`.
pub fn selection_key(i: usize, d: Option<u128>) -> (k: (bool, u128, usize))
    ensures
        k == selection_key_spec(i, d),
{
    match d {
        Some(x) => (false, x, i),
        None => (true, 0, i),
    }
}

/// Whether vertex `i` has not been visited.
pub fn is_unvisited(visited: &Vec<bool>, i: usize) -> (r: bool)
    requires
        i < visited.len(),
    ensures
        r == !visited[i as int],
{
    !visited[i]
}

/// The keys order the vertices as `precedes` does.
pub proof fn lemma_key_order(a: Option<u128>, i: usize, b: Option<u128>, j: usize)
    ensures
        key_le(selection_key_spec(i, a), selection_key_spec(j, b)) == precedes(
            a,
            i as int,
            b,
            j as int,
        ),
{
}

/// Runs rayon's `min_by_key` over the unvisited vertices, in parallel on the
/// threads of `pool`, with `selection_key` as the key.
///
/// Trusted: `install` returns what its closure returns,
/// `par_iter().enumerate()` yields each index with its entry,
/// `filter` keeps those that `is_unvisited` accepts, and `min_by_key`
/// returns `None` for no item and otherwise an item whose key no other
/// item's key is below, in the order that std gives to tuples. No two keys
/// are equal, so it does not matter which of two equal items rayon keeps.
#[verifier::external_body]
fn par_min_by_key(
    pool: &rayon::ThreadPool,
    dist: &Vec<Option<u128>>,
    visited: &Vec<bool>,
) -> (r: Option<usize>)
    requires
        dist.len() == visited.len(),
    ensures
        match r {
            None => forall|j: int| 0 <= j < visited.len() ==> #[trigger] visited[j],
            Some(u) => {
                &&& u < visited.len()
                &&& !visited[u as int]
                &&& forall|j: int|
                    0 <= j < visited.len() && !#[trigger] visited[j] ==> key_le(
                        selection_key_spec(u, dist[u as int]),
                        selection_key_spec(j as usize, dist[j]),
                    )
            },
        },
{
    pool.install(
        || {
            dist.par_iter()
                .enumerate()
                .filter(|(i, _)| is_unvisited(visited, *i))
                .min_by_key(|(i, d)| selection_key(*i, **d))
                .map(|(i, _)| i)
        },
    )
}

/// Finds the same vertex as `min_distance`, by a parallel reduction on the
/// threads of `pool`.
pub fn min_distance_parallel(
    pool: &rayon::ThreadPool,
    dist: &Vec<Option<u128>>,
    visited: &Vec<bool>,
) -> (r: Option<usize>)
    requires
        dist.len() == visited.len(),
    ensures
        is_selection(dist@, visited@, r),
{
    let r = par_min_by_key(pool, dist, visited);
    proof {
        match r {
            Some(u) => {
                assert forall|j: int| 0 <= j < visited.len() && !#[trigger] visited[j] implies precedes(
                    dist[u as int],
                    u as int,
                    dist[j],
                    j,
                ) by {
                    lemma_key_order(dist[u as int], u, dist[j], j as usize);
                }
            },
            None => {},
        }
    }
    r
}

} // verus!
