//! Relaxation: lowering tentative distances along the edges that leave a
//! newly settled vertex, as a pass that collects candidate updates followed
//! by a pass that applies them.

use rayon::iter::{IndexedParallelIterator, IntoParallelRefIterator, ParallelIterator};
use vstd::prelude::*;
use crate::graph::Graph;
use crate::paths::{
    edge, is_solution, lemma_extend_path, path_between, path_weight, reachable, well_formed,
};

verus! {

/// Distance `a` is no worse than `b`: it is the smaller one, `None` being
/// larger than every number.
pub open spec fn no_worse(a: Option<u128>, b: Option<u128>) -> bool {
    match (a, b) {
        (_, None) => true,
        (Some(x), Some(y)) => x <= y,
        (None, Some(_)) => false,
    }
}

/// The distance that an edge of weight `w` from a vertex at distance `du`
/// offers to a vertex at distance `dv`, where it improves on `dv`. A visited
/// target and a missing edge offer nothing, and neither does a sum that is
/// too large for a `u128`. (Within the solver there is no such sum.)
pub open spec fn candidate_spec(du: u128, w: Option<u64>, dv: Option<u128>, seen: bool) -> Option<
    u128,
> {
    match w {
        Some(weight) => if !seen && du + weight <= u128::MAX && (match dv {
            Some(d) => du + weight < d,
            None => true,
        }) {
            Some((du + weight) as u128)
        } else {
            None
        },
        None => None,
    }
}

/// The distances after the edges of `row`, which leave a vertex at distance
/// `du`, have been relaxed.
pub open spec fn relaxed(
    row: Seq<Option<u64>>,
    du: u128,
    dist: Seq<Option<u128>>,
    visited: Seq<bool>,
) -> Seq<Option<u128>> {
    Seq::new(
        dist.len(),
        |v: int|
            match candidate_spec(du, row[v], dist[v], visited[v]) {
                Some(d) => Some(d),
                None => dist[v],
            },
    )
}

/// `ups` holds exactly the improving candidates of one relaxation step: each
/// entry is the candidate of its vertex, and each vertex that has a candidate
/// has an entry.
pub open spec fn is_update_set(
    row: Seq<Option<u64>>,
    du: u128,
    dist: Seq<Option<u128>>,
    visited: Seq<bool>,
    ups: Seq<(usize, u128)>,
) -> bool {
    &&& forall|i: int|
        0 <= i < ups.len() ==> (#[trigger] ups[i]).0 < row.len() && candidate_spec(
            du,
            row[ups[i].0 as int],
            dist[ups[i].0 as int],
            visited[ups[i].0 as int],
        ) == Some(ups[i].1)
    &&& forall|v: int|
        0 <= v < row.len() && (#[trigger] candidate_spec(du, row[v], dist[v], visited[v])) is Some
            ==> exists|i: int| 0 <= i < ups.len() && (#[trigger] ups[i]).0 == v
}

/// The entries of `ups` stand in the order of their vertices.
pub open spec fn is_ascending(ups: Seq<(usize, u128)>) -> bool {
    forall|i: int, j: int| 0 <= i < j < ups.len() ==> (#[trigger] ups[i]).0 < (#[trigger] ups[j]).0
}

/// Computes the candidate distance for one edge.
pub fn candidate(du: u128, w: Option<u64>, dv: Option<u128>, seen: bool) -> (r: Option<u128>)
    ensures
        r == candidate_spec(du, w, dv, seen),
{
    if seen {
        return None;
    }
    match w {
        Some(weight) => match du.checked_add(weight as u128) {
            Some(next) => match dv {
                Some(d) => if next < d {
                    Some(next)
                } else {
                    None
                },
                None => Some(next),
            },
            None => None,
        },
        None => None,
    }
}

/// Computes the update that the edge of weight `w` into vertex `v` calls
/// for, if any.
pub fn candidate_update(
    v: usize,
    w: Option<u64>,
    du: u128,
    dist: &Vec<Option<u128>>,
    visited: &Vec<bool>,
) -> (r: Option<(usize, u128)>)
    requires
        v < dist.len(),
        v < visited.len(),
    ensures
        r == (match candidate_spec(du, w, dist[v as int], visited[v as int]) {
            Some(d) => Some((v, d)),
            None => None,
        }),
{
    match candidate(du, w, dist[v], visited[v]) {
        Some(d) => Some((v, d)),
        None => None,
    }
}

/// Collects the improving candidates along the edges of `row`, vertex by
/// vertex.
pub fn collect_updates(
    row: &Vec<Option<u64>>,
    du: u128,
    dist: &Vec<Option<u128>>,
    visited: &Vec<bool>,
) -> (ups: Vec<(usize, u128)>)
    requires
        row.len() == dist.len(),
        row.len() == visited.len(),
    ensures
        is_update_set(row@, du, dist@, visited@, ups@),
        is_ascending(ups@),
        ups.len() <= row.len(),
{
    let n = row.len();
    let mut ups: Vec<(usize, u128)> = Vec::new();
    let mut v: usize = 0;
    while v < n
        invariant
            n == row.len(),
            n == dist.len(),
            n == visited.len(),
            v <= n,
            forall|i: int|
                0 <= i < ups.len() ==> (#[trigger] ups[i]).0 < v && candidate_spec(
                    du,
                    row[ups[i].0 as int],
                    dist[ups[i].0 as int],
                    visited[ups[i].0 as int],
                ) == Some(ups[i].1),
            forall|x: int|
                0 <= x < v && (#[trigger] candidate_spec(du, row[x], dist[x], visited[x])) is Some
                    ==> exists|i: int| 0 <= i < ups.len() && (#[trigger] ups[i]).0 == x,
            is_ascending(ups@),
            ups.len() <= v,
        decreases n - v,
    {
        let ghost before = ups@;
        match candidate_update(v, row[v], du, dist, visited) {
            Some(up) => {
                ups.push(up);
                proof {
                    assert(ups@[before.len() as int] == up);
                    assert forall|x: int|
                        0 <= x < v + 1 && (#[trigger] candidate_spec(
                            du,
                            row[x],
                            dist[x],
                            visited[x],
                        )) is Some implies exists|i: int|
                        0 <= i < ups.len() && (#[trigger] ups[i]).0 == x by {
                        if x < v {
                            let i = choose|i: int| 0 <= i < before.len() && (#[trigger] before[i]).0 == x;
                            assert(ups@[i] == before[i]);
                        } else {
                            assert(ups@[before.len() as int].0 == x);
                        }
                    }
                    assert forall|i: int, j: int| 0 <= i < j < ups.len() implies (#[trigger] ups[i]).0 < (
                    #[trigger] ups[j]).0 by {
                        assert(ups@[i] == before[i]);
                        if j < before.len() {
                            assert(ups@[j] == before[j]);
                        }
                    }
                }
            },
            None => {},
        }
        v += 1;
    }
    ups
}

/// `after` is `before` with the updates of `ups` applied, the smallest
/// winning where several name the same vertex.
pub open spec fn is_applied(
    before: Seq<Option<u128>>,
    ups: Seq<(usize, u128)>,
    after: Seq<Option<u128>>,
) -> bool {
    &&& after.len() == before.len()
    &&& forall|v: int| 0 <= v < before.len() ==> no_worse(#[trigger] after[v], before[v])
    &&& forall|i: int|
        0 <= i < ups.len() ==> no_worse(after[(#[trigger] ups[i]).0 as int], Some(ups[i].1))
    &&& forall|v: int|
        0 <= v < before.len() ==> #[trigger] after[v] == before[v] || exists|i: int|
            0 <= i < ups.len() && (#[trigger] ups[i]).0 == v && after[v] == Some(ups[i].1)
}

/// The distances after one more update: the update takes effect where it
/// lowers the distance of its vertex.
pub open spec fn apply_one(dist: Seq<Option<u128>>, up: (usize, u128)) -> Seq<Option<u128>> {
    if dist[up.0 as int] is None || up.1 < dist[up.0 as int].unwrap() {
        dist.update(up.0 as int, Some(up.1))
    } else {
        dist
    }
}

/// Applying the first `k` updates and then the next one applies the first
/// `k + 1`.
pub proof fn lemma_apply_next(
    start: Seq<Option<u128>>,
    ups: Seq<(usize, u128)>,
    k: int,
    prev: Seq<Option<u128>>,
)
    requires
        0 <= k < ups.len(),
        forall|i: int| 0 <= i < ups.len() ==> (#[trigger] ups[i]).0 < start.len(),
        is_applied(start, ups.take(k), prev),
    ensures
        is_applied(start, ups.take(k + 1), apply_one(prev, ups[k])),
{
    let done = ups.take(k);
    let next = ups.take(k + 1);
    let cur = apply_one(prev, ups[k]);
    let v = ups[k].0 as int;
    assert(next[k] == ups[k]);
    assert forall|i: int| 0 <= i < next.len() implies (#[trigger] next[i]).0 < start.len() by {
        assert(next[i] == ups[i]);
    }
    assert forall|i: int| 0 <= i < next.len() implies no_worse(
        cur[(#[trigger] next[i]).0 as int],
        Some(next[i].1),
    ) by {
        if i < k {
            assert(next[i] == done[i]);
            assert(no_worse(prev[done[i].0 as int], Some(done[i].1)));
        }
    }
    assert forall|x: int| 0 <= x < start.len() implies #[trigger] cur[x] == start[x] || exists|
        i: int,
    |
        0 <= i < next.len() && (#[trigger] next[i]).0 == x && cur[x] == Some(next[i].1) by {
        if x == v && cur != prev {
            assert(next[k].0 == x);
        } else if prev[x] != start[x] {
            let i = choose|i: int|
                0 <= i < done.len() && (#[trigger] done[i]).0 == x && prev[x] == Some(done[i].1);
            assert(next[i] == done[i]);
        }
    }
    assert forall|x: int| 0 <= x < start.len() implies no_worse(#[trigger] cur[x], start[x]) by {
        assert(no_worse(prev[x], start[x]));
    }
}

/// Applies the collected updates to the distances: an update takes effect
/// only where it lowers the distance, so of several updates for one vertex
/// the smallest wins, and no distance ever grows.
pub fn apply_updates(dist: &mut Vec<Option<u128>>, ups: &Vec<(usize, u128)>)
    requires
        forall|i: int| 0 <= i < ups.len() ==> (#[trigger] ups[i]).0 < old(dist).len(),
    ensures
        is_applied(old(dist)@, ups@, final(dist)@),
{
    let ghost start = dist@;
    let mut k: usize = 0;
    while k < ups.len()
        invariant
            k <= ups.len(),
            dist.len() == start.len(),
            forall|i: int| 0 <= i < ups.len() ==> (#[trigger] ups[i]).0 < start.len(),
            is_applied(start, ups@.take(k as int), dist@),
        decreases ups.len() - k,
    {
        let ghost prev = dist@;
        let (v, d) = ups[k];
        let lower = match dist[v] {
            Some(cur) => d < cur,
            None => true,
        };
        if lower {
            dist.set(v, Some(d));
        }
        proof {
            lemma_apply_next(start, ups@, k as int, prev);
        }
        k += 1;
    }
    proof {
        assert(ups@.take(ups.len() as int) =~= ups@);
    }
}

/// Applying exactly the candidates of a relaxation step gives the relaxed
/// distances.
pub proof fn lemma_applied_is_relaxed(
    row: Seq<Option<u64>>,
    du: u128,
    dist: Seq<Option<u128>>,
    visited: Seq<bool>,
    ups: Seq<(usize, u128)>,
    after: Seq<Option<u128>>,
)
    requires
        row.len() == dist.len(),
        row.len() == visited.len(),
        is_update_set(row, du, dist, visited, ups),
        is_applied(dist, ups, after),
    ensures
        after == relaxed(row, du, dist, visited),
{
    let want = relaxed(row, du, dist, visited);
    assert forall|v: int| 0 <= v < dist.len() implies after[v] == want[v] by {
        let c = candidate_spec(du, row[v], dist[v], visited[v]);
        if after[v] != dist[v] {
            let i = choose|i: int|
                0 <= i < ups.len() && (#[trigger] ups[i]).0 == v && after[v] == Some(ups[i].1);
            assert(c == Some(ups[i].1));
        } else if c is Some {
            let i = choose|i: int| 0 <= i < ups.len() && (#[trigger] ups[i]).0 == v;
            assert(no_worse(after[ups[i].0 as int], Some(ups[i].1)));
        }
    }
    assert(after =~= want);
}

/// Relaxes every edge that leaves `u`: each unvisited neighbour whose
/// distance the edge improves gets the improved distance, and nothing else
/// changes.
pub fn relax(graph: &Graph, u: usize, dist: &mut Vec<Option<u128>>, visited: &Vec<bool>)
    requires
        u < graph@.len(),
        old(dist).len() == graph@.len(),
        visited.len() == graph@.len(),
        old(dist)[u as int] is Some,
    ensures
        final(dist)@ == relaxed(
            graph@[u as int],
            old(dist)[u as int].unwrap(),
            old(dist)@,
            visited@,
        ),
        forall|v: int|
            0 <= v < old(dist).len() ==> no_worse(#[trigger] final(dist)[v], old(dist)[v]),
{
    let du = match dist[u] {
        Some(d) => d,
        None => 0,
    };
    let row = graph.row(u);
    let ups = collect_updates(row, du, dist, visited);
    let ghost before = dist@;
    apply_updates(dist, &ups);
    proof {
        lemma_applied_is_relaxed(row@, du, before, visited@, ups@, dist@);
    }
}

/// Runs rayon's `filter_map` and `collect` over the edges of `row`, in
/// parallel on the threads of `pool`, with `candidate_update` as the map.
///
/// Trusted: `install` returns what its closure returns,
/// `par_iter().enumerate()` yields each index with its entry,
/// `filter_map` calls the closure once on each, and `collect` gathers the
/// values of the calls that returned `Some`, all of them and nothing else,
/// so at most one for each entry of `row`. Nothing is claimed of their
/// order.
#[verifier::external_body]
pub(crate) fn par_filter_map_collect(
    pool: &rayon::ThreadPool,
    row: &Vec<Option<u64>>,
    du: u128,
    dist: &Vec<Option<u128>>,
    visited: &Vec<bool>,
) -> (ups: Vec<(usize, u128)>)
    requires
        row.len() == dist.len(),
        row.len() == visited.len(),
    ensures
        is_update_set(row@, du, dist@, visited@, ups@),
        ups.len() <= row.len(),
{
    pool.install(
        || {
            row.par_iter()
                .enumerate()
                .filter_map(|(v, w)| candidate_update(v, *w, du, dist, visited))
                .collect()
        },
    )
}

/// Does what `relax` does, with the candidates computed in parallel on the
/// threads of `pool` and applied by the calling thread once all of them are
/// in.
pub fn relax_parallel(
    pool: &rayon::ThreadPool,
    graph: &Graph,
    u: usize,
    dist: &mut Vec<Option<u128>>,
    visited: &Vec<bool>,
)
    requires
        u < graph@.len(),
        old(dist).len() == graph@.len(),
        visited.len() == graph@.len(),
        old(dist)[u as int] is Some,
    ensures
        final(dist)@ == relaxed(
            graph@[u as int],
            old(dist)[u as int].unwrap(),
            old(dist)@,
            visited@,
        ),
        forall|v: int|
            0 <= v < old(dist).len() ==> no_worse(#[trigger] final(dist)[v], old(dist)[v]),
{
    let du = match dist[u] {
        Some(d) => d,
        None => 0,
    };
    let row = graph.row(u);
    let ups = par_filter_map_collect(pool, row, du, dist, visited);
    let ghost before = dist@;
    apply_updates(dist, &ups);
    proof {
        lemma_applied_is_relaxed(row@, du, before, visited@, ups@, dist@);
    }
}

/// Relaxation never raises a distance.
pub proof fn lemma_relaxed_no_worse(
    row: Seq<Option<u64>>,
    du: u128,
    dist: Seq<Option<u128>>,
    visited: Seq<bool>,
)
    ensures
        relaxed(row, du, dist, visited).len() == dist.len(),
        forall|v: int|
            0 <= v < dist.len() ==> no_worse(#[trigger] relaxed(row, du, dist, visited)[v], dist[v]),
{
}

/// Relaxing the same edges a second time changes nothing.
pub proof fn lemma_relaxed_idempotent(
    row: Seq<Option<u64>>,
    du: u128,
    dist: Seq<Option<u128>>,
    visited: Seq<bool>,
)
    ensures
        relaxed(row, du, relaxed(row, du, dist, visited), visited) == relaxed(
            row,
            du,
            dist,
            visited,
        ),
{
    let once = relaxed(row, du, dist, visited);
    let twice = relaxed(row, du, once, visited);
    assert(twice =~= once);
}

/// Relaxing the edges of any vertex over distances that are already the
/// shortest ones changes nothing, whatever is marked visited.
pub proof fn lemma_converged_is_fixed_point(
    m: Seq<Seq<Option<u64>>>,
    s: int,
    dist: Seq<Option<u128>>,
    visited: Seq<bool>,
    u: int,
)
    requires
        well_formed(m),
        is_solution(m, s, dist),
        visited.len() == m.len(),
        0 <= u < m.len(),
        dist[u] is Some,
    ensures
        relaxed(m[u], dist[u].unwrap(), dist, visited) == dist,
{
    let du = dist[u].unwrap();
    let after = relaxed(m[u], du, dist, visited);
    assert forall|v: int| 0 <= v < dist.len() implies after[v] == dist[v] by {
        if edge(m, u, v) is Some {
            let p = choose|p: Seq<int>| #[trigger]
                path_between(m, p, s, u) && path_weight(m, p) == du as nat;
            lemma_extend_path(m, p, s, u, v);
            assert(path_between(m, p.push(v), s, v));
            assert(reachable(m, s, v));
        }
    }
    assert(after =~= dist);
}

} // verus!
