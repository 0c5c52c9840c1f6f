//! What holds of the tentative distances and the visited set between two
//! rounds of the solver, and why that makes the final distances shortest.

use vstd::prelude::*;
use crate::paths::{
    edge, is_attained, is_distance, is_lower_bound, is_path, is_solution, lemma_extend_path,
    lemma_trivial_path, path_between, path_weight, reachable, well_formed,
};
use crate::relax::{candidate_spec, relaxed};
use crate::select::{is_selection, precedes};

verus! {

/// The number of vertices that have not been visited.
pub open spec fn unvisited_count(visited: Seq<bool>) -> nat
    decreases visited.len(),
{
    if visited.len() == 0 {
        0
    } else {
        unvisited_count(visited.drop_last()) + (if visited.last() {
            0nat
        } else {
            1nat
        })
    }
}

/// Every edge that leaves a visited vertex has been relaxed.
pub open spec fn closed_under_edges(
    m: Seq<Seq<Option<u64>>>,
    dist: Seq<Option<u128>>,
    visited: Seq<bool>,
) -> bool {
    forall|u: int, v: int|
        0 <= u < m.len() && 0 <= v < m.len() && visited[u] && (#[trigger] edge(m, u, v)) is Some
            ==> dist[u] is Some && dist[v] is Some && dist[v].unwrap() <= dist[u].unwrap() + edge(
            m,
            u,
            v,
        ).unwrap()
}

/// No visited vertex lies farther than an unvisited one.
pub open spec fn visited_first(dist: Seq<Option<u128>>, visited: Seq<bool>) -> bool {
    forall|x: int, y: int|
        0 <= x < dist.len() && 0 <= y < dist.len() && #[trigger] visited[x] && !#[trigger] visited[y]
            && dist[y] is Some ==> dist[x] is Some && dist[x].unwrap() <= dist[y].unwrap()
}

/// Vertex `y` is unvisited and its tentative distance is at most `w`.
pub open spec fn frontier_below(
    dist: Seq<Option<u128>>,
    visited: Seq<bool>,
    y: int,
    w: nat,
) -> bool {
    0 <= y < dist.len() && !visited[y] && dist[y] is Some && dist[y].unwrap() <= w
}

/// At most one vertex is still open: unvisited, with a tentative distance.
pub open spec fn at_most_one_open(dist: Seq<Option<u128>>, visited: Seq<bool>) -> bool {
    forall|y: int, z: int|
        0 <= y < dist.len() && 0 <= z < dist.len() && !#[trigger] visited[y] && !#[trigger] visited[z]
            && dist[y] is Some ==> y == z
}

/// The state of the solver after `rounds` rounds from start vertex `s`.
///
/// The start vertex is at distance zero. Every tentative distance is the
/// weight of some path. A visited vertex holds its final, shortest distance.
/// The edges out of visited vertices are relaxed, and visited vertices are
/// the nearest ones. One vertex was visited in each round.
pub open spec fn solver_inv(
    m: Seq<Seq<Option<u64>>>,
    s: int,
    dist: Seq<Option<u128>>,
    visited: Seq<bool>,
    rounds: nat,
) -> bool {
    &&& well_formed(m)
    &&& 0 <= s < m.len()
    &&& dist.len() == m.len()
    &&& visited.len() == m.len()
    &&& dist[s] == Some(0u128)
    &&& forall|v: int|
        0 <= v < m.len() && (#[trigger] dist[v]) is Some ==> is_attained(
            m,
            s,
            v,
            dist[v].unwrap() as nat,
        )
    &&& forall|v: int|
        0 <= v < m.len() && #[trigger] visited[v] ==> dist[v] is Some && is_lower_bound(
            m,
            s,
            v,
            dist[v].unwrap() as nat,
        )
    &&& closed_under_edges(m, dist, visited)
    &&& visited_first(dist, visited)
    &&& forall|v: int|
        0 <= v < m.len() && (#[trigger] dist[v]) is Some ==> dist[v].unwrap() <= rounds * u64::MAX
    &&& unvisited_count(visited) + rounds == m.len()
}

/// Where nothing has been visited, every vertex counts.
pub proof fn lemma_count_none_visited(visited: Seq<bool>)
    requires
        forall|i: int| 0 <= i < visited.len() ==> !#[trigger] visited[i],
    ensures
        unvisited_count(visited) == visited.len(),
    decreases visited.len(),
{
    if visited.len() > 0 {
        lemma_count_none_visited(visited.drop_last());
    }
}

/// Visiting one more vertex lowers the count by one.
pub proof fn lemma_count_visit(visited: Seq<bool>, u: int)
    requires
        0 <= u < visited.len(),
        !visited[u],
    ensures
        unvisited_count(visited.update(u, true)) + 1 == unvisited_count(visited),
    decreases visited.len(),
{
    let after = visited.update(u, true);
    if u == visited.len() - 1 {
        assert(after.drop_last() =~= visited.drop_last());
    } else {
        assert(after.drop_last() =~= visited.drop_last().update(u, true));
        lemma_count_visit(visited.drop_last(), u);
    }
}

/// Where at most one vertex counts, any two unvisited vertices are the same.
pub proof fn lemma_count_at_most_one(visited: Seq<bool>, y: int, z: int)
    requires
        unvisited_count(visited) <= 1,
        0 <= y < visited.len(),
        0 <= z < visited.len(),
        !visited[y],
        !visited[z],
    ensures
        y == z,
    decreases visited.len(),
{
    let last = visited.len() - 1;
    if y == last && z == last {
    } else if y == last {
        lemma_count_positive(visited.drop_last(), z);
    } else if z == last {
        lemma_count_positive(visited.drop_last(), y);
    } else {
        lemma_count_at_most_one(visited.drop_last(), y, z);
    }
}

/// An unvisited vertex makes the count positive.
pub proof fn lemma_count_positive(visited: Seq<bool>, y: int)
    requires
        0 <= y < visited.len(),
        !visited[y],
    ensures
        unvisited_count(visited) >= 1,
    decreases visited.len(),
{
    if y < visited.len() - 1 {
        lemma_count_positive(visited.drop_last(), y);
    }
}

/// With at most one vertex unvisited, at most one vertex is open.
pub proof fn lemma_one_left(dist: Seq<Option<u128>>, visited: Seq<bool>)
    requires
        dist.len() == visited.len(),
    ensures
        unvisited_count(visited) <= 1 ==> at_most_one_open(dist, visited),
{
    if unvisited_count(visited) <= 1 {
        assert forall|y: int, z: int|
            0 <= y < dist.len() && 0 <= z < dist.len() && !#[trigger] visited[y] && !#[trigger] visited[z]
                && dist[y] is Some implies y == z by {
            lemma_count_at_most_one(visited, y, z);
        }
    }
}

/// The initial state: only the start vertex has a distance, and nothing has
/// been visited.
pub proof fn lemma_initial_state(
    m: Seq<Seq<Option<u64>>>,
    s: int,
    dist: Seq<Option<u128>>,
    visited: Seq<bool>,
)
    requires
        well_formed(m),
        0 <= s < m.len(),
        dist.len() == m.len(),
        visited.len() == m.len(),
        forall|v: int| 0 <= v < m.len() ==> #[trigger] dist[v] == (if v == s {
            Some(0u128)
        } else {
            None
        }),
        forall|v: int| 0 <= v < m.len() ==> !#[trigger] visited[v],
    ensures
        solver_inv(m, s, dist, visited, 0),
{
    lemma_trivial_path(m, s);
    lemma_count_none_visited(visited);
    assert forall|v: int| 0 <= v < m.len() && (#[trigger] dist[v]) is Some implies is_attained(
        m,
        s,
        v,
        dist[v].unwrap() as nat,
    ) by {
        assert(v == s);
        assert(path_between(m, seq![s], s, s));
    }
}

/// Every path from the start either ends at a vertex whose tentative
/// distance is no more than the path's weight, or passes an unvisited vertex
/// of which that is true.
pub proof fn lemma_frontier(
    m: Seq<Seq<Option<u64>>>,
    s: int,
    dist: Seq<Option<u128>>,
    visited: Seq<bool>,
    p: Seq<int>,
)
    requires
        well_formed(m),
        0 <= s < m.len(),
        dist.len() == m.len(),
        visited.len() == m.len(),
        dist[s] == Some(0u128),
        closed_under_edges(m, dist, visited),
        is_path(m, p),
        p[0] == s,
    ensures
        0 <= p.last() < m.len(),
        (dist[p.last()] is Some && dist[p.last()].unwrap() <= path_weight(m, p)) || exists|y: int|
            frontier_below(dist, visited, y, path_weight(m, p)),
    decreases p.len(),
{
    if p.len() >= 2 {
        let q = p.drop_last();
        let x = q.last();
        let t = p.last();
        assert(x == p[p.len() - 2]);
        assert(q[0] == s);
        lemma_frontier(m, s, dist, visited, q);
        let w = edge(m, x, t).unwrap();
        assert(path_weight(m, p) == path_weight(m, q) + w);
        if dist[x] is Some && dist[x].unwrap() <= path_weight(m, q) {
            if visited[x] {
                assert(dist[t] is Some && dist[t].unwrap() <= dist[x].unwrap() + w);
            } else {
                assert(frontier_below(dist, visited, x, path_weight(m, p)));
            }
        } else {
            let y = choose|y: int| frontier_below(dist, visited, y, path_weight(m, q));
            assert(frontier_below(dist, visited, y, path_weight(m, p)));
        }
    }
}

/// The selected vertex already holds its shortest distance.
pub proof fn lemma_selection_is_settled(
    m: Seq<Seq<Option<u64>>>,
    s: int,
    dist: Seq<Option<u128>>,
    visited: Seq<bool>,
    rounds: nat,
    u: usize,
)
    requires
        solver_inv(m, s, dist, visited, rounds),
        is_selection(dist, visited, Some(u)),
        dist[u as int] is Some,
    ensures
        is_distance(m, s, u as int, dist[u as int].unwrap() as nat),
{
    let du = dist[u as int].unwrap();
    assert forall|q: Seq<int>| #[trigger] path_between(m, q, s, u as int) implies path_weight(m, q)
        >= du by {
        lemma_frontier(m, s, dist, visited, q);
        if !(dist[q.last()] is Some && dist[q.last()].unwrap() <= path_weight(m, q)) {
            let y = choose|y: int| frontier_below(dist, visited, y, path_weight(m, q));
            assert(!visited[y]);
            assert(precedes(dist[u as int], u as int, dist[y], y));
        }
    }
}

/// One round (visit the selected vertex, then relax its edges) keeps the
/// state of the solver valid.
pub proof fn lemma_round(
    m: Seq<Seq<Option<u64>>>,
    s: int,
    dist: Seq<Option<u128>>,
    visited: Seq<bool>,
    rounds: nat,
    u: usize,
)
    requires
        solver_inv(m, s, dist, visited, rounds),
        is_selection(dist, visited, Some(u)),
        dist[u as int] is Some,
        m.len() <= usize::MAX,
    ensures
        solver_inv(
            m,
            s,
            relaxed(m[u as int], dist[u as int].unwrap(), dist, visited.update(u as int, true)),
            visited.update(u as int, true),
            rounds + 1,
        ),
{
    let ui = u as int;
    let du = dist[ui].unwrap();
    let seen = visited.update(ui, true);
    let row = m[ui];
    let next = relaxed(row, du, dist, seen);
    lemma_selection_is_settled(m, s, dist, visited, rounds, u);
    lemma_count_visit(visited, ui);
    lemma_count_positive(visited, ui);
    assert(rounds < m.len());
    assert(du + u64::MAX <= (rounds + 1) * u64::MAX) by (nonlinear_arith)
        requires
            du <= rounds * u64::MAX,
    ;
    assert((rounds + 1) * u64::MAX <= u128::MAX) by (nonlinear_arith)
        requires
            rounds + 1 <= usize::MAX,
            usize::MAX <= u64::MAX,
    ;
    assert(rounds * u64::MAX <= (rounds + 1) * u64::MAX) by (nonlinear_arith);
    // What relaxation does to each vertex.
    assert forall|v: int| 0 <= v < m.len() implies (#[trigger] next[v] == dist[v] || (!seen[v]
        && edge(m, ui, v) is Some && next[v] == Some((du + edge(m, ui, v).unwrap()) as u128)))
        && (seen[v] ==> next[v] == dist[v]) by {
        assert(row[v] == edge(m, ui, v));
    }
    assert(next[s] == Some(0u128));
    assert forall|v: int| 0 <= v < m.len() && (#[trigger] next[v]) is Some implies is_attained(
        m,
        s,
        v,
        next[v].unwrap() as nat,
    ) && next[v].unwrap() <= (rounds + 1) * u64::MAX by {
        if next[v] != dist[v] {
            let p = choose|p: Seq<int>| #[trigger]
                path_between(m, p, s, ui) && path_weight(m, p) == du as nat;
            lemma_extend_path(m, p, s, ui, v);
            assert(path_between(m, p.push(v), s, v));
        }
    }
    assert forall|v: int| 0 <= v < m.len() && #[trigger] seen[v] implies next[v] is Some
        && is_lower_bound(m, s, v, next[v].unwrap() as nat) by {
        if v != ui {
            assert(visited[v]);
        }
    }
    assert forall|x: int, v: int|
        0 <= x < m.len() && 0 <= v < m.len() && seen[x] && (#[trigger] edge(m, x, v)) is Some implies next[x] is Some
        && next[v] is Some && next[v].unwrap() <= next[x].unwrap() + edge(m, x, v).unwrap() by {
        assert(next[x] == dist[x]);
        if x == ui {
            assert(row[v] == edge(m, ui, v));
            if seen[v] {
                assert(v != ui);
                assert(visited[v] && !visited[ui]);
            } else {
                assert(candidate_spec(du, row[v], dist[v], seen[v]) is Some || (dist[v] is Some
                    && dist[v].unwrap() <= du + edge(m, x, v).unwrap()));
            }
        } else {
            assert(visited[x]);
        }
    }
    assert forall|x: int, y: int|
        0 <= x < next.len() && 0 <= y < next.len() && #[trigger] seen[x] && !#[trigger] seen[y]
            && next[y] is Some implies next[x] is Some && next[x].unwrap() <= next[y].unwrap() by {
        assert(!visited[y]);
        assert(next[y].unwrap() >= du) by {
            if next[y] == dist[y] {
                assert(precedes(dist[ui], ui, dist[y], y));
            }
        }
        if x != ui {
            assert(visited[x] && !visited[ui]);
        }
    }
}

/// Once at most one vertex is still open, the tentative distances are the
/// shortest distances.
pub proof fn lemma_finished(
    m: Seq<Seq<Option<u64>>>,
    s: int,
    dist: Seq<Option<u128>>,
    visited: Seq<bool>,
    rounds: nat,
)
    requires
        solver_inv(m, s, dist, visited, rounds),
        at_most_one_open(dist, visited),
    ensures
        is_solution(m, s, dist),
{
    assert forall|v: int| 0 <= v < m.len() implies match #[trigger] dist[v] {
        Some(d) => is_distance(m, s, v, d as nat),
        None => !reachable(m, s, v),
    } by {
        if visited[v] {
        } else {
            assert forall|q: Seq<int>| #[trigger] path_between(m, q, s, v) implies dist[v] is Some
                && dist[v].unwrap() <= path_weight(m, q) by {
                lemma_frontier(m, s, dist, visited, q);
                if !(dist[v] is Some && dist[v].unwrap() <= path_weight(m, q)) {
                    let y = choose|y: int| frontier_below(dist, visited, y, path_weight(m, q));
                    assert(!visited[y] && !visited[v]);
                    assert(y == v);
                }
            }
        }
    }
}

} // verus!
