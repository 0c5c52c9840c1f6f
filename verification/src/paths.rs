//! The mathematical model: adjacency matrices, paths, path weights and
//! shortest distances.

use vstd::prelude::*;

verus! {

/// The entry of the matrix for the edge from `u` to `v`.
pub open spec fn edge(m: Seq<Seq<Option<u64>>>, u: int, v: int) -> Option<u64> {
    m[u][v]
}

/// A matrix is well formed when it is square, has an empty diagonal and
/// every weight in it is at least one.
pub open spec fn well_formed(m: Seq<Seq<Option<u64>>>) -> bool {
    &&& forall|i: int| 0 <= i < m.len() ==> (#[trigger] m[i]).len() == m.len()
    &&& forall|i: int| 0 <= i < m.len() ==> (#[trigger] edge(m, i, i)) is None
    &&& forall|i: int, j: int|
        0 <= i < m.len() && 0 <= j < m.len() && (#[trigger] edge(m, i, j)) is Some ==> edge(
            m,
            i,
            j,
        ).unwrap() >= 1
}

/// `p` is a non-empty sequence of vertices in which each vertex has an edge
/// to the next.
pub open spec fn is_path(m: Seq<Seq<Option<u64>>>, p: Seq<int>) -> bool
    decreases p.len(),
{
    if p.len() == 0 {
        false
    } else if p.len() == 1 {
        0 <= p[0] < m.len()
    } else {
        &&& is_path(m, p.drop_last())
        &&& 0 <= p.last() < m.len()
        &&& edge(m, p[p.len() - 2], p.last()) is Some
    }
}

/// The sum of the weights of the edges along `p`.
pub open spec fn path_weight(m: Seq<Seq<Option<u64>>>, p: Seq<int>) -> nat
    decreases p.len(),
{
    if p.len() <= 1 {
        0
    } else {
        path_weight(m, p.drop_last()) + edge(m, p[p.len() - 2], p.last()).unwrap() as nat
    }
}

/// `p` is a path that starts at `s` and ends at `v`.
pub open spec fn path_between(m: Seq<Seq<Option<u64>>>, p: Seq<int>, s: int, v: int) -> bool {
    is_path(m, p) && p[0] == s && p.last() == v
}

/// Some path leads from `s` to `v`.
pub open spec fn reachable(m: Seq<Seq<Option<u64>>>, s: int, v: int) -> bool {
    exists|p: Seq<int>| path_between(m, p, s, v)
}

/// Some path from `s` to `v` has weight exactly `d`.
pub open spec fn is_attained(m: Seq<Seq<Option<u64>>>, s: int, v: int, d: nat) -> bool {
    exists|p: Seq<int>| #[trigger] path_between(m, p, s, v) && path_weight(m, p) == d
}

/// No path from `s` to `v` weighs less than `d`.
pub open spec fn is_lower_bound(m: Seq<Seq<Option<u64>>>, s: int, v: int, d: nat) -> bool {
    forall|q: Seq<int>| #[trigger] path_between(m, q, s, v) ==> path_weight(m, q) >= d
}

/// `d` is the weight of a shortest path from `s` to `v`.
pub open spec fn is_distance(m: Seq<Seq<Option<u64>>>, s: int, v: int, d: nat) -> bool {
    is_attained(m, s, v, d) && is_lower_bound(m, s, v, d)
}

/// The weight of a shortest path from `s` to `v`, or `None` where no path
/// leads from `s` to `v`.
pub open spec fn shortest_distance(m: Seq<Seq<Option<u64>>>, s: int, v: int) -> Option<nat> {
    if reachable(m, s, v) {
        Some(choose|d: nat| is_distance(m, s, v, d))
    } else {
        None
    }
}

/// `dist` holds, for each vertex, the weight of a shortest path from `s`, or
/// `None` where no path exists.
pub open spec fn is_solution(m: Seq<Seq<Option<u64>>>, s: int, dist: Seq<Option<u128>>) -> bool {
    &&& dist.len() == m.len()
    &&& forall|v: int|
        0 <= v < m.len() ==> match #[trigger] dist[v] {
            Some(d) => is_distance(m, s, v, d as nat),
            None => !reachable(m, s, v),
        }
}

/// The path of the single vertex `s` leads from `s` to `s` and weighs nothing.
pub proof fn lemma_trivial_path(m: Seq<Seq<Option<u64>>>, s: int)
    requires
        0 <= s < m.len(),
    ensures
        path_between(m, seq![s], s, s),
        path_weight(m, seq![s]) == 0,
        is_distance(m, s, s, 0),
{
    let p = seq![s];
    assert(p.len() == 1);
    assert(is_path(m, p));
    assert(path_between(m, p, s, s));
}

/// A path to `u` followed by an edge from `u` to `v` is a path to `v`, and
/// weighs the edge's weight more.
pub proof fn lemma_extend_path(m: Seq<Seq<Option<u64>>>, p: Seq<int>, s: int, u: int, v: int)
    requires
        path_between(m, p, s, u),
        0 <= v < m.len(),
        edge(m, u, v) is Some,
    ensures
        path_between(m, p.push(v), s, v),
        path_weight(m, p.push(v)) == path_weight(m, p) + edge(m, u, v).unwrap(),
{
    let q = p.push(v);
    assert(q.drop_last() =~= p);
    assert(q[q.len() - 2] == u);
    assert(q.last() == v);
    assert(is_path(m, q));
}

/// A vertex has at most one distance from `s`.
pub proof fn lemma_distance_unique(m: Seq<Seq<Option<u64>>>, s: int, v: int, a: nat, b: nat)
    requires
        is_distance(m, s, v, a),
        is_distance(m, s, v, b),
    ensures
        a == b,
{
    let p = choose|p: Seq<int>| #[trigger] path_between(m, p, s, v) && path_weight(m, p) == a;
    let q = choose|q: Seq<int>| #[trigger] path_between(m, q, s, v) && path_weight(m, q) == b;
    assert(path_weight(m, p) >= b);
    assert(path_weight(m, q) >= a);
}

/// Two distance arrays that both solve the same problem are the same array:
/// the answer depends on the graph and the start vertex alone.
pub proof fn lemma_solution_unique(
    m: Seq<Seq<Option<u64>>>,
    s: int,
    a: Seq<Option<u128>>,
    b: Seq<Option<u128>>,
)
    requires
        is_solution(m, s, a),
        is_solution(m, s, b),
    ensures
        a == b,
{
    assert forall|v: int| 0 <= v < a.len() implies a[v] == b[v] by {
        match (a[v], b[v]) {
            (Some(x), Some(y)) => {
                lemma_distance_unique(m, s, v, x as nat, y as nat);
            },
            (Some(x), None) => {
                let p = choose|p: Seq<int>| #[trigger]
                    path_between(m, p, s, v) && path_weight(m, p) == x as nat;
                assert(reachable(m, s, v));
            },
            (None, Some(y)) => {
                let p = choose|p: Seq<int>| #[trigger]
                    path_between(m, p, s, v) && path_weight(m, p) == y as nat;
                assert(reachable(m, s, v));
            },
            (None, None) => {},
        }
    }
    assert(a =~= b);
}

/// Each entry of a solution is the shortest distance of its vertex.
pub proof fn lemma_solution_is_shortest(
    m: Seq<Seq<Option<u64>>>,
    s: int,
    dist: Seq<Option<u128>>,
    v: int,
)
    requires
        is_solution(m, s, dist),
        0 <= v < m.len(),
    ensures
        shortest_distance(m, s, v) == match dist[v] {
            Some(d) => Some(d as nat),
            None => None,
        },
{
    match dist[v] {
        Some(d) => {
            let p = choose|p: Seq<int>| #[trigger]
                path_between(m, p, s, v) && path_weight(m, p) == d as nat;
            assert(reachable(m, s, v));
            let c = choose|c: nat| is_distance(m, s, v, c);
            lemma_distance_unique(m, s, v, c, d as nat);
        },
        None => {},
    }
}

} // verus!
