//! The solver with a priority queue: instead of scanning for the nearest
//! unvisited vertex, it keeps the tentative distances in a queue, takes the
//! least entry and skips entries that a later, shorter distance has made
//! stale.

use vstd::prelude::*;
use crate::graph::Graph;
use crate::paths::{edge, is_solution, well_formed};
use crate::pool::thread_pool;
use crate::relax::{
    apply_one, candidate_spec, collect_updates, is_applied, lemma_applied_is_relaxed,
    lemma_apply_next, no_worse, par_filter_map_collect, relaxed,
};
use crate::select::{is_selection, precedes};
use crate::solver::SolverConfig;
use crate::state::{
    at_most_one_open, lemma_count_positive, lemma_count_visit, lemma_finished,
    lemma_initial_state, lemma_round, solver_inv, unvisited_count, visited_first,
};

verus! {

/// The order of the entries: by distance, then by vertex.
pub open spec fn entry_le(a: (u128, usize), b: (u128, usize)) -> bool {
    a.0 < b.0 || (a.0 == b.0 && a.1 <= b.1)
}

/// `k` is the place of the least entry of `q`, the first such place where
/// the entry occurs more than once.
pub open spec fn is_least_at(q: Seq<(u128, usize)>, k: int) -> bool {
    &&& 0 <= k < q.len()
    &&& forall|i: int| 0 <= i < q.len() ==> entry_le(q[k], #[trigger] q[i])
    &&& forall|i: int| 0 <= i < k ==> #[trigger] q[i] != q[k]
}

/// A queue of `(distance, vertex)` entries that hands out the least entry
/// first. Its view is the sequence of the entries in the order in which they
/// are kept.
pub struct MinQueue {
    entries: Vec<(u128, usize)>,
}

impl View for MinQueue {
    type V = Seq<(u128, usize)>;

    closed spec fn view(&self) -> Seq<(u128, usize)> {
        self.entries@
    }
}

/// Whether entry `a` comes strictly before entry `b`.
fn entry_lt(a: (u128, usize), b: (u128, usize)) -> (r: bool)
    ensures
        r == (entry_le(a, b) && a != b),
{
    a.0 < b.0 || (a.0 == b.0 && a.1 < b.1)
}

impl MinQueue {
    /// The empty queue.
    pub fn new() -> (q: MinQueue)
        ensures
            q@ == Seq::<(u128, usize)>::empty(),
    {
        MinQueue { entries: Vec::new() }
    }

    /// The number of entries.
    pub fn len(&self) -> (n: usize)
        ensures
            n == self@.len(),
    {
        self.entries.len()
    }

    /// Adds an entry.
    pub fn push(&mut self, entry: (u128, usize))
        ensures
            final(self)@ == old(self)@.push(entry),
    {
        self.entries.push(entry);
    }

    /// Takes out the least entry, or returns `None` where the queue is
    /// empty.
    pub fn pop_min(&mut self) -> (r: Option<(u128, usize)>)
        ensures
            match r {
                None => old(self)@.len() == 0 && final(self)@ == old(self)@,
                Some(e) => exists|k: int|
                    #[trigger] is_least_at(old(self)@, k) && e == old(self)@[k] && final(self)@
                        == old(self)@.remove(k),
            },
    {
        let n = self.entries.len();
        if n == 0 {
            return None;
        }
        let mut best: usize = 0;
        let mut i: usize = 1;
        while i < n
            invariant
                n == self.entries.len(),
                1 <= i <= n,
                is_least_at(self.entries@.take(i as int), best as int),
            decreases n - i,
        {
            let ghost before = best;
            if entry_lt(self.entries[i], self.entries[best]) {
                best = i;
            }
            proof {
                let q0 = self.entries@.take(i as int);
                let q1 = self.entries@.take(i + 1);
                assert forall|j: int| 0 <= j < q1.len() implies entry_le(
                    q1[best as int],
                    #[trigger] q1[j],
                ) by {
                    if j < i {
                        assert(q1[j] == q0[j]);
                        assert(entry_le(q0[before as int], q0[j]));
                    }
                }
                assert forall|j: int| 0 <= j < best implies #[trigger] q1[j] != q1[best as int] by {
                    assert(q1[j] == q0[j]);
                    if best == before {
                    } else {
                        assert(entry_le(q0[before as int], q0[j]));
                    }
                }
            }
            i += 1;
        }
        proof {
            assert(self.entries@.take(n as int) =~= self.entries@);
        }
        let ghost before = self.entries@;
        let e = self.entries.remove(best);
        proof {
            assert(before == old(self)@);
            assert(is_least_at(before, best as int));
            assert(e == before[best as int]);
            assert(self@ == before.remove(best as int));
            assert(is_least_at(old(self)@, best as int) && e == old(self)@[best as int] && self@
                == old(self)@.remove(best as int));
        }
        Some(e)
    }
}

/// How the queue stands to the distances. The entry of a vertex is never
/// below its distance, and differs from it once the vertex is visited. Each
/// unvisited vertex that has a distance has an entry of exactly that
/// distance. No entry occurs twice.
pub open spec fn queue_inv(dist: Seq<Option<u128>>, visited: Seq<bool>, q: Seq<(u128, usize)>) -> bool {
    &&& forall|i: int|
        0 <= i < q.len() ==> (#[trigger] q[i]).1 < dist.len() && no_worse(
            dist[q[i].1 as int],
            Some(q[i].0),
        )
    &&& forall|i: int|
        0 <= i < q.len() && visited[(#[trigger] q[i]).1 as int] ==> dist[q[i].1 as int] != Some(
            q[i].0,
        )
    &&& forall|v: int|
        0 <= v < dist.len() && !visited[v] && (#[trigger] dist[v]) is Some ==> exists|i: int|
            0 <= i < q.len() && (#[trigger] q[i]).1 == v && q[i].0 == dist[v].unwrap()
    &&& forall|i: int, j: int| 0 <= i < j < q.len() ==> #[trigger] q[i] != #[trigger] q[j]
}

/// Taking one entry out keeps the queue in order with the distances, as
/// long as the entry is not the one that an unvisited vertex relies on.
proof fn lemma_queue_without(
    dist: Seq<Option<u128>>,
    visited: Seq<bool>,
    seen: Seq<bool>,
    q: Seq<(u128, usize)>,
    k: int,
)
    requires
        queue_inv(dist, visited, q),
        0 <= k < q.len(),
        seen.len() == visited.len(),
        visited.len() == dist.len(),
        forall|v: int|
            0 <= v < visited.len() ==> #[trigger] seen[v] == (visited[v] || (v == q[k].1
                && dist[v] == Some(q[k].0))),
    ensures
        queue_inv(dist, seen, q.remove(k)),
{
    let r = q.remove(k);
    assert forall|i: int| 0 <= i < r.len() implies #[trigger] r[i] == q[if i < k {
        i
    } else {
        i + 1
    }] by {}
    assert forall|i: int| 0 <= i < r.len() implies (#[trigger] r[i]).1 < dist.len() && no_worse(
        dist[r[i].1 as int],
        Some(r[i].0),
    ) by {
        let j = if i < k {
            i
        } else {
            i + 1
        };
        assert(r[i] == q[j]);
    }
    assert forall|i: int| 0 <= i < r.len() && seen[(#[trigger] r[i]).1 as int] implies dist[r[i].1 as int]
        != Some(r[i].0) by {
        let j = if i < k {
            i
        } else {
            i + 1
        };
        assert(r[i] == q[j]);
        assert(q[j] != q[k]);
    }
    assert forall|v: int|
        0 <= v < dist.len() && !seen[v] && (#[trigger] dist[v]) is Some implies exists|i: int|
        0 <= i < r.len() && (#[trigger] r[i]).1 == v && r[i].0 == dist[v].unwrap() by {
        let j = choose|j: int|
            0 <= j < q.len() && (#[trigger] q[j]).1 == v && q[j].0 == dist[v].unwrap();
        assert(j != k);
        let i = if j < k {
            j
        } else {
            j - 1
        };
        assert(r[i] == q[j]);
    }
    assert forall|i: int, j: int| 0 <= i < j < r.len() implies #[trigger] r[i] != #[trigger] r[j] by {
        let a = if i < k {
            i
        } else {
            i + 1
        };
        let b = if j < k {
            j
        } else {
            j + 1
        };
        assert(r[i] == q[a] && r[j] == q[b]);
    }
}

/// The vertex of the least entry, where that entry holds the vertex's
/// distance, is the nearest unvisited vertex.
proof fn lemma_least_entry_is_selection(
    dist: Seq<Option<u128>>,
    visited: Seq<bool>,
    q: Seq<(u128, usize)>,
    k: int,
)
    requires
        dist.len() == visited.len(),
        queue_inv(dist, visited, q),
        is_least_at(q, k),
        dist[q[k].1 as int] == Some(q[k].0),
    ensures
        is_selection(dist, visited, Some(q[k].1)),
{
    let u = q[k].1;
    assert forall|j: int| 0 <= j < visited.len() && !#[trigger] visited[j] implies precedes(
        dist[u as int],
        u as int,
        dist[j],
        j,
    ) by {
        if dist[j] is Some {
            let i = choose|i: int|
                0 <= i < q.len() && (#[trigger] q[i]).1 == j && q[i].0 == dist[j].unwrap();
            assert(entry_le(q[k], q[i]));
        }
    }
}

/// Entering a lowered distance of an unvisited vertex keeps the queue in
/// order with the distances.
proof fn lemma_queue_lowered(
    dist: Seq<Option<u128>>,
    visited: Seq<bool>,
    q: Seq<(u128, usize)>,
    x: usize,
    val: u128,
)
    requires
        queue_inv(dist, visited, q),
        visited.len() == dist.len(),
        x < dist.len(),
        !visited[x as int],
        dist[x as int] is None || val < dist[x as int].unwrap(),
    ensures
        queue_inv(dist.update(x as int, Some(val)), visited, q.push((val, x))),
{
    let after = dist.update(x as int, Some(val));
    let q2 = q.push((val, x));
    assert(q2[q.len() as int] == (val, x));
    assert forall|i: int| 0 <= i < q.len() implies #[trigger] q2[i] == q[i] by {}
    assert forall|v: int|
        0 <= v < after.len() && !visited[v] && (#[trigger] after[v]) is Some implies exists|i: int|
        0 <= i < q2.len() && (#[trigger] q2[i]).1 == v && q2[i].0 == after[v].unwrap() by {
        if v == x {
            assert(q2[q.len() as int].1 == v);
        } else {
            assert(after[v] == dist[v]);
            let i = choose|i: int|
                0 <= i < q.len() && (#[trigger] q[i]).1 == v && q[i].0 == dist[v].unwrap();
            assert(q2[i] == q[i]);
        }
    }
    assert forall|i: int, j: int| 0 <= i < j < q2.len() implies #[trigger] q2[i] != #[trigger] q2[j] by {
        assert(q2[i] == q[i]);
        if j < q.len() {
            assert(q2[j] == q[j]);
        } else {
            assert(no_worse(dist[q[i].1 as int], Some(q[i].0)));
        }
    }
    assert forall|i: int| 0 <= i < q2.len() implies (#[trigger] q2[i]).1 < after.len() && no_worse(
        after[q2[i].1 as int],
        Some(q2[i].0),
    ) by {
        if i < q.len() {
            assert(q2[i] == q[i]);
            assert(no_worse(dist[q[i].1 as int], Some(q[i].0)));
        }
    }
    assert forall|i: int| 0 <= i < q2.len() && visited[(#[trigger] q2[i]).1 as int] implies after[q2[i].1 as int]
        != Some(q2[i].0) by {
        if i < q.len() {
            assert(q2[i] == q[i]);
        }
    }
}

/// An edge from the vertex that is being settled offers nothing to a
/// visited vertex, so relaxation need not know which vertices are visited.
proof fn lemma_visited_is_out_of_reach(
    m: Seq<Seq<Option<u64>>>,
    dist: Seq<Option<u128>>,
    visited: Seq<bool>,
    u: int,
    x: int,
)
    requires
        well_formed(m),
        dist.len() == m.len(),
        visited.len() == m.len(),
        visited_first(dist, visited),
        0 <= u < m.len(),
        0 <= x < m.len(),
        !visited[u],
        dist[u] is Some,
        visited[x] || x == u,
    ensures
        candidate_spec(dist[u].unwrap(), m[u][x], dist[x], false) is None,
{
    assert(m[u][x] == edge(m, u, x));
    if x != u {
        assert(visited[x] && !visited[u]);
    }
}

/// Computes the shortest distance from `start` to every vertex, taking the
/// next vertex from a priority queue.
///
/// The queue starts with the start vertex. Each entry taken out is skipped
/// where its vertex has got a shorter distance since; otherwise the
/// candidates along the edges that leave the vertex are collected, and each
/// one that lowers a distance is applied and entered. The solver is done
/// when the queue is empty.
///
/// With `config.parallel_relaxation` the candidates are collected on a
/// thread pool of `config.threads` threads, built for this call; where the
/// system does not give the threads, on the calling thread.
pub fn dijkstra_with(graph: &Graph, start: usize, config: SolverConfig) -> (dist: Vec<Option<u128>>)
    requires
        start < graph@.len(),
    ensures
        is_solution(graph@, start as int, dist@),
        dist[start as int] == Some(0u128),
{
    let n = graph.vertex_count();
    let mut dist: Vec<Option<u128>> = Vec::new();
    let mut unseen: Vec<bool> = Vec::new();
    let mut i: usize = 0;
    while i < n
        invariant
            i <= n,
            dist.len() == i,
            unseen.len() == i,
            forall|k: int| 0 <= k < i ==> #[trigger] dist[k] == None::<u128>,
            forall|k: int| 0 <= k < i ==> !#[trigger] unseen[k],
        decreases n - i,
    {
        dist.push(None);
        unseen.push(false);
        i += 1;
    }
    dist.set(start, Some(0));
    let pool = if config.parallel_relaxation {
        thread_pool(config.threads)
    } else {
        None
    };
    let mut queue = MinQueue::new();
    queue.push((0, start));
    let ghost mut visited: Seq<bool> = unseen@;
    let ghost mut rounds: nat = 0;
    proof {
        lemma_initial_state(graph@, start as int, dist@, visited);
        assert(queue@[0] == (0u128, start));
    }
    loop
        invariant
            n == graph@.len(),
            well_formed(graph@),
            unseen.len() == n,
            forall|k: int| 0 <= k < n ==> !#[trigger] unseen[k],
            solver_inv(graph@, start as int, dist@, visited, rounds),
            queue_inv(dist@, visited, queue@),
        ensures
            solver_inv(graph@, start as int, dist@, visited, rounds),
            queue_inv(dist@, visited, queue@),
            queue@.len() == 0,
        decreases queue@.len() + unvisited_count(visited) * (n + 1),
    {
        let ghost q0 = queue@;
        let ghost dist0 = dist@;
        let ghost visited0 = visited;
        let ghost count0 = unvisited_count(visited);
        let entry = match queue.pop_min() {
            Some(entry) => entry,
            None => {
                break ;
            },
        };
        let d = entry.0;
        let v = entry.1;
        let ghost k = choose|k: int|
            #[trigger] is_least_at(q0, k) && entry == q0[k] && queue@ == q0.remove(k);
        assert(q0[k].1 < dist.len());
        let current = match dist[v] {
            Some(cur) => cur == d,
            None => false,
        };
        if current {
            proof {
                lemma_least_entry_is_selection(dist0, visited0, q0, k);
                lemma_round(graph@, start as int, dist0, visited0, rounds, v);
                lemma_count_visit(visited0, v as int);
                lemma_count_positive(visited0, v as int);
                visited = visited0.update(v as int, true);
                rounds = rounds + 1;
                lemma_queue_without(dist0, visited0, visited, q0, k);
            }
            let row = graph.row(v);
            let ups = match &pool {
                Some(workers) => par_filter_map_collect(workers, row, d, &dist, &unseen),
                None => collect_updates(row, d, &dist, &unseen),
            };
            proof {
                assert forall|i: int| 0 <= i < ups.len() implies (#[trigger] ups[i]).0 < n
                    && !visited[ups[i].0 as int] by {
                    let x = ups[i].0 as int;
                    if visited[x] {
                        lemma_visited_is_out_of_reach(graph@, dist0, visited0, v as int, x);
                    }
                }
            }
            let mut j: usize = 0;
            while j < ups.len()
                invariant
                    n == graph@.len(),
                    dist.len() == n,
                    dist0.len() == n,
                    visited.len() == n,
                    j <= ups.len(),
                    ups.len() <= n,
                    forall|i: int|
                        0 <= i < ups.len() ==> (#[trigger] ups[i]).0 < n && !visited[ups[i].0 as int],
                    is_applied(dist0, ups@.take(j as int), dist@),
                    queue_inv(dist@, visited, queue@),
                    queue@.len() <= q0.len() - 1 + j,
                decreases ups.len() - j,
            {
                let ghost before = dist@;
                let ghost q1 = queue@;
                let (x, val) = ups[j];
                let lower = match dist[x] {
                    Some(cur) => val < cur,
                    None => true,
                };
                if lower {
                    dist.set(x, Some(val));
                    queue.push((val, x));
                    proof {
                        lemma_queue_lowered(before, visited, q1, x, val);
                    }
                }
                proof {
                    lemma_apply_next(dist0, ups@, j as int, before);
                    assert(dist@ == apply_one(before, ups@[j as int]));
                }
                j += 1;
            }
            proof {
                assert(ups@.take(ups.len() as int) =~= ups@);
                lemma_applied_is_relaxed(row@, d, dist0, unseen@, ups@, dist@);
                let target = relaxed(graph@[v as int], d, dist0, visited);
                assert forall|x: int| 0 <= x < n implies dist@[x] == target[x] by {
                    if visited[x] {
                        lemma_visited_is_out_of_reach(graph@, dist0, visited0, v as int, x);
                    }
                }
                assert(dist@ =~= target);
                assert((count0 - 1) * (n + 1) == count0 * (n + 1) - (n + 1)) by (nonlinear_arith);
            }
        } else {
            proof {
                assert(dist0[v as int] != Some(d));
                lemma_queue_without(dist0, visited0, visited0, q0, k);
            }
        }
    }
    proof {
        assert(at_most_one_open(dist@, visited)) by {
            assert forall|y: int| 0 <= y < dist.len() && !#[trigger] visited[y] implies dist[y] is None by {
                if dist[y] is Some {
                    let i = choose|i: int|
                        0 <= i < queue@.len() && (#[trigger] queue@[i]).1 == y && queue@[i].0
                            == dist[y].unwrap();
                }
            }
        }
        lemma_finished(graph@, start as int, dist@, visited, rounds);
    }
    dist
}

/// Computes the shortest distance from `start` to every vertex with the
/// priority queue, every step on the calling thread.
pub fn dijkstra(graph: &Graph, start: usize) -> (dist: Vec<Option<u128>>)
    requires
        start < graph@.len(),
    ensures
        is_solution(graph@, start as int, dist@),
        dist[start as int] == Some(0u128),
{
    dijkstra_with(graph, start, SolverConfig::sequential())
}

} // verus!
