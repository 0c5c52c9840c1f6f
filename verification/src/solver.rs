//! The solver: rounds of selection and relaxation until every reachable
//! vertex holds its shortest distance.

use vstd::prelude::*;
use crate::error::SolverError;
use crate::graph::Graph;
use crate::paths::{is_solution, lemma_solution_unique, well_formed};
use crate::pool::thread_pool;
use crate::relax::{no_worse, relax, relax_parallel, relaxed};
use crate::select::{is_selection, min_distance, min_distance_parallel, precedes};
use crate::state::{
    at_most_one_open, lemma_finished, lemma_initial_state, lemma_one_left, lemma_round, solver_inv,
};

verus! {

/// Which steps of a round run in parallel, and on how many threads. The
/// distances that come out are the same for every choice.
#[derive(Clone, Copy, Debug, PartialEq, Eq, Structural)]
pub struct SolverConfig {
    /// Select the next vertex by a parallel reduction.
    pub parallel_selection: bool,
    /// Compute the candidates of a relaxation step in parallel.
    pub parallel_relaxation: bool,
    /// The number of worker threads for the parallel steps; zero leaves the
    /// number to the thread pool.
    pub threads: usize,
    /// Stop as soon as every vertex left is unreachable, instead of running
    /// all `n - 1` rounds.
    pub early_exit: bool,
}

impl SolverConfig {
    /// Every step on the calling thread, for all `n - 1` rounds.
    pub fn sequential() -> (c: SolverConfig)
        ensures
            c == (SolverConfig {
                parallel_selection: false,
                parallel_relaxation: false,
                threads: 0,
                early_exit: false,
            }),
    {
        SolverConfig {
            parallel_selection: false,
            parallel_relaxation: false,
            threads: 0,
            early_exit: false,
        }
    }

    /// Selection and relaxation both in parallel, on `threads` threads, with
    /// the early exit.
    pub fn parallel(threads: usize) -> (c: SolverConfig)
        ensures
            c == (SolverConfig {
                parallel_selection: true,
                parallel_relaxation: true,
                threads,
                early_exit: true,
            }),
    {
        SolverConfig { parallel_selection: true, parallel_relaxation: true, threads, early_exit: true }
    }
}

/// A vector of `n` copies of `value`.
fn filled<T: Copy>(value: T, n: usize) -> (v: Vec<T>)
    ensures
        v.len() == n,
        forall|i: int| 0 <= i < n ==> #[trigger] v[i] == value,
{
    let mut v: Vec<T> = Vec::new();
    let mut i: usize = 0;
    while i < n
        invariant
            i <= n,
            v.len() == i,
            forall|k: int| 0 <= k < i ==> #[trigger] v[k] == value,
        decreases n - i,
    {
        v.push(value);
        i += 1;
    }
    v
}

/// No vertex is open: every unvisited vertex is without a distance.
pub open spec fn no_open_vertex(dist: Seq<Option<u128>>, visited: Seq<bool>) -> bool {
    forall|v: int| 0 <= v < visited.len() && !#[trigger] visited[v] ==> dist[v] is None
}

/// What one round does to the distances and the visited set.
///
/// Where the nearest unvisited vertex `u` has a distance, the round settles
/// it: `u` becomes visited and the edges that leave it are relaxed. Where no
/// unvisited vertex has a distance, the round changes nothing.
pub open spec fn is_round(
    m: Seq<Seq<Option<u64>>>,
    dist: Seq<Option<u128>>,
    visited: Seq<bool>,
    dist_after: Seq<Option<u128>>,
    visited_after: Seq<bool>,
    settled: Option<usize>,
) -> bool {
    match settled {
        Some(u) => {
            &&& is_selection(dist, visited, Some(u))
            &&& dist[u as int] is Some
            &&& visited_after == visited.update(u as int, true)
            &&& dist_after == relaxed(m[u as int], dist[u as int].unwrap(), dist, visited_after)
        },
        None => {
            &&& no_open_vertex(dist, visited)
            &&& visited_after == visited
            &&& dist_after == dist
        },
    }
}

/// The first step of a round: finds the nearest unvisited vertex, on `pool`
/// where one is given and `config` asks for a parallel selection. Returns
/// `None` where no unvisited vertex has a distance.
pub fn select(
    pool: &Option<rayon::ThreadPool>,
    config: SolverConfig,
    dist: &Vec<Option<u128>>,
    visited: &Vec<bool>,
) -> (r: Option<usize>)
    requires
        dist.len() == visited.len(),
    ensures
        match r {
            Some(u) => is_selection(dist@, visited@, Some(u)) && dist[u as int] is Some,
            None => no_open_vertex(dist@, visited@),
        },
{
    let selected = match pool {
        Some(workers) => if config.parallel_selection {
            min_distance_parallel(workers, dist, visited)
        } else {
            min_distance(dist, visited)
        },
        None => min_distance(dist, visited),
    };
    match selected {
        Some(u) => {
            if dist[u].is_none() {
                proof {
                    assert forall|y: int| 0 <= y < visited.len() && !#[trigger] visited[y] implies dist[y] is None by {
                        assert(precedes(dist[u as int], u as int, dist[y], y));
                    }
                }
                None
            } else {
                Some(u)
            }
        },
        None => None,
    }
}

/// The second step of a round: marks `u` visited and relaxes the edges that
/// leave it, on `pool` where one is given and `config` asks for a parallel
/// relaxation. No distance grows, and no vertex leaves the visited set.
pub fn settle(
    graph: &Graph,
    pool: &Option<rayon::ThreadPool>,
    config: SolverConfig,
    u: usize,
    dist: &mut Vec<Option<u128>>,
    visited: &mut Vec<bool>,
)
    requires
        u < graph@.len(),
        old(dist).len() == graph@.len(),
        old(visited).len() == graph@.len(),
        old(dist)[u as int] is Some,
    ensures
        final(visited)@ == old(visited)@.update(u as int, true),
        final(dist)@ == relaxed(
            graph@[u as int],
            old(dist)[u as int].unwrap(),
            old(dist)@,
            final(visited)@,
        ),
        forall|v: int|
            0 <= v < old(dist).len() ==> no_worse(#[trigger] final(dist)[v], old(dist)[v]),
{
    visited.set(u, true);
    match pool {
        Some(workers) => if config.parallel_relaxation {
            relax_parallel(workers, graph, u, dist, visited);
        } else {
            relax(graph, u, dist, visited);
        },
        None => {
            relax(graph, u, dist, visited);
        },
    }
}

/// Runs one round: selects the nearest unvisited vertex, marks it visited
/// and relaxes the edges that leave it. Returns the vertex that was settled,
/// or `None` where no unvisited vertex has a distance.
///
/// The steps that `config` names run on `pool` where one is given, and on
/// the calling thread otherwise. No distance grows in a round, and no vertex
/// leaves the visited set.
pub fn round(
    graph: &Graph,
    pool: &Option<rayon::ThreadPool>,
    config: SolverConfig,
    dist: &mut Vec<Option<u128>>,
    visited: &mut Vec<bool>,
) -> (settled: Option<usize>)
    requires
        old(dist).len() == graph@.len(),
        old(visited).len() == graph@.len(),
    ensures
        is_round(graph@, old(dist)@, old(visited)@, final(dist)@, final(visited)@, settled),
        final(dist).len() == old(dist).len(),
        final(visited).len() == old(visited).len(),
        forall|v: int|
            0 <= v < old(dist).len() ==> no_worse(#[trigger] final(dist)[v], old(dist)[v]),
        forall|v: int|
            0 <= v < old(visited).len() && old(visited)[v] ==> #[trigger] final(visited)[v],
{
    match select(pool, config, dist, visited) {
        Some(u) => {
            settle(graph, pool, config, u, dist, visited);
            Some(u)
        },
        None => None,
    }
}

/// Computes the shortest distance from `start` to every vertex, with the
/// steps that `config` names run in parallel.
///
/// The solver runs `n - 1` rounds; with `config.early_exit` it stops as soon
/// as every vertex left is unreachable, which spares rounds that change
/// nothing. A vertex that no path reaches keeps the distance `None`.
///
/// The parallel steps run on a thread pool of their own, built for this
/// call. Where the system does not give the threads, every step runs on the
/// calling thread.
pub fn dijkstra_with(graph: &Graph, start: usize, config: SolverConfig) -> (dist: Vec<Option<u128>>)
    requires
        start < graph@.len(),
    ensures
        is_solution(graph@, start as int, dist@),
        dist[start as int] == Some(0u128),
{
    let n = graph.vertex_count();
    let mut dist: Vec<Option<u128>> = filled(None, n);
    let mut visited: Vec<bool> = filled(false, n);
    dist.set(start, Some(0));
    let pool = if config.parallel_selection || config.parallel_relaxation {
        thread_pool(config.threads)
    } else {
        None
    };
    let mut turns: usize = 0;
    let mut exhausted = false;
    let ghost mut rounds: nat = 0;
    proof {
        lemma_initial_state(graph@, start as int, dist@, visited@);
        lemma_one_left(dist@, visited@);
    }
    while turns < n - 1
        invariant
            n == graph@.len(),
            turns <= n - 1,
            well_formed(graph@),
            solver_inv(graph@, start as int, dist@, visited@, rounds),
            !exhausted ==> rounds == turns,
            exhausted ==> no_open_vertex(dist@, visited@),
            turns == n - 1 ==> at_most_one_open(dist@, visited@),
        ensures
            solver_inv(graph@, start as int, dist@, visited@, rounds),
            at_most_one_open(dist@, visited@),
        decreases n - turns,
    {
        let ghost dist_before = dist@;
        let ghost visited_before = visited@;
        match round(graph, &pool, config, &mut dist, &mut visited) {
            Some(u) => {
                proof {
                    lemma_round(graph@, start as int, dist_before, visited_before, rounds, u);
                    rounds = rounds + 1;
                }
            },
            None => {
                exhausted = true;
                if config.early_exit {
                    break ;
                }
            },
        }
        turns += 1;
        proof {
            lemma_one_left(dist@, visited@);
        }
    }
    proof {
        lemma_finished(graph@, start as int, dist@, visited@, rounds);
    }
    dist
}

/// Computes the shortest distance from `start` to every vertex, every step
/// on the calling thread.
pub fn dijkstra(graph: &Graph, start: usize) -> (dist: Vec<Option<u128>>)
    requires
        start < graph@.len(),
    ensures
        is_solution(graph@, start as int, dist@),
        dist[start as int] == Some(0u128),
{
    dijkstra_with(graph, start, SolverConfig::sequential())
}

/// What `shortest_paths` owes for a graph of matrix `m` and a start vertex
/// `start`: the distances where `start` is a vertex, the empty array for the
/// graph without vertices, and `InvalidVertex` otherwise.
pub open spec fn is_answer(
    m: Seq<Seq<Option<u64>>>,
    start: usize,
    r: Result<Vec<Option<u128>>, SolverError>,
) -> bool {
    match r {
        Ok(dist) => {
            &&& m.len() == 0 || start < m.len()
            &&& is_solution(m, start as int, dist@)
            &&& start < m.len() ==> dist[start as int] == Some(0u128)
        },
        Err(e) => m.len() > 0 && start >= m.len() && e == SolverError::InvalidVertex,
    }
}

/// The shortest distances from `start`, with the steps that `config` names
/// run in parallel. A graph without vertices has the empty array of
/// distances, whatever `start` is. Otherwise a `start` that is not a vertex
/// of the graph is rejected as `InvalidVertex`.
pub fn shortest_paths_with(graph: &Graph, start: usize, config: SolverConfig) -> (r: Result<
    Vec<Option<u128>>,
    SolverError,
>)
    ensures
        is_answer(graph@, start, r),
{
    let n = graph.vertex_count();
    if n == 0 {
        return Ok(Vec::new());
    }
    if start >= n {
        return Err(SolverError::InvalidVertex);
    }
    Ok(dijkstra_with(graph, start, config))
}

/// The shortest distances from `start`, computed on the calling thread. A
/// graph without vertices has the empty array of distances, whatever `start`
/// is. Otherwise a `start` that is not a vertex of the graph is rejected as
/// `InvalidVertex`.
pub fn shortest_paths(graph: &Graph, start: usize) -> (r: Result<Vec<Option<u128>>, SolverError>)
    ensures
        is_answer(graph@, start, r),
{
    shortest_paths_with(graph, start, SolverConfig::sequential())
}

/// The answer does not depend on how the work was done: two results for the
/// same graph and start vertex, from whichever configurations, are equal.
pub proof fn lemma_answers_agree(
    m: Seq<Seq<Option<u64>>>,
    start: usize,
    a: Result<Vec<Option<u128>>, SolverError>,
    b: Result<Vec<Option<u128>>, SolverError>,
)
    requires
        is_answer(m, start, a),
        is_answer(m, start, b),
    ensures
        a is Ok == b is Ok,
        a is Ok ==> a.unwrap()@ == b.unwrap()@,
        a is Err ==> a == b,
{
    if a is Ok {
        lemma_solution_unique(m, start as int, a.unwrap()@, b.unwrap()@);
    }
}

} // verus!
