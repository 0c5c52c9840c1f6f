use parallel_dijkstra::error::SolverError;
use parallel_dijkstra::graph::{generate_graph, generate_graph_with, Graph};
use parallel_dijkstra::relax::relax;
use parallel_dijkstra::solver::{
    dijkstra, dijkstra_with, shortest_paths, shortest_paths_with, SolverConfig,
};

fn empty_matrix(n: usize) -> Vec<Vec<Option<i64>>> {
    vec![vec![None; n]; n]
}

fn graph_of(n: usize, edges: &[(usize, usize, i64)]) -> Graph {
    let mut m = empty_matrix(n);
    for &(u, v, w) in edges {
        m[u][v] = Some(w);
    }
    Graph::new(&m).expect("valid matrix")
}

fn all_configs() -> Vec<SolverConfig> {
    vec![
        SolverConfig::sequential(),
        SolverConfig::parallel(0),
        SolverConfig::parallel(1),
        SolverConfig::parallel(3),
        SolverConfig {
            parallel_selection: true,
            parallel_relaxation: false,
            threads: 2,
            early_exit: false,
        },
        SolverConfig {
            parallel_selection: false,
            parallel_relaxation: true,
            threads: 2,
            early_exit: true,
        },
        SolverConfig {
            parallel_selection: false,
            parallel_relaxation: false,
            threads: 0,
            early_exit: true,
        },
        SolverConfig {
            parallel_selection: true,
            parallel_relaxation: true,
            threads: 2,
            early_exit: false,
        },
    ]
}

/// Bellman-Ford over the edges of the graph, as an independent reference.
fn bellman_ford(g: &Graph, start: usize) -> Vec<Option<u128>> {
    let n = g.vertex_count();
    let mut dist: Vec<Option<u128>> = vec![None; n];
    dist[start] = Some(0);
    for _ in 0..n {
        let mut changed = false;
        for u in 0..n {
            if let Some(du) = dist[u] {
                for v in 0..n {
                    if let Some(w) = g.weight(u, v) {
                        let next = du + w as u128;
                        if dist[v].map_or(true, |dv| next < dv) {
                            dist[v] = Some(next);
                            changed = true;
                        }
                    }
                }
            }
        }
        if !changed {
            break;
        }
    }
    dist
}

/// A small deterministic generator for test graphs.
fn next_random(state: &mut u64) -> u64 {
    *state = state.wrapping_mul(6364136223846793005).wrapping_add(1442695040888963407);
    *state >> 33
}

fn pseudo_random_graph(n: usize, percent: u64, max_weight: u64, seed: u64) -> Graph {
    let mut state = seed;
    let mut m = empty_matrix(n);
    for i in 0..n {
        for j in 0..n {
            if i != j && next_random(&mut state) % 100 < percent {
                m[i][j] = Some((1 + next_random(&mut state) % max_weight) as i64);
            }
        }
    }
    Graph::new(&m).expect("valid matrix")
}

#[test]
fn four_vertex_chain_has_expected_distances() {
    let g = graph_of(4, &[(0, 1, 2), (0, 2, 5), (1, 2, 1), (2, 3, 3)]);
    let expected = vec![Some(0u128), Some(2), Some(3), Some(6)];
    assert_eq!(shortest_paths(&g, 0), Ok(expected.clone()));
    assert_eq!(dijkstra(&g, 0), expected);
    for config in all_configs() {
        assert_eq!(shortest_paths_with(&g, 0, config), Ok(expected.clone()));
        assert_eq!(dijkstra_with(&g, 0, config), expected);
    }
}

#[test]
fn four_vertex_chain_from_other_starts() {
    let g = graph_of(4, &[(0, 1, 2), (0, 2, 5), (1, 2, 1), (2, 3, 3)]);
    assert_eq!(shortest_paths(&g, 1), Ok(vec![None, Some(0), Some(1), Some(4)]));
    assert_eq!(shortest_paths(&g, 2), Ok(vec![None, None, Some(0), Some(3)]));
    assert_eq!(shortest_paths(&g, 3), Ok(vec![None, None, None, Some(0)]));
}

#[test]
fn disconnected_vertex_is_unreachable() {
    let g = graph_of(4, &[(0, 1, 1), (1, 2, 1), (2, 0, 1)]);
    for config in all_configs() {
        let dist = shortest_paths_with(&g, 0, config).expect("start is a vertex");
        assert_eq!(dist, vec![Some(0), Some(1), Some(2), None]);
        assert_eq!(dist[3], None);
    }
}

#[test]
fn outgoing_edges_do_not_make_a_vertex_reachable() {
    let g = graph_of(4, &[(0, 1, 1), (3, 0, 1), (3, 1, 1), (3, 2, 1)]);
    assert_eq!(shortest_paths(&g, 0), Ok(vec![Some(0), Some(1), None, None]));
}

#[test]
fn single_vertex_graph() {
    let g = graph_of(1, &[]);
    for config in all_configs() {
        assert_eq!(shortest_paths_with(&g, 0, config), Ok(vec![Some(0)]));
    }
}

#[test]
fn empty_graph_has_empty_distances() {
    let g = graph_of(0, &[]);
    assert_eq!(shortest_paths(&g, 0), Ok(vec![]));
    assert_eq!(shortest_paths(&g, 7), Ok(vec![]));
    assert_eq!(shortest_paths_with(&g, 0, SolverConfig::parallel(4)), Ok(vec![]));
}

#[test]
fn graph_without_edges() {
    let g = graph_of(5, &[]);
    for config in all_configs() {
        assert_eq!(
            shortest_paths_with(&g, 2, config),
            Ok(vec![None, None, Some(0), None, None])
        );
    }
}

#[test]
fn start_out_of_range_is_invalid_vertex() {
    let g = graph_of(3, &[(0, 1, 1)]);
    assert_eq!(shortest_paths(&g, 3), Err(SolverError::InvalidVertex));
    assert_eq!(shortest_paths(&g, usize::MAX), Err(SolverError::InvalidVertex));
    assert_eq!(
        shortest_paths_with(&g, 3, SolverConfig::parallel(4)),
        Err(SolverError::InvalidVertex)
    );
    assert_eq!(shortest_paths(&g, 2), Ok(vec![None, None, Some(0)]));
}

#[test]
fn self_loops_are_ignored() {
    let mut m = empty_matrix(3);
    m[0][0] = Some(1);
    m[1][1] = Some(1);
    m[0][1] = Some(4);
    m[1][2] = Some(2);
    let g = Graph::new(&m).expect("valid matrix");
    assert_eq!(shortest_paths(&g, 0), Ok(vec![Some(0), Some(4), Some(6)]));
}

#[test]
fn start_distance_is_zero() {
    let g = pseudo_random_graph(12, 40, 9, 11);
    for start in [0usize, 3, 7, 11] {
        for config in all_configs() {
            let dist = dijkstra_with(&g, start, config);
            assert_eq!(dist[start], Some(0));
        }
    }
}

#[test]
fn longer_path_with_lighter_edges_wins() {
    let g = graph_of(5, &[(0, 4, 100), (0, 1, 10), (1, 2, 10), (2, 3, 10), (3, 4, 10)]);
    assert_eq!(
        shortest_paths(&g, 0),
        Ok(vec![Some(0), Some(10), Some(20), Some(30), Some(40)])
    );
}

#[test]
fn tied_vertices_do_not_change_the_distances() {
    let g = graph_of(4, &[(0, 1, 4), (0, 2, 4), (1, 3, 5), (2, 3, 1)]);
    for config in all_configs() {
        assert_eq!(
            shortest_paths_with(&g, 0, config),
            Ok(vec![Some(0), Some(4), Some(4), Some(5)])
        );
    }
}

#[test]
fn large_weights_do_not_overflow() {
    let big = i64::MAX;
    let g = graph_of(4, &[(0, 1, big), (1, 2, big), (2, 3, big)]);
    let w = big as u128;
    for config in all_configs() {
        assert_eq!(
            shortest_paths_with(&g, 0, config),
            Ok(vec![Some(0), Some(w), Some(2 * w), Some(3 * w)])
        );
    }
}

#[test]
fn agrees_with_bellman_ford_on_dense_graphs() {
    for seed in 0..20u64 {
        let n = 3 + (seed as usize % 10);
        let g = pseudo_random_graph(n, 70, 20, seed + 1);
        for start in 0..n {
            assert_eq!(dijkstra(&g, start), bellman_ford(&g, start));
        }
    }
}

#[test]
fn agrees_with_bellman_ford_on_sparse_graphs() {
    for seed in 0..8u64 {
        let n = 4 + (seed as usize * 5 % 12);
        let g = pseudo_random_graph(n, 12, 50, 1000 + seed);
        for start in [0, n / 2, n - 1] {
            let expected = bellman_ford(&g, start);
            for config in all_configs() {
                assert_eq!(dijkstra_with(&g, start, config), expected);
            }
        }
    }
}

#[test]
fn unreachable_vertices_are_never_finite() {
    for seed in 0..10u64 {
        let n = 15;
        let g = pseudo_random_graph(n, 8, 5, 77 + seed);
        let reference = bellman_ford(&g, 0);
        let dist = dijkstra_with(&g, 0, SolverConfig::parallel(4));
        for v in 0..n {
            assert_eq!(dist[v].is_none(), reference[v].is_none());
        }
    }
}

#[test]
fn every_configuration_gives_the_same_output() {
    for seed in 0..4u64 {
        let g = pseudo_random_graph(25, 30, 7, 500 + seed);
        let first = shortest_paths(&g, 0);
        for _ in 0..2 {
            for config in all_configs() {
                assert_eq!(shortest_paths_with(&g, 0, config), first);
            }
        }
    }
}

#[test]
fn output_does_not_depend_on_the_number_of_threads() {
    let g = pseudo_random_graph(60, 20, 100, 9001);
    let expected = dijkstra(&g, 5);
    for threads in 0..9 {
        assert_eq!(dijkstra_with(&g, 5, SolverConfig::parallel(threads)), expected);
    }
}

#[test]
fn early_exit_does_not_change_the_output() {
    for seed in 0..25u64 {
        let n = 2 + (seed as usize % 20);
        let g = pseudo_random_graph(n, 3 + (seed * 4) % 40, 9, 31 + seed);
        let plain = SolverConfig::sequential();
        let early = SolverConfig { early_exit: true, ..plain };
        for start in 0..n {
            assert_eq!(dijkstra_with(&g, start, early), dijkstra_with(&g, start, plain));
        }
    }
}

#[test]
fn configurations() {
    let s = SolverConfig::sequential();
    assert!(!s.parallel_selection);
    assert!(!s.parallel_relaxation);
    assert!(!s.early_exit);
    assert_eq!(s.threads, 0);
    let p = SolverConfig::parallel(6);
    assert!(p.parallel_selection);
    assert!(p.parallel_relaxation);
    assert!(p.early_exit);
    assert_eq!(p.threads, 6);
}

#[test]
fn generated_graph_agrees_with_bellman_ford() {
    let g = generate_graph(40, 20);
    let expected = bellman_ford(&g, 0);
    assert_eq!(shortest_paths(&g, 0), Ok(expected.clone()));
    assert_eq!(shortest_paths_with(&g, 0, SolverConfig::parallel(4)), Ok(expected));
}

#[test]
fn sparse_generated_graph_agrees_with_bellman_ford() {
    let g = generate_graph_with(60, 1000, 3);
    for start in [0usize, 17, 59] {
        let expected = bellman_ford(&g, start);
        for config in all_configs() {
            assert_eq!(dijkstra_with(&g, start, config), expected);
        }
    }
}

#[test]
fn relaxing_converged_distances_changes_nothing() {
    let g = pseudo_random_graph(10, 50, 9, 4242);
    let solved = dijkstra(&g, 0);
    let nothing_visited = vec![false; 10];
    for u in 0..10 {
        if solved[u].is_some() {
            let mut again = solved.clone();
            relax(&g, u, &mut again, &nothing_visited);
            assert_eq!(again, solved);
        }
    }
}
