use parallel_dijkstra::graph::{generate_graph_with, Graph};
use parallel_dijkstra::queue::{dijkstra, dijkstra_with as queue_dijkstra_with, MinQueue};
use parallel_dijkstra::solver::{dijkstra_with, SolverConfig};

fn graph_from(n: usize, edges: &[(usize, usize, i64)]) -> Graph {
    let mut m = vec![vec![None; n]; n];
    for &(u, v, w) in edges {
        m[u][v] = Some(w);
    }
    Graph::new(&m).expect("valid matrix")
}

fn scrambled_graph(n: usize, percent: u64, max_weight: u64, seed: u64) -> Graph {
    let mut state = seed;
    let mut m = vec![vec![None; n]; n];
    for i in 0..n {
        for j in 0..n {
            state = state.wrapping_mul(6364136223846793005).wrapping_add(1442695040888963407);
            let roll = state >> 33;
            if i != j && roll % 100 < percent {
                m[i][j] = Some((1 + (roll / 100) % max_weight) as i64);
            }
        }
    }
    Graph::new(&m).expect("valid matrix")
}

#[test]
fn queue_starts_empty() {
    let mut q = MinQueue::new();
    assert_eq!(q.len(), 0);
    assert_eq!(q.pop_min(), None);
    assert_eq!(q.len(), 0);
}

#[test]
fn queue_hands_out_the_least_entry_first() {
    let mut q = MinQueue::new();
    for entry in [(5u128, 1usize), (3, 7), (9, 0), (3, 2), (4, 4)] {
        q.push(entry);
    }
    assert_eq!(q.len(), 5);
    assert_eq!(q.pop_min(), Some((3, 2)));
    assert_eq!(q.pop_min(), Some((3, 7)));
    assert_eq!(q.pop_min(), Some((4, 4)));
    assert_eq!(q.len(), 2);
    q.push((1, 9));
    assert_eq!(q.pop_min(), Some((1, 9)));
    assert_eq!(q.pop_min(), Some((5, 1)));
    assert_eq!(q.pop_min(), Some((9, 0)));
    assert_eq!(q.pop_min(), None);
}

#[test]
fn queue_keeps_equal_entries() {
    let mut q = MinQueue::new();
    q.push((2, 2));
    q.push((2, 2));
    q.push((1, 5));
    assert_eq!(q.pop_min(), Some((1, 5)));
    assert_eq!(q.pop_min(), Some((2, 2)));
    assert_eq!(q.pop_min(), Some((2, 2)));
    assert_eq!(q.pop_min(), None);
}

#[test]
fn queue_solver_on_the_four_vertex_chain() {
    let g = graph_from(4, &[(0, 1, 2), (0, 2, 5), (1, 2, 1), (2, 3, 3)]);
    assert_eq!(dijkstra(&g, 0), vec![Some(0), Some(2), Some(3), Some(6)]);
    assert_eq!(dijkstra(&g, 2), vec![None, None, Some(0), Some(3)]);
}

#[test]
fn queue_solver_leaves_unreachable_vertices_alone() {
    let g = graph_from(4, &[(0, 1, 1), (1, 2, 1), (2, 0, 1), (3, 0, 1)]);
    assert_eq!(dijkstra(&g, 0), vec![Some(0), Some(1), Some(2), None]);
}

#[test]
fn queue_solver_on_a_single_vertex() {
    let g = graph_from(1, &[]);
    assert_eq!(dijkstra(&g, 0), vec![Some(0)]);
}

#[test]
fn queue_solver_replaces_a_stale_entry() {
    let g = graph_from(4, &[(0, 1, 10), (0, 2, 1), (2, 1, 2), (1, 3, 1)]);
    assert_eq!(dijkstra(&g, 0), vec![Some(0), Some(3), Some(1), Some(4)]);
}

#[test]
fn queue_solver_with_large_weights() {
    let big = i64::MAX;
    let g = graph_from(3, &[(0, 1, big), (1, 2, big)]);
    assert_eq!(dijkstra(&g, 0), vec![Some(0), Some(big as u128), Some(2 * big as u128)]);
}

#[test]
fn queue_solver_agrees_with_the_scanning_solver() {
    for seed in 0..30u64 {
        let n = 2 + (seed as usize % 14);
        let percent = 5 + (seed * 7) % 80;
        let g = scrambled_graph(n, percent, 30, seed + 3);
        for start in 0..n {
            assert_eq!(dijkstra(&g, start), dijkstra_with(&g, start, SolverConfig::sequential()));
        }
    }
}

#[test]
fn queue_solver_agrees_on_generated_graphs() {
    let g = generate_graph_with(50, 15, 20);
    assert_eq!(dijkstra(&g, 0), dijkstra_with(&g, 0, SolverConfig::parallel(2)));
}

#[test]
fn queue_solver_with_parallel_relaxation() {
    let g = graph_from(4, &[(0, 1, 2), (0, 2, 5), (1, 2, 1), (2, 3, 3)]);
    for threads in 0..4 {
        assert_eq!(
            queue_dijkstra_with(&g, 0, SolverConfig::parallel(threads)),
            vec![Some(0), Some(2), Some(3), Some(6)]
        );
    }
}

#[test]
fn queue_solver_gives_the_same_output_in_parallel() {
    for seed in 0..12u64 {
        let n = 5 + (seed as usize * 3) % 40;
        let g = scrambled_graph(n, 10 + seed * 5, 25, 900 + seed);
        let expected = dijkstra(&g, n / 2);
        assert_eq!(queue_dijkstra_with(&g, n / 2, SolverConfig::parallel(3)), expected);
        assert_eq!(queue_dijkstra_with(&g, n / 2, SolverConfig::sequential()), expected);
        assert_eq!(dijkstra_with(&g, n / 2, SolverConfig::parallel(2)), expected);
    }
}
