//! The graph store: an immutable adjacency matrix of positive weights.

use vstd::prelude::*;
use crate::error::SolverError;
use crate::paths::{edge, well_formed};
use crate::random::gen_range_inclusive;

verus! {

/// A directed graph on the vertices `0..n`, held as an `n` by `n` matrix in
/// which the entry for `(u, v)` is the weight of the edge from `u` to `v`.
pub struct Graph {
    weights: Vec<Vec<Option<u64>>>,
}

impl View for Graph {
    type V = Seq<Seq<Option<u64>>>;

    closed spec fn view(&self) -> Seq<Seq<Option<u64>>> {
        Seq::new(self.weights.len() as nat, |i: int| self.weights[i]@)
    }
}

/// The matrix that a valid input stands for: the same weights, as unsigned
/// numbers, with the diagonal cleared.
pub open spec fn normalized(matrix: Seq<Vec<Option<i64>>>) -> Seq<Seq<Option<u64>>> {
    Seq::new(
        matrix.len(),
        |i: int|
            Seq::new(
                matrix[i].len() as nat,
                |j: int|
                    if i == j {
                        None
                    } else {
                        match matrix[i][j] {
                            Some(w) => Some(w as u64),
                            None => None,
                        }
                    },
            ),
    )
}

/// An input matrix is valid when it is square and every weight in it is at
/// least one.
pub open spec fn valid_matrix(matrix: Seq<Vec<Option<i64>>>) -> bool {
    &&& forall|i: int| 0 <= i < matrix.len() ==> (#[trigger] matrix[i]).len() == matrix.len()
    &&& forall|i: int, j: int|
        0 <= i < matrix.len() && 0 <= j < matrix[i].len() ==> match #[trigger] matrix[i][j] {
            Some(w) => w >= 1,
            None => true,
        }
}

/// Whether every weight in `row` is at least one.
fn row_is_positive(row: &Vec<Option<i64>>) -> (ok: bool)
    ensures
        ok == forall|j: int|
            0 <= j < row.len() ==> match #[trigger] row[j] {
                Some(w) => w >= 1,
                None => true,
            },
{
    let mut j: usize = 0;
    while j < row.len()
        invariant
            j <= row.len(),
            forall|k: int|
                0 <= k < j ==> match #[trigger] row[k] {
                    Some(w) => w >= 1,
                    None => true,
                },
        decreases row.len() - j,
    {
        match row[j] {
            Some(w) => {
                if w < 1 {
                    return false;
                }
            },
            None => {},
        }
        j += 1;
    }
    true
}

/// Copies a row of valid weights, leaving out the entry at `skip`.
fn convert_row(row: &Vec<Option<i64>>, skip: usize) -> (out: Vec<Option<u64>>)
    requires
        forall|j: int|
            0 <= j < row.len() ==> match #[trigger] row[j] {
                Some(w) => w >= 1,
                None => true,
            },
    ensures
        out.len() == row.len(),
        forall|j: int|
            0 <= j < row.len() ==> #[trigger] out[j] == (if j == skip {
                None
            } else {
                match row[j] {
                    Some(w) => Some(w as u64),
                    None => None,
                }
            }),
{
    let mut out: Vec<Option<u64>> = Vec::new();
    let mut j: usize = 0;
    while j < row.len()
        invariant
            j <= row.len(),
            out.len() == j,
            forall|k: int|
                0 <= k < row.len() ==> match #[trigger] row[k] {
                    Some(w) => w >= 1,
                    None => true,
                },
            forall|k: int|
                0 <= k < j ==> #[trigger] out[k] == (if k == skip {
                    None
                } else {
                    match row[k] {
                        Some(w) => Some(w as u64),
                        None => None,
                    }
                }),
        decreases row.len() - j,
    {
        let entry: Option<u64> = if j == skip {
            None
        } else {
            match row[j] {
                Some(w) => Some(w as u64),
                None => None,
            }
        };
        out.push(entry);
        j += 1;
    }
    out
}

impl Graph {
    /// The representation invariant, which holds of every graph: the matrix
    /// is square, its diagonal is empty and every weight is at least one.
    #[verifier::type_invariant]
    spec fn inv(self) -> bool {
        well_formed(self@)
    }

    /// Builds a graph from an adjacency matrix. The matrix must be square and
    /// each weight at least one; otherwise the input is rejected. Entries on
    /// the diagonal are dropped: a vertex has no edge to itself.
    pub fn new(matrix: &Vec<Vec<Option<i64>>>) -> (r: Result<Graph, SolverError>)
        ensures
            match r {
                Ok(g) => valid_matrix(matrix@) && well_formed(g@) && g@ == normalized(matrix@),
                Err(e) => !valid_matrix(matrix@) && e == SolverError::InvalidInput,
            },
    {
        let n = matrix.len();
        let mut weights: Vec<Vec<Option<u64>>> = Vec::new();
        let mut i: usize = 0;
        while i < n
            invariant
                n == matrix.len(),
                i <= n,
                weights.len() == i,
                forall|k: int| 0 <= k < i ==> (#[trigger] matrix[k]).len() == n,
                forall|k: int, j: int|
                    0 <= k < i && 0 <= j < matrix[k].len() ==> match #[trigger] matrix[k][j] {
                        Some(w) => w >= 1,
                        None => true,
                    },
                forall|k: int| 0 <= k < i ==> (#[trigger] weights[k])@ == normalized(matrix@)[k],
            decreases n - i,
        {
            let row = &matrix[i];
            if row.len() != n {
                return Err(SolverError::InvalidInput);
            }
            if !row_is_positive(row) {
                proof {
                    let j = choose|j: int|
                        0 <= j < row.len() && !(match #[trigger] row[j] {
                            Some(w) => w >= 1,
                            None => true,
                        });
                    assert(!(match matrix[i as int][j] {
                        Some(w) => w >= 1,
                        None => true,
                    }));
                }
                return Err(SolverError::InvalidInput);
            }
            let converted = convert_row(row, i);
            assert(converted@ =~= normalized(matrix@)[i as int]);
            weights.push(converted);
            i += 1;
        }
        proof {
            let m = Seq::new(weights.len() as nat, |i: int| weights[i]@);
            assert(m =~= normalized(matrix@));
            assert forall|a: int, b: int|
                0 <= a < m.len() && 0 <= b < m.len() && (#[trigger] edge(m, a, b)) is Some implies edge(
                m,
                a,
                b,
            ).unwrap() >= 1 by {
                assert(matrix[a][b] is Some);
            }
            assert(well_formed(m));
        }
        Ok(Graph { weights })
    }

    /// The number of vertices. Every graph is well formed, and a caller
    /// learns so here.
    pub fn vertex_count(&self) -> (n: usize)
        ensures
            n == self@.len(),
            well_formed(self@),
    {
        proof {
            use_type_invariant(self);
        }
        self.weights.len()
    }

    /// The weight of the edge from `u` to `v`, or `None` where there is no
    /// such edge or where either index is not a vertex.
    pub fn weight(&self, u: usize, v: usize) -> (w: Option<u64>)
        ensures
            w == (if u < self@.len() && v < self@.len() {
                edge(self@, u as int, v as int)
            } else {
                None
            }),
    {
        proof {
            use_type_invariant(self);
        }
        if u < self.weights.len() && v < self.weights.len() {
            assert(self@[u as int].len() == self@.len());
            self.weights[u][v]
        } else {
            None
        }
    }

    /// The weights of the edges that leave `u`, one entry per vertex.
    pub fn row(&self, u: usize) -> (r: &Vec<Option<u64>>)
        requires
            u < self@.len(),
        ensures
            r@ == self@[u as int],
            r.len() == self@.len(),
    {
        proof {
            use_type_invariant(self);
            assert(self@[u as int].len() == self@.len());
        }
        &self.weights[u]
    }
}

/// What holds of every generated graph: it has `size` vertices and each of
/// its weights lies in `1..=max_weight`. With an edge chance of zero it has
/// no edge; with one of a hundred or more, every edge between two distinct
/// vertices.
pub open spec fn is_generated(
    m: Seq<Seq<Option<u64>>>,
    size: usize,
    max_weight: u64,
    edge_percent: u64,
) -> bool {
    &&& well_formed(m)
    &&& m.len() == size
    &&& forall|i: int, j: int|
        0 <= i < size && 0 <= j < size ==> match #[trigger] edge(m, i, j) {
            Some(w) => i != j && 1 <= w <= max_weight && edge_percent > 0,
            None => i == j || edge_percent < 100,
        }
}

/// What holds of one generated row, the one of vertex `i`, up to column
/// `upto`.
spec fn is_generated_row(
    row: Seq<Option<u64>>,
    i: int,
    upto: int,
    max_weight: u64,
    edge_percent: u64,
) -> bool {
    forall|j: int|
        0 <= j < upto ==> match #[trigger] row[j] {
            Some(w) => i != j && 1 <= w <= max_weight && edge_percent > 0,
            None => i == j || edge_percent < 100,
        }
}

/// Decides from a roll in `0..=99` whether an edge is placed: it is where
/// the roll lies below the edge chance.
pub fn draws_edge(roll: u64, edge_percent: u64) -> (r: bool)
    ensures
        r == (roll < edge_percent),
{
    roll < edge_percent
}

/// Generates a random graph on `size` vertices. Each ordered pair of distinct
/// vertices gets an edge with a chance of `edge_percent` in a hundred, of a
/// weight drawn from `1..=max_weight`.
pub fn generate_graph_with(size: usize, max_weight: u64, edge_percent: u64) -> (g: Graph)
    requires
        max_weight >= 1,
    ensures
        is_generated(g@, size, max_weight, edge_percent),
{
    let mut rng = rand::thread_rng();
    let mut weights: Vec<Vec<Option<u64>>> = Vec::new();
    let mut i: usize = 0;
    while i < size
        invariant
            i <= size,
            weights.len() == i,
            max_weight >= 1,
            forall|k: int|
                0 <= k < i ==> (#[trigger] weights[k]).len() == size && is_generated_row(
                    weights[k]@,
                    k,
                    size as int,
                    max_weight,
                    edge_percent,
                ),
        decreases size - i,
    {
        let mut row: Vec<Option<u64>> = Vec::new();
        let mut j: usize = 0;
        while j < size
            invariant
                j <= size,
                row.len() == j,
                max_weight >= 1,
                is_generated_row(row@, i as int, j as int, max_weight, edge_percent),
            decreases size - j,
        {
            let mut entry: Option<u64> = None;
            if i != j {
                let roll = gen_range_inclusive(&mut rng, 0, 99);
                if draws_edge(roll, edge_percent) {
                    entry = Some(gen_range_inclusive(&mut rng, 1, max_weight));
                }
            }
            let ghost before = row@;
            row.push(entry);
            proof {
                assert forall|k: int| 0 <= k < j + 1 implies match #[trigger] row[k] {
                    Some(w) => i != k && 1 <= w <= max_weight && edge_percent > 0,
                    None => i == k || edge_percent < 100,
                } by {
                    if k < j {
                        assert(row[k] == before[k]);
                    }
                }
            }
            j += 1;
        }
        let ghost rows = weights@;
        weights.push(row);
        proof {
            assert forall|k: int| 0 <= k < i + 1 implies (#[trigger] weights[k]).len() == size
                && is_generated_row(weights[k]@, k, size as int, max_weight, edge_percent) by {
                if k < i {
                    assert(weights[k] == rows[k]);
                }
            }
        }
        i += 1;
    }
    proof {
        let m = Seq::new(weights.len() as nat, |i: int| weights[i]@);
        assert forall|a: int, b: int| 0 <= a < size && 0 <= b < size implies match #[trigger] edge(
            m,
            a,
            b,
        ) {
            Some(w) => a != b && 1 <= w <= max_weight && edge_percent > 0,
            None => a == b || edge_percent < 100,
        } by {
            assert(is_generated_row(weights[a]@, a, size as int, max_weight, edge_percent));
            assert(m[a][b] == weights[a]@[b]);
        }
        assert forall|a: int| 0 <= a < m.len() implies (#[trigger] m[a]).len() == m.len() by {
            assert(weights[a].len() == size);
        }
        assert forall|a: int| 0 <= a < m.len() implies (#[trigger] edge(m, a, a)) is None by {}
        assert(is_generated(m, size, max_weight, edge_percent));
    }
    Graph { weights }
}

/// Generates a random graph on `size` vertices in which each edge is there
/// with a chance of seventy in a hundred.
pub fn generate_graph(size: usize, max_weight: u64) -> (g: Graph)
    requires
        max_weight >= 1,
    ensures
        is_generated(g@, size, max_weight, 70),
{
    generate_graph_with(size, max_weight, 70)
}

} // verus!
