//! The ways in which building a graph or starting the solver can fail.

use vstd::prelude::*;

verus! {

/// Why a request was rejected.
#[derive(Clone, Copy, Debug, PartialEq, Eq, Structural)]
pub enum SolverError {
    /// The adjacency matrix is not square, or holds a weight below one.
    InvalidInput,
    /// The start vertex is not a vertex of the graph.
    InvalidVertex,
}

impl SolverError {
    /// A short description of the error.
    pub fn message(&self) -> (s: &'static str)
        ensures
            s@ == (match *self {
                SolverError::InvalidInput => "invalid input"@,
                SolverError::InvalidVertex => "invalid vertex"@,
            }),
    {
        match self {
            SolverError::InvalidInput => "invalid input",
            SolverError::InvalidVertex => "invalid vertex",
        }
    }
}

} // verus!
