//! Error values of the solver and terrain layers.

use vstd::prelude::*;

verus! {

/// Errors produced by hydraulic solver computations.
#[derive(Debug, PartialEq, Eq)]
pub enum SolverError {
    /// No outlet (discharge point) was provided or found in the network.
    NoOutlet,
    /// No source node found in the network.
    NoSource,
    /// Fewer than 2 terminal nodes: no Steiner tree can be built.
    InsufficientTerminals,
    /// No feasible route was found between two nodes.
    NoRoute,
    /// The solver could not produce any feasible solution.
    NoFeasibleSolution,
    /// Steiner tree construction failed (with the underlying message).
    SteinerFailed(String),
    /// A network build step failed (with the underlying message).
    BuildFailed(String),
}

/// Errors produced by terrain and terrain-graph operations.
#[derive(Debug, PartialEq, Eq)]
pub enum TerrainError {
    /// No points were provided.
    EmptyTerrain,
    /// Not enough points for interpolation.
    InsufficientPoints { got: usize, need: usize },
    /// The bilinear path was asked for but the grid was never built.
    GridNotBuilt,
    /// A node id is not in the graph.
    NodeNotFound { id: String },
    /// The graph has no nodes.
    EmptyGraph,
    /// Fewer than two terminals were given to the Steiner tree.
    InsufficientTerminals { got: usize },
    /// No path exists between the two nodes.
    NoPath { from: String, to: String },
}

} // verus!
