//! Randomized estimation of the global minimum edge cut of an undirected
//! multigraph by repeated edge contraction.
//!
//! A trial contracts the edges of the graph in a random order, keeping track
//! of the merged vertices in a disjoint-set forest, until two blocks of
//! vertices are left, and counts the edges that still run between different
//! blocks. The least count over many trials estimates the minimum cut; the
//! number of trials that it takes to see a given cut again measures how hard
//! that cut is to find.
//!
//! - [`edge`], [`vertices`]: edges, and the vertices that they name.
//! - [`scan`], [`parse`]: the text form of a graph, one edge to a line.
//! - [`disjoint_set`]: the forest that holds the blocks of a trial.
//! - [`permutation`]: random orders of the edges.
//! - [`contraction`], [`trial`]: one trial, in a given and in a random order.
//! - [`cuts`], [`cycle`]: what holds of the cut that a trial finds, on every
//!   graph and on a cycle; [`counting`] serves both.
//! - [`minimum`], [`repetition`]: the two estimators.
//! - [`analysis`]: both estimators run on one graph, and timed.

pub mod analysis;
pub mod contraction;
pub mod counting;
pub mod cuts;
pub mod cycle;
pub mod disjoint_set;
pub mod edge;
pub mod minimum;
pub mod parse;
pub mod permutation;
pub mod repetition;
pub mod scan;
pub mod trial;
pub mod vertices;
