//! Small combinatorics and integer vector library.
//!
//! The core is a pair of labeled graph containers: an undirected, edge-list
//! graph and a directed, adjacency-set graph whose cycle-guarded insertion
//! keeps the edge relation acyclic.

pub mod dgraph;
pub mod graph;
pub mod reach;
mod table;
pub mod vector;
pub mod vectorn;
