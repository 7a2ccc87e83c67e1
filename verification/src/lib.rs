//! Shortest-path and structural queries over a directed, weighted graph that
//! is built edge by edge and never shrinks.
//!
//! The graph and its queries:
//!
//! - `graph`: vertices, edges, coordinates, and how a graph is built;
//! - `bfs`: distances counted in edges;
//! - `dijkstra`: distances by weight;
//! - `bidirectional`: a search from both ends of a pair of vertices;
//! - `a_search`: a search guided by coordinates;
//! - `spanning`: a lightest spanning tree;
//! - `traversal`: an order in which edges point forward, and the number of
//!   regions of the graph.
//!
//! What they rest on:
//!
//! - `union_find`: disjoint sets with path halving;
//! - `frontier`: the priority queue of the searches;
//! - `distance`: tables of distances;
//! - `paths`: walks along the edges;
//! - `forest`: what edges connect when their direction is ignored;
//! - `measure`: sums over the vertices;
//! - `utils`: the leading numbers of a line of input.

pub mod a_search;
pub mod bfs;
pub mod bidirectional;
pub mod dijkstra;
pub mod distance;
pub mod forest;
pub mod frontier;
pub mod graph;
pub mod measure;
pub mod paths;
pub mod spanning;
pub mod traversal;
pub mod union_find;
pub mod utils;
