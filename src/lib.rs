//! Step-by-step engines for classic algorithms (graph traversals, shortest paths,
//! sorting, dynamic programming, Euclid's algorithm), each advancing one discrete
//! step at a time so that its intermediate state can be shown, together with the
//! driver that paces automatic stepping; and a few small companions: a line
//! search, a Merkle tree, a to-do status and a button.
pub mod bfs;
pub mod common;
pub mod dfs;
pub mod driver;
pub mod dijkstra;
pub mod euclidean;
pub mod gui;
pub mod heap_sort;
pub mod lcs;
pub mod merge_sort;
pub mod merkle;
pub mod minigrep;
pub mod todo;
pub mod tree;
