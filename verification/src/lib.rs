//! Strongly connected components of a directed graph, computed by two
//! depth-first passes (Kosaraju's algorithm) over an edge list.

pub mod components;
pub mod counting;
pub mod coverage;
pub mod error;
pub mod graph;
pub mod kosaraju;
pub mod loader;
pub mod numbering;
pub mod parse;
pub mod paths;
pub mod postorder;
pub mod scc;
pub mod traversal;

pub use error::SccError;
pub use graph::Graph;
pub use loader::load_graph;
pub use loader::make_reverse_graph;
pub use loader::relabel_graph;
pub use parse::parse_edges;
pub use scc::compute_scc;
pub use traversal::dfs_inner;
pub use traversal::dfs_outer;
