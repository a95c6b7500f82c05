//! Static sparse graphs in compressed sparse-row form, with traversal and
//! triangle-counting kernels over them.

pub mod csr;
pub mod edgelist;
pub mod graph;
pub mod partition;
pub mod traversals;
pub mod triangles;

pub use csr::{Csr, GraphError};
pub use edgelist::{parse_edge_line, parse_edge_lines};
pub use graph::{Graph, StaticDiGraph, StaticGraph, Vertex};
pub use partition::optimal_contiguous_partition;
pub use traversals::{bfs, UNREACHED};
pub use triangles::{threaded_triangles, threaded_triangles_csr, triangles};
