//! Graph model for a force-directed layout: vertex registration, edges,
//! graph construction from dataset records, and the spatial grid that
//! narrows the candidate pairs of the repulsion term.
pub mod blocking;
pub mod graph;

pub use blocking::{Blocking, Cell};
pub use graph::{build_graph, Dataset, Edge, Graph, Link};
