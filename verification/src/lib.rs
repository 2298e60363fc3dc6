//! A disjoint-set forest over a totally ordered vertex type, in which the
//! representative of every class is its smallest vertex.

pub mod forest;
pub mod graph;
pub mod laws;
pub mod vertex;

pub use graph::EqGraph;
pub use vertex::Vertex;
