//! Neuromitosis: a graph of typed work units, its topological layering, and
//! the bookkeeping of a layer-by-layer execution.
pub mod node;
pub mod yarn;

pub mod graph;
pub mod topology;
pub mod runtime;
pub mod codec;
pub mod security;
pub mod records;
