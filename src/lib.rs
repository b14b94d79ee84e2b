//! A netlist: modules and nets of a circuit, joined by net-to-module
//! incidence edges held in a directed `petgraph` graph.

pub mod graph;
pub mod netlist;
