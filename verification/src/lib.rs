//! The module graph of a web application bundler.
//!
//! From a set of entry modules a directed graph is built of the modules that
//! they reach ([`builder`], [`module_graph`]). The graph can be visited from
//! an entry ([`traversal`]) or walked edge by edge, with the caller deciding
//! where the walk descends ([`edge_walk`]). Three views annotate the modules
//! of a graph and answer for one endpoint at a time: its dynamic imports
//! ([`next_dynamic`]), its server actions ([`server_actions`]) and its client
//! references ([`client_references`]). Where an endpoint's modules are spread
//! over several graphs ([`endpoint_graphs`]), the answers of the graphs are
//! merged ([`reduced_graphs`]).
//!
//! The graph itself is a `petgraph` graph. What this crate takes on trust
//! of `petgraph` is stated in [`digraph`]; everything else is proved.

pub mod builder;
pub mod client_references;
pub mod digraph;
pub mod edge_walk;
pub mod endpoint_graphs;
pub mod module_graph;
pub mod next_dynamic;
pub mod ordered_map;
pub mod reach;
pub mod reduced_graphs;
pub mod server_actions;
pub mod traversal;
