//! Grouping of typed identifiers: pairs of identifiers are the edges of an
//! undirected graph, and the groups are its connected components.

pub mod binding;
pub mod components;
pub mod determined;
pub mod error;
pub mod graph;
pub mod group;
pub mod id_node;
pub mod id_pair;
pub mod node_table;
pub mod text;
