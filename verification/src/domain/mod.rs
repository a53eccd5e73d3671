//! The graph of code units and the algorithms over it.

pub mod boundaries;
pub mod builder;
pub mod closure;
pub mod construction;
pub mod digraph;
pub mod edge;
pub mod facts;
pub mod fragments;
pub mod graph;
pub mod measure;
pub mod moves;
pub mod naming;
pub mod node;
pub mod parts;
pub mod plan;
pub mod policy;
pub mod reachability;
pub mod records;
pub mod rules;
pub mod score;
pub mod semantic;
pub mod solver;
pub mod sort;
pub mod symbol_table;
pub mod text;
pub mod traversal;
pub mod type_closure;
pub mod type_registry;
pub mod witness;
pub mod words;
