//! OBDDimal: a library for building and manipulating ordered binary decision diagrams.
pub mod bdd_node;
pub mod semantics;
pub mod bdd_manager;
pub mod ite;
pub mod canonical;
pub mod reachable;
pub mod apply;
pub mod sorting;
pub mod dimacs;
pub mod dimacs_text;
pub mod order;
pub mod building;
pub mod static_ordering;
pub mod boolean_function;
pub mod parser;
pub mod variable_ordering;
pub mod permutation;
pub mod dvo;
pub mod area;
pub mod graph;
pub mod big_count;
pub mod sat;
pub mod swap;
pub mod partial_swap;
pub mod range_sifting;
pub mod sifting;
pub mod store;
pub mod dddmp;
pub mod bdd_file;
pub mod graphviz;
