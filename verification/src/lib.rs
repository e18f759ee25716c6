//! Stacked-branch bookkeeping: parent links between branches, the
//! parent-to-children graph derived from them, and the restack, land and
//! tree-rendering orders computed on that graph.

pub mod commands;
pub mod cycles;
pub mod error;
pub mod graph;
pub mod land;
pub mod links;
pub mod restack;
pub mod tree;
