//! Construction of static single assignment (SSA) form for a control-flow
//! graph of straight-line instruction blocks.
//!
//! The pipeline runs in stages: a graph view is derived from the block
//! terminators, a reverse-postorder traversal numbers the reachable blocks,
//! an iterative fixed point computes immediate dominators, dominance
//! frontiers follow from the dominator tree, block parameters (phi nodes)
//! are placed at frontier join points, and a renaming pass gives every
//! definition a fresh identity.

pub mod basic_block;
pub mod builder;
pub mod cfg;
pub mod dominance;
pub mod error;
pub mod graph;
pub mod instruction;
pub mod module;
pub mod rename;
pub mod ssa;
pub mod tac;
