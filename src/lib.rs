//! A replicated tree with a conflict-free move operation.
//!
//! Each replica holds a [`State`]: a forest of nodes plus a log of the move
//! operations it has applied, newest first. Operations may arrive in any
//! order; a replica undoes the newer entries of its log, applies the late
//! operation, and redoes what it undid, so that all replicas that have seen
//! the same operations hold the same state.
//!
//! The [`laws`] module states and proves what holds of every replica: the
//! log stays ordered, replicas converge whatever the order of delivery,
//! applying moves again changes nothing, and the tree never has a cycle.
use vstd::prelude::*;

pub mod clock;
pub mod laws;
pub mod logopmove;
pub mod opmove;
pub mod replica;
pub mod state;
pub mod tree;
pub mod treenode;

pub use clock::{Actor, Clock};
pub use logopmove::LogOpMove;
pub use opmove::OpMove;
pub use replica::Replica;
pub use state::State;
pub use tree::Tree;
pub use treenode::{TreeId, TreeMeta, TreeNode};
