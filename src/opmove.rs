//! The move operation: at time t, make c a child of p with metadata m.
use vstd::prelude::*;

use crate::clock::Clock;
use crate::logopmove::LogOpMove;
use crate::treenode::{TreeId, TreeMeta};

verus! {

/// At `timestamp`, `child_id` becomes a child of `parent_id` with
/// `metadata`. Where it was before does not matter; if it did not exist it
/// is created. Renaming a node is a move to its current parent with new
/// metadata.
#[derive(Clone, Copy, Debug, PartialEq, Eq, Hash)]
pub struct OpMove<TM> {
    /// When the move happened, and which replica made it.
    pub timestamp: Clock,
    /// The new parent.
    pub parent_id: TreeId,
    /// The new metadata.
    pub metadata: TM,
    /// The node that moves.
    pub child_id: TreeId,
}

impl<TM: TreeMeta> OpMove<TM> {
    /// A move of `child_id` under `parent_id` at `timestamp`.
    pub fn new(timestamp: Clock, parent_id: TreeId, metadata: TM, child_id: TreeId) -> (r: OpMove<
        TM,
    >)
        ensures
            r == (OpMove { timestamp, parent_id, metadata, child_id }),
    {
        OpMove { timestamp, parent_id, metadata, child_id }
    }

    /// When the move happened.
    pub fn timestamp(&self) -> (r: &Clock)
        ensures
            *r == self.timestamp,
    {
        &self.timestamp
    }

    /// The new parent.
    pub fn parent_id(&self) -> (r: &TreeId)
        ensures
            *r == self.parent_id,
    {
        &self.parent_id
    }

    /// The new metadata.
    pub fn metadata(&self) -> (r: &TM)
        ensures
            *r == self.metadata,
    {
        &self.metadata
    }

    /// The node that moves.
    pub fn child_id(&self) -> (r: &TreeId)
        ensures
            *r == self.child_id,
    {
        &self.child_id
    }

    /// The move that a log entry records.
    pub fn from_log_op_move(l: LogOpMove<TM>) -> (r: OpMove<TM>)
        ensures
            r == l.op,
    {
        l.op
    }
}

} // verus!
