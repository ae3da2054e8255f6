//! A log entry: a move together with what the moved node held before it.
use vstd::prelude::*;

use crate::clock::Clock;
use crate::opmove::OpMove;
use crate::treenode::{TreeId, TreeMeta, TreeNode};

verus! {

/// A move as a replica applied it. `oldp` is the parent and metadata the
/// child had just before, or `None` if the child did not exist; it is what
/// undoing the move restores.
#[derive(Clone, Copy, Debug, PartialEq, Eq, Hash)]
pub struct LogOpMove<TM> {
    /// The move.
    pub op: OpMove<TM>,
    /// The child's record before the move, if it had one.
    pub oldp: Option<TreeNode<TM>>,
}

impl<TM: TreeMeta> LogOpMove<TM> {
    /// An entry for `op` with the child's previous record `oldp`.
    pub fn new(op: OpMove<TM>, oldp: Option<TreeNode<TM>>) -> (r: LogOpMove<TM>)
        ensures
            r == (LogOpMove { op, oldp }),
    {
        LogOpMove { op, oldp }
    }

    /// When the move happened.
    pub fn timestamp(&self) -> (r: &Clock)
        ensures
            *r == self.op.timestamp,
    {
        self.op.timestamp()
    }

    /// The parent the move set.
    pub fn parent_id(&self) -> (r: &TreeId)
        ensures
            *r == self.op.parent_id,
    {
        self.op.parent_id()
    }

    /// The metadata the move set.
    pub fn metadata(&self) -> (r: &TM)
        ensures
            *r == self.op.metadata,
    {
        self.op.metadata()
    }

    /// The node that moved.
    pub fn child_id(&self) -> (r: &TreeId)
        ensures
            *r == self.op.child_id,
    {
        self.op.child_id()
    }

    /// The child's record before the move.
    pub fn oldp(&self) -> (r: &Option<TreeNode<TM>>)
        ensures
            *r == self.oldp,
    {
        &self.oldp
    }

    /// The move, without the previous record.
    pub fn op_into(self) -> (r: OpMove<TM>)
        ensures
            r == self.op,
    {
        self.op
    }
}

} // verus!
