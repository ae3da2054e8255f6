//! Node identifiers, metadata, and the (parent, metadata) record stored per node.
use vstd::prelude::*;

verus! {

/// Identifies a node of the tree.
pub type TreeId = u64;

/// Application data stored with each node, such as a file name.
///
/// The tree never inspects it; it only copies it.
pub trait TreeMeta: Copy {

}

impl<T: Copy> TreeMeta for T {

}

/// The parent and metadata of one node; the node's own id is the key under
/// which the tree stores this record.
#[derive(Clone, Copy, Debug, PartialEq, Eq, Hash)]
pub struct TreeNode<TM> {
    /// The parent of the node.
    pub parent_id: TreeId,
    /// The node's metadata.
    pub metadata: TM,
}

impl<TM: TreeMeta> TreeNode<TM> {
    /// A record with the given parent and metadata.
    pub fn new(parent_id: TreeId, metadata: TM) -> (r: TreeNode<TM>)
        ensures
            r.parent_id == parent_id,
            r.metadata == metadata,
    {
        TreeNode { parent_id, metadata }
    }

    /// The parent of the node.
    pub fn parent_id(&self) -> (r: &TreeId)
        ensures
            *r == self.parent_id,
    {
        &self.parent_id
    }

    /// The node's metadata.
    pub fn metadata(&self) -> (r: &TM)
        ensures
            *r == self.metadata,
    {
        &self.metadata
    }
}

} // verus!
