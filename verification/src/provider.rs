//! Where the children of a node come from.

use vstd::prelude::*;

use futures::channel::oneshot::{Canceled, Receiver};

use crate::node::{TreeData, TreeNode, TreeNodeInner};
use crate::root::RootData;

verus! {

#[verifier::external_type_specification]
#[verifier::external_body]
#[verifier::reject_recursive_types(T)]
pub struct ExReceiver<T>(Receiver<T>);

#[verifier::external_type_specification]
#[verifier::external_body]
pub struct ExCanceled(Canceled);

/// What a provider answers when it is asked for the children of a node.
#[verifier::reject_recursive_types(D)]
pub enum TreeExpandResult<D> {
    /// The children are known: here is their data, in display order.
    Ready(Vec<D>),
    /// The children are being loaded: their data will come through the
    /// channel, or the channel will be closed if loading fails.
    Loading(Receiver<Vec<D>>),
}

/// The source of a tree: it gives the data of the root and, on request, the
/// children of a node.
pub trait TreeProvider {
    /// The data that the nodes of the tree show.
    type Data: TreeData;

    /// The data of the root.
    fn root(&self) -> Self::Data;

    /// The children of the node, at once or later.
    fn expand(&self, node: &TreeNodeInner) -> TreeExpandResult<Self::Data>;
}

/// A root can stand for a tree that is complete from the start: it has the
/// data of a root sentinel, and no node of it has children left to load.
impl TreeProvider for TreeNode {
    type Data = RootData;

    fn root(&self) -> (data: RootData)
        ensures
            data == RootData,
    {
        RootData
    }

    fn expand(&self, node: &TreeNodeInner) -> (result: TreeExpandResult<RootData>)
        ensures
            result matches TreeExpandResult::Ready(children) && children@.len() == 0,
    {
        TreeExpandResult::Ready(Vec::new())
    }
}

} // verus!
