use vstd::prelude::*;
use crate::raft::{clone_command, Command, CommandModel, NodeId};

verus! {

/// Where a message comes from or goes to.
#[derive(Clone, Copy, Debug, PartialEq, Eq, Structural)]
pub enum Address {
    /// The node itself or a client attached to it.
    Local,
    /// One member of the cluster.
    Peer(NodeId),
    /// Every other member of the cluster.
    Broadcast,
}

/// The envelope every message between nodes travels in.
#[derive(Debug, PartialEq, Eq)]
pub struct RpcMessage {
    pub from: Address,
    pub to: Address,
    pub command: Command,
}

/// Mathematical value of an [`RpcMessage`].
pub ghost struct MessageModel {
    pub from: Address,
    pub to: Address,
    pub command: CommandModel,
}

impl View for RpcMessage {
    type V = MessageModel;

    open spec fn view(&self) -> MessageModel {
        MessageModel { from: self.from, to: self.to, command: self.command@ }
    }
}

impl Clone for RpcMessage {
    fn clone(&self) -> (r: Self)
        ensures
            r@ == self@,
    {
        RpcMessage { from: self.from, to: self.to, command: clone_command(&self.command) }
    }
}

/// The values of a run of messages, in order.
pub open spec fn messages_model(ms: Seq<RpcMessage>) -> Seq<MessageModel> {
    Seq::new(ms.len(), |i: int| ms[i]@)
}

} // verus!
