//! Actions emitted by sections and messages routed between them.

use crate::node::Node;
use crate::prefix::Prefix;
use vstd::prelude::*;

verus! {

/// A routed message: it names a target address that exactly one section is
/// responsible for, and carries the node being relocated as payload.
#[derive(Clone, Copy, PartialEq, Eq, Structural, Debug)]
pub enum Message {
    /// Announces a relocation: the receiving section caches it as pending.
    RelocateRequest { node: Node },
    /// Commits a relocation: the receiving section admits the node and
    /// clears the pending entry.
    RelocateCommit { node: Node },
}

impl Message {
    /// The address the message must be delivered to.
    pub open spec fn spec_target(self) -> u64 {
        match self {
            Message::RelocateRequest { node } => node.name,
            Message::RelocateCommit { node } => node.name,
        }
    }

    pub fn target(&self) -> (r: u64)
        ensures
            r == self.spec_target(),
    {
        match self {
            Message::RelocateRequest { node } => node.name,
            Message::RelocateCommit { node } => node.name,
        }
    }
}

/// A structural instruction emitted by one section during one evaluation
/// round, produced and consumed within the same tick.
#[derive(Clone, Copy, PartialEq, Eq, Structural, Debug)]
pub enum Action {
    /// A discarded join or relocation attempt, carrying its identifier; only
    /// counted.
    Reject(u64),
    /// Fold every section strictly below the target prefix into the target.
    Merge(Prefix),
    /// Replace the section at the source prefix by its two children.
    Split(Prefix),
    /// Deliver a message to the section responsible for its target address.
    Send(Message),
}

impl Action {
    /// Any prefix the action names must be well formed, and a split source
    /// must leave room for one more bit.
    pub open spec fn wf(self) -> bool {
        match self {
            Action::Merge(p) => p.wf(),
            Action::Split(p) => p.wf() && p.len < 64,
            _ => true,
        }
    }
}

} // verus!
