//! What nodes answer one another.

use vstd::prelude::*;

use crate::cluster::raft::VoteResult;

verus! {

/// The answer to a request.
#[derive(Debug, Clone, Copy, PartialEq, Eq, Structural)]
pub enum RpcResult {
    Vote(VoteResult),
    Append(bool),
}

} // verus!
