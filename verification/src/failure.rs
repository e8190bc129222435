use vstd::prelude::*;
use crate::token::Token;

verus! {

/// A failed handler invocation during a sequential pass.
///
/// `token` identifies the subscription whose handler failed; `completed` is
/// the number of handlers that ran to completion before it in the pass, which
/// is also the failing handler's position in the dispatch order.
#[derive(Clone, Copy, PartialEq, Eq, Structural, Debug)]
pub struct HandlerFailure {
    pub token: Token,
    pub completed: usize,
}

/// A failed handler invocation during a sharded pass.
///
/// `shard` is the shard whose pass the failure aborted, `token` identifies
/// the subscription whose handler failed, and `completed` is the number of
/// handlers of that shard that ran to completion before it, which is also the
/// failing handler's slot within the shard.
#[derive(Clone, Copy, PartialEq, Eq, Structural, Debug)]
pub struct ShardFailure {
    pub shard: usize,
    pub token: Token,
    pub completed: usize,
}

} // verus!
