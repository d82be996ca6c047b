//! How an evaluation ends.

use crate::allocator::NodePtr;
use crate::cost::Cost;
use vstd::prelude::*;

verus! {

/// A failed evaluation: the node that the failure is about, and the reason
/// in words.
#[derive(Debug)]
pub struct EvalErr(pub NodePtr, pub String);

/// A successful evaluation: what it cost and the node it gave.
#[derive(Clone, Copy, Debug, PartialEq, Eq, Structural)]
pub struct Reduction(pub Cost, pub NodePtr);

/// The outcome of an evaluation.
pub type Response = Result<Reduction, EvalErr>;

/// A failure as plain values: the node and the message.
pub struct Fault {
    pub node: NodePtr,
    pub message: Seq<char>,
}

/// `r` is the outcome `out`: the same cost and node, or the same node and
/// message.
pub open spec fn response_is(r: Response, out: Result<(Cost, NodePtr), Fault>) -> bool {
    match out {
        Ok((cost, node)) => r matches Ok(red) && red.0 == cost && red.1 == node,
        Err(fault) => r matches Err(e) && e.0 == fault.node && e.1@ == fault.message,
    }
}

/// The failure about `node` with the reason `msg`.
pub fn err(node: NodePtr, msg: &str) -> (r: Response)
    ensures
        response_is(r, Err(Fault { node, message: msg@ })),
{
    Err(EvalErr(node, msg.to_owned()))
}

} // verus!
