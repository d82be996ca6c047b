//! Operator sets.
//!
//! The evaluator knows two words, "quote" and "apply", and learns from its
//! dialect how they are spelled. Every other operator is the dialect's own:
//! the evaluator hands it the operator and the evaluated operands, and gets
//! back a cost and a value, or a failure.

use crate::allocator::{Allocator, Heap, NodePtr};
use crate::cost::Cost;
use crate::reduction::{response_is, Fault, Response};
use vstd::prelude::*;

verus! {

/// How an operator, or a whole evaluation, ends: the arena after it, and the
/// cost and the value, or the failure.
pub struct Outcome {
    pub heap: Heap,
    pub result: Result<(Cost, NodePtr), Fault>,
}

/// The outcome does not fit the budget: its cost is over it, or it is the
/// failure by which an operator says so itself.
pub open spec fn over_budget(out: Outcome, budget: Cost) -> bool {
    match out.result {
        Ok((cost, _)) => cost > budget,
        Err(fault) => fault.message == "cost exceeded"@,
    }
}

/// The node that the outcome names, value or failure, is in the arena that
/// the outcome leaves.
pub open spec fn names_own_node(out: Outcome) -> bool {
    match out.result {
        Ok((_, node)) => out.heap.contains(node),
        Err(fault) => out.heap.contains(fault.node),
    }
}

/// Something that can carry out operators.
pub trait OperatorHandler {
    /// What the operator `op` does with the operand list `args` in the
    /// arena `h`, when it may cost `max_cost`.
    spec fn op_spec(&self, h: Heap, op: NodePtr, args: NodePtr, max_cost: Cost) -> Outcome;

    /// Carries out the operator `op` on the operand list `args`.
    fn op(&self, allocator: &mut Allocator, op: NodePtr, args: NodePtr, max_cost: Cost) -> (r:
        Response)
        requires
            old(allocator).wf(),
            old(allocator)@.contains(op),
            op.is_atom(),
            old(allocator)@.contains(args),
        ensures
            final(allocator).wf(),
            final(allocator)@ == self.op_spec(old(allocator)@, op, args, max_cost).heap,
            response_is(r, self.op_spec(old(allocator)@, op, args, max_cost).result),
    ;

    /// An operator leaves the arena in order, takes nothing out of it, and
    /// names a node of it.
    proof fn lemma_op_grows(&self, h: Heap, op: NodePtr, args: NodePtr, max_cost: Cost)
        requires
            h.wf(),
            h.contains(op),
            op.is_atom(),
            h.contains(args),
        ensures
            self.op_spec(h, op, args, max_cost).heap.wf(),
            self.op_spec(h, op, args, max_cost).heap.extends(h),
            names_own_node(self.op_spec(h, op, args, max_cost)),
    ;

    /// A smaller budget changes nothing for an operator that stays within
    /// it. An operator that does not stay within it says so, or costs what
    /// it costs.
    proof fn lemma_op_budget(
        &self,
        h: Heap,
        op: NodePtr,
        args: NodePtr,
        max_cost: Cost,
        less: Cost,
    )
        requires
            h.wf(),
            h.contains(op),
            op.is_atom(),
            h.contains(args),
            less <= max_cost,
        ensures
            self.op_spec(h, op, args, max_cost).result matches Ok((price, _)) ==> {
                &&& price <= less ==> self.op_spec(h, op, args, less) == self.op_spec(
                    h,
                    op,
                    args,
                    max_cost,
                )
                &&& price > less ==> over_budget(self.op_spec(h, op, args, less), less)
            },
    ;
}

/// An operator set together with the spelling of "quote" and "apply".
pub trait Dialect: OperatorHandler {
    /// The atom that means "quote".
    spec fn quote_kw_spec(&self) -> Seq<u8>;

    /// The atom that means "apply".
    spec fn apply_kw_spec(&self) -> Seq<u8>;

    /// The atom that means "quote".
    fn quote_kw(&self) -> (r: &[u8])
        ensures
            r@ == self.quote_kw_spec(),
    ;

    /// The atom that means "apply".
    fn apply_kw(&self) -> (r: &[u8])
        ensures
            r@ == self.apply_kw_spec(),
    ;
}

} // verus!
