//! What a smaller budget does to an evaluation.
//!
//! An evaluation that succeeds under one budget goes the same way under a
//! smaller one for as long as the smaller one lasts: it gives the same
//! outcome where its cost fits, and runs out of budget where it does not.

use crate::allocator::{Heap, NodePtr, Tree};
use crate::cost::{charged, Cost, APPLY_COST, OP_COST};
use crate::dialect::{Dialect, Outcome};
use crate::run_program::{
    apply_operator, cost_exceeded, eval, eval_operands, lemma_cost_exceeded, lemma_eval,
    lemma_eval_operands, lemma_list_from, list_from, number_bytes,
};
use vstd::prelude::*;

verus! {

/// The evaluation ran out of the budget `budget`: it ended as `cost_exceeded`
/// says, after it had spent no more than the budget.
pub open spec fn ran_out(out: Outcome, budget: Cost) -> bool {
    exists|h: Heap, spent: Cost|
        h.wf() && spent <= budget && out == #[trigger] cost_exceeded(h, spent)
}

/// An evaluation that ran out of budget fails with the message "cost
/// exceeded". The node that it names is the empty atom, or an atom that holds
/// what was spent, which is no more than the budget.
pub proof fn lemma_ran_out(out: Outcome, budget: Cost)
    requires
        ran_out(out, budget),
    ensures
        out.result matches Err(fault) && fault.message == "cost exceeded"@ && (fault.node
            == Heap::null() || exists|spent: Cost|
            spent <= budget && out.heap.tree(fault.node) == Tree::Atom(
                #[trigger] number_bytes(spent as nat),
            )),
{
    let (h, spent) = choose|h: Heap, spent: Cost|
        h.wf() && spent <= budget && out == #[trigger] cost_exceeded(h, spent);
    let bytes = number_bytes(spent as nat);
    if h.atom_refusal(bytes.len()) is None {
        h.lemma_with_atom(bytes);
    }
}

/// The outcome under the smaller budget `less`, held against the one under
/// the budget `max_cost`, which is a success: the same where the cost fits
/// the smaller budget, out of budget where it does not.
pub open spec fn follows(short: Outcome, full: Outcome, less: Cost) -> bool {
    full.result matches Ok((c, _)) && if c <= less {
        short == full
    } else {
        ran_out(short, less)
    }
}

/// A program that succeeds under a budget goes the same way under a smaller
/// one.
pub proof fn lemma_smaller_budget<D: Dialect>(
    d: &D,
    h: Heap,
    program: NodePtr,
    env: NodePtr,
    cost: Cost,
    max_cost: Cost,
    less: Cost,
)
    requires
        h.wf(),
        h.contains(program),
        h.contains(env),
        cost <= less <= max_cost,
        eval(d, h, program, env, cost, max_cost).result is Ok,
    ensures
        follows(
            eval(d, h, program, env, cost, less),
            eval(d, h, program, env, cost, max_cost),
            less,
        ),
    decreases max_cost - cost, 0nat,
{
    lemma_cost_exceeded(h, cost, cost, max_cost);
    assert(ran_out(cost_exceeded(h, cost), less));
    if program.is_atom() {
    } else {
        let (operator, operands) = h.pairs[program.index()];
        assert(h.child_ok(program.0 as int, operator));
        assert(h.child_ok(program.0 as int, operands));
        if operator.is_atom() && h.atoms[operator.index()] != d.quote_kw_spec() {
            let c = charged(cost, OP_COST, max_cost)->Some_0;
            lemma_eval_operands(d, h, operator, operands, env, Seq::empty(), c, max_cost);
            if c <= less {
                lemma_operands_smaller_budget(
                    d,
                    h,
                    operator,
                    operands,
                    env,
                    Seq::empty(),
                    c,
                    max_cost,
                    less,
                );
            }
        }
    }
}

/// The operands that are left, and the operator after them, go the same way
/// under a smaller budget.
pub proof fn lemma_operands_smaller_budget<D: Dialect>(
    d: &D,
    h: Heap,
    operator: NodePtr,
    rest: NodePtr,
    env: NodePtr,
    done: Seq<NodePtr>,
    cost: Cost,
    max_cost: Cost,
    less: Cost,
)
    requires
        h.wf(),
        h.contains(operator),
        operator.is_atom(),
        h.contains(rest),
        h.contains(env),
        forall|i: int| 0 <= i < done.len() ==> h.contains(#[trigger] done[i]),
        cost <= less <= max_cost,
        eval_operands(d, h, operator, rest, env, done, cost, max_cost).result is Ok,
    ensures
        follows(
            eval_operands(d, h, operator, rest, env, done, cost, less),
            eval_operands(d, h, operator, rest, env, done, cost, max_cost),
            less,
        ),
    decreases max_cost - cost, 1nat,
{
    if rest.is_pair() {
        let (first, more) = h.pairs[rest.index()];
        assert(h.child_ok(rest.0 as int, first));
        assert(h.child_ok(rest.0 as int, more));
        lemma_eval(d, h, first, env, cost, max_cost);
        lemma_eval(d, h, first, env, cost, less);
        let sub = eval(d, h, first, env, cost, max_cost);
        lemma_smaller_budget(d, h, first, env, cost, max_cost, less);
        let (c, value) = sub.result->Ok_0;
        let done1 = done.push(value);
        sub.heap.lemma_extends_tree(h, operator);
        sub.heap.lemma_extends_tree(h, more);
        sub.heap.lemma_extends_tree(h, env);
        assert forall|i: int| 0 <= i < done1.len() implies sub.heap.contains(
            #[trigger] done1[i],
        ) by {
            if i < done.len() {
                sub.heap.lemma_extends_tree(h, done[i]);
            }
        }
        lemma_eval_operands(d, sub.heap, operator, more, env, done1, c, max_cost);
        if c <= less {
            lemma_operands_smaller_budget(
                d,
                sub.heap,
                operator,
                more,
                env,
                done1,
                c,
                max_cost,
                less,
            );
        }
    } else {
        lemma_apply_smaller_budget(d, h, operator, done, cost, max_cost, less);
    }
}

/// An operator goes the same way under a smaller budget.
pub proof fn lemma_apply_smaller_budget<D: Dialect>(
    d: &D,
    h: Heap,
    operator: NodePtr,
    done: Seq<NodePtr>,
    cost: Cost,
    max_cost: Cost,
    less: Cost,
)
    requires
        h.wf(),
        h.contains(operator),
        operator.is_atom(),
        forall|i: int| 0 <= i < done.len() ==> h.contains(#[trigger] done[i]),
        cost <= less <= max_cost,
        apply_operator(d, h, operator, done, cost, max_cost).result is Ok,
    ensures
        follows(
            apply_operator(d, h, operator, done, cost, less),
            apply_operator(d, h, operator, done, cost, max_cost),
            less,
        ),
    decreases max_cost - cost, 0nat,
{
    lemma_list_from(h, done, Heap::null());
    let (h1, list) = list_from(h, done, Heap::null());
    let args = list->Ok_0;
    h1.lemma_extends_tree(h, operator);
    lemma_cost_exceeded(h1, cost, cost, max_cost);
    assert(ran_out(cost_exceeded(h1, cost), less));
    if h.atoms[operator.index()] == d.apply_kw_spec() {
        let c = charged(cost, APPLY_COST, max_cost)->Some_0;
        h1.lemma_extends_tree(h, done[0]);
        h1.lemma_extends_tree(h, done[1]);
        lemma_eval(d, h1, done[0], done[1], c, max_cost);
        if c <= less {
            lemma_smaller_budget(d, h1, done[0], done[1], c, max_cost, less);
        }
    } else {
        let budget = (max_cost - cost) as Cost;
        let small = (less - cost) as Cost;
        d.lemma_op_budget(h1, operator, args, budget, small);
        d.lemma_op_grows(h1, operator, args, small);
        let short = d.op_spec(h1, operator, args, small);
        lemma_cost_exceeded(short.heap, cost, cost, max_cost);
        assert(ran_out(cost_exceeded(short.heap, cost), less));
    }
}

/// A program whose cost is exactly its budget runs out of budget when it is
/// given one less: it fails with "cost exceeded", and what it reports as
/// spent is no more than the smaller budget.
pub proof fn lemma_budget_one_short<D: Dialect>(
    d: &D,
    h: Heap,
    program: NodePtr,
    env: NodePtr,
    n: Cost,
)
    requires
        h.wf(),
        h.contains(program),
        h.contains(env),
        eval(d, h, program, env, 0, n).result matches Ok((c, _)) && c == n,
    ensures
        n >= 1,
        ran_out(eval(d, h, program, env, 0, (n - 1) as Cost), (n - 1) as Cost),
{
    lemma_eval(d, h, program, env, 0, n);
    lemma_smaller_budget(d, h, program, env, 0, n, (n - 1) as Cost);
}

} // verus!
