//! The evaluator.
//!
//! A program is a tree. An atom is a path into the environment. A pair is an
//! operator and its operands: "quote" gives the operands as they stand; any
//! other operator has its operands evaluated, first to last, and is then
//! carried out on the list of their values. "apply" takes a program and an
//! environment and runs the one in the other.
//!
//! Every step has a price, and a program that would cost more than the budget
//! it is given is stopped there. The walk keeps its pending work in a stack of
//! its own, so the depth of a program is bounded by memory only.

use crate::allocator::{AllocError, Allocator, Heap, NodePtr, SExp};
use crate::cost::{charge, charged, Cost, APPLY_COST, OP_COST, QUOTE_COST};
use crate::dialect::{names_own_node, Dialect, Outcome};
use crate::encoding::be_value;
use crate::path::{lemma_path_cost, lemma_walk, lookup, traverse_path};
use crate::reduction::{err, response_is, Fault, Reduction, Response};
use vstd::prelude::*;

verus! {

/// The digits of `c` in base 256, the highest first; none for 0.
pub open spec fn be_digits(c: nat) -> Seq<u8>
    decreases c,
{
    if c == 0 {
        Seq::empty()
    } else {
        be_digits(c / 256).push((c % 256) as u8)
    }
}

/// The atom that stands for the number `c`: its digits in base 256, behind a
/// zero byte where the highest digit has its highest bit set.
pub open spec fn number_bytes(c: nat) -> Seq<u8> {
    let digits = be_digits(c);
    if digits.len() > 0 && digits[0] >= 0x80 {
        seq![0u8] + digits
    } else {
        digits
    }
}

/// The failure by which the arena's refusal is reported.
pub open spec fn alloc_fault(e: AllocError) -> Fault {
    Fault {
        node: Heap::null(),
        message: match e {
            AllocError::SizeLimitExceeded => "size limit exceeded"@,
            AllocError::AllocationLimitExceeded => "allocation limit exceeded"@,
        },
    }
}

/// The end of an evaluation that ran out of budget after it had spent
/// `spent`. The failure names a new atom that holds `spent` as a number, or
/// the empty atom where the arena has no room for a new one.
pub open spec fn cost_exceeded(h: Heap, spent: Cost) -> Outcome {
    let bytes = number_bytes(spent as nat);
    match h.atom_refusal(bytes.len()) {
        None => Outcome {
            heap: h.with_atom(bytes),
            result: Err(Fault { node: h.next_atom(), message: "cost exceeded"@ }),
        },
        Some(_) => Outcome {
            heap: h,
            result: Err(Fault { node: Heap::null(), message: "cost exceeded"@ }),
        },
    }
}

/// The arena and the list after the nodes of `items` have been put in front
/// of the list `tail`, the last one first; or the arena's refusal.
pub open spec fn list_from(h: Heap, items: Seq<NodePtr>, tail: NodePtr) -> (
    Heap,
    Result<NodePtr, AllocError>,
)
    decreases items.len(),
{
    if items.len() == 0 {
        (h, Ok(tail))
    } else {
        match h.pair_refusal() {
            Some(e) => (h, Err(e)),
            None => list_from(h.with_pair(items.last(), tail), items.drop_last(), h.next_pair()),
        }
    }
}

/// What evaluating `program` in the environment `env` gives, after `cost` has
/// been spent already, under the budget `max_cost`. The cost in the outcome
/// is the whole cost, `cost` included.
pub open spec fn eval<D: Dialect>(
    d: &D,
    h: Heap,
    program: NodePtr,
    env: NodePtr,
    cost: Cost,
    max_cost: Cost,
) -> Outcome
    decreases max_cost - cost, 0nat,
{
    if program.is_atom() {
        match lookup(h, h.atoms[program.index()], env) {
            Err(fault) => Outcome { heap: h, result: Err(fault) },
            Ok((price, node)) => match charged(cost, price, max_cost) {
                None => cost_exceeded(h, cost),
                Some(c) => Outcome { heap: h, result: Ok((c, node)) },
            },
        }
    } else {
        let (operator, operands) = h.pairs[program.index()];
        if operator.is_pair() {
            Outcome {
                heap: h,
                result: Err(Fault { node: program, message: "operator is not an atom"@ }),
            }
        } else if h.atoms[operator.index()] == d.quote_kw_spec() {
            match charged(cost, QUOTE_COST, max_cost) {
                None => cost_exceeded(h, cost),
                Some(c) => Outcome { heap: h, result: Ok((c, operands)) },
            }
        } else {
            match charged(cost, OP_COST, max_cost) {
                None => cost_exceeded(h, cost),
                Some(c) => eval_operands(
                    d,
                    h,
                    operator,
                    operands,
                    env,
                    Seq::empty(),
                    c,
                    max_cost,
                ),
            }
        }
    }
}

/// What an operator gives once the operands that are left in `rest` are
/// evaluated too; `done` holds the values of those before them.
pub open spec fn eval_operands<D: Dialect>(
    d: &D,
    h: Heap,
    operator: NodePtr,
    rest: NodePtr,
    env: NodePtr,
    done: Seq<NodePtr>,
    cost: Cost,
    max_cost: Cost,
) -> Outcome
    decreases max_cost - cost, 1nat,
{
    if rest.is_pair() {
        let (first, more) = h.pairs[rest.index()];
        let out = eval(d, h, first, env, cost, max_cost);
        match out.result {
            Err(_) => out,
            Ok((c, value)) => if cost < c <= max_cost {
                eval_operands(d, out.heap, operator, more, env, done.push(value), c, max_cost)
            } else {
                out
            },
        }
    } else if h.atoms[rest.index()].len() != 0 {
        Outcome { heap: h, result: Err(Fault { node: rest, message: "bad operand list"@ }) }
    } else {
        apply_operator(d, h, operator, done, cost, max_cost)
    }
}

/// What `operator` gives on the values `done`. The values are made into a
/// list. "apply" then runs the first value as a program in the second; any
/// other operator is the dialect's. An operator that says that the budget is
/// spent ends the evaluation like a step that costs too much.
pub open spec fn apply_operator<D: Dialect>(
    d: &D,
    h: Heap,
    operator: NodePtr,
    done: Seq<NodePtr>,
    cost: Cost,
    max_cost: Cost,
) -> Outcome
    decreases max_cost - cost, 0nat,
{
    let (h1, list) = list_from(h, done, Heap::null());
    match list {
        Err(e) => Outcome { heap: h1, result: Err(alloc_fault(e)) },
        Ok(args) => if h.atoms[operator.index()] == d.apply_kw_spec() {
            if done.len() == 2 {
                match charged(cost, APPLY_COST, max_cost) {
                    None => cost_exceeded(h1, cost),
                    Some(c) => eval(d, h1, done[0], done[1], c, max_cost),
                }
            } else {
                Outcome {
                    heap: h1,
                    result: Err(
                        Fault { node: args, message: "apply requires exactly 2 parameters"@ },
                    ),
                }
            }
        } else {
            let out = d.op_spec(h1, operator, args, (max_cost - cost) as Cost);
            match out.result {
                Err(fault) => if fault.message == "cost exceeded"@ {
                    cost_exceeded(out.heap, cost)
                } else {
                    out
                },
                Ok((price, value)) => match charged(cost, price, max_cost) {
                    None => cost_exceeded(out.heap, cost),
                    Some(c) => Outcome { heap: out.heap, result: Ok((c, value)) },
                },
            }
        },
    }
}

/// The evaluation went well and fits what it was given: the arena is in
/// order and holds all that it held before, the outcome names a node of it,
/// and the cost is between the cost at the start and the budget.
pub open spec fn sound(out: Outcome, h: Heap, cost: Cost, max_cost: Cost) -> bool {
    &&& out.heap.wf()
    &&& out.heap.extends(h)
    &&& names_own_node(out)
    &&& out.result matches Ok((c, _)) ==> cost <= c <= max_cost
}

/// Running out of budget leaves the arena in order.
pub proof fn lemma_cost_exceeded(h: Heap, spent: Cost, cost: Cost, max_cost: Cost)
    requires
        h.wf(),
    ensures
        sound(cost_exceeded(h, spent), h, cost, max_cost),
        cost_exceeded(h, spent).result is Err,
{
    let bytes = number_bytes(spent as nat);
    if h.atom_refusal(bytes.len()) is None {
        h.lemma_with_atom(bytes);
    }
}

/// Making a list leaves the arena in order, and the list is a node of it.
pub proof fn lemma_list_from(h: Heap, items: Seq<NodePtr>, tail: NodePtr)
    requires
        h.wf(),
        h.contains(tail),
        forall|i: int| 0 <= i < items.len() ==> h.contains(#[trigger] items[i]),
    ensures
        list_from(h, items, tail).0.wf(),
        list_from(h, items, tail).0.extends(h),
        list_from(h, items, tail).1 matches Ok(list) ==> list_from(h, items, tail).0.contains(list),
    decreases items.len(),
{
    if items.len() > 0 && h.pair_refusal() is None {
        let h1 = h.with_pair(items.last(), tail);
        h.lemma_with_pair(items.last(), tail);
        assert forall|i: int| 0 <= i < items.drop_last().len() implies h1.contains(
            #[trigger] items.drop_last()[i],
        ) by {
            h1.lemma_extends_tree(h, items[i]);
        }
        lemma_list_from(h1, items.drop_last(), h.next_pair());
        list_from(h, items, tail).0.lemma_extends_trans(h1, h);
    }
}

/// An evaluation is sound, and costs something.
pub proof fn lemma_eval<D: Dialect>(
    d: &D,
    h: Heap,
    program: NodePtr,
    env: NodePtr,
    cost: Cost,
    max_cost: Cost,
)
    requires
        h.wf(),
        h.contains(program),
        h.contains(env),
        cost <= max_cost,
    ensures
        sound(eval(d, h, program, env, cost, max_cost), h, cost, max_cost),
        eval(d, h, program, env, cost, max_cost).result matches Ok((c, _)) ==> cost < c,
    decreases max_cost - cost, 0nat,
{
    if program.is_atom() {
        let path = h.atoms[program.index()];
        h.lemma_atom_len(program);
        lemma_path_cost(path);
        lemma_walk(h, be_value(path), env);
        lemma_cost_exceeded(h, cost, cost, max_cost);
    } else {
        let (operator, operands) = h.pairs[program.index()];
        assert(h.child_ok(program.0 as int, operator));
        assert(h.child_ok(program.0 as int, operands));
        lemma_cost_exceeded(h, cost, cost, max_cost);
        if operator.is_atom() && h.atoms[operator.index()] != d.quote_kw_spec() {
            if let Some(c) = charged(cost, OP_COST, max_cost) {
                lemma_eval_operands(d, h, operator, operands, env, Seq::empty(), c, max_cost);
            }
        }
    }
}

/// The evaluation of the operands that are left, and of the operator after
/// them, is sound.
pub proof fn lemma_eval_operands<D: Dialect>(
    d: &D,
    h: Heap,
    operator: NodePtr,
    rest: NodePtr,
    env: NodePtr,
    done: Seq<NodePtr>,
    cost: Cost,
    max_cost: Cost,
)
    requires
        h.wf(),
        h.contains(operator),
        operator.is_atom(),
        h.contains(rest),
        h.contains(env),
        forall|i: int| 0 <= i < done.len() ==> h.contains(#[trigger] done[i]),
        cost <= max_cost,
    ensures
        sound(eval_operands(d, h, operator, rest, env, done, cost, max_cost), h, cost, max_cost),
    decreases max_cost - cost, 1nat,
{
    if rest.is_pair() {
        let (first, more) = h.pairs[rest.index()];
        assert(h.child_ok(rest.0 as int, first));
        assert(h.child_ok(rest.0 as int, more));
        lemma_eval(d, h, first, env, cost, max_cost);
        let out = eval(d, h, first, env, cost, max_cost);
        if let Ok((c, value)) = out.result {
            let done1 = done.push(value);
            out.heap.lemma_extends_tree(h, operator);
            out.heap.lemma_extends_tree(h, more);
            out.heap.lemma_extends_tree(h, env);
            assert forall|i: int| 0 <= i < done1.len() implies out.heap.contains(
                #[trigger] done1[i],
            ) by {
                if i < done.len() {
                    out.heap.lemma_extends_tree(h, done[i]);
                }
            }
            lemma_eval_operands(d, out.heap, operator, more, env, done1, c, max_cost);
            eval_operands(
                d,
                out.heap,
                operator,
                more,
                env,
                done1,
                c,
                max_cost,
            ).heap.lemma_extends_trans(out.heap, h);
        }
    } else if h.atoms[rest.index()].len() != 0 {
    } else {
        lemma_apply_operator(d, h, operator, done, cost, max_cost);
    }
}

/// Carrying out an operator is sound.
pub proof fn lemma_apply_operator<D: Dialect>(
    d: &D,
    h: Heap,
    operator: NodePtr,
    done: Seq<NodePtr>,
    cost: Cost,
    max_cost: Cost,
)
    requires
        h.wf(),
        h.contains(operator),
        operator.is_atom(),
        forall|i: int| 0 <= i < done.len() ==> h.contains(#[trigger] done[i]),
        cost <= max_cost,
    ensures
        sound(apply_operator(d, h, operator, done, cost, max_cost), h, cost, max_cost),
    decreases max_cost - cost, 0nat,
{
    lemma_list_from(h, done, Heap::null());
    let (h1, list) = list_from(h, done, Heap::null());
    if let Ok(args) = list {
        h1.lemma_extends_tree(h, operator);
        if h.atoms[operator.index()] == d.apply_kw_spec() {
            if done.len() == 2 {
                lemma_cost_exceeded(h1, cost, cost, max_cost);
                cost_exceeded(h1, cost).heap.lemma_extends_trans(h1, h);
                if let Some(c) = charged(cost, APPLY_COST, max_cost) {
                    h1.lemma_extends_tree(h, done[0]);
                    h1.lemma_extends_tree(h, done[1]);
                    lemma_eval(d, h1, done[0], done[1], c, max_cost);
                    eval(d, h1, done[0], done[1], c, max_cost).heap.lemma_extends_trans(h1, h);
                }
            }
        } else {
            let budget = (max_cost - cost) as Cost;
            d.lemma_op_grows(h1, operator, args, budget);
            let out = d.op_spec(h1, operator, args, budget);
            out.heap.lemma_extends_trans(h1, h);
            lemma_cost_exceeded(out.heap, cost, cost, max_cost);
            cost_exceeded(out.heap, cost).heap.lemma_extends_trans(out.heap, h);
        }
    }
}

/// The two dialects spell "quote" and "apply" alike, and their operators do
/// the same.
pub open spec fn same_dialect<D1: Dialect, D2: Dialect>(d1: &D1, d2: &D2) -> bool {
    &&& d1.quote_kw_spec() == d2.quote_kw_spec()
    &&& d1.apply_kw_spec() == d2.apply_kw_spec()
    &&& forall|h: Heap, op: NodePtr, args: NodePtr, max_cost: Cost|
        #[trigger] d1.op_spec(h, op, args, max_cost) == d2.op_spec(h, op, args, max_cost)
}

/// An evaluation depends on its dialect only through the spelling of "quote"
/// and "apply" and through what the operators do.
pub proof fn lemma_eval_same_dialect<D1: Dialect, D2: Dialect>(
    d1: &D1,
    d2: &D2,
    h: Heap,
    program: NodePtr,
    env: NodePtr,
    cost: Cost,
    max_cost: Cost,
)
    requires
        same_dialect(d1, d2),
    ensures
        eval(d1, h, program, env, cost, max_cost) == eval(d2, h, program, env, cost, max_cost),
    decreases max_cost - cost, 0nat,
{
    if program.is_pair() {
        let (operator, operands) = h.pairs[program.index()];
        if operator.is_atom() && h.atoms[operator.index()] != d1.quote_kw_spec() {
            if let Some(c) = charged(cost, OP_COST, max_cost) {
                lemma_eval_operands_same_dialect(
                    d1,
                    d2,
                    h,
                    operator,
                    operands,
                    env,
                    Seq::empty(),
                    c,
                    max_cost,
                );
            }
        }
    }
}

/// See `lemma_eval_same_dialect`.
pub proof fn lemma_eval_operands_same_dialect<D1: Dialect, D2: Dialect>(
    d1: &D1,
    d2: &D2,
    h: Heap,
    operator: NodePtr,
    rest: NodePtr,
    env: NodePtr,
    done: Seq<NodePtr>,
    cost: Cost,
    max_cost: Cost,
)
    requires
        same_dialect(d1, d2),
    ensures
        eval_operands(d1, h, operator, rest, env, done, cost, max_cost) == eval_operands(
            d2,
            h,
            operator,
            rest,
            env,
            done,
            cost,
            max_cost,
        ),
    decreases max_cost - cost, 1nat,
{
    if rest.is_pair() {
        let (first, more) = h.pairs[rest.index()];
        lemma_eval_same_dialect(d1, d2, h, first, env, cost, max_cost);
        let out = eval(d1, h, first, env, cost, max_cost);
        if let Ok((c, value)) = out.result {
            if cost < c <= max_cost {
                lemma_eval_operands_same_dialect(
                    d1,
                    d2,
                    out.heap,
                    operator,
                    more,
                    env,
                    done.push(value),
                    c,
                    max_cost,
                );
            }
        }
    } else if h.atoms[rest.index()].len() == 0 {
        lemma_apply_operator_same_dialect(d1, d2, h, operator, done, cost, max_cost);
    }
}

/// See `lemma_eval_same_dialect`.
pub proof fn lemma_apply_operator_same_dialect<D1: Dialect, D2: Dialect>(
    d1: &D1,
    d2: &D2,
    h: Heap,
    operator: NodePtr,
    done: Seq<NodePtr>,
    cost: Cost,
    max_cost: Cost,
)
    requires
        same_dialect(d1, d2),
    ensures
        apply_operator(d1, h, operator, done, cost, max_cost) == apply_operator(
            d2,
            h,
            operator,
            done,
            cost,
            max_cost,
        ),
    decreases max_cost - cost, 0nat,
{
    let (h1, list) = list_from(h, done, Heap::null());
    if let Ok(args) = list {
        if h.atoms[operator.index()] == d1.apply_kw_spec() {
            if done.len() == 2 {
                if let Some(c) = charged(cost, APPLY_COST, max_cost) {
                    lemma_eval_same_dialect(d1, d2, h1, done[0], done[1], c, max_cost);
                }
            }
        }
    }
}

/// Whether two byte strings are the same.
pub(crate) fn bytes_equal(a: &[u8], b: &[u8]) -> (r: bool)
    ensures
        r == (a@ == b@),
{
    if a.len() != b.len() {
        return false;
    }
    let mut i: usize = 0;
    while i < a.len()
        invariant
            i <= a@.len(),
            a@.len() == b@.len(),
            forall|k: int| 0 <= k < i ==> a@[k] == b@[k],
        decreases a@.len() - i,
    {
        if a[i] != b[i] {
            return false;
        }
        i += 1;
    }
    assert(a@ =~= b@);
    true
}

/// The atom that stands for the number `c`.
pub fn number_to_bytes(c: Cost) -> (r: Vec<u8>)
    ensures
        r@ == number_bytes(c as nat),
{
    let mut digits: Vec<u8> = Vec::new();
    let mut rest: Cost = c;
    assert(be_digits(rest as nat) + digits@ =~= be_digits(c as nat));
    while rest != 0
        invariant
            be_digits(rest as nat) + digits@ == be_digits(c as nat),
        decreases rest,
    {
        let ghost before = digits@;
        digits.insert(0, (rest % 256) as u8);
        proof {
            let low = (rest % 256) as u8;
            assert(digits@ =~= seq![low] + before);
            assert(be_digits(rest as nat) == be_digits((rest / 256) as nat).push(low));
            assert(be_digits((rest / 256) as nat) + digits@ =~= be_digits(rest as nat) + before);
        }
        rest = rest / 256;
    }
    assert(digits@ =~= be_digits(c as nat));
    if digits.len() > 0 && digits[0] >= 0x80 {
        let ghost before = digits@;
        digits.insert(0, 0);
        assert(digits@ =~= seq![0u8] + before);
    }
    digits
}

/// Ends an evaluation that ran out of budget after it had spent `spent`.
fn out_of_budget(allocator: &mut Allocator, spent: Cost) -> (r: Response)
    requires
        old(allocator).wf(),
    ensures
        final(allocator).wf(),
        final(allocator)@ == cost_exceeded(old(allocator)@, spent).heap,
        response_is(r, cost_exceeded(old(allocator)@, spent).result),
{
    let bytes: Vec<u8> = number_to_bytes(spent);
    match allocator.new_atom(bytes.as_slice()) {
        Ok(node) => err(node, "cost exceeded"),
        Err(_) => err(allocator.null(), "cost exceeded"),
    }
}

/// Reports the arena's refusal as a failed evaluation.
fn alloc_error(allocator: &Allocator, e: AllocError) -> (r: Response)
    ensures
        response_is(r, Err(alloc_fault(e))),
{
    match e {
        AllocError::SizeLimitExceeded => err(allocator.null(), "size limit exceeded"),
        AllocError::AllocationLimitExceeded => err(allocator.null(), "allocation limit exceeded"),
    }
}

/// Whether `msg` is the message of a spent budget.
fn is_cost_exceeded(msg: &String) -> (r: bool)
    ensures
        r == (msg@ == "cost exceeded"@),
{
    let wanted: String = "cost exceeded".to_owned();
    *msg == wanted
}

/// Takes the last `count` values off `values` and makes a list of them, in
/// their order.
fn build_list(allocator: &mut Allocator, values: &mut Vec<NodePtr>, count: usize) -> (r: Result<
    NodePtr,
    AllocError,
>)
    requires
        old(allocator).wf(),
        count <= old(values)@.len(),
        forall|i: int|
            0 <= i < old(values)@.len() ==> old(allocator)@.contains(#[trigger] old(values)@[i]),
    ensures
        final(allocator).wf(),
        final(allocator)@.extends(old(allocator)@),
        final(allocator)@ == list_from(
            old(allocator)@,
            old(values)@.subrange(old(values)@.len() - count, old(values)@.len() as int),
            Heap::null(),
        ).0,
        r == list_from(
            old(allocator)@,
            old(values)@.subrange(old(values)@.len() - count, old(values)@.len() as int),
            Heap::null(),
        ).1,
        r is Ok ==> final(values)@ == old(values)@.subrange(0, old(values)@.len() - count),
        r matches Ok(list) ==> final(allocator)@.contains(list),
{
    let ghost h0 = allocator@;
    let ghost all = values@;
    let ghost top = all.len() as int;
    let ghost items = all.subrange(top - count, top);
    let mut list: NodePtr = allocator.null();
    let mut i: usize = 0;
    proof {
        assert(all.subrange(0, top) =~= all);
        lemma_list_from(h0, items, Heap::null());
    }
    while i < count
        invariant
            i <= count <= top,
            top == all.len(),
            all == old(values)@,
            h0 == old(allocator)@,
            items == all.subrange(top - count, top),
            values@ == all.subrange(0, top - i),
            allocator.wf(),
            allocator@.extends(h0),
            allocator@.contains(list),
            forall|k: int| 0 <= k < all.len() ==> allocator@.contains(#[trigger] all[k]),
            list_from(allocator@, all.subrange(top - count, top - i), list) == list_from(
                h0,
                items,
                Heap::null(),
            ),
        decreases count - i,
    {
        let ghost h = allocator@;
        let ghost part = all.subrange(top - count, top - i);
        let ghost tail = list;
        let v: NodePtr = values.pop().unwrap();
        proof {
            assert(v == all[top - i - 1]);
            assert(part.last() == v);
            assert(part.drop_last() =~= all.subrange(top - count, top - i - 1));
            assert(values@ =~= all.subrange(0, top - i - 1));
        }
        match allocator.new_pair(v, list) {
            Ok(p) => {
                list = p;
            },
            Err(e) => {
                assert(list_from(h, part, tail) == (h, Err::<NodePtr, AllocError>(e)));
                return Err(e);
            },
        }
        proof {
            h.lemma_with_pair(v, tail);
            allocator@.lemma_extends_trans(h, h0);
            assert forall|k: int| 0 <= k < all.len() implies allocator@.contains(
                #[trigger] all[k],
            ) by {
                allocator@.lemma_extends_tree(h, all[k]);
            }
        }
        i += 1;
    }
    proof {
        assert(all.subrange(top - count, top - count) =~= Seq::<NodePtr>::empty());
    }
    Ok(list)
}

/// An operator that waits for the values of its operands: `count` of them
/// are at hand, the list `rest` holds those that are not yet looked at.
#[derive(Clone, Copy)]
struct Frame {
    operator: NodePtr,
    rest: NodePtr,
    env: NodePtr,
    count: usize,
}

/// What the evaluator does next: evaluate a program in an environment, hand
/// a value to the operator that waits for it, or go on with that operator.
#[derive(Clone, Copy)]
enum Task {
    Eval(NodePtr, NodePtr),
    Feed(NodePtr),
    Continue,
}

/// How far a task is from the next step that costs.
spec fn rank(task: Task) -> nat {
    match task {
        Task::Eval(_, _) => 0,
        Task::Continue => 1,
        Task::Feed(_) => 2,
    }
}

/// The nodes of the frame are nodes of the arena.
spec fn frame_ok(h: Heap, f: Frame) -> bool {
    &&& h.contains(f.operator)
    &&& f.operator.is_atom()
    &&& h.contains(f.rest)
    &&& h.contains(f.env)
}

/// The frames find their values among `n` values: the last frame the last
/// ones, and so on.
spec fn fits(frames: Seq<Frame>, n: int) -> bool
    decreases frames.len(),
{
    if frames.len() == 0 {
        n >= 0
    } else {
        frames.last().count <= n && fits(frames.drop_last(), n - frames.last().count)
    }
}

/// The outcome of the whole evaluation once `value` is handed to the last of
/// `frames`: that operator goes on with its other operands and is carried
/// out, its value is handed to the frame before it, and so on.
spec fn resume<D: Dialect>(
    d: &D,
    h: Heap,
    frames: Seq<Frame>,
    values: Seq<NodePtr>,
    value: NodePtr,
    cost: Cost,
    max_cost: Cost,
) -> Outcome
    decreases frames.len(),
{
    if frames.len() == 0 {
        Outcome { heap: h, result: Ok((cost, value)) }
    } else {
        let f = frames.last();
        let split = values.len() - f.count;
        let done = values.subrange(split, values.len() as int).push(value);
        let out = eval_operands(d, h, f.operator, f.rest, f.env, done, cost, max_cost);
        match out.result {
            Err(_) => out,
            Ok((c, v)) => resume(
                d,
                out.heap,
                frames.drop_last(),
                values.subrange(0, split),
                v,
                c,
                max_cost,
            ),
        }
    }
}

/// The outcome of the whole evaluation once the part that ends in `out` is
/// done.
spec fn after<D: Dialect>(
    d: &D,
    out: Outcome,
    frames: Seq<Frame>,
    values: Seq<NodePtr>,
    max_cost: Cost,
) -> Outcome {
    match out.result {
        Err(_) => out,
        Ok((c, v)) => resume(d, out.heap, frames, values, v, c, max_cost),
    }
}

/// The outcome of the whole evaluation when the last of `frames` goes on.
spec fn proceed<D: Dialect>(
    d: &D,
    h: Heap,
    frames: Seq<Frame>,
    values: Seq<NodePtr>,
    cost: Cost,
    max_cost: Cost,
) -> Outcome {
    let f = frames.last();
    let split = values.len() - f.count;
    after(
        d,
        eval_operands(
            d,
            h,
            f.operator,
            f.rest,
            f.env,
            values.subrange(split, values.len() as int),
            cost,
            max_cost,
        ),
        frames.drop_last(),
        values.subrange(0, split),
        max_cost,
    )
}

/// What the evaluation will come to, seen from the task at hand.
spec fn prospect<D: Dialect>(
    d: &D,
    h: Heap,
    task: Task,
    frames: Seq<Frame>,
    values: Seq<NodePtr>,
    cost: Cost,
    max_cost: Cost,
) -> Outcome {
    match task {
        Task::Eval(program, env) => after(
            d,
            eval(d, h, program, env, cost, max_cost),
            frames,
            values,
            max_cost,
        ),
        Task::Feed(value) => resume(d, h, frames, values, value, cost, max_cost),
        Task::Continue => proceed(d, h, frames, values, cost, max_cost),
    }
}

/// The nodes that the task names are nodes of the arena.
spec fn task_ok(h: Heap, task: Task, frames: Seq<Frame>) -> bool {
    match task {
        Task::Eval(program, env) => h.contains(program) && h.contains(env),
        Task::Feed(value) => h.contains(value),
        Task::Continue => frames.len() > 0,
    }
}

/// Handing a value to the last frame and going on with it is what `resume`
/// says.
proof fn lemma_feed<D: Dialect>(
    d: &D,
    h: Heap,
    frames: Seq<Frame>,
    values: Seq<NodePtr>,
    value: NodePtr,
    cost: Cost,
    max_cost: Cost,
)
    requires
        frames.len() > 0,
        fits(frames, values.len() as int),
        frames.last().count < usize::MAX,
    ensures
        ({
            let f = frames.last();
            let fed = Frame { count: (f.count + 1) as usize, ..f };
            &&& resume(d, h, frames, values, value, cost, max_cost) == proceed(
                d,
                h,
                frames.drop_last().push(fed),
                values.push(value),
                cost,
                max_cost,
            )
            &&& fits(frames.drop_last().push(fed), values.len() as int + 1)
        }),
{
    let f = frames.last();
    let fed = Frame { count: (f.count + 1) as usize, ..f };
    let frames1 = frames.drop_last().push(fed);
    let values1 = values.push(value);
    let split = values.len() - f.count;
    assert(frames1.last() == fed);
    assert(frames1.drop_last() =~= frames.drop_last());
    assert(values1.subrange(split, values1.len() as int) =~= values.subrange(
        split,
        values.len() as int,
    ).push(value));
    assert(values1.subrange(0, split) =~= values.subrange(0, split));
}

/// Where the last frame has an operand left, going on with it is evaluating
/// that operand and handing its value to the frame.
proof fn lemma_next_operand<D: Dialect>(
    d: &D,
    h: Heap,
    frames: Seq<Frame>,
    values: Seq<NodePtr>,
    cost: Cost,
    max_cost: Cost,
)
    requires
        h.wf(),
        frames.len() > 0,
        frame_ok(h, frames.last()),
        frames.last().rest.is_pair(),
        fits(frames, values.len() as int),
        cost <= max_cost,
    ensures
        ({
            let f = frames.last();
            let (first, more) = h.pairs[f.rest.index()];
            let waiting = Frame { rest: more, ..f };
            &&& proceed(d, h, frames, values, cost, max_cost) == after(
                d,
                eval(d, h, first, f.env, cost, max_cost),
                frames.drop_last().push(waiting),
                values,
                max_cost,
            )
            &&& fits(frames.drop_last().push(waiting), values.len() as int)
            &&& h.contains(first)
            &&& h.contains(more)
        }),
{
    let f = frames.last();
    let (first, more) = h.pairs[f.rest.index()];
    assert(h.child_ok(f.rest.0 as int, first));
    assert(h.child_ok(f.rest.0 as int, more));
    let waiting = Frame { rest: more, ..f };
    let frames1 = frames.drop_last().push(waiting);
    assert(frames1.last() == waiting);
    assert(frames1.drop_last() =~= frames.drop_last());
    lemma_eval(d, h, first, f.env, cost, max_cost);
}

/// Pushing a frame that has no values yet leaves the frames fitting.
proof fn lemma_push_frame(frames: Seq<Frame>, n: int, f: Frame)
    requires
        fits(frames, n),
        f.count == 0,
    ensures
        fits(frames.push(f), n),
{
    assert(frames.push(f).drop_last() =~= frames);
}

/// Growth of the arena leaves frames and values in it.
proof fn lemma_stacks_extend(
    h: Heap,
    old: Heap,
    frames: Seq<Frame>,
    values: Seq<NodePtr>,
)
    requires
        old.wf(),
        h.extends(old),
        forall|i: int| 0 <= i < frames.len() ==> frame_ok(old, #[trigger] frames[i]),
        forall|i: int| 0 <= i < values.len() ==> old.contains(#[trigger] values[i]),
    ensures
        forall|i: int| 0 <= i < frames.len() ==> frame_ok(h, #[trigger] frames[i]),
        forall|i: int| 0 <= i < values.len() ==> h.contains(#[trigger] values[i]),
{
    assert forall|i: int| 0 <= i < frames.len() implies frame_ok(h, #[trigger] frames[i]) by {
        h.lemma_extends_tree(old, frames[i].operator);
        h.lemma_extends_tree(old, frames[i].rest);
        h.lemma_extends_tree(old, frames[i].env);
    }
    assert forall|i: int| 0 <= i < values.len() implies h.contains(#[trigger] values[i]) by {
        h.lemma_extends_tree(old, values[i]);
    }
}

/// The state of an evaluation: the operators that wait, the values at hand,
/// what to do next, and the cost so far.
struct Machine {
    frames: Vec<Frame>,
    values: Vec<NodePtr>,
    task: Task,
    cost: Cost,
}

impl Machine {
    /// The state is in order with the arena `h` and the budget.
    spec fn ok(&self, h: Heap, max_cost: Cost) -> bool {
        &&& self.cost <= max_cost
        &&& forall|i: int|
            0 <= i < self.frames@.len() ==> frame_ok(h, #[trigger] self.frames@[i])
        &&& forall|i: int| 0 <= i < self.values@.len() ==> h.contains(#[trigger] self.values@[i])
        &&& fits(self.frames@, self.values@.len() as int)
        &&& task_ok(h, self.task, self.frames@)
    }

    /// What the evaluation will come to.
    spec fn prospect<D: Dialect>(&self, d: &D, h: Heap, max_cost: Cost) -> Outcome {
        prospect(d, h, self.task, self.frames@, self.values@, self.cost, max_cost)
    }

    /// This state is nearer to the end than `before`: more is spent, or the
    /// same with fewer operators waiting, or the same with a lesser task.
    spec fn nearer(&self, before: &Machine, max_cost: Cost) -> bool {
        ||| self.cost > before.cost
        ||| self.cost == before.cost && self.frames@.len() < before.frames@.len()
        ||| self.cost == before.cost && self.frames@.len() == before.frames@.len() && rank(
            self.task,
        ) < rank(before.task)
    }
}

/// The step went as it should. Where it ended the evaluation, the arena and
/// the response are those of the prospect. Where it did not, the state is in
/// order again, nearer to the end, and the prospect is the same.
spec fn stepped<D: Dialect>(
    d: &D,
    done: Option<Response>,
    before: &Machine,
    h: Heap,
    now: &Machine,
    h1: Heap,
    max_cost: Cost,
) -> bool {
    match done {
        Some(r) => {
            &&& h1 == before.prospect(d, h, max_cost).heap
            &&& response_is(r, before.prospect(d, h, max_cost).result)
        },
        None => {
            &&& h1.extends(h)
            &&& now.ok(h1, max_cost)
            &&& now.nearer(before, max_cost)
            &&& now.prospect(d, h1, max_cost) == before.prospect(d, h, max_cost)
        },
    }
}

/// Charges `price` for a step that gave `value`, and hands the value on.
fn pay_and_feed<D: Dialect>(
    allocator: &mut Allocator,
    dialect: &D,
    m: &mut Machine,
    price: Cost,
    value: NodePtr,
    max_cost: Cost,
) -> (done: Option<Response>)
    requires
        old(allocator).wf(),
        old(m).cost <= max_cost,
        old(allocator)@.contains(value),
    ensures
        final(allocator).wf(),
        final(m).frames == old(m).frames,
        final(m).values == old(m).values,
        match charged(old(m).cost, price, max_cost) {
            Some(c) => {
                &&& done is None
                &&& final(allocator)@ == old(allocator)@
                &&& final(m).cost == c
                &&& final(m).task == Task::Feed(value)
            },
            None => {
                &&& done matches Some(r)
                &&& final(allocator)@ == cost_exceeded(old(allocator)@, old(m).cost).heap
                &&& response_is(r, cost_exceeded(old(allocator)@, old(m).cost).result)
            },
        },
{
    match charge(m.cost, price, max_cost) {
        Some(c) => {
            m.cost = c;
            m.task = Task::Feed(value);
            None
        },
        None => Some(out_of_budget(allocator, m.cost)),
    }
}

/// One step of the task "evaluate `prog` in `env`".
fn step_eval<D: Dialect>(
    allocator: &mut Allocator,
    dialect: &D,
    m: &mut Machine,
    prog: NodePtr,
    env: NodePtr,
    max_cost: Cost,
) -> (done: Option<Response>)
    requires
        old(allocator).wf(),
        old(m).ok(old(allocator)@, max_cost),
        old(m).task == Task::Eval(prog, env),
    ensures
        final(allocator).wf(),
        stepped(dialect, done, old(m), old(allocator)@, final(m), final(allocator)@, max_cost),
{
    let ghost h = allocator@;
    let ghost fs = m.frames@;
    let ghost vs = m.values@;
    proof {
        lemma_eval(dialect, h, prog, env, m.cost, max_cost);
        h.lemma_extends_refl();
    }
    match allocator.sexp(prog) {
        SExp::Atom(path) => {
            proof {
                h.lemma_atom_len(prog);
            }
            match traverse_path(allocator, allocator.buf(&path), env) {
                Ok(found) => pay_and_feed(allocator, dialect, m, found.0, found.1, max_cost),
                Err(e) => Some(Err(e)),
            }
        },
        SExp::Pair(operator, operands) => match allocator.sexp(operator) {
            SExp::Pair(_, _) => Some(err(prog, "operator is not an atom")),
            SExp::Atom(name) => {
                if bytes_equal(allocator.buf(&name), dialect.quote_kw()) {
                    pay_and_feed(allocator, dialect, m, QUOTE_COST, operands, max_cost)
                } else {
                    match charge(m.cost, OP_COST, max_cost) {
                        Some(c) => {
                            m.cost = c;
                            let frame = Frame { operator, rest: operands, env, count: 0 };
                            m.frames.push(frame);
                            m.task = Task::Continue;
                            proof {
                                lemma_push_frame(fs, vs.len() as int, frame);
                                assert(m.frames@.drop_last() =~= fs);
                                assert(vs.subrange(vs.len() as int, vs.len() as int)
                                    =~= Seq::<NodePtr>::empty());
                                assert(vs.subrange(0, vs.len() as int) =~= vs);
                            }
                            None
                        },
                        None => Some(out_of_budget(allocator, m.cost)),
                    }
                }
            },
        },
    }
}

/// One step of the task "hand `value` to the operator that waits for it".
fn step_feed<D: Dialect>(
    allocator: &mut Allocator,
    dialect: &D,
    m: &mut Machine,
    value: NodePtr,
    max_cost: Cost,
) -> (done: Option<Response>)
    requires
        old(allocator).wf(),
        old(m).ok(old(allocator)@, max_cost),
        old(m).task == Task::Feed(value),
    ensures
        final(allocator).wf(),
        stepped(dialect, done, old(m), old(allocator)@, final(m), final(allocator)@, max_cost),
{
    let ghost h = allocator@;
    let ghost fs = m.frames@;
    let ghost vs = m.values@;
    let waiting: Frame = match m.frames.pop() {
        Some(waiting) => waiting,
        None => {
            return Some(Ok(Reduction(m.cost, value)));
        },
    };
    m.values.push(value);
    let at_hand: usize = m.values.len();
    proof {
        assert(waiting.count <= vs.len());
        lemma_feed(dialect, h, fs, vs, value, m.cost, max_cost);
        h.lemma_extends_refl();
    }
    let fed = Frame { count: waiting.count + 1, ..waiting };
    m.frames.push(fed);
    m.task = Task::Continue;
    proof {
        assert(m.frames@ == fs.drop_last().push(fed));
        assert forall|i: int| 0 <= i < m.frames@.len() implies frame_ok(
            h,
            #[trigger] m.frames@[i],
        ) by {
            if i < fs.len() - 1 {
                assert(m.frames@[i] == fs[i]);
            } else {
                assert(frame_ok(h, fs[fs.len() - 1]));
            }
        }
    }
    None
}

/// The end of an operand list: makes the list of the values and carries the
/// operator out.
fn finish_frame<D: Dialect>(
    allocator: &mut Allocator,
    dialect: &D,
    m: &mut Machine,
    f: Frame,
    Ghost(before): Ghost<Machine>,
    max_cost: Cost,
) -> (done: Option<Response>)
    requires
        old(allocator).wf(),
        before.ok(old(allocator)@, max_cost),
        before.task == Task::Continue,
        before.frames@.len() > 0,
        f == before.frames@.last(),
        old(m).frames@ == before.frames@.drop_last(),
        old(m).values == before.values,
        old(m).cost == before.cost,
        !f.rest.is_pair(),
        old(allocator)@.atoms[f.rest.index()].len() == 0,
    ensures
        final(allocator).wf(),
        stepped(dialect, done, &before, old(allocator)@, final(m), final(allocator)@, max_cost),
{
    let ghost h = allocator@;
    let ghost fs = before.frames@;
    let ghost vs = before.values@;
    let ghost split = vs.len() - f.count;
    let ghost done_values = vs.subrange(split, vs.len() as int);
    let cost: Cost = m.cost;
    assert(frame_ok(h, f));
    assert(fits(fs, vs.len() as int));
    let pair: Option<(NodePtr, NodePtr)> = if f.count == 2 {
        Some((m.values[m.values.len() - 2], m.values[m.values.len() - 1]))
    } else {
        None
    };
    proof {
        lemma_apply_operator(dialect, h, f.operator, done_values, cost, max_cost);
    }
    let list: NodePtr = match build_list(allocator, &mut m.values, f.count) {
        Ok(list) => list,
        Err(e) => {
            return Some(alloc_error(allocator, e));
        },
    };
    let ghost h1 = allocator@;
    proof {
        lemma_stacks_extend(h1, h, m.frames@, m.values@);
        h1.lemma_extends_tree(h, f.operator);
        assert(fits(m.frames@, m.values@.len() as int));
    }
    if bytes_equal(allocator.atom(f.operator), dialect.apply_kw()) {
        match pair {
            Some((new_program, new_env)) => {
                proof {
                    h1.lemma_extends_tree(h, new_program);
                    h1.lemma_extends_tree(h, new_env);
                }
                match charge(cost, APPLY_COST, max_cost) {
                    Some(c) => {
                        m.cost = c;
                        m.task = Task::Eval(new_program, new_env);
                        None
                    },
                    None => Some(out_of_budget(allocator, cost)),
                }
            },
            None => Some(err(list, "apply requires exactly 2 parameters")),
        }
    } else {
        proof {
            dialect.lemma_op_grows(h1, f.operator, list, (max_cost - cost) as Cost);
        }
        match dialect.op(allocator, f.operator, list, max_cost - cost) {
            Ok(red) => {
                proof {
                    lemma_stacks_extend(allocator@, h1, m.frames@, m.values@);
                    allocator@.lemma_extends_trans(h1, h);
                }
                pay_and_feed(allocator, dialect, m, red.0, red.1, max_cost)
            },
            Err(e) => {
                if is_cost_exceeded(&e.1) {
                    Some(out_of_budget(allocator, cost))
                } else {
                    Some(Err(e))
                }
            },
        }
    }
}

/// One step of the task "go on with the operator that waits".
fn step_continue<D: Dialect>(
    allocator: &mut Allocator,
    dialect: &D,
    m: &mut Machine,
    max_cost: Cost,
) -> (done: Option<Response>)
    requires
        old(allocator).wf(),
        old(m).ok(old(allocator)@, max_cost),
        old(m).task == Task::Continue,
    ensures
        final(allocator).wf(),
        stepped(dialect, done, old(m), old(allocator)@, final(m), final(allocator)@, max_cost),
{
    let ghost h = allocator@;
    let ghost fs = m.frames@;
    let ghost vs = m.values@;
    let ghost before = *m;
    let f: Frame = m.frames.pop().unwrap();
    assert(f == fs.last());
    assert(frame_ok(h, f));
    match allocator.sexp(f.rest) {
        SExp::Pair(first, more) => {
            proof {
                lemma_next_operand(dialect, h, fs, vs, m.cost, max_cost);
                h.lemma_extends_refl();
            }
            let waiting = Frame { rest: more, ..f };
            m.frames.push(waiting);
            m.task = Task::Eval(first, f.env);
            proof {
                assert(m.frames@ == fs.drop_last().push(waiting));
                assert forall|i: int| 0 <= i < m.frames@.len() implies frame_ok(
                    h,
                    #[trigger] m.frames@[i],
                ) by {
                    if i < fs.len() - 1 {
                        assert(m.frames@[i] == fs[i]);
                    }
                }
            }
            None
        },
        SExp::Atom(end) => {
            if !end.is_empty() {
                return Some(err(f.rest, "bad operand list"));
            }
            finish_frame(allocator, dialect, m, f, Ghost(before), max_cost)
        },
    }
}

/// Someone who looks on while a program is evaluated. What an onlooker sees
/// and does changes nothing of the evaluation.
pub trait EvalHooks {
    /// Called before `program` is evaluated in the environment `args`. Says
    /// whether `post_eval` is to be called with the value, once there is
    /// one.
    fn pre_eval(&mut self, allocator: &Allocator, program: NodePtr, args: NodePtr) -> (watch: bool)
        requires
            allocator.wf(),
            allocator@.contains(program),
            allocator@.contains(args),
    ;

    /// Called with the value of an evaluation for which `pre_eval` asked. An
    /// evaluation that fails has no value, and is not reported.
    fn post_eval(&mut self, allocator: &Allocator, result: NodePtr)
        requires
            allocator.wf(),
            allocator@.contains(result),
    ;
}

/// The onlooker that does not look.
pub struct NoHooks;

impl EvalHooks for NoHooks {
    /// Never asks for the value.
    fn pre_eval(&mut self, allocator: &Allocator, program: NodePtr, args: NodePtr) -> (watch: bool)
        ensures
            !watch,
    {
        false
    }

    fn post_eval(&mut self, allocator: &Allocator, result: NodePtr) {
    }
}

/// Reports `value` for the evaluations that were begun with `depth`
/// operators waiting, the last begun first, and forgets them: `watched`
/// loses its last entries, as far as they are `depth` or more, and
/// `post_eval` is called once for each of them.
fn report<H: EvalHooks>(
    hooks: &mut H,
    allocator: &Allocator,
    watched: &mut Vec<usize>,
    depth: usize,
    value: NodePtr,
)
    requires
        allocator.wf(),
        allocator@.contains(value),
    ensures
        final(watched)@ == still_watched(old(watched)@, depth),
{
    while watched.len() > 0 && watched[watched.len() - 1] >= depth
        invariant
            allocator.wf(),
            allocator@.contains(value),
            still_watched(watched@, depth) == still_watched(old(watched)@, depth),
        decreases watched@.len(),
    {
        watched.pop();
        hooks.post_eval(allocator, value);
    }
}

/// The evaluations that are still looked at once a value is there for those
/// that were begun with `depth` operators waiting: `watched` without its last
/// entries, as far as they are `depth` or more.
spec fn still_watched(watched: Seq<usize>, depth: usize) -> Seq<usize>
    decreases watched.len(),
{
    if watched.len() == 0 || watched.last() < depth {
        watched
    } else {
        still_watched(watched.drop_last(), depth)
    }
}

/// Evaluates `program` in the environment `args`, under the budget
/// `max_cost`, and lets `hooks` look on: `pre_eval` is called before each
/// program or operand is evaluated, and `post_eval` with its value where
/// `pre_eval` asked for that. Returns the cost and the value, or the failure;
/// they are what they are without an onlooker.
pub fn run_program_with_hooks<D: Dialect, H: EvalHooks>(
    allocator: &mut Allocator,
    dialect: &D,
    program: NodePtr,
    args: NodePtr,
    max_cost: Cost,
    hooks: &mut H,
) -> (r: Response)
    requires
        old(allocator).wf(),
        old(allocator)@.contains(program),
        old(allocator)@.contains(args),
    ensures
        final(allocator).wf(),
        final(allocator)@.extends(old(allocator)@),
        final(allocator)@ == eval(dialect, old(allocator)@, program, args, 0, max_cost).heap,
        response_is(r, eval(dialect, old(allocator)@, program, args, 0, max_cost).result),
        r matches Ok(red) ==> final(allocator)@.contains(red.1) && 0 < red.0 <= max_cost,
        r matches Err(e) ==> final(allocator)@.contains(e.0),
{
    let mut m = Machine {
        frames: Vec::new(),
        values: Vec::new(),
        task: Task::Eval(program, args),
        cost: 0,
    };
    let mut watched: Vec<usize> = Vec::new();
    let ghost h0 = allocator@;
    let ghost goal = eval(dialect, h0, program, args, 0, max_cost);
    proof {
        lemma_eval(dialect, h0, program, args, 0, max_cost);
        h0.lemma_extends_refl();
    }
    loop
        invariant
            allocator.wf(),
            h0 == old(allocator)@,
            h0.wf(),
            allocator@.extends(h0),
            goal == eval(dialect, h0, program, args, 0, max_cost),
            sound(goal, h0, 0, max_cost),
            goal.result matches Ok((c, _)) ==> 0 < c,
            m.ok(allocator@, max_cost),
            goal == m.prospect(dialect, allocator@, max_cost),
        decreases max_cost - m.cost, m.frames@.len(), rank(m.task),
    {
        let ghost h = allocator@;
        let ghost before = m;
        let done: Option<Response> = match m.task {
            Task::Eval(prog, env) => {
                if hooks.pre_eval(allocator, prog, env) {
                    watched.push(m.frames.len());
                }
                step_eval(allocator, dialect, &mut m, prog, env, max_cost)
            },
            Task::Feed(value) => {
                report(hooks, allocator, &mut watched, m.frames.len(), value);
                step_feed(allocator, dialect, &mut m, value, max_cost)
            },
            Task::Continue => step_continue(allocator, dialect, &mut m, max_cost),
        };
        match done {
            Some(r) => {
                return r;
            },
            None => {
                proof {
                    allocator@.lemma_extends_trans(h, h0);
                }
            },
        }
    }
}

/// Evaluates `program` in the environment `args`, under the budget
/// `max_cost`. Returns the cost and the value, or the failure.
pub fn run_program<D: Dialect>(
    allocator: &mut Allocator,
    dialect: &D,
    program: NodePtr,
    args: NodePtr,
    max_cost: Cost,
) -> (r: Response)
    requires
        old(allocator).wf(),
        old(allocator)@.contains(program),
        old(allocator)@.contains(args),
    ensures
        final(allocator).wf(),
        final(allocator)@.extends(old(allocator)@),
        final(allocator)@ == eval(dialect, old(allocator)@, program, args, 0, max_cost).heap,
        response_is(r, eval(dialect, old(allocator)@, program, args, 0, max_cost).result),
        r matches Ok(red) ==> final(allocator)@.contains(red.1) && 0 < red.0 <= max_cost,
        r matches Err(e) ==> final(allocator)@.contains(e.0),
{
    let mut hooks = NoHooks;
    run_program_with_hooks(allocator, dialect, program, args, max_cost, &mut hooks)
}

} // verus!
