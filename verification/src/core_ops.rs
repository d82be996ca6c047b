//! The operators that work on the shape of values: choose, build, take
//! apart, tell apart, fail, compare.

use crate::allocator::{AllocError, Allocator, Heap, NodePtr, SExp};
use crate::cost::Cost;
use crate::dialect::{names_own_node, Outcome};
use crate::reduction::{err, response_is, Fault, Reduction, Response};
use crate::run_program::{alloc_fault, bytes_equal};
use vstd::prelude::*;

verus! {

/// The price of a choice.
pub const IF_COST: Cost = 33;

/// The price of a new pair.
pub const CONS_COST: Cost = 50;

/// The price of the first element of a pair.
pub const FIRST_COST: Cost = 30;

/// The price of the rest of a pair.
pub const REST_COST: Cost = 30;

/// The price of telling a pair from an atom.
pub const LISTP_COST: Cost = 19;

/// The price of a comparison, before the bytes are counted.
pub const EQ_BASE_COST: Cost = 117;

/// The price of each byte that is compared.
pub const EQ_COST_PER_BYTE: Cost = 1;

/// An operator of this module.
#[derive(Clone, Copy, Debug, PartialEq, Eq, Structural)]
pub enum Operator {
    If,
    Cons,
    First,
    Rest,
    Listp,
    Raise,
    Eq,
}

/// The `n` operands of the list `args`; none where the list does not have
/// exactly `n`. A list ends with an atom.
pub open spec fn operands(h: Heap, args: NodePtr, n: nat) -> Option<Seq<NodePtr>>
    decreases n,
{
    if n == 0 {
        if args.is_atom() {
            Some(Seq::empty())
        } else {
            None
        }
    } else if args.is_pair() {
        let (first, rest) = h.pairs[args.index()];
        match operands(h, rest, (n - 1) as nat) {
            Some(others) => Some(seq![first] + others),
            None => None,
        }
    } else {
        None
    }
}

/// The operands are nodes of the arena.
pub proof fn lemma_operands(h: Heap, args: NodePtr, n: nat)
    requires
        h.wf(),
        h.contains(args),
    ensures
        operands(h, args, n) matches Some(list) ==> list.len() == n && forall|i: int|
            0 <= i < n ==> h.contains(#[trigger] list[i]),
    decreases n,
{
    if n > 0 && args.is_pair() {
        let (first, rest) = h.pairs[args.index()];
        assert(h.child_ok(args.0 as int, first));
        assert(h.child_ok(args.0 as int, rest));
        lemma_operands(h, rest, (n - 1) as nat);
    }
}

/// The `n` operands of the list `args`.
fn get_args(allocator: &Allocator, args: NodePtr, n: usize) -> (r: Option<Vec<NodePtr>>)
    requires
        allocator.wf(),
        allocator@.contains(args),
    ensures
        match operands(allocator@, args, n as nat) {
            Some(list) => r matches Some(v) && v@ == list,
            None => r is None,
        },
        r matches Some(v) ==> v@.len() == n && forall|i: int|
            0 <= i < n ==> allocator@.contains(#[trigger] v@[i]),
{
    let ghost h = allocator@;
    let mut found: Vec<NodePtr> = Vec::new();
    let mut rest: NodePtr = args;
    let mut i: usize = 0;
    proof {
        lemma_operands(h, args, n as nat);
    }
    while i < n
        invariant
            allocator.wf(),
            h == allocator@,
            i <= n,
            found@.len() == i,
            h.contains(rest),
            operands(h, args, n as nat) == match operands(h, rest, (n - i) as nat) {
                Some(others) => Some(found@ + others),
                None => None::<Seq<NodePtr>>,
            },
        decreases n - i,
    {
        match allocator.sexp(rest) {
            SExp::Atom(_) => {
                return None;
            },
            SExp::Pair(first, more) => {
                proof {
                    let left = operands(h, more, (n - i - 1) as nat);
                    if let Some(others) = left {
                        assert(found@.push(first) + others =~= found@ + (seq![first] + others));
                    }
                }
                found.push(first);
                rest = more;
            },
        }
        i += 1;
    }
    match allocator.sexp(rest) {
        SExp::Atom(_) => {
            proof {
                assert(found@ + Seq::<NodePtr>::empty() =~= found@);
            }
            Some(found)
        },
        SExp::Pair(_, _) => None,
    }
}

/// The node is the empty atom, or another atom without bytes.
pub open spec fn is_nil(h: Heap, n: NodePtr) -> bool {
    n.is_atom() && h.atoms[n.index()].len() == 0
}

/// "if": of three operands, the third where the first is empty, else the
/// second.
pub open spec fn if_spec(h: Heap, args: NodePtr) -> Outcome {
    match operands(h, args, 3) {
        None => Outcome {
            heap: h,
            result: Err(Fault { node: args, message: "i takes exactly 3 arguments"@ }),
        },
        Some(list) => Outcome {
            heap: h,
            result: Ok(
                (
                    IF_COST,
                    if is_nil(h, list[0]) {
                        list[2]
                    } else {
                        list[1]
                    },
                ),
            ),
        },
    }
}

/// Carries out "if".
pub fn op_if(allocator: &mut Allocator, args: NodePtr, _max_cost: Cost) -> (r: Response)
    requires
        old(allocator).wf(),
        old(allocator)@.contains(args),
    ensures
        final(allocator).wf(),
        final(allocator)@ == if_spec(old(allocator)@, args).heap,
        response_is(r, if_spec(old(allocator)@, args).result),
{
    match get_args(allocator, args, 3) {
        None => err(args, "i takes exactly 3 arguments"),
        Some(list) => {
            let chosen: NodePtr = match allocator.sexp(list[0]) {
                SExp::Atom(cond) => if cond.is_empty() {
                    list[2]
                } else {
                    list[1]
                },
                SExp::Pair(_, _) => list[1],
            };
            Ok(Reduction(IF_COST, chosen))
        },
    }
}

/// "cons": a new pair of two operands.
pub open spec fn cons_spec(h: Heap, args: NodePtr) -> Outcome {
    match operands(h, args, 2) {
        None => Outcome {
            heap: h,
            result: Err(Fault { node: args, message: "c takes exactly 2 arguments"@ }),
        },
        Some(list) => match h.pair_refusal() {
            Some(e) => Outcome { heap: h, result: Err(alloc_fault(e)) },
            None => Outcome {
                heap: h.with_pair(list[0], list[1]),
                result: Ok((CONS_COST, h.next_pair())),
            },
        },
    }
}

/// Carries out "cons".
pub fn op_cons(allocator: &mut Allocator, args: NodePtr, _max_cost: Cost) -> (r: Response)
    requires
        old(allocator).wf(),
        old(allocator)@.contains(args),
    ensures
        final(allocator).wf(),
        final(allocator)@ == cons_spec(old(allocator)@, args).heap,
        response_is(r, cons_spec(old(allocator)@, args).result),
{
    match get_args(allocator, args, 2) {
        None => err(args, "c takes exactly 2 arguments"),
        Some(list) => match allocator.new_pair(list[0], list[1]) {
            Ok(pair) => Ok(Reduction(CONS_COST, pair)),
            Err(AllocError::SizeLimitExceeded) => err(allocator.null(), "size limit exceeded"),
            Err(AllocError::AllocationLimitExceeded) => err(
                allocator.null(),
                "allocation limit exceeded",
            ),
        },
    }
}

/// "first": the first element of the one operand, which is a pair.
pub open spec fn first_spec(h: Heap, args: NodePtr) -> Outcome {
    match operands(h, args, 1) {
        None => Outcome {
            heap: h,
            result: Err(Fault { node: args, message: "f takes exactly 1 argument"@ }),
        },
        Some(list) => if list[0].is_pair() {
            Outcome { heap: h, result: Ok((FIRST_COST, h.pairs[list[0].index()].0)) }
        } else {
            Outcome {
                heap: h,
                result: Err(Fault { node: list[0], message: "first of non-cons"@ }),
            }
        },
    }
}

/// Carries out "first".
pub fn op_first(allocator: &mut Allocator, args: NodePtr, _max_cost: Cost) -> (r: Response)
    requires
        old(allocator).wf(),
        old(allocator)@.contains(args),
    ensures
        final(allocator).wf(),
        final(allocator)@ == first_spec(old(allocator)@, args).heap,
        response_is(r, first_spec(old(allocator)@, args).result),
{
    match get_args(allocator, args, 1) {
        None => err(args, "f takes exactly 1 argument"),
        Some(list) => match allocator.sexp(list[0]) {
            SExp::Pair(first, _) => Ok(Reduction(FIRST_COST, first)),
            SExp::Atom(_) => err(list[0], "first of non-cons"),
        },
    }
}

/// "rest": the rest of the one operand, which is a pair.
pub open spec fn rest_spec(h: Heap, args: NodePtr) -> Outcome {
    match operands(h, args, 1) {
        None => Outcome {
            heap: h,
            result: Err(Fault { node: args, message: "r takes exactly 1 argument"@ }),
        },
        Some(list) => if list[0].is_pair() {
            Outcome { heap: h, result: Ok((REST_COST, h.pairs[list[0].index()].1)) }
        } else {
            Outcome { heap: h, result: Err(Fault { node: list[0], message: "rest of non-cons"@ }) }
        },
    }
}

/// Carries out "rest".
pub fn op_rest(allocator: &mut Allocator, args: NodePtr, _max_cost: Cost) -> (r: Response)
    requires
        old(allocator).wf(),
        old(allocator)@.contains(args),
    ensures
        final(allocator).wf(),
        final(allocator)@ == rest_spec(old(allocator)@, args).heap,
        response_is(r, rest_spec(old(allocator)@, args).result),
{
    match get_args(allocator, args, 1) {
        None => err(args, "r takes exactly 1 argument"),
        Some(list) => match allocator.sexp(list[0]) {
            SExp::Pair(_, rest) => Ok(Reduction(REST_COST, rest)),
            SExp::Atom(_) => err(list[0], "rest of non-cons"),
        },
    }
}

/// "listp": the atom `[1]` where the one operand is a pair, else the empty
/// atom.
pub open spec fn listp_spec(h: Heap, args: NodePtr) -> Outcome {
    match operands(h, args, 1) {
        None => Outcome {
            heap: h,
            result: Err(Fault { node: args, message: "l takes exactly 1 argument"@ }),
        },
        Some(list) => Outcome {
            heap: h,
            result: Ok(
                (
                    LISTP_COST,
                    if list[0].is_pair() {
                        Heap::one()
                    } else {
                        Heap::null()
                    },
                ),
            ),
        },
    }
}

/// Carries out "listp".
pub fn op_listp(allocator: &mut Allocator, args: NodePtr, _max_cost: Cost) -> (r: Response)
    requires
        old(allocator).wf(),
        old(allocator)@.contains(args),
    ensures
        final(allocator).wf(),
        final(allocator)@ == listp_spec(old(allocator)@, args).heap,
        response_is(r, listp_spec(old(allocator)@, args).result),
{
    match get_args(allocator, args, 1) {
        None => err(args, "l takes exactly 1 argument"),
        Some(list) => match allocator.sexp(list[0]) {
            SExp::Pair(_, _) => Ok(Reduction(LISTP_COST, allocator.one())),
            SExp::Atom(_) => Ok(Reduction(LISTP_COST, allocator.null())),
        },
    }
}

/// "raise": fails, and names its operands.
pub open spec fn raise_spec(h: Heap, args: NodePtr) -> Outcome {
    Outcome { heap: h, result: Err(Fault { node: args, message: "clvm raise"@ }) }
}

/// Carries out "raise".
pub fn op_raise(allocator: &mut Allocator, args: NodePtr, _max_cost: Cost) -> (r: Response)
    requires
        old(allocator).wf(),
        old(allocator)@.contains(args),
    ensures
        final(allocator).wf(),
        final(allocator)@ == raise_spec(old(allocator)@, args).heap,
        response_is(r, raise_spec(old(allocator)@, args).result),
{
    err(args, "clvm raise")
}

/// "eq": the atom `[1]` where the two operands, both atoms, have the same
/// bytes, else the empty atom. The price grows with the bytes.
pub open spec fn eq_spec(h: Heap, args: NodePtr) -> Outcome {
    match operands(h, args, 2) {
        None => Outcome {
            heap: h,
            result: Err(Fault { node: args, message: "= takes exactly 2 arguments"@ }),
        },
        Some(list) => if list[0].is_pair() {
            Outcome { heap: h, result: Err(Fault { node: list[0], message: "= on list"@ }) }
        } else if list[1].is_pair() {
            Outcome { heap: h, result: Err(Fault { node: list[1], message: "= on list"@ }) }
        } else {
            let s0 = h.atoms[list[0].index()];
            let s1 = h.atoms[list[1].index()];
            Outcome {
                heap: h,
                result: Ok(
                    (
                        (EQ_BASE_COST + (s0.len() + s1.len()) * EQ_COST_PER_BYTE) as Cost,
                        if s0 == s1 {
                            Heap::one()
                        } else {
                            Heap::null()
                        },
                    ),
                ),
            }
        },
    }
}

/// Carries out "eq".
pub fn op_eq(allocator: &mut Allocator, args: NodePtr, _max_cost: Cost) -> (r: Response)
    requires
        old(allocator).wf(),
        old(allocator)@.contains(args),
    ensures
        final(allocator).wf(),
        final(allocator)@ == eq_spec(old(allocator)@, args).heap,
        response_is(r, eq_spec(old(allocator)@, args).result),
{
    match get_args(allocator, args, 2) {
        None => err(args, "= takes exactly 2 arguments"),
        Some(list) => {
            let a0: NodePtr = list[0];
            let a1: NodePtr = list[1];
            match allocator.sexp(a0) {
                SExp::Pair(_, _) => err(a0, "= on list"),
                SExp::Atom(b0) => match allocator.sexp(a1) {
                    SExp::Pair(_, _) => err(a1, "= on list"),
                    SExp::Atom(b1) => {
                        let s0: &[u8] = allocator.buf(&b0);
                        let s1: &[u8] = allocator.buf(&b1);
                        proof {
                            allocator@.lemma_atom_len(a0);
                            allocator@.lemma_atom_len(a1);
                        }
                        let cost: Cost = EQ_BASE_COST + (s0.len() as Cost + s1.len() as Cost)
                            * EQ_COST_PER_BYTE;
                        let same: bool = bytes_equal(s0, s1);
                        Ok(
                            Reduction(
                                cost,
                                if same {
                                    allocator.one()
                                } else {
                                    allocator.null()
                                },
                            ),
                        )
                    },
                },
            }
        },
    }
}

/// What the operator does with the operand list `args`.
pub open spec fn operator_spec(operator: Operator, h: Heap, args: NodePtr) -> Outcome {
    match operator {
        Operator::If => if_spec(h, args),
        Operator::Cons => cons_spec(h, args),
        Operator::First => first_spec(h, args),
        Operator::Rest => rest_spec(h, args),
        Operator::Listp => listp_spec(h, args),
        Operator::Raise => raise_spec(h, args),
        Operator::Eq => eq_spec(h, args),
    }
}

/// Carries the operator out on the operand list `args`.
pub fn run_operator(operator: Operator, allocator: &mut Allocator, args: NodePtr, max_cost: Cost) -> (r:
    Response)
    requires
        old(allocator).wf(),
        old(allocator)@.contains(args),
    ensures
        final(allocator).wf(),
        final(allocator)@ == operator_spec(operator, old(allocator)@, args).heap,
        response_is(r, operator_spec(operator, old(allocator)@, args).result),
{
    match operator {
        Operator::If => op_if(allocator, args, max_cost),
        Operator::Cons => op_cons(allocator, args, max_cost),
        Operator::First => op_first(allocator, args, max_cost),
        Operator::Rest => op_rest(allocator, args, max_cost),
        Operator::Listp => op_listp(allocator, args, max_cost),
        Operator::Raise => op_raise(allocator, args, max_cost),
        Operator::Eq => op_eq(allocator, args, max_cost),
    }
}

/// An operator of this module leaves the arena in order, takes nothing out
/// of it, and names a node of it.
pub proof fn lemma_operator_grows(operator: Operator, h: Heap, args: NodePtr)
    requires
        h.wf(),
        h.contains(args),
    ensures
        operator_spec(operator, h, args).heap.wf(),
        operator_spec(operator, h, args).heap.extends(h),
        names_own_node(operator_spec(operator, h, args)),
{
    lemma_operands(h, args, 1);
    lemma_operands(h, args, 2);
    lemma_operands(h, args, 3);
    match operator {
        Operator::Cons => {
            if let Some(list) = operands(h, args, 2) {
                if h.pair_refusal() is None {
                    h.lemma_with_pair(list[0], list[1]);
                }
            }
        },
        Operator::First => {
            if let Some(list) = operands(h, args, 1) {
                if list[0].is_pair() {
                    assert(h.child_ok(list[0].0 as int, h.pairs[list[0].index()].0));
                }
            }
        },
        Operator::Rest => {
            if let Some(list) = operands(h, args, 1) {
                if list[0].is_pair() {
                    assert(h.child_ok(list[0].0 as int, h.pairs[list[0].index()].1));
                }
            }
        },
        _ => {},
    }
}

} // verus!
