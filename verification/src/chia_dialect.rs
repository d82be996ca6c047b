//! The dialect with the fixed operator set.

use crate::allocator::{Allocator, Heap, NodePtr};
use crate::core_ops::{lemma_operator_grows, operator_spec, run_operator, Operator};
use crate::cost::Cost;
use crate::dialect::{Dialect, OperatorHandler, Outcome};
use crate::reduction::{err, Fault, Response};
use vstd::prelude::*;

verus! {

/// The operator that an atom names in this dialect: one byte, 3 to 9.
pub open spec fn chia_operator(name: Seq<u8>) -> Option<Operator> {
    if name.len() != 1 {
        None
    } else if name[0] == 3 {
        Some(Operator::If)
    } else if name[0] == 4 {
        Some(Operator::Cons)
    } else if name[0] == 5 {
        Some(Operator::First)
    } else if name[0] == 6 {
        Some(Operator::Rest)
    } else if name[0] == 7 {
        Some(Operator::Listp)
    } else if name[0] == 8 {
        Some(Operator::Raise)
    } else if name[0] == 9 {
        Some(Operator::Eq)
    } else {
        None
    }
}

/// The dialect with the fixed operator set: "quote" is the atom `[1]`,
/// "apply" the atom `[2]`, and the atoms `[3]` to `[9]` are the operators if,
/// cons, first, rest, listp, raise and eq. Any other operator is not
/// implemented.
pub struct ChiaDialect {
    flags: u32,
    quote: Vec<u8>,
    apply: Vec<u8>,
}

impl ChiaDialect {
    /// The flags that the dialect was made with.
    pub closed spec fn spec_flags(&self) -> u32 {
        self.flags
    }

    /// The dialect is the one that `new` makes with these flags.
    pub open spec fn made_with(&self, flags: u32) -> bool {
        &&& self.spec_flags() == flags
        &&& self.quote_kw_spec() == seq![1u8]
        &&& self.apply_kw_spec() == seq![2u8]
    }

    /// The dialect. The flags are kept for operators that ask for them; none
    /// of this operator set does.
    pub fn new(flags: u32) -> (d: ChiaDialect)
        ensures
            d.made_with(flags),
    {
        let mut quote: Vec<u8> = Vec::new();
        quote.push(1);
        let mut apply: Vec<u8> = Vec::new();
        apply.push(2);
        let d = ChiaDialect { flags, quote, apply };
        assert(d.quote@ =~= seq![1u8]);
        assert(d.apply@ =~= seq![2u8]);
        d
    }

    /// The flags that the dialect was made with.
    pub fn flags(&self) -> (f: u32)
        ensures
            f == self.spec_flags(),
    {
        self.flags
    }
}

/// The operator that the atom `name` names in the fixed operator set.
fn operator_of(name: &[u8]) -> (r: Option<Operator>)
    ensures
        r == chia_operator(name@),
{
    if name.len() != 1 {
        return None;
    }
    let code: u8 = name[0];
    if code == 3 {
        Some(Operator::If)
    } else if code == 4 {
        Some(Operator::Cons)
    } else if code == 5 {
        Some(Operator::First)
    } else if code == 6 {
        Some(Operator::Rest)
    } else if code == 7 {
        Some(Operator::Listp)
    } else if code == 8 {
        Some(Operator::Raise)
    } else if code == 9 {
        Some(Operator::Eq)
    } else {
        None
    }
}

impl OperatorHandler for ChiaDialect {
    open spec fn op_spec(&self, h: Heap, op: NodePtr, args: NodePtr, max_cost: Cost) -> Outcome {
        match chia_operator(h.atoms[op.index()]) {
            Some(operator) => operator_spec(operator, h, args),
            None => Outcome {
                heap: h,
                result: Err(Fault { node: op, message: "unimplemented operator"@ }),
            },
        }
    }

    fn op(&self, allocator: &mut Allocator, op: NodePtr, args: NodePtr, max_cost: Cost) -> (r:
        Response) {
        match operator_of(allocator.atom(op)) {
            Some(operator) => run_operator(operator, allocator, args, max_cost),
            None => err(op, "unimplemented operator"),
        }
    }

    proof fn lemma_op_grows(&self, h: Heap, op: NodePtr, args: NodePtr, max_cost: Cost) {
        if let Some(operator) = chia_operator(h.atoms[op.index()]) {
            lemma_operator_grows(operator, h, args);
        }
    }

    proof fn lemma_op_budget(
        &self,
        h: Heap,
        op: NodePtr,
        args: NodePtr,
        max_cost: Cost,
        less: Cost,
    ) {
    }
}

impl Dialect for ChiaDialect {
    closed spec fn quote_kw_spec(&self) -> Seq<u8> {
        self.quote@
    }

    closed spec fn apply_kw_spec(&self) -> Seq<u8> {
        self.apply@
    }

    fn quote_kw(&self) -> (r: &[u8]) {
        self.quote.as_slice()
    }

    fn apply_kw(&self) -> (r: &[u8]) {
        self.apply.as_slice()
    }
}

} // verus!
