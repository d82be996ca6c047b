//! A dialect that is put together when it is needed.
//!
//! The caller says how "quote" and "apply" are spelled and which one-byte
//! atoms name which of the built-in operators. Every other operator goes to a
//! handler of the caller's own.

use crate::allocator::{Allocator, Heap, NodePtr};
use crate::core_ops::{lemma_operator_grows, operator_spec, run_operator, Operator};
use crate::cost::Cost;
use crate::dialect::{Dialect, OperatorHandler, Outcome};
use crate::reduction::{err, Fault, Response};
use vstd::prelude::*;

verus! {

/// The built-in operator with the given name.
pub open spec fn operator_named(name: Seq<char>) -> Option<Operator> {
    if name == "op_if"@ {
        Some(Operator::If)
    } else if name == "op_cons"@ {
        Some(Operator::Cons)
    } else if name == "op_first"@ {
        Some(Operator::First)
    } else if name == "op_rest"@ {
        Some(Operator::Rest)
    } else if name == "op_listp"@ {
        Some(Operator::Listp)
    } else if name == "op_raise"@ {
        Some(Operator::Raise)
    } else if name == "op_eq"@ {
        Some(Operator::Eq)
    } else {
        None
    }
}

/// The built-in operator with the given name.
pub fn opcode_by_name(name: &String) -> (r: Option<Operator>)
    ensures
        r == operator_named(name@),
{
    if *name == "op_if".to_owned() {
        Some(Operator::If)
    } else if *name == "op_cons".to_owned() {
        Some(Operator::Cons)
    } else if *name == "op_first".to_owned() {
        Some(Operator::First)
    } else if *name == "op_rest".to_owned() {
        Some(Operator::Rest)
    } else if *name == "op_listp".to_owned() {
        Some(Operator::Listp)
    } else if *name == "op_raise".to_owned() {
        Some(Operator::Raise)
    } else if *name == "op_eq".to_owned() {
        Some(Operator::Eq)
    } else {
        None
    }
}

/// The table without operators: 256 empty places.
pub open spec fn empty_table() -> Seq<Option<Operator>> {
    Seq::new(256, |i: int| None::<Operator>)
}

/// The operator table for the names and atoms of `op_map`. An entry counts
/// where its atom is one byte and its name is that of a built-in operator; a
/// later entry for the same byte replaces an earlier one.
pub open spec fn table_from(op_map: Seq<(String, Vec<u8>)>) -> Seq<Option<Operator>>
    decreases op_map.len(),
{
    if op_map.len() == 0 {
        empty_table()
    } else {
        let table = table_from(op_map.drop_last());
        let (name, code) = op_map.last();
        if code@.len() == 1 && operator_named(name@) is Some {
            table.update(code@[0] as int, operator_named(name@))
        } else {
            table
        }
    }
}

/// The handler that knows no operator.
pub struct Unimplemented;

impl OperatorHandler for Unimplemented {
    open spec fn op_spec(&self, h: Heap, op: NodePtr, args: NodePtr, max_cost: Cost) -> Outcome {
        Outcome { heap: h, result: Err(Fault { node: op, message: "unimplemented operator"@ }) }
    }

    fn op(&self, allocator: &mut Allocator, op: NodePtr, args: NodePtr, max_cost: Cost) -> (r:
        Response) {
        err(op, "unimplemented operator")
    }

    proof fn lemma_op_grows(&self, h: Heap, op: NodePtr, args: NodePtr, max_cost: Cost) {
    }

    proof fn lemma_op_budget(
        &self,
        h: Heap,
        op: NodePtr,
        args: NodePtr,
        max_cost: Cost,
        less: Cost,
    ) {
    }
}

/// A dialect made of a table of built-in operators for one-byte atoms and a
/// handler for every other operator.
pub struct RuntimeDialect<H: OperatorHandler> {
    f_lookup: Vec<Option<Operator>>,
    quote_kw: Vec<u8>,
    apply_kw: Vec<u8>,
    flags: u32,
    unknown: H,
}

impl<H: OperatorHandler> RuntimeDialect<H> {
    /// The table of built-in operators.
    pub closed spec fn table(&self) -> Seq<Option<Operator>> {
        self.f_lookup@
    }

    /// The handler for operators that the table does not have.
    pub closed spec fn unknown(&self) -> H {
        self.unknown
    }

    /// The flags that the dialect was made with.
    pub closed spec fn spec_flags(&self) -> u32 {
        self.flags
    }

    /// The operator that the atom `name` names in the table.
    pub open spec fn built_in(&self, name: Seq<u8>) -> Option<Operator> {
        if name.len() == 1 && name[0] < self.table().len() {
            self.table()[name[0] as int]
        } else {
            None
        }
    }

    /// The dialect is the one that `new` makes of these.
    pub open spec fn made_of(
        &self,
        op_map: Seq<(String, Vec<u8>)>,
        quote_kw: Seq<u8>,
        apply_kw: Seq<u8>,
        flags: u32,
        unknown: H,
    ) -> bool {
        &&& self.table() == table_from(op_map)
        &&& self.quote_kw_spec() == quote_kw
        &&& self.apply_kw_spec() == apply_kw
        &&& self.spec_flags() == flags
        &&& self.unknown() == unknown
    }

    /// The dialect for the names and atoms of `op_map`, with the given
    /// spelling of "quote" and "apply". Operators that `op_map` does not give
    /// go to `unknown`. The flags are kept for operators that ask for them.
    pub fn new(
        op_map: Vec<(String, Vec<u8>)>,
        quote_kw: Vec<u8>,
        apply_kw: Vec<u8>,
        flags: u32,
        unknown: H,
    ) -> (d: RuntimeDialect<H>)
        ensures
            d.made_of(op_map@, quote_kw@, apply_kw@, flags, unknown),
    {
        let mut f_lookup: Vec<Option<Operator>> = Vec::new();
        let mut i: usize = 0;
        while i < 256
            invariant
                i <= 256,
                f_lookup@.len() == i,
                forall|k: int| 0 <= k < i ==> f_lookup@[k] == None::<Operator>,
            decreases 256 - i,
        {
            f_lookup.push(None);
            i += 1;
        }
        assert(f_lookup@ =~= empty_table());
        let mut j: usize = 0;
        assert(op_map@.subrange(0, 0) =~= Seq::<(String, Vec<u8>)>::empty());
        while j < op_map.len()
            invariant
                j <= op_map@.len(),
                f_lookup@.len() == 256,
                f_lookup@ == table_from(op_map@.subrange(0, j as int)),
            decreases op_map@.len() - j,
        {
            let ghost part = op_map@.subrange(0, j + 1);
            proof {
                assert(part.drop_last() =~= op_map@.subrange(0, j as int));
                assert(part.last() == op_map@[j as int]);
            }
            let code: &Vec<u8> = &op_map[j].1;
            if code.len() == 1 {
                match opcode_by_name(&op_map[j].0) {
                    Some(operator) => {
                        f_lookup[code[0] as usize] = Some(operator);
                    },
                    None => {},
                }
            }
            j += 1;
        }
        assert(op_map@.subrange(0, j as int) =~= op_map@);
        RuntimeDialect { f_lookup, quote_kw, apply_kw, flags, unknown }
    }

    /// The flags that the dialect was made with.
    pub fn flags(&self) -> (f: u32)
        ensures
            f == self.spec_flags(),
    {
        self.flags
    }

    /// The operator that the atom `name` names in the table.
    fn lookup(&self, name: &[u8]) -> (r: Option<Operator>)
        ensures
            r == self.built_in(name@),
    {
        if name.len() == 1 && (name[0] as usize) < self.f_lookup.len() {
            self.f_lookup[name[0] as usize]
        } else {
            None
        }
    }
}

impl<H: OperatorHandler> OperatorHandler for RuntimeDialect<H> {
    open spec fn op_spec(&self, h: Heap, op: NodePtr, args: NodePtr, max_cost: Cost) -> Outcome {
        match self.built_in(h.atoms[op.index()]) {
            Some(operator) => operator_spec(operator, h, args),
            None => self.unknown().op_spec(h, op, args, max_cost),
        }
    }

    fn op(&self, allocator: &mut Allocator, op: NodePtr, args: NodePtr, max_cost: Cost) -> (r:
        Response) {
        match self.lookup(allocator.atom(op)) {
            Some(operator) => run_operator(operator, allocator, args, max_cost),
            None => self.unknown.op(allocator, op, args, max_cost),
        }
    }

    proof fn lemma_op_grows(&self, h: Heap, op: NodePtr, args: NodePtr, max_cost: Cost) {
        match self.built_in(h.atoms[op.index()]) {
            Some(operator) => {
                lemma_operator_grows(operator, h, args);
            },
            None => {
                self.unknown().lemma_op_grows(h, op, args, max_cost);
            },
        }
    }

    proof fn lemma_op_budget(
        &self,
        h: Heap,
        op: NodePtr,
        args: NodePtr,
        max_cost: Cost,
        less: Cost,
    ) {
        if self.built_in(h.atoms[op.index()]) is None {
            self.unknown().lemma_op_budget(h, op, args, max_cost, less);
        }
    }
}

impl<H: OperatorHandler> Dialect for RuntimeDialect<H> {
    closed spec fn quote_kw_spec(&self) -> Seq<u8> {
        self.quote_kw@
    }

    closed spec fn apply_kw_spec(&self) -> Seq<u8> {
        self.apply_kw@
    }

    fn quote_kw(&self) -> (r: &[u8]) {
        self.quote_kw.as_slice()
    }

    fn apply_kw(&self) -> (r: &[u8]) {
        self.apply_kw.as_slice()
    }
}

} // verus!
