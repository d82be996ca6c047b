//! Running programs that come as bytes.

use crate::allocator::{Allocator, Heap, NodePtr};
use crate::chia_dialect::ChiaDialect;
use crate::cost::Cost;
use crate::reduction::{response_is, Response};
use crate::run_program::{eval, run_program};
use crate::runtime_dialect::{RuntimeDialect, Unimplemented};
use crate::serialize::{node_from_bytes, read_node};
use crate::stream::Error;
use vstd::prelude::*;

verus! {

/// A program and its environment, read into an arena; or the first error of
/// the reading. Either way, the arena after it.
pub struct Loaded {
    pub heap: Heap,
    pub result: Result<(NodePtr, NodePtr), Error>,
}

/// Reads a program and then its environment from their encodings into `h`.
pub open spec fn load(h: Heap, program: Seq<u8>, args: Seq<u8>) -> Loaded {
    let first = read_node(h, program, 0);
    match first.result {
        Err(e) => Loaded { heap: first.heap, result: Err(e) },
        Ok(p) => {
            let second = read_node(first.heap, args, 0);
            match second.result {
                Err(e) => Loaded { heap: second.heap, result: Err(e) },
                Ok(a) => Loaded { heap: second.heap, result: Ok((p, a)) },
            }
        },
    }
}

/// Reads a program and then its environment from their encodings into the
/// arena.
fn load_program(allocator: &mut Allocator, program: &[u8], args: &[u8]) -> (r: Result<
    (NodePtr, NodePtr),
    Error,
>)
    requires
        old(allocator).wf(),
    ensures
        final(allocator).wf(),
        final(allocator)@.extends(old(allocator)@),
        final(allocator)@ == load(old(allocator)@, program@, args@).heap,
        r == load(old(allocator)@, program@, args@).result,
        r matches Ok(nodes) ==> final(allocator)@.contains(nodes.0) && final(allocator)@.contains(
            nodes.1,
        ),
{
    let ghost h = allocator@;
    let p: NodePtr = match node_from_bytes(allocator, program) {
        Ok(p) => p,
        Err(e) => {
            return Err(e);
        },
    };
    let ghost h1 = allocator@;
    let a: NodePtr = match node_from_bytes(allocator, args) {
        Ok(a) => a,
        Err(e) => {
            proof {
                allocator@.lemma_extends_trans(h1, h);
            }
            return Err(e);
        },
    };
    proof {
        allocator@.lemma_extends_trans(h1, h);
        allocator@.lemma_extends_tree(h1, p);
    }
    Ok((p, a))
}

/// Reads a program and its environment from their encodings and runs the one
/// in the other. The dialect is made of the spelling of "quote" and "apply"
/// and of the names and atoms of the built-in operators; it has no other
/// operators.
///
/// An encoding that cannot be read is the outer error. A program that was
/// read and fails is a response.
pub fn run_serialized_program(
    allocator: &mut Allocator,
    quote_kw: &[u8],
    apply_kw: &[u8],
    opcode_lookup_by_name: Vec<(String, Vec<u8>)>,
    program: &[u8],
    args: &[u8],
    max_cost: Cost,
    flags: u32,
) -> (r: Result<Response, Error>)
    requires
        old(allocator).wf(),
    ensures
        final(allocator).wf(),
        final(allocator)@.extends(old(allocator)@),
        match load(old(allocator)@, program@, args@).result {
            Err(e) => {
                &&& r matches Err(e1)
                &&& e1 == e
                &&& final(allocator)@ == load(old(allocator)@, program@, args@).heap
            },
            Ok((p, a)) => {
                &&& r matches Ok(response)
                &&& exists|d: RuntimeDialect<Unimplemented>|
                    {
                        &&& #[trigger] d.made_of(
                            opcode_lookup_by_name@,
                            quote_kw@,
                            apply_kw@,
                            flags,
                            Unimplemented,
                        )
                        &&& final(allocator)@ == eval(
                            &d,
                            load(old(allocator)@, program@, args@).heap,
                            p,
                            a,
                            0,
                            max_cost,
                        ).heap
                        &&& response_is(
                            response,
                            eval(
                                &d,
                                load(old(allocator)@, program@, args@).heap,
                                p,
                                a,
                                0,
                                max_cost,
                            ).result,
                        )
                    }
            },
        },
{
    let ghost h = allocator@;
    let ghost names = opcode_lookup_by_name@;
    let (p, a) = match load_program(allocator, program, args) {
        Ok(nodes) => nodes,
        Err(e) => {
            return Err(e);
        },
    };
    let ghost h1 = allocator@;
    let dialect = RuntimeDialect::new(
        opcode_lookup_by_name,
        vstd::slice::slice_to_vec(quote_kw),
        vstd::slice::slice_to_vec(apply_kw),
        flags,
        Unimplemented,
    );
    let response: Response = run_program(allocator, &dialect, p, a, max_cost);
    proof {
        allocator@.lemma_extends_trans(h1, h);
        assert(dialect.made_of(names, quote_kw@, apply_kw@, flags, Unimplemented));
    }
    Ok(response)
}

/// Runs a program in its environment, both read from their encodings into a
/// new arena, in a dialect made as for `run_serialized_program`, in which
/// "quote" and "apply" are one byte each. Returns the arena with the
/// response.
pub fn deserialize_and_run_program2(
    program: &[u8],
    args: &[u8],
    quote_kw: u8,
    apply_kw: u8,
    opcode_lookup_by_name: Vec<(String, Vec<u8>)>,
    max_cost: Cost,
    flags: u32,
) -> (r: Result<(Allocator, Response), Error>)
    ensures
        match load(Allocator::fresh(), program@, args@).result {
            Err(e) => r matches Err(e1) && e1 == e,
            Ok((p, a)) => {
                &&& r matches Ok((allocator, response))
                &&& allocator.wf()
                &&& exists|d: RuntimeDialect<Unimplemented>|
                    {
                        &&& #[trigger] d.made_of(
                            opcode_lookup_by_name@,
                            seq![quote_kw],
                            seq![apply_kw],
                            flags,
                            Unimplemented,
                        )
                        &&& allocator@ == eval(
                            &d,
                            load(Allocator::fresh(), program@, args@).heap,
                            p,
                            a,
                            0,
                            max_cost,
                        ).heap
                        &&& response_is(
                            response,
                            eval(
                                &d,
                                load(Allocator::fresh(), program@, args@).heap,
                                p,
                                a,
                                0,
                                max_cost,
                            ).result,
                        )
                    }
            },
        },
{
    let mut allocator = Allocator::new();
    let quote: [u8; 1] = [quote_kw];
    let apply: [u8; 1] = [apply_kw];
    assert(quote@ =~= seq![quote_kw]);
    assert(apply@ =~= seq![apply_kw]);
    let response: Response = match run_serialized_program(
        &mut allocator,
        quote.as_slice(),
        apply.as_slice(),
        opcode_lookup_by_name,
        program,
        args,
        max_cost,
        flags,
    ) {
        Ok(response) => response,
        Err(e) => {
            return Err(e);
        },
    };
    Ok((allocator, response))
}

/// Runs a program in its environment, both read from their encodings into a
/// new arena, in the dialect with the fixed operator set. Returns the arena
/// with the response.
pub fn run_chia_program(program: &[u8], args: &[u8], max_cost: Cost, flags: u32) -> (r: Result<
    (Allocator, Response),
    Error,
>)
    ensures
        match load(Allocator::fresh(), program@, args@).result {
            Err(e) => r matches Err(e1) && e1 == e,
            Ok((p, a)) => {
                &&& r matches Ok((allocator, response))
                &&& allocator.wf()
                &&& exists|d: ChiaDialect|
                    {
                        &&& #[trigger] d.made_with(flags)
                        &&& allocator@ == eval(
                            &d,
                            load(Allocator::fresh(), program@, args@).heap,
                            p,
                            a,
                            0,
                            max_cost,
                        ).heap
                        &&& response_is(
                            response,
                            eval(
                                &d,
                                load(Allocator::fresh(), program@, args@).heap,
                                p,
                                a,
                                0,
                                max_cost,
                            ).result,
                        )
                    }
            },
        },
{
    let mut allocator = Allocator::new();
    let (p, a) = match load_program(&mut allocator, program, args) {
        Ok(nodes) => nodes,
        Err(e) => {
            return Err(e);
        },
    };
    let dialect = ChiaDialect::new(flags);
    let response: Response = run_program(&mut allocator, &dialect, p, a, max_cost);
    proof {
        assert(dialect.made_with(flags));
    }
    Ok((allocator, response))
}

} // verus!
