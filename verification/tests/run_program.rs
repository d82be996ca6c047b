use clvmr::allocator::{Allocator, Heap, NodePtr};
use clvmr::chia_dialect::ChiaDialect;
use clvmr::core_ops::Operator;
use clvmr::cost::{charge, Cost};
use clvmr::dialect::{Dialect, OperatorHandler, Outcome};
use clvmr::node::Node;
use clvmr::reduction::{err, EvalErr, Reduction, Response};
use clvmr::run_program::{number_to_bytes, run_program, run_program_with_hooks, EvalHooks, NoHooks};
use clvmr::runtime_dialect::{opcode_by_name, RuntimeDialect, Unimplemented};
use clvmr::serialize::{node_from_bytes, node_to_bytes};
use clvmr::serialized_program::{
    deserialize_and_run_program2, run_chia_program, run_serialized_program,
};
use clvmr::stream::Error;

fn bytes_of(a: &Allocator, n: NodePtr) -> Vec<u8> {
    node_to_bytes(&Node::new(a, n)).unwrap()
}

// Runs the encoded program in the encoded environment in the fixed dialect
// and returns the cost and the encoding of the value.
fn run(program: &[u8], env: &[u8], max_cost: Cost) -> Result<(Cost, Vec<u8>), (Vec<u8>, String)> {
    let mut a = Allocator::new();
    let p = node_from_bytes(&mut a, program).unwrap();
    let e = node_from_bytes(&mut a, env).unwrap();
    match run_program(&mut a, &ChiaDialect::new(0), p, e, max_cost) {
        Ok(Reduction(cost, node)) => Ok((cost, bytes_of(&a, node))),
        Err(EvalErr(node, msg)) => Err((bytes_of(&a, node), msg)),
    }
}

const PLENTY: Cost = 1_000_000;

#[test]
fn test_quote() {
    // (q . 1)
    assert_eq!(run(&[0xff, 0x01, 0x01], &[0x80], PLENTY), Ok((20, vec![0x01])));
    // (q . (5 . 6)): the operands come back as they stand
    assert_eq!(
        run(&[0xff, 0x01, 0xff, 0x05, 0x06], &[0x80], PLENTY),
        Ok((20, vec![0xff, 0x05, 0x06]))
    );
}

#[test]
fn test_paths() {
    // the environment ((10 . 11) . (12 . 13))
    let env = [0xff, 0xff, 0x0a, 0x0b, 0xff, 0x0c, 0x0d];
    // the path 1 is the whole environment
    assert_eq!(run(&[0x01], &env, PLENTY), Ok((44, env.to_vec())));
    // 2 is its first element, 3 its rest
    assert_eq!(run(&[0x02], &env, PLENTY), Ok((48, vec![0xff, 0x0a, 0x0b])));
    assert_eq!(run(&[0x03], &env, PLENTY), Ok((48, vec![0xff, 0x0c, 0x0d])));
    // the lowest bit is the first step. 4 = 100b: the first of the first;
    // 5 = 101b: the rest, then its first; 6 = 110b: the first, then its
    // rest; 7 = 111b: the rest of the rest
    assert_eq!(run(&[0x04], &env, PLENTY), Ok((52, vec![0x0a])));
    assert_eq!(run(&[0x05], &env, PLENTY), Ok((52, vec![0x0c])));
    assert_eq!(run(&[0x06], &env, PLENTY), Ok((52, vec![0x0b])));
    assert_eq!(run(&[0x07], &env, PLENTY), Ok((52, vec![0x0d])));
    // the path 0, with and without bytes, is the empty atom
    assert_eq!(run(&[0x80], &env, PLENTY), Ok((44, vec![0x80])));
    assert_eq!(run(&[0x00], &env, PLENTY), Ok((48, vec![0x80])));
    assert_eq!(run(&[0x82, 0x00, 0x00], &env, PLENTY), Ok((52, vec![0x80])));
    // zero bytes in front cost, and change nothing else
    assert_eq!(run(&[0x82, 0x00, 0x06], &env, PLENTY), Ok((56, vec![0x0b])));
    // a path of two bytes: 0x0100 = 1 0000 0000b, eight times the first
    // element
    assert_eq!(
        run(&[0x82, 0x01, 0x00], &[0x80], PLENTY),
        Err((vec![0x80], "path into atom".to_string()))
    );
    // a path that goes on where the environment ends
    assert_eq!(
        run(&[0x08], &env, PLENTY),
        Err((vec![0x0a], "path into atom".to_string()))
    );
}

#[test]
fn test_long_path() {
    // a list of nine elements: element i is at path 1 followed by a zero
    // and i ones
    let mut a = Allocator::new();
    let mut env = a.null();
    for i in (0..9u8).rev() {
        let item = a.new_atom(&[0x20 + i]).unwrap();
        env = a.new_pair(item, env).unwrap();
    }
    let d = ChiaDialect::new(0);
    // 0x02ff = 10 1111 1111b
    let p = a.new_atom(&[0x02, 0xff]).unwrap();
    let r = run_program(&mut a, &d, p, env, PLENTY).unwrap();
    assert_eq!(r.0, 40 + 4 * 10);
    assert_eq!(a.atom(r.1), &[0x28]);
    // 0x017f = 1 0111 1111b
    let p = a.new_atom(&[0x01, 0x7f]).unwrap();
    let r = run_program(&mut a, &d, p, env, PLENTY).unwrap();
    assert_eq!(r.0, 40 + 4 * 9);
    assert_eq!(a.atom(r.1), &[0x27]);
}

#[test]
fn test_cons_and_operand_costs() {
    // (c (q . 1) (q . 2))
    let program = [0xff, 0x04, 0xff, 0xff, 0x01, 0x01, 0xff, 0xff, 0x01, 0x02, 0x80];
    assert_eq!(run(&program, &[0x80], PLENTY), Ok((91, vec![0xff, 0x01, 0x02])));
    // (c 2 3) swaps nothing: the first and the rest of the environment
    let program = [0xff, 0x04, 0xff, 0x02, 0xff, 0x03, 0x80];
    assert_eq!(
        run(&program, &[0xff, 0x0a, 0x0b], PLENTY),
        Ok((1 + 48 + 48 + 50, vec![0xff, 0x0a, 0x0b]))
    );
}

#[test]
fn test_cons_wants_two_operands() {
    // (c (q . 1))
    let program = [0xff, 0x04, 0xff, 0xff, 0x01, 0x01, 0x80];
    assert_eq!(
        run(&program, &[0x80], PLENTY),
        Err((
            vec![0xff, 0x01, 0x80],
            "c takes exactly 2 arguments".to_string()
        ))
    );
    // (c 1 1 1)
    let program = [0xff, 0x04, 0xff, 0x01, 0xff, 0x01, 0xff, 0x01, 0x80];
    assert_eq!(
        run(&program, &[0x05], PLENTY),
        Err((
            vec![0xff, 0x05, 0xff, 0x05, 0xff, 0x05, 0x80],
            "c takes exactly 2 arguments".to_string()
        ))
    );
}

#[test]
fn test_operands_are_evaluated_first_to_last() {
    // (c (x) 8): the first operand raises, the path that leads nowhere is
    // not followed
    let program = [0xff, 0x04, 0xff, 0xff, 0x08, 0x80, 0xff, 0x08, 0x80];
    assert_eq!(
        run(&program, &[0x80], PLENTY),
        Err((vec![0x80], "clvm raise".to_string()))
    );
    // (c 8 (x)): the other way round
    let program = [0xff, 0x04, 0xff, 0x08, 0xff, 0xff, 0x08, 0x80, 0x80];
    assert_eq!(
        run(&program, &[0x80], PLENTY),
        Err((vec![0x80], "path into atom".to_string()))
    );
}

#[test]
fn test_apply() {
    // (a (q . 2) (q . (7 . 8))): the program 2 in the environment (7 . 8)
    let program = [
        0xff, 0x02, 0xff, 0xff, 0x01, 0x02, 0xff, 0xff, 0x01, 0xff, 0x07, 0x08, 0x80,
    ];
    assert_eq!(
        run(&program, &[0x80], PLENTY),
        Ok((1 + 20 + 20 + 90 + 48, vec![0x07]))
    );
    // (a 2 3): the first element of the environment is run in the rest
    // program (q . 9), environment anything
    let program = [0xff, 0x02, 0xff, 0x02, 0xff, 0x03, 0x80];
    assert_eq!(
        run(&program, &[0xff, 0xff, 0x01, 0x09, 0x55], PLENTY),
        Ok((1 + 48 + 48 + 90 + 20, vec![0x09]))
    );
    // (a (q . 2)): one operand
    let program = [0xff, 0x02, 0xff, 0xff, 0x01, 0x02, 0x80];
    assert_eq!(
        run(&program, &[0x80], PLENTY),
        Err((
            vec![0xff, 0x02, 0x80],
            "apply requires exactly 2 parameters".to_string()
        ))
    );
}

#[test]
fn test_if() {
    // (i (q . 1) (q . 2) (q . 3))
    let yes = [
        0xff, 0x03, 0xff, 0xff, 0x01, 0x01, 0xff, 0xff, 0x01, 0x02, 0xff, 0xff, 0x01, 0x03, 0x80,
    ];
    assert_eq!(run(&yes, &[0x80], PLENTY), Ok((1 + 60 + 33, vec![0x02])));
    // (i (q . ()) (q . 2) (q . 3))
    let no = [
        0xff, 0x03, 0xff, 0xff, 0x01, 0x80, 0xff, 0xff, 0x01, 0x02, 0xff, 0xff, 0x01, 0x03, 0x80,
    ];
    assert_eq!(run(&no, &[0x80], PLENTY), Ok((94, vec![0x03])));
    // a pair is not empty: (i 1 (q . 2) (q . 3)) in the environment (5 . 6)
    let pair = [
        0xff, 0x03, 0xff, 0x01, 0xff, 0xff, 0x01, 0x02, 0xff, 0xff, 0x01, 0x03, 0x80,
    ];
    assert_eq!(
        run(&pair, &[0xff, 0x05, 0x06], PLENTY),
        Ok((1 + 44 + 40 + 33, vec![0x02]))
    );
    // (i (q . 1) (q . 2))
    let short = [0xff, 0x03, 0xff, 0xff, 0x01, 0x01, 0xff, 0xff, 0x01, 0x02, 0x80];
    assert_eq!(
        run(&short, &[0x80], PLENTY),
        Err((
            vec![0xff, 0x01, 0xff, 0x02, 0x80],
            "i takes exactly 3 arguments".to_string()
        ))
    );
}

#[test]
fn test_first_rest_listp() {
    let env = [0xff, 0x0a, 0x0b];
    // (f 1), (r 1), (l 1), (l 2)
    assert_eq!(
        run(&[0xff, 0x05, 0xff, 0x01, 0x80], &env, PLENTY),
        Ok((1 + 44 + 30, vec![0x0a]))
    );
    assert_eq!(
        run(&[0xff, 0x06, 0xff, 0x01, 0x80], &env, PLENTY),
        Ok((1 + 44 + 30, vec![0x0b]))
    );
    assert_eq!(
        run(&[0xff, 0x07, 0xff, 0x01, 0x80], &env, PLENTY),
        Ok((1 + 44 + 19, vec![0x01]))
    );
    assert_eq!(
        run(&[0xff, 0x07, 0xff, 0x02, 0x80], &env, PLENTY),
        Ok((1 + 48 + 19, vec![0x80]))
    );
    // (f 2): the first of an atom
    assert_eq!(
        run(&[0xff, 0x05, 0xff, 0x02, 0x80], &env, PLENTY),
        Err((vec![0x0a], "first of non-cons".to_string()))
    );
    assert_eq!(
        run(&[0xff, 0x06, 0xff, 0x02, 0x80], &env, PLENTY),
        Err((vec![0x0a], "rest of non-cons".to_string()))
    );
    // (f 1 1), (r), (l)
    assert_eq!(
        run(&[0xff, 0x05, 0xff, 0x01, 0xff, 0x01, 0x80], &[0x80], PLENTY),
        Err((
            vec![0xff, 0x80, 0xff, 0x80, 0x80],
            "f takes exactly 1 argument".to_string()
        ))
    );
    assert_eq!(
        run(&[0xff, 0x06, 0x80], &[0x80], PLENTY),
        Err((vec![0x80], "r takes exactly 1 argument".to_string()))
    );
    assert_eq!(
        run(&[0xff, 0x07, 0x80], &[0x80], PLENTY),
        Err((vec![0x80], "l takes exactly 1 argument".to_string()))
    );
}

#[test]
fn test_raise_names_its_operands() {
    // (x (q . 5) 1)
    let program = [0xff, 0x08, 0xff, 0xff, 0x01, 0x05, 0xff, 0x01, 0x80];
    assert_eq!(
        run(&program, &[0x33], PLENTY),
        Err((vec![0xff, 0x05, 0xff, 0x33, 0x80], "clvm raise".to_string()))
    );
}

#[test]
fn test_eq_counts_bytes() {
    // (= 2 3) in the environment (abc . abc)
    let program = [0xff, 0x09, 0xff, 0x02, 0xff, 0x03, 0x80];
    let same = [0xff, 0x83, 0x61, 0x62, 0x63, 0x83, 0x61, 0x62, 0x63];
    assert_eq!(
        run(&program, &same, PLENTY),
        Ok((1 + 48 + 48 + 117 + 6, vec![0x01]))
    );
    let other = [0xff, 0x83, 0x61, 0x62, 0x63, 0x82, 0x61, 0x62];
    assert_eq!(
        run(&program, &other, PLENTY),
        Ok((1 + 48 + 48 + 117 + 5, vec![0x80]))
    );
    // a pair cannot be compared
    let pair = [0xff, 0x83, 0x61, 0x62, 0x63, 0xff, 0x01, 0x02];
    assert_eq!(
        run(&program, &pair, PLENTY),
        Err((vec![0xff, 0x01, 0x02], "= on list".to_string()))
    );
    let pairs = [0xff, 0xff, 0x03, 0x04, 0xff, 0x01, 0x02];
    assert_eq!(
        run(&program, &pairs, PLENTY),
        Err((vec![0xff, 0x03, 0x04], "= on list".to_string()))
    );
    // the empty atom and the atom [1] that every arena has are atoms like
    // any other
    assert_eq!(
        run(&program, &[0xff, 0x80, 0x80], PLENTY),
        Ok((1 + 48 + 48 + 117, vec![0x01]))
    );
    assert_eq!(
        run(&program, &[0xff, 0x01, 0x81, 0x01], PLENTY),
        Ok((1 + 48 + 48 + 117 + 2, vec![0x01]))
    );
    assert_eq!(
        run(&[0xff, 0x09, 0xff, 0x02, 0x80], &same, PLENTY),
        Err((
            vec![0xff, 0x83, 0x61, 0x62, 0x63, 0x80],
            "= takes exactly 2 arguments".to_string()
        ))
    );
}

#[test]
fn test_what_is_not_a_program() {
    // ((q . 1) 2): a pair in the place of the operator
    let program = [0xff, 0xff, 0x01, 0x01, 0xff, 0x02, 0x80];
    assert_eq!(
        run(&program, &[0x80], PLENTY),
        Err((program.to_vec(), "operator is not an atom".to_string()))
    );
    // (0x0a 1): no such operator
    assert_eq!(
        run(&[0xff, 0x0a, 0xff, 0x01, 0x80], &[0x80], PLENTY),
        Err((vec![0x0a], "unimplemented operator".to_string()))
    );
    // an operator of two bytes
    assert_eq!(
        run(&[0xff, 0x82, 0x03, 0x03, 0x80], &[0x80], PLENTY),
        Err((vec![0x82, 0x03, 0x03], "unimplemented operator".to_string()))
    );
    // (c (q . 1) . 5): the operand list ends with an atom that is not empty
    let program = [0xff, 0x04, 0xff, 0xff, 0x01, 0x01, 0x05];
    assert_eq!(
        run(&program, &[0x80], PLENTY),
        Err((vec![0x05], "bad operand list".to_string()))
    );
}

#[test]
fn test_budget_one_short() {
    // (c (q . 1) (q . 2)) costs 91
    let program = [0xff, 0x04, 0xff, 0xff, 0x01, 0x01, 0xff, 0xff, 0x01, 0x02, 0x80];
    assert_eq!(run(&program, &[0x80], 91), Ok((91, vec![0xff, 0x01, 0x02])));
    // with 90, the operands are paid for (1 + 20 + 20) and the operator is
    // not: 41 is spent
    assert_eq!(
        run(&program, &[0x80], 90),
        Err((vec![41], "cost exceeded".to_string()))
    );
    // with 40 the second operand is not paid for
    assert_eq!(
        run(&program, &[0x80], 40),
        Err((vec![21], "cost exceeded".to_string()))
    );
    assert_eq!(
        run(&program, &[0x80], 0),
        Err((vec![0x80], "cost exceeded".to_string()))
    );
    // every program and budget: one less than the cost is not enough
    let programs: [&[u8]; 5] = [
        &[0xff, 0x01, 0x01],
        &[0x06],
        &[0xff, 0x02, 0xff, 0x02, 0xff, 0x03, 0x80],
        &[0xff, 0x09, 0xff, 0x03, 0xff, 0x03, 0x80],
        &[0xff, 0x05, 0xff, 0x01, 0x80],
    ];
    let env = [0xff, 0xff, 0x01, 0x09, 0x55];
    for program in programs {
        let (cost, value) = run(program, &env, PLENTY).unwrap();
        assert_eq!(run(program, &env, cost), Ok((cost, value)));
        let (node, msg) = run(program, &env, cost - 1).unwrap_err();
        assert_eq!(msg, "cost exceeded");
        // the node is a number of one or two bytes here
        let mut a = Allocator::new();
        let n = node_from_bytes(&mut a, &node).unwrap();
        let spent = a.atom(n).iter().fold(0u64, |acc, b| acc * 256 + *b as u64);
        assert!(spent <= cost - 1);
    }
}

#[test]
fn test_cost_exceeded_in_a_full_arena() {
    // room for the program and no node more: the failure names the empty
    // atom
    let mut a = Allocator::new_limited(1000, 3, 1000);
    let p = node_from_bytes(&mut a, &[0xff, 0x01, 0x01]).unwrap();
    let null = a.null();
    let e = run_program(&mut a, &ChiaDialect::new(0), p, null, 19).unwrap_err();
    assert_eq!(e.0, a.null());
    assert_eq!(e.1, "cost exceeded");
}

#[test]
fn test_arena_refusal_during_evaluation() {
    // (c (q . 1) (q . 2)) needs a pair for each operand and one for the
    // result
    let program = [0xff, 0x04, 0xff, 0xff, 0x01, 0x01, 0xff, 0xff, 0x01, 0x02, 0x80];
    // the two atoms of every arena, the atoms 4 and 2, and five pairs
    let mut a = Allocator::new();
    let p = node_from_bytes(&mut a, &program).unwrap();
    let used = 2 + 2 + 5;
    let mut b = Allocator::new_limited(1000, used + 2, 1000);
    let in_b = node_from_bytes(&mut b, &program).unwrap();
    assert_eq!(bytes_of(&a, p), bytes_of(&b, in_b));
    let null = b.null();
    let e = run_program(&mut b, &ChiaDialect::new(0), in_b, null, PLENTY).unwrap_err();
    assert_eq!(e.0, b.null());
    assert_eq!(e.1, "allocation limit exceeded");
    let mut c = Allocator::new_limited(1000, used + 3, 1000);
    let in_c = node_from_bytes(&mut c, &program).unwrap();
    let null = c.null();
    assert!(run_program(&mut c, &ChiaDialect::new(0), in_c, null, PLENTY).is_ok());
}

#[test]
fn test_number_to_bytes() {
    assert_eq!(number_to_bytes(0), Vec::<u8>::new());
    assert_eq!(number_to_bytes(1), vec![1]);
    assert_eq!(number_to_bytes(0x7f), vec![0x7f]);
    assert_eq!(number_to_bytes(0x80), vec![0x00, 0x80]);
    assert_eq!(number_to_bytes(0xff), vec![0x00, 0xff]);
    assert_eq!(number_to_bytes(0x100), vec![0x01, 0x00]);
    assert_eq!(number_to_bytes(0x7fff), vec![0x7f, 0xff]);
    assert_eq!(number_to_bytes(0x8000), vec![0x00, 0x80, 0x00]);
    assert_eq!(
        number_to_bytes(u64::MAX),
        vec![0x00, 0xff, 0xff, 0xff, 0xff, 0xff, 0xff, 0xff, 0xff]
    );
}

#[test]
fn test_charge() {
    assert_eq!(charge(0, 0, 0), Some(0));
    assert_eq!(charge(10, 5, 15), Some(15));
    assert_eq!(charge(10, 6, 15), None);
    assert_eq!(charge(u64::MAX, 1, u64::MAX), None);
    assert_eq!(charge(u64::MAX - 1, 1, u64::MAX), Some(u64::MAX));
    assert_eq!(charge(5, u64::MAX, u64::MAX), None);
}

fn names() -> Vec<(String, Vec<u8>)> {
    vec![
        ("op_if".to_string(), vec![3]),
        ("op_cons".to_string(), vec![4]),
        ("op_first".to_string(), vec![1]),
        ("op_rest".to_string(), vec![6]),
        ("op_listp".to_string(), vec![7]),
        ("op_raise".to_string(), vec![8]),
        ("op_eq".to_string(), vec![9]),
    ]
}

#[test]
fn test_dialects_that_differ_in_quote() {
    // (1 (3 7 . 8))
    let program = [0xff, 0x01, 0xff, 0xff, 0x03, 0xff, 0x07, 0x08, 0x80];
    let mut a = Allocator::new();
    let p = node_from_bytes(&mut a, &program).unwrap();
    let null = a.null();
    // where 1 means "quote" the operands come back as they stand
    let d1 = RuntimeDialect::new(names(), vec![1], vec![2], 0, Unimplemented);
    let r1 = run_program(&mut a, &d1, p, null, PLENTY).unwrap();
    assert_eq!(r1.0, 20);
    assert_eq!(
        bytes_of(&a, r1.1),
        vec![0xff, 0xff, 0x03, 0xff, 0x07, 0x08, 0x80]
    );
    // where 3 means "quote", 1 is the operator "first", of (7 . 8)
    let d3 = RuntimeDialect::new(names(), vec![3], vec![2], 0, Unimplemented);
    let r3 = run_program(&mut a, &d3, p, null, PLENTY).unwrap();
    assert_eq!(r3.0, 1 + 20 + 30);
    assert_eq!(bytes_of(&a, r3.1), vec![0x07]);
    assert_eq!(d1.quote_kw(), &[1]);
    assert_eq!(d3.quote_kw(), &[3]);
    assert_eq!(d1.apply_kw(), d3.apply_kw());
}

#[test]
fn test_dialects_that_differ_in_apply() {
    // (5 (1 . 2) (1 . (7 . 8)))
    let program = [
        0xff, 0x05, 0xff, 0xff, 0x01, 0x02, 0xff, 0xff, 0x01, 0xff, 0x07, 0x08, 0x80,
    ];
    let mut a = Allocator::new();
    let p = node_from_bytes(&mut a, &program).unwrap();
    let null = a.null();
    let d = RuntimeDialect::new(Vec::new(), vec![1], vec![5], 0, Unimplemented);
    let r = run_program(&mut a, &d, p, null, PLENTY).unwrap();
    assert_eq!(r.0, 179);
    assert_eq!(bytes_of(&a, r.1), vec![0x07]);
    let e = run_program(&mut a, &ChiaDialect::new(0), p, null, PLENTY).unwrap_err();
    assert_eq!(e.1, "f takes exactly 1 argument");
}

#[test]
fn test_runtime_dialect_table() {
    assert_eq!(opcode_by_name(&"op_if".to_string()), Some(Operator::If));
    assert_eq!(opcode_by_name(&"op_cons".to_string()), Some(Operator::Cons));
    assert_eq!(opcode_by_name(&"op_first".to_string()), Some(Operator::First));
    assert_eq!(opcode_by_name(&"op_rest".to_string()), Some(Operator::Rest));
    assert_eq!(opcode_by_name(&"op_listp".to_string()), Some(Operator::Listp));
    assert_eq!(opcode_by_name(&"op_raise".to_string()), Some(Operator::Raise));
    assert_eq!(opcode_by_name(&"op_eq".to_string()), Some(Operator::Eq));
    assert_eq!(opcode_by_name(&"op_none".to_string()), None);
    // a later entry for a byte replaces an earlier one; names that are not
    // known and atoms of more than one byte do not count
    let map = vec![
        ("op_first".to_string(), vec![0x20]),
        ("op_rest".to_string(), vec![0x20]),
        ("op_listp".to_string(), vec![0x21, 0x00]),
        ("op_unheard_of".to_string(), vec![0x22]),
    ];
    let d = RuntimeDialect::new(map, vec![1], vec![2], 7, Unimplemented);
    assert_eq!(d.flags(), 7);
    let mut a = Allocator::new();
    let env = node_from_bytes(&mut a, &[0xff, 0x0a, 0x0b]).unwrap();
    // (0x20 1) is "rest"
    let p = node_from_bytes(&mut a, &[0xff, 0x20, 0xff, 0x01, 0x80]).unwrap();
    let r = run_program(&mut a, &d, p, env, PLENTY).unwrap();
    assert_eq!(bytes_of(&a, r.1), vec![0x0b]);
    let p = node_from_bytes(&mut a, &[0xff, 0x82, 0x21, 0x00, 0xff, 0x01, 0x80]).unwrap();
    let e = run_program(&mut a, &d, p, env, PLENTY).unwrap_err();
    assert_eq!(e.1, "unimplemented operator");
    let p = node_from_bytes(&mut a, &[0xff, 0x22, 0xff, 0x01, 0x80]).unwrap();
    let e = run_program(&mut a, &d, p, env, PLENTY).unwrap_err();
    assert_eq!(e.1, "unimplemented operator");
    assert_eq!(ChiaDialect::new(3).flags(), 3);
}

// A handler of the host's own: the operator 0x30 costs what its budget allows
// and gives its operands back; 0x31 says that the budget is spent; 0x32 costs
// nothing.
struct Host;

impl OperatorHandler for Host {
    fn op(&self, allocator: &mut Allocator, op: NodePtr, args: NodePtr, max_cost: Cost) -> Response {
        match allocator.atom(op) {
            [0x30] => Ok(Reduction(max_cost, args)),
            [0x31] => err(args, "cost exceeded"),
            [0x32] => Ok(Reduction(0, args)),
            _ => err(op, "host knows no such operator"),
        }
    }

    // the library's proofs speak of `op` through these; nothing runs them
    fn op_spec(&self, _: Heap, _: NodePtr, _: NodePtr, _: Cost) -> Outcome {
        unreachable!()
    }

    fn lemma_op_grows(&self, _: Heap, _: NodePtr, _: NodePtr, _: Cost) {}

    fn lemma_op_budget(&self, _: Heap, _: NodePtr, _: NodePtr, _: Cost, _: Cost) {}
}

#[test]
fn test_operators_of_the_host() {
    let d = RuntimeDialect::new(names(), vec![1], vec![2], 0, Host);
    let mut a = Allocator::new();
    let null = a.null();
    // (0x30 (q . 5)): the handler is given what is left of the budget
    let p = node_from_bytes(&mut a, &[0xff, 0x30, 0xff, 0xff, 0x01, 0x05, 0x80]).unwrap();
    let r = run_program(&mut a, &d, p, null, 1000).unwrap();
    assert_eq!(r.0, 1000);
    assert_eq!(bytes_of(&a, r.1), vec![0xff, 0x05, 0x80]);
    // (0x32): an operator that costs nothing
    let p = node_from_bytes(&mut a, &[0xff, 0x32, 0x80]).unwrap();
    let r = run_program(&mut a, &d, p, null, 1000).unwrap();
    assert_eq!(r.0, 1);
    // (0x31 (q . 5)): the evaluator reports what was spent
    let p = node_from_bytes(&mut a, &[0xff, 0x31, 0xff, 0xff, 0x01, 0x05, 0x80]).unwrap();
    let e = run_program(&mut a, &d, p, null, 1000).unwrap_err();
    assert_eq!(e.1, "cost exceeded");
    assert_eq!(a.atom(e.0), &[21]);
    // the table comes first: 3 is "if" although the host would take it
    let p = node_from_bytes(&mut a, &[0xff, 0x03, 0x80]).unwrap();
    let e = run_program(&mut a, &d, p, null, 1000).unwrap_err();
    assert_eq!(e.1, "i takes exactly 3 arguments");
    let p = node_from_bytes(&mut a, &[0xff, 0x33, 0x80]).unwrap();
    let e = run_program(&mut a, &d, p, null, 1000).unwrap_err();
    assert_eq!(e.1, "host knows no such operator");
}

#[test]
fn test_hundred_thousand_nested_calls() {
    // (c (q . 1) (c (q . 1) ... (q . ()))): a list of 100,000 ones
    let mut a = Allocator::new();
    let null = a.null();
    let one = a.one();
    let cons = a.new_atom(&[4]).unwrap();
    let quoted_one = a.new_pair(one, one).unwrap();
    let mut program = a.new_pair(one, null).unwrap();
    for _ in 0..100_000 {
        let tail = a.new_pair(program, null).unwrap();
        let operands = a.new_pair(quoted_one, tail).unwrap();
        program = a.new_pair(cons, operands).unwrap();
    }
    let r = run_program(&mut a, &ChiaDialect::new(0), program, null, u64::MAX).unwrap();
    assert_eq!(r.0, 20 + 100_000 * 71);
    let encoded = bytes_of(&a, r.1);
    assert_eq!(encoded.len(), 200_001);
    assert_eq!(&encoded[..4], &[0xff, 0x01, 0xff, 0x01]);
    assert_eq!(encoded[200_000], 0x80);
}

#[test]
fn test_endless_program_stops_at_its_budget() {
    // (a 2 1) in the environment ((a 2 1) . x) runs itself for ever
    let program = [0xff, 0x02, 0xff, 0x02, 0xff, 0x01, 0x80];
    let mut env = vec![0xff];
    env.extend(program);
    env.push(0x55);
    let (node, msg) = run(&program, &env, 1_000_000).unwrap_err();
    assert_eq!(msg, "cost exceeded");
    let mut a = Allocator::new();
    let n = node_from_bytes(&mut a, &node).unwrap();
    let spent = a.atom(n).iter().fold(0u64, |acc, b| acc * 256 + *b as u64);
    assert!(spent <= 1_000_000);
    assert!(spent > 1_000_000 - 100);
}

#[test]
fn test_run_serialized_program() {
    let mut a = Allocator::new();
    let program = [0xff, 0x01, 0xff, 0xff, 0x03, 0xff, 0x07, 0x08, 0x80];
    let r = run_serialized_program(&mut a, &[3], &[2], names(), &program, &[0x80], PLENTY, 0)
        .unwrap()
        .unwrap();
    assert_eq!(r.0, 51);
    assert_eq!(bytes_of(&a, r.1), vec![0x07]);
    // a program that cannot be read is the outer error
    let e = run_serialized_program(&mut a, &[3], &[2], names(), &[0xff, 0x01], &[0x80], PLENTY, 0)
        .unwrap_err();
    assert_eq!(e, Error::UnexpectedEof);
    let e = run_serialized_program(&mut a, &[3], &[2], names(), &program, &[0x8f, 0xff], PLENTY, 0)
        .unwrap_err();
    assert_eq!(e, Error::BadEncoding);
    // a program that fails is a response
    let e = run_serialized_program(&mut a, &[3], &[2], names(), &[0x02], &[0x80], PLENTY, 0)
        .unwrap()
        .unwrap_err();
    assert_eq!(e.1, "path into atom");
}

#[test]
fn test_deserialize_and_run_program2() {
    let program = [0xff, 0x01, 0xff, 0xff, 0x03, 0xff, 0x07, 0x08, 0x80];
    let (a, r) = deserialize_and_run_program2(&program, &[0x80], 1, 2, names(), PLENTY, 0).unwrap();
    let r = r.unwrap();
    assert_eq!(r.0, 20);
    assert_eq!(
        bytes_of(&a, r.1),
        vec![0xff, 0xff, 0x03, 0xff, 0x07, 0x08, 0x80]
    );
    let (a, r) = deserialize_and_run_program2(&program, &[0x80], 3, 2, names(), PLENTY, 0).unwrap();
    let r = r.unwrap();
    assert_eq!(r.0, 51);
    assert_eq!(bytes_of(&a, r.1), vec![0x07]);
    assert!(deserialize_and_run_program2(&[], &[0x80], 3, 2, names(), PLENTY, 0).is_err());
}

#[test]
fn test_run_chia_program() {
    let program = [0xff, 0x04, 0xff, 0x02, 0xff, 0x03, 0x80];
    let (a, r) = run_chia_program(&program, &[0xff, 0x0a, 0x0b], PLENTY, 0).unwrap();
    let r = r.unwrap();
    assert_eq!(r.0, 147);
    assert_eq!(bytes_of(&a, r.1), vec![0xff, 0x0a, 0x0b]);
    let (a, r) = run_chia_program(&program, &[0xff, 0x0a, 0x0b], 146, 0).unwrap();
    let e = r.unwrap_err();
    assert_eq!(e.1, "cost exceeded");
    assert_eq!(a.atom(e.0), &[97]);
    assert_eq!(
        run_chia_program(&program, &[0xff, 0x0a], PLENTY, 0)
            .err()
            .unwrap(),
        Error::UnexpectedEof
    );
}

// An onlooker that writes down what it is told: the encoding of each program
// before it is evaluated, and of each value that it asked for.
struct Tracer {
    watch: bool,
    begun: Vec<Vec<u8>>,
    values: Vec<Vec<u8>>,
}

impl EvalHooks for Tracer {
    fn pre_eval(&mut self, allocator: &Allocator, program: NodePtr, _args: NodePtr) -> bool {
        self.begun.push(bytes_of(allocator, program));
        self.watch
    }

    fn post_eval(&mut self, allocator: &Allocator, result: NodePtr) {
        self.values.push(bytes_of(allocator, result));
    }
}

#[test]
fn test_hooks_see_every_evaluation() {
    // (c (q . 1) (q . 2))
    let program = [0xff, 0x04, 0xff, 0xff, 0x01, 0x01, 0xff, 0xff, 0x01, 0x02, 0x80];
    let mut a = Allocator::new();
    let p = node_from_bytes(&mut a, &program).unwrap();
    let null = a.null();
    let mut tracer = Tracer {
        watch: true,
        begun: Vec::new(),
        values: Vec::new(),
    };
    let d = ChiaDialect::new(0);
    let r = run_program_with_hooks(&mut a, &d, p, null, PLENTY, &mut tracer).unwrap();
    assert_eq!(r.0, 91);
    assert_eq!(bytes_of(&a, r.1), vec![0xff, 0x01, 0x02]);
    assert_eq!(
        tracer.begun,
        vec![
            program.to_vec(),
            vec![0xff, 0x01, 0x01],
            vec![0xff, 0x01, 0x02]
        ]
    );
    assert_eq!(
        tracer.values,
        vec![vec![0x01], vec![0x02], vec![0xff, 0x01, 0x02]]
    );
}

#[test]
fn test_hooks_and_apply() {
    // (a (q . 2) (q . (7 . 8))): the program 2 is begun last and ends first,
    // and its value is the value of the whole
    let program = [
        0xff, 0x02, 0xff, 0xff, 0x01, 0x02, 0xff, 0xff, 0x01, 0xff, 0x07, 0x08, 0x80,
    ];
    let mut a = Allocator::new();
    let p = node_from_bytes(&mut a, &program).unwrap();
    let null = a.null();
    let mut tracer = Tracer {
        watch: true,
        begun: Vec::new(),
        values: Vec::new(),
    };
    let d = ChiaDialect::new(0);
    let r = run_program_with_hooks(&mut a, &d, p, null, PLENTY, &mut tracer).unwrap();
    assert_eq!(r.0, 179);
    assert_eq!(
        tracer.begun,
        vec![
            program.to_vec(),
            vec![0xff, 0x01, 0x02],
            vec![0xff, 0x01, 0xff, 0x07, 0x08],
            vec![0x02]
        ]
    );
    assert_eq!(
        tracer.values,
        vec![
            vec![0x02],
            vec![0xff, 0x07, 0x08],
            vec![0x07],
            vec![0x07]
        ]
    );
}

#[test]
fn test_hooks_change_nothing() {
    let program = [0xff, 0x03, 0xff, 0x02, 0xff, 0xff, 0x01, 0x02, 0xff, 0x03, 0x80];
    let env = [0xff, 0x80, 0x0b];
    for budget in [0, 50, 100, 131, 132, PLENTY] {
        let mut a = Allocator::new();
        let p = node_from_bytes(&mut a, &program).unwrap();
        let e = node_from_bytes(&mut a, &env).unwrap();
        let mut b = Allocator::new();
        let p_b = node_from_bytes(&mut b, &program).unwrap();
        let e_b = node_from_bytes(&mut b, &env).unwrap();
        let d = ChiaDialect::new(0);
        let plain = run_program(&mut a, &d, p, e, budget);
        let mut quiet = Tracer {
            watch: false,
            begun: Vec::new(),
            values: Vec::new(),
        };
        let seen = run_program_with_hooks(&mut b, &d, p_b, e_b, budget, &mut quiet);
        match (plain, seen) {
            (Ok(x), Ok(y)) => {
                assert_eq!(x, y);
                assert_eq!(bytes_of(&a, x.1), vec![0x0b]);
                assert_eq!(x.0, 1 + 48 + 20 + 48 + 33);
            }
            (Err(x), Err(y)) => {
                assert_eq!(x.0, y.0);
                assert_eq!(x.1, y.1);
                assert_eq!(x.1, "cost exceeded");
            }
            _ => panic!("the onlooker changed the outcome"),
        }
        assert!(quiet.values.is_empty());
    }
    // a failed evaluation is not reported
    let mut a = Allocator::new();
    let p = node_from_bytes(&mut a, &[0xff, 0x05, 0xff, 0x01, 0x80]).unwrap();
    let null = a.null();
    let mut tracer = Tracer {
        watch: true,
        begun: Vec::new(),
        values: Vec::new(),
    };
    let d = ChiaDialect::new(0);
    let e = run_program_with_hooks(&mut a, &d, p, null, PLENTY, &mut tracer).unwrap_err();
    assert_eq!(e.1, "first of non-cons");
    assert_eq!(tracer.begun.len(), 2);
    assert_eq!(tracer.values, vec![vec![0x80]]);
    let mut none = NoHooks;
    assert!(run_program_with_hooks(&mut a, &d, p, null, PLENTY, &mut none).is_err());
}
