//! Looking values up in an environment.
//!
//! A program that is an atom is a path into the environment. Read as a number,
//! first byte first, it says from its lowest bit upwards where to go: a zero
//! bit to the first element of a pair, a one bit to the rest. The highest one
//! bit ends the path. The number zero names the empty atom, the number one the
//! whole environment.

use crate::allocator::{Allocator, Heap, NodePtr, SExp, MAX_HEAP_BYTES};
use crate::cost::{
    Cost, TRAVERSE_BASE_COST, TRAVERSE_COST_PER_BIT, TRAVERSE_COST_PER_ZERO_BYTE,
};
use crate::encoding::be_value;
use crate::reduction::{err, Fault, Reduction, Response, response_is};
use vstd::prelude::*;

verus! {

/// Number of zero bytes at the start of `path`.
pub open spec fn leading_zero_bytes(path: Seq<u8>) -> nat
    decreases path.len(),
{
    if path.len() == 0 || path[0] != 0 {
        0
    } else {
        1 + leading_zero_bytes(path.drop_first())
    }
}

/// Number of binary digits of `n`.
pub open spec fn bit_length(n: nat) -> nat
    decreases n,
{
    if n == 0 {
        0
    } else {
        1 + bit_length(n / 2)
    }
}

/// The node that the path `n` leads to from `node`.
pub open spec fn walk(h: Heap, n: nat, node: NodePtr) -> Result<NodePtr, Fault>
    decreases n,
{
    if n <= 1 {
        Ok(node)
    } else if node.is_atom() {
        Err(Fault { node, message: "path into atom"@ })
    } else {
        let (first, rest) = h.pairs[node.index()];
        walk(
            h,
            n / 2,
            if n % 2 == 1 {
                rest
            } else {
                first
            },
        )
    }
}

/// The price of following `path`: a base price, a price for each zero byte at
/// its start, and a price for each of its bits up to the highest one bit (for
/// one bit where it has none).
pub open spec fn path_cost(path: Seq<u8>) -> nat {
    TRAVERSE_BASE_COST as nat + TRAVERSE_COST_PER_ZERO_BYTE as nat * leading_zero_bytes(path)
        + TRAVERSE_COST_PER_BIT as nat * (if be_value(path) == 0 {
        1
    } else {
        bit_length(be_value(path))
    })
}

/// What the path `path` gives in the environment `env`, and its price.
pub open spec fn lookup(h: Heap, path: Seq<u8>, env: NodePtr) -> Result<(Cost, NodePtr), Fault> {
    if be_value(path) == 0 {
        Ok((path_cost(path) as Cost, Heap::null()))
    } else {
        match walk(h, be_value(path), env) {
            Ok(node) => Ok((path_cost(path) as Cost, node)),
            Err(fault) => Err(fault),
        }
    }
}

/// The highest one bit of `b`, alone; 0 where `b` is 0.
pub open spec fn top_bit(b: u8) -> u8 {
    if b >= 0x80 {
        0x80
    } else if b >= 0x40 {
        0x40
    } else if b >= 0x20 {
        0x20
    } else if b >= 0x10 {
        0x10
    } else if b >= 0x08 {
        0x08
    } else if b >= 0x04 {
        0x04
    } else if b >= 0x02 {
        0x02
    } else if b >= 0x01 {
        0x01
    } else {
        0
    }
}

/// Smearing the bits of a byte downwards, adding one and halving leaves its
/// highest bit.
proof fn lemma_msb_mask(byte: u8)
    by (bit_vector)
    ensures
        ({
            let b1 = (byte | (byte >> 1)) as u32;
            let b2 = b1 | (b1 >> 2);
            let b3 = b2 | (b2 >> 4);
            &&& b3 < 0x100
            &&& ((b3 + 1) as u32) >> 1 == (if byte >= 0x80u8 {
                0x80u32
            } else if byte >= 0x40u8 {
                0x40u32
            } else if byte >= 0x20u8 {
                0x20u32
            } else if byte >= 0x10u8 {
                0x10u32
            } else if byte >= 0x08u8 {
                0x08u32
            } else if byte >= 0x04u8 {
                0x04u32
            } else if byte >= 0x02u8 {
                0x02u32
            } else if byte >= 0x01u8 {
                0x01u32
            } else {
                0u32
            })
        }),
{
}

/// The highest one bit of `byte`, alone.
fn msb_mask(byte: u8) -> (r: u8)
    ensures
        r == top_bit(byte),
{
    proof {
        lemma_msb_mask(byte);
    }
    let mut b: u32 = (byte | (byte >> 1)) as u32;
    b |= b >> 2;
    b |= b >> 4;
    ((b + 1) >> 1) as u8
}

/// The zero bytes at the start end where the first other byte stands.
proof fn lemma_leading_zero_bytes(path: Seq<u8>, c: int)
    requires
        0 <= c <= path.len(),
        forall|i: int| 0 <= i < c ==> path[i] == 0,
        c == path.len() || path[c] != 0,
    ensures
        leading_zero_bytes(path) == c,
    decreases c,
{
    if c > 0 {
        let tail = path.drop_first();
        assert forall|i: int| 0 <= i < c - 1 implies tail[i] == 0 by {
            assert(tail[i] == path[i + 1]);
        }
        lemma_leading_zero_bytes(tail, c - 1);
    }
}

/// The place of the first byte of `buf` that is not zero, or the length of
/// `buf` where all bytes are zero.
fn first_non_zero(buf: &[u8]) -> (c: usize)
    ensures
        c == leading_zero_bytes(buf@),
        c <= buf@.len(),
        forall|i: int| 0 <= i < c ==> buf@[i] == 0,
        c < buf@.len() ==> buf@[c as int] != 0,
{
    let mut c: usize = 0;
    while c < buf.len() && buf[c] == 0
        invariant
            c <= buf@.len(),
            forall|i: int| 0 <= i < c ==> buf@[i] == 0,
        decreases buf@.len() - c,
    {
        c += 1;
    }
    proof {
        lemma_leading_zero_bytes(buf@, c as int);
    }
    c
}

/// Zero bytes are worth nothing.
proof fn lemma_be_value_zeros(s: Seq<u8>)
    requires
        forall|i: int| 0 <= i < s.len() ==> s[i] == 0,
    ensures
        be_value(s) == 0,
    decreases s.len(),
{
    if s.len() > 0 {
        lemma_be_value_zeros(s.drop_last());
    }
}

/// A byte that is not zero makes the number at least one.
proof fn lemma_be_value_positive(s: Seq<u8>, i: int)
    requires
        0 <= i < s.len(),
        s[i] != 0,
    ensures
        be_value(s) >= 1,
    decreases s.len(),
{
    if i < s.len() - 1 {
        lemma_be_value_positive(s.drop_last(), i);
    }
}

/// The number of bits of twice a number, and of twice a number and one.
proof fn lemma_bit_length_step(n: nat)
    requires
        n >= 2,
    ensures
        bit_length(n) == 1 + bit_length(n / 2),
        n / 2 >= 1,
{
}

/// The power of two with the exponent `j`, for the bits of a byte.
spec fn pow2(j: int) -> int {
    if j == 0 {
        1
    } else if j == 1 {
        2
    } else if j == 2 {
        4
    } else if j == 3 {
        8
    } else if j == 4 {
        16
    } else if j == 5 {
        32
    } else if j == 6 {
        64
    } else if j == 7 {
        128
    } else {
        256
    }
}

/// Testing one bit of a byte with a mask.
proof fn lemma_bit_of_byte(b: u8, m: u8)
    by (bit_vector)
    requires
        m == 0x80 || m == 0x40 || m == 0x20 || m == 0x10 || m == 0x08 || m == 0x04 || m == 0x02
            || m == 0x01,
    ensures
        (b & m != 0) == ((b / m) % 2 == 1),
        m != 0x80 ==> (m << 1) == 2 * m,
{
}

/// What is left of a path whose bytes before the current one are worth
/// `a`, whose current byte is `b`, and of which the `j` lowest bits of that
/// byte are used up.
spec fn rest_of_path(a: nat, b: u8, j: int) -> int {
    a * pow2(8 - j) + (b as int) / pow2(j)
}

/// An even number and a rest: the rest decides the lowest bit.
proof fn lemma_twice_plus(x: int, q: int)
    requires
        0 <= q,
        0 <= x,
    ensures
        (2 * x + q) % 2 == q % 2,
        (2 * x + q) / 2 == x + q / 2,
{
}

/// One bit less of a path: the lowest bit of what is left is the bit of the
/// current byte that comes next, and half of what is left is what is left
/// after that bit.
proof fn lemma_rest_of_path(a: nat, b: u8, j: int)
    requires
        0 <= j <= 7,
    ensures
        rest_of_path(a, b, j) % 2 == ((b as int) / pow2(j)) % 2,
        j < 7 ==> rest_of_path(a, b, j) / 2 == rest_of_path(a, b, j + 1),
        j == 7 ==> rest_of_path(a, b, j) / 2 == a,
{
    if j == 0 {
        let q = (b as int) / 1;
        assert(rest_of_path(a, b, 0) == 2 * (a * 128) + q);
        lemma_twice_plus((a * 128) as int, q);
        assert(q / 2 == (b as int) / 2);
        assert(rest_of_path(a, b, 1) == a * 128 + (b as int) / 2);
    } else if j == 1 {
        let q = (b as int) / 2;
        assert(rest_of_path(a, b, 1) == 2 * (a * 64) + q);
        lemma_twice_plus((a * 64) as int, q);
        assert(q / 2 == (b as int) / 4);
        assert(rest_of_path(a, b, 2) == a * 64 + (b as int) / 4);
    } else if j == 2 {
        let q = (b as int) / 4;
        assert(rest_of_path(a, b, 2) == 2 * (a * 32) + q);
        lemma_twice_plus((a * 32) as int, q);
        assert(q / 2 == (b as int) / 8);
        assert(rest_of_path(a, b, 3) == a * 32 + (b as int) / 8);
    } else if j == 3 {
        let q = (b as int) / 8;
        assert(rest_of_path(a, b, 3) == 2 * (a * 16) + q);
        lemma_twice_plus((a * 16) as int, q);
        assert(q / 2 == (b as int) / 16);
        assert(rest_of_path(a, b, 4) == a * 16 + (b as int) / 16);
    } else if j == 4 {
        let q = (b as int) / 16;
        assert(rest_of_path(a, b, 4) == 2 * (a * 8) + q);
        lemma_twice_plus((a * 8) as int, q);
        assert(q / 2 == (b as int) / 32);
        assert(rest_of_path(a, b, 5) == a * 8 + (b as int) / 32);
    } else if j == 5 {
        let q = (b as int) / 32;
        assert(rest_of_path(a, b, 5) == 2 * (a * 4) + q);
        lemma_twice_plus((a * 4) as int, q);
        assert(q / 2 == (b as int) / 64);
        assert(rest_of_path(a, b, 6) == a * 4 + (b as int) / 64);
    } else if j == 6 {
        let q = (b as int) / 64;
        assert(rest_of_path(a, b, 6) == 2 * (a * 2) + q);
        lemma_twice_plus((a * 2) as int, q);
        assert(q / 2 == (b as int) / 128);
        assert(rest_of_path(a, b, 7) == a * 2 + (b as int) / 128);
    } else {
        let q = (b as int) / 128;
        assert(rest_of_path(a, b, 7) == 2 * (a * 1) + q);
        lemma_twice_plus((a * 1) as int, q);
        assert(q / 2 == 0);
    }
}

/// How much of a path is left: two or more while bytes before the current
/// one count or the current byte has a higher bit, one at its highest bit.
proof fn lemma_rest_of_path_size(a: nat, b: u8, j: int)
    requires
        0 <= j <= 7,
    ensures
        rest_of_path(a, b, j) >= 0,
        a >= 1 ==> rest_of_path(a, b, j) >= 2,
        a == 0 && pow2(j) < top_bit(b) ==> rest_of_path(a, b, j) >= 2,
        a == 0 && pow2(j) == top_bit(b) ==> rest_of_path(a, b, j) == 1,
{
    if j == 0 {
        assert(rest_of_path(a, b, 0) == a * 256 + (b as int) / 1);
    } else if j == 1 {
        assert(rest_of_path(a, b, 1) == a * 128 + (b as int) / 2);
    } else if j == 2 {
        assert(rest_of_path(a, b, 2) == a * 64 + (b as int) / 4);
    } else if j == 3 {
        assert(rest_of_path(a, b, 3) == a * 32 + (b as int) / 8);
    } else if j == 4 {
        assert(rest_of_path(a, b, 4) == a * 16 + (b as int) / 16);
    } else if j == 5 {
        assert(rest_of_path(a, b, 5) == a * 8 + (b as int) / 32);
    } else if j == 6 {
        assert(rest_of_path(a, b, 6) == a * 4 + (b as int) / 64);
    } else {
        assert(rest_of_path(a, b, 7) == a * 2 + (b as int) / 128);
    }
}

/// Dividing a byte by a mask of one bit.
proof fn lemma_div_byte(b: u8, m: u8)
    by (bit_vector)
    requires
        m == 0x80 || m == 0x40 || m == 0x20 || m == 0x10 || m == 0x08 || m == 0x04 || m == 0x02
            || m == 0x01,
    ensures
        m == 0x01 ==> b / m == b / 1,
        m == 0x02 ==> b / m == b / 2,
        m == 0x04 ==> b / m == b / 4,
        m == 0x08 ==> b / m == b / 8,
        m == 0x10 ==> b / m == b / 16,
        m == 0x20 ==> b / m == b / 32,
        m == 0x40 ==> b / m == b / 64,
        m == 0x80 ==> b / m == b / 128,
{
}

/// Follows `node_index` from `args` and returns the node it leads to, with
/// the price of the walk.
pub(crate) fn traverse_path(allocator: &Allocator, node_index: &[u8], args: NodePtr) -> (r: Response)
    requires
        allocator.wf(),
        allocator@.contains(args),
        node_index@.len() <= MAX_HEAP_BYTES,
    ensures
        response_is(r, lookup(allocator@, node_index@, args)),
        r matches Ok(red) ==> allocator@.contains(red.1),
        r matches Err(e) ==> allocator@.contains(e.0),
{
    let ghost h = allocator@;
    let ghost path = node_index@;
    let ghost number = be_value(path);
    let mut arg_list: NodePtr = args;

    // find first non-zero byte
    let first_bit_byte_index: usize = first_non_zero(node_index);

    let mut cost: Cost = TRAVERSE_BASE_COST + (first_bit_byte_index as Cost)
        * TRAVERSE_COST_PER_ZERO_BYTE + TRAVERSE_COST_PER_BIT;

    if first_bit_byte_index >= node_index.len() {
        proof {
            lemma_be_value_zeros(path);
        }
        return Ok(Reduction(cost, allocator.null()));
    }
    proof {
        lemma_be_value_positive(path, first_bit_byte_index as int);
    }

    // find first non-zero bit (the most significant bit is a sentinel)
    let last_bitmask: u8 = msb_mask(node_index[first_bit_byte_index]);

    // follow through the bits, moving left and right
    let mut byte_idx: usize = node_index.len() - 1;
    let mut bitmask: u8 = 0x01;
    let ghost mut j: int = 0;
    let ghost mut steps: nat = 0;
    let ghost mut remaining: nat = number;
    proof {
        assert(path.drop_last() =~= path.subrange(0, byte_idx as int));
        assert(path.last() == path[byte_idx as int]);
        assert(number == rest_of_path(
            be_value(path.subrange(0, byte_idx as int)),
            path[byte_idx as int],
            0,
        ));
    }
    while byte_idx > first_bit_byte_index || bitmask < last_bitmask
        invariant
            allocator.wf(),
            h == allocator@,
            path == node_index@,
            path.len() <= MAX_HEAP_BYTES,
            number == be_value(path),
            number >= 1,
            first_bit_byte_index < path.len(),
            forall|i: int| 0 <= i < first_bit_byte_index ==> path[i] == 0,
            path[first_bit_byte_index as int] != 0,
            last_bitmask == top_bit(path[first_bit_byte_index as int]),
            first_bit_byte_index <= byte_idx < path.len(),
            0 <= j <= 7,
            bitmask == pow2(j),
            byte_idx == first_bit_byte_index ==> bitmask <= last_bitmask,
            remaining == rest_of_path(
                be_value(path.subrange(0, byte_idx as int)),
                path[byte_idx as int],
                j,
            ),
            remaining >= 1,
            h.contains(arg_list),
            walk(h, number, args) == walk(h, remaining, arg_list),
            bit_length(number) == steps + bit_length(remaining),
            steps == 8 * (path.len() - 1 - byte_idx) + j,
            cost == TRAVERSE_BASE_COST + first_bit_byte_index * TRAVERSE_COST_PER_ZERO_BYTE
                + TRAVERSE_COST_PER_BIT * (steps + 1),
        decreases byte_idx, 8 - j,
    {
        let ghost before = path.subrange(0, byte_idx as int);
        let ghost b = path[byte_idx as int];
        proof {
            lemma_bit_of_byte(b, bitmask);
            lemma_div_byte(b, bitmask);
            lemma_rest_of_path(be_value(before), b, j);
            lemma_rest_of_path_size(be_value(before), b, j);
            assert((b / bitmask) as int == (b as int) / pow2(j));
            if byte_idx > first_bit_byte_index {
                lemma_be_value_positive(before, first_bit_byte_index as int);
            } else {
                lemma_be_value_zeros(before);
            }
            assert(remaining >= 2);
            lemma_bit_length_step(remaining);
            assert((remaining % 2 == 1) == ((node_index[byte_idx as int] & bitmask) != 0));
        }
        let is_bit_set: bool = (node_index[byte_idx] & bitmask) != 0;
        match allocator.sexp(arg_list) {
            SExp::Atom(_) => {
                return err(arg_list, "path into atom");
            },
            SExp::Pair(left, right) => {
                arg_list = if is_bit_set {
                    right
                } else {
                    left
                };
            },
        }
        if bitmask == 0x80 {
            proof {
                assert(before.drop_last() =~= path.subrange(0, byte_idx - 1));
                assert(before.last() == path[byte_idx - 1]);
                assert(be_value(before) == rest_of_path(
                    be_value(path.subrange(0, byte_idx - 1)),
                    path[byte_idx - 1],
                    0,
                ));
                j = 0;
            }
            bitmask = 0x01;
            byte_idx -= 1;
        } else {
            bitmask <<= 1;
            proof {
                j = j + 1;
            }
        }
        cost += TRAVERSE_COST_PER_BIT;
        proof {
            steps = steps + 1;
            remaining = remaining / 2;
        }
    }
    proof {
        lemma_be_value_zeros(path.subrange(0, byte_idx as int));
        lemma_rest_of_path_size(0, path[byte_idx as int], j);
        assert(remaining == 1);
        assert(bit_length(1) == 1) by {
            reveal_with_fuel(bit_length, 2);
        }
    }
    Ok(Reduction(cost, arg_list))
}

/// Half a number has at most one bit less.
proof fn lemma_bit_length_half(n: nat)
    ensures
        bit_length(n) <= 1 + bit_length(n / 2),
{
}

/// One more byte is at most eight more bits.
proof fn lemma_bit_length_byte(n: nat, x: u8)
    ensures
        bit_length(n * 256 + x as nat) <= 8 + bit_length(n),
{
    let v8 = n * 256 + x as nat;
    let v7 = v8 / 2;
    let v6 = v7 / 2;
    let v5 = v6 / 2;
    let v4 = v5 / 2;
    let v3 = v4 / 2;
    let v2 = v3 / 2;
    let v1 = v2 / 2;
    assert(v1 / 2 == n);
    lemma_bit_length_half(v8);
    lemma_bit_length_half(v7);
    lemma_bit_length_half(v6);
    lemma_bit_length_half(v5);
    lemma_bit_length_half(v4);
    lemma_bit_length_half(v3);
    lemma_bit_length_half(v2);
    lemma_bit_length_half(v1);
}

/// A number of so many bytes has at most eight times as many bits.
pub proof fn lemma_bit_length_of_bytes(s: Seq<u8>)
    ensures
        bit_length(be_value(s)) <= 8 * s.len(),
    decreases s.len(),
{
    if s.len() > 0 {
        lemma_bit_length_of_bytes(s.drop_last());
        lemma_bit_length_byte(be_value(s.drop_last()), s.last());
    }
}

/// No more zero bytes at the start than bytes.
proof fn lemma_leading_zero_bytes_bound(path: Seq<u8>)
    ensures
        leading_zero_bytes(path) <= path.len(),
    decreases path.len(),
{
    if path.len() > 0 && path[0] == 0 {
        lemma_leading_zero_bytes_bound(path.drop_first());
    }
}

/// A path as long as an atom of an arena can be has a price that fits, and
/// the price is never nothing.
pub proof fn lemma_path_cost(path: Seq<u8>)
    requires
        path.len() <= MAX_HEAP_BYTES,
    ensures
        TRAVERSE_BASE_COST + TRAVERSE_COST_PER_BIT <= path_cost(path) <= u64::MAX,
{
    lemma_bit_length_of_bytes(path);
    lemma_leading_zero_bytes_bound(path);
    if be_value(path) != 0 {
        assert(bit_length(be_value(path)) >= 1);
    }
    assert(4 * leading_zero_bytes(path) <= 4 * path.len()) by (nonlinear_arith)
        requires
            leading_zero_bytes(path) <= path.len(),
    ;
}

/// A path leads to a node of the arena, or fails at one.
pub proof fn lemma_walk(h: Heap, n: nat, node: NodePtr)
    requires
        h.wf(),
        h.contains(node),
    ensures
        match walk(h, n, node) {
            Ok(target) => h.contains(target),
            Err(fault) => h.contains(fault.node),
        },
    decreases n,
{
    if n > 1 && node.is_pair() {
        let (first, rest) = h.pairs[node.index()];
        assert(h.child_ok(node.0 as int, first));
        assert(h.child_ok(node.0 as int, rest));
        lemma_walk(
            h,
            n / 2,
            if n % 2 == 1 {
                rest
            } else {
                first
            },
        );
    }
}

} // verus!
