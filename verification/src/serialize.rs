//! Writing trees as bytes and reading them back.
//!
//! Every walk over a tree or over a byte stream keeps its pending work on a
//! stack of its own: the depth of a tree is bounded by memory only, not by the
//! call stack.

use crate::allocator::{Allocator, Heap, NodePtr, SExp};
use crate::encoding::{
    atom_encoding, be_value, encodable, encoding, item_at, ones, prefix_len, prefix_payload,
    size_field, size_prefix, tree_end, Item, ATOM_SIZE_LIMIT, CONS_BOX_MARKER, MAX_SINGLE_BYTE,
};
use crate::encoding::parse_tree;
use crate::node::Node;
use crate::roundtrip::{has_room, lemma_read_node_parse, lemma_tree_end_is_parse_end};
use crate::stream::{Cursor, Error};
use vstd::prelude::*;

verus! {

/// The error for bytes that do not follow the format.
pub fn bad_encoding() -> (e: Error)
    ensures
        e == Error::BadEncoding,
{
    Error::BadEncoding
}

/// The error for a size prefix asked for where there is none.
pub fn internal_error() -> (e: Error)
    ensures
        e == Error::Internal,
{
    Error::Internal
}

/// Each byte of a size prefix fits a byte.
proof fn lemma_prefix_bytes_fit(size: u64)
    by (bit_vector)
    ensures
        size < 0x40 ==> (0x80 | size) < 0x100,
        size < 0x2000 ==> (0xc0 | (size >> 8)) < 0x100,
        size < 0x10_0000 ==> (0xe0 | (size >> 16)) < 0x100,
        size < 0x800_0000 ==> (0xf0 | (size >> 24)) < 0x100,
        size < 0x4_0000_0000 ==> (0xf8 | (size >> 32)) < 0x100,
        (size & 0xff) < 0x100,
        ((size >> 8) & 0xff) < 0x100,
        ((size >> 16) & 0xff) < 0x100,
        ((size >> 24) & 0xff) < 0x100,
{
}

/// Writes the size prefix of an atom of `size` bytes whose first byte is
/// `atom_0`. For the empty atom, `atom_0` does not matter.
pub fn write_atom_encoding_prefix_with_size(f: &mut Vec<u8>, atom_0: u8, size: u64) -> (r: Result<
    (),
    Error,
>)
    ensures
        size < ATOM_SIZE_LIMIT ==> r is Ok && final(f)@ == old(f)@ + size_prefix(atom_0, size),
        size >= ATOM_SIZE_LIMIT ==> r == Err::<(), Error>(Error::AtomTooBig) && final(f)@ == old(
            f,
        )@,
{
    proof {
        lemma_prefix_bytes_fit(size);
    }
    if size == 0 {
        f.push(0x80);
        assert(f@ =~= old(f)@ + seq![0x80u8]);
        Ok(())
    } else if size == 1 && atom_0 < 0x80 {
        assert(f@ =~= old(f)@ + Seq::<u8>::empty());
        Ok(())
    } else if size < 0x40 {
        f.push((0x80 | size) as u8);
        assert(f@ =~= old(f)@ + size_prefix(atom_0, size));
        Ok(())
    } else if size < 0x2000 {
        f.push((0xc0 | (size >> 8)) as u8);
        f.push((size & 0xff) as u8);
        assert(f@ =~= old(f)@ + size_prefix(atom_0, size));
        Ok(())
    } else if size < 0x10_0000 {
        f.push((0xe0 | (size >> 16)) as u8);
        f.push(((size >> 8) & 0xff) as u8);
        f.push((size & 0xff) as u8);
        assert(f@ =~= old(f)@ + size_prefix(atom_0, size));
        Ok(())
    } else if size < 0x800_0000 {
        f.push((0xf0 | (size >> 24)) as u8);
        f.push(((size >> 16) & 0xff) as u8);
        f.push(((size >> 8) & 0xff) as u8);
        f.push((size & 0xff) as u8);
        assert(f@ =~= old(f)@ + size_prefix(atom_0, size));
        Ok(())
    } else if size < 0x4_0000_0000 {
        f.push((0xf8 | (size >> 32)) as u8);
        f.push(((size >> 24) & 0xff) as u8);
        f.push(((size >> 16) & 0xff) as u8);
        f.push(((size >> 8) & 0xff) as u8);
        f.push((size & 0xff) as u8);
        assert(f@ =~= old(f)@ + size_prefix(atom_0, size));
        Ok(())
    } else {
        Err(Error::AtomTooBig)
    }
}

/// Writes one atom: its size prefix, then its bytes.
pub fn write_atom(f: &mut Vec<u8>, atom: &[u8]) -> (r: Result<(), Error>)
    ensures
        atom@.len() < ATOM_SIZE_LIMIT ==> r is Ok && final(f)@ == old(f)@ + atom_encoding(atom@),
        atom@.len() >= ATOM_SIZE_LIMIT ==> r == Err::<(), Error>(Error::AtomTooBig) && final(f)@
            == old(f)@,
{
    let u8_0: u8 = if !atom.is_empty() {
        atom[0]
    } else {
        0
    };
    write_atom_encoding_prefix_with_size(f, u8_0, atom.len() as u64)?;
    let ghost mid = f@;
    f.extend_from_slice(atom);
    assert(f@ =~= mid + atom@);
    assert(f@ =~= old(f)@ + atom_encoding(atom@));
    Ok(())
}

/// The byte with the single bit that follows `k` leading bits, or 0 after the
/// last bit.
spec fn bit_after(k: nat) -> u8 {
    if k == 0 {
        0x80
    } else if k == 1 {
        0x40
    } else if k == 2 {
        0x20
    } else if k == 3 {
        0x10
    } else if k == 4 {
        0x08
    } else if k == 5 {
        0x04
    } else if k == 6 {
        0x02
    } else if k == 7 {
        0x01
    } else {
        0
    }
}

/// 256 to the power `n`, for the few `n` that a size prefix can have.
spec fn pow256(n: nat) -> nat {
    if n == 0 {
        1
    } else if n == 1 {
        0x100
    } else if n == 2 {
        0x1_0000
    } else if n == 3 {
        0x100_0000
    } else if n == 4 {
        0x1_0000_0000
    } else if n == 5 {
        0x100_0000_0000
    } else {
        0x1_0000_0000_0000
    }
}

/// Testing and clearing the highest bit that a byte can still have.
proof fn lemma_strip_bit(b: u8, m: u8)
    by (bit_vector)
    requires
        m == 0x80 || m == 0x40 || m == 0x20 || m == 0x10 || m == 0x08 || m == 0x04 || m == 0x02
            || m == 0x01,
        (b as u16) < 2 * (m as u16),
    ensures
        (b & m != 0) == (b >= m),
        b >= m ==> (b & (0xff ^ m)) == b - m,
        m >> 1 == m / 2,
{
}

/// The highest bit is set in the bytes from `0x80` on.
proof fn lemma_high_bit(b: u8)
    by (bit_vector)
    ensures
        ((b & 0x80) == 0) == (b < 0x80),
        b & 0 == 0,
{
}

/// Shifting by a byte is multiplying by 256, where nothing is shifted out.
proof fn lemma_shift_byte(v: u64)
    by (bit_vector)
    requires
        v < 0x1_0000_0000_0000,
    ensures
        (v << 8) == v * 256,
{
}

/// Reads the size prefix of an atom whose first byte, `initial_b`, was read
/// already. Returns the number of bytes of the prefix, `initial_b` counted, and
/// the length of the atom.
pub fn decode_size(f: &mut Cursor, initial_b: u8) -> (r: Result<(usize, u64), Error>)
    requires
        old(f).wf(),
    ensures
        final(f).wf(),
        final(f).bytes() == old(f).bytes(),
        r == size_field(old(f).bytes(), old(f).offset(), initial_b).result,
        final(f).offset() == size_field(old(f).bytes(), old(f).offset(), initial_b).pos,
{
    proof {
        lemma_high_bit(initial_b);
        f.lemma_bounds();
    }
    if (initial_b & 0x80) == 0 {
        return Err(internal_error());
    }
    let mut bit_count: usize = 0;
    let mut bit_mask: u8 = 0x80;
    let mut b: u8 = initial_b;
    loop
        invariant_except_break
            bit_count <= 8,
            initial_b >= 0x80,
            bit_mask == bit_after(bit_count as nat),
            initial_b >= ones(bit_count as nat),
            b == initial_b - ones(bit_count as nat),
        ensures
            1 <= bit_count <= 8,
            bit_count == prefix_len(initial_b),
            b == prefix_payload(initial_b),
        decreases 8 - bit_count,
    {
        proof {
            lemma_high_bit(b);
            if bit_count < 8 {
                lemma_strip_bit(b, bit_mask);
            }
        }
        if b & bit_mask == 0 {
            break ;
        }
        bit_count += 1;
        b &= 0xff ^ bit_mask;
        bit_mask >>= 1;
    }
    let rest: &[u8] = f.read_exact((bit_count - 1) as u64)?;
    if bit_count > 6 {
        return Err(bad_encoding());
    }
    let mut v: u64 = b as u64;
    let mut i: usize = 0;
    assert(rest@.len() == bit_count - 1);
    assert(seq![b] + rest@.subrange(0, 0) =~= seq![b]);
    assert(be_value(seq![b]) == b) by {
        reveal_with_fuel(be_value, 2);
        assert(seq![b].drop_last() =~= Seq::<u8>::empty());
    }
    while i < rest.len()
        invariant
            i <= rest.len() <= 5,
            v == be_value(seq![b] + rest@.subrange(0, i as int)),
            v < pow256((i + 1) as nat),
        decreases rest.len() - i,
    {
        proof {
            lemma_shift_byte(v);
            let s = seq![b] + rest@.subrange(0, i + 1);
            assert(s.drop_last() =~= seq![b] + rest@.subrange(0, i as int));
            assert(s.last() == rest@[i as int]);
        }
        v = (v << 8) + rest[i] as u64;
        i += 1;
    }
    assert(rest@.subrange(0, i as int) =~= rest@);
    if v >= 0x4_0000_0000 {
        return Err(bad_encoding());
    }
    Ok((bit_count, v))
}

/// The encodings of the values of `values`, last one first, one after the
/// other.
spec fn pending_encoding(h: Heap, values: Seq<NodePtr>) -> Seq<u8>
    decreases values.len(),
{
    if values.len() == 0 {
        Seq::empty()
    } else {
        encoding(h.tree(values.last())) + pending_encoding(h, values.drop_last())
    }
}

/// Number of nodes of the values of `values` together.
spec fn pending_size(h: Heap, values: Seq<NodePtr>) -> nat
    decreases values.len(),
{
    if values.len() == 0 {
        0
    } else {
        h.tree(values.last()).size() + pending_size(h, values.drop_last())
    }
}

/// One more value on the stack is written first.
proof fn lemma_pending_push(h: Heap, values: Seq<NodePtr>, v: NodePtr)
    ensures
        pending_encoding(h, values.push(v)) == encoding(h.tree(v)) + pending_encoding(h, values),
        pending_size(h, values.push(v)) == h.tree(v).size() + pending_size(h, values),
{
    assert(values.push(v).drop_last() =~= values);
}

/// Every tree of an arena can be written: no atom of an arena is too long.
pub proof fn lemma_arena_tree_encodable(h: Heap, n: NodePtr)
    requires
        h.wf(),
        h.contains(n),
    ensures
        encodable(h.tree(n)),
    decreases n.0 + 0x8000_0000,
{
    if n.0 >= 0 {
        let (l, r) = h.pairs[n.0 as int];
        assert(h.child_ok(n.0 as int, l));
        assert(h.child_ok(n.0 as int, r));
        lemma_arena_tree_encodable(h, l);
        lemma_arena_tree_encodable(h, r);
    } else {
        h.lemma_atom_len(n);
    }
}

/// Writes the encoding of a node's value to the end of `f`.
pub fn node_to_stream(node: &Node, f: &mut Vec<u8>) -> (r: Result<(), Error>)
    requires
        node.wf(),
    ensures
        r is Ok,
        final(f)@ == old(f)@ + encoding(node.tree()),
{
    let mut values: Vec<NodePtr> = Vec::new();
    values.push(node.node);
    let a = node.allocator;
    let ghost h = a@;
    proof {
        assert(values@.drop_last() =~= Seq::<NodePtr>::empty());
        assert(pending_encoding(h, values@) =~= encoding(h.tree(node.node))) by {
            reveal_with_fuel(pending_encoding, 2);
        }
    }
    while !values.is_empty()
        invariant
            a.wf(),
            h == a@,
            forall|i: int| 0 <= i < values@.len() ==> h.contains(#[trigger] values@[i]),
            f@ + pending_encoding(h, values@) == old(f)@ + encoding(h.tree(node.node)),
        decreases pending_size(h, values@),
    {
        let ghost before = values@;
        let ghost out = f@;
        let v: NodePtr = values.pop().unwrap();
        assert(values@ == before.drop_last());
        let n: SExp = a.sexp(v);
        match n {
            SExp::Atom(atom_ptr) => {
                let atom: &[u8] = a.buf(&atom_ptr);
                proof {
                    h.lemma_atom_len(v);
                }
                write_atom(f, atom)?;
                assert(f@ + pending_encoding(h, values@) =~= out + pending_encoding(h, before));
            },
            SExp::Pair(left, right) => {
                f.push(CONS_BOX_MARKER);
                values.push(right);
                values.push(left);
                proof {
                    let rest = before.drop_last();
                    assert(values@ == rest.push(right).push(left));
                    lemma_pending_push(h, rest, right);
                    lemma_pending_push(h, rest.push(right), left);
                    assert(f@ + pending_encoding(h, values@) =~= out + pending_encoding(h, before));
                }
            },
        }
    }
    assert(f@ + Seq::<u8>::empty() =~= f@);
    Ok(())
}

/// The encoding of a node's value.
pub fn node_to_bytes(node: &Node) -> (r: Result<Vec<u8>, Error>)
    requires
        node.wf(),
    ensures
        r matches Ok(v) && v@ == encoding(node.tree()),
{
    let mut buffer: Vec<u8> = Vec::new();
    node_to_stream(node, &mut buffer)?;
    assert(Seq::<u8>::empty() + encoding(node.tree()) =~= encoding(node.tree()));
    Ok(buffer)
}

/// What reading a node into an arena gives: the arena and the cursor after
/// the attempt, and the node or the error.
pub struct NodeRead {
    pub heap: Heap,
    pub pos: int,
    pub result: Result<NodePtr, Error>,
}

/// `h` after a request for an atom with these bytes, made with the cursor at
/// `pos`.
pub open spec fn atom_into(h: Heap, atom: Seq<u8>, pos: int) -> NodeRead {
    match h.atom_refusal(atom.len()) {
        Some(e) => NodeRead { heap: h, pos, result: Err(Error::Alloc(e)) },
        None => NodeRead { heap: h.with_atom(atom), pos, result: Ok(h.next_atom()) },
    }
}

/// Reads the atom that begins at `pos` into `h`. The byte at `pos` is not the
/// pair marker.
///
/// The bytes `0x01` and `0x80` stand for the two atoms that every arena has
/// from the start, and ask for no room. An atom whose size prefix announces
/// more bytes than the whole input has is badly encoded; one that announces
/// more than are left is cut short.
pub open spec fn read_leaf(h: Heap, bytes: Seq<u8>, pos: int) -> NodeRead {
    let b = bytes[pos];
    if b == 0x01 {
        NodeRead { heap: h, pos: pos + 1, result: Ok(Heap::one()) }
    } else if b == 0x80 {
        NodeRead { heap: h, pos: pos + 1, result: Ok(Heap::null()) }
    } else if b <= MAX_SINGLE_BYTE {
        atom_into(h, seq![b], pos + 1)
    } else {
        let field = size_field(bytes, pos + 1, b);
        match field.result {
            Err(e) => NodeRead { heap: h, pos: field.pos, result: Err(e) },
            Ok((_, size)) => if bytes.len() < size {
                NodeRead { heap: h, pos: field.pos, result: Err(Error::BadEncoding) }
            } else if field.pos + size > bytes.len() {
                NodeRead { heap: h, pos: bytes.len() as int, result: Err(Error::UnexpectedEof) }
            } else {
                atom_into(h, bytes.subrange(field.pos, field.pos + size), field.pos + size)
            },
        }
    }
}

/// Reads the tree that begins at `pos` into `h`: a pair's first element, then
/// its second, then the pair itself. The first error ends the reading; what
/// the arena took in before stays in it.
pub open spec fn read_node(h: Heap, bytes: Seq<u8>, pos: int) -> NodeRead
    decreases bytes.len() - pos,
{
    if pos < 0 || pos >= bytes.len() {
        NodeRead { heap: h, pos, result: Err(Error::UnexpectedEof) }
    } else if bytes[pos] == CONS_BOX_MARKER {
        let left = read_node(h, bytes, pos + 1);
        if left.result is Ok && pos < left.pos <= bytes.len() {
            let right = read_node(left.heap, bytes, left.pos);
            if right.result is Ok {
                match right.heap.pair_refusal() {
                    Some(e) => NodeRead {
                        heap: right.heap,
                        pos: right.pos,
                        result: Err(Error::Alloc(e)),
                    },
                    None => NodeRead {
                        heap: right.heap.with_pair(left.result->Ok_0, right.result->Ok_0),
                        pos: right.pos,
                        result: Ok(right.heap.next_pair()),
                    },
                }
            } else {
                right
            }
        } else {
            left
        }
    } else {
        read_leaf(h, bytes, pos)
    }
}

/// What is still to be done while a tree is read: read one more tree, or make
/// a pair of the last two that were read.
#[derive(Clone, Copy)]
enum ParseOp {
    SExp,
    Cons,
}

/// The outcome of working off `ops`, last one first, from the state given.
spec fn run_ops(
    h: Heap,
    bytes: Seq<u8>,
    pos: int,
    ops: Seq<ParseOp>,
    values: Seq<NodePtr>,
) -> NodeRead
    decreases bytes.len() - pos, ops.len(),
{
    if ops.len() == 0 {
        NodeRead {
            heap: h,
            pos,
            result: if values.len() > 0 {
                Ok(values.last())
            } else {
                Err(Error::Internal)
            },
        }
    } else {
        match ops.last() {
            ParseOp::Cons => {
                if values.len() < 2 {
                    NodeRead { heap: h, pos, result: Err(Error::Internal) }
                } else {
                    let v2 = values.last();
                    let v1 = values[values.len() - 2];
                    match h.pair_refusal() {
                        Some(e) => NodeRead { heap: h, pos, result: Err(Error::Alloc(e)) },
                        None => run_ops(
                            h.with_pair(v1, v2),
                            bytes,
                            pos,
                            ops.drop_last(),
                            values.drop_last().drop_last().push(h.next_pair()),
                        ),
                    }
                }
            },
            ParseOp::SExp => {
                if pos < 0 || pos >= bytes.len() {
                    NodeRead { heap: h, pos, result: Err(Error::UnexpectedEof) }
                } else if bytes[pos] == CONS_BOX_MARKER {
                    run_ops(
                        h,
                        bytes,
                        pos + 1,
                        ops.drop_last().push(ParseOp::Cons).push(ParseOp::SExp).push(ParseOp::SExp),
                        values,
                    )
                } else {
                    let leaf = read_leaf(h, bytes, pos);
                    if leaf.result is Ok && pos < leaf.pos {
                        run_ops(
                            leaf.heap,
                            bytes,
                            leaf.pos,
                            ops.drop_last(),
                            values.push(leaf.result->Ok_0),
                        )
                    } else {
                        leaf
                    }
                }
            },
        }
    }
}

/// With `n` values at hand, `ops` can be worked off without running out of
/// values, and leaves exactly one.
spec fn balanced(ops: Seq<ParseOp>, n: int) -> bool
    decreases ops.len(),
{
    if ops.len() == 0 {
        n == 1
    } else {
        match ops.last() {
            ParseOp::SExp => balanced(ops.drop_last(), n + 1),
            ParseOp::Cons => n >= 2 && balanced(ops.drop_last(), n - 1),
        }
    }
}

/// Reading an atom takes at least one byte, stays inside the input, and
/// leaves the arena in order.
pub proof fn lemma_read_leaf(h: Heap, bytes: Seq<u8>, pos: int)
    requires
        h.wf(),
        0 <= pos < bytes.len(),
        bytes[pos] != CONS_BOX_MARKER,
    ensures
        read_leaf(h, bytes, pos).heap.wf(),
        read_leaf(h, bytes, pos).heap.extends(h),
        pos <= read_leaf(h, bytes, pos).pos <= bytes.len(),
        read_leaf(h, bytes, pos).result matches Ok(n) ==> {
            &&& pos < read_leaf(h, bytes, pos).pos
            &&& read_leaf(h, bytes, pos).heap.contains(n)
        },
{
    let b = bytes[pos];
    let r = read_leaf(h, bytes, pos);
    if b == 0x01 || b == 0x80 {
    } else if b <= MAX_SINGLE_BYTE {
        if h.atom_refusal(1) is None {
            h.lemma_with_atom(seq![b]);
        }
    } else {
        let field = size_field(bytes, pos + 1, b);
        if let Ok((_, size)) = field.result {
            if bytes.len() >= size && field.pos + size <= bytes.len() {
                let atom = bytes.subrange(field.pos, field.pos + size);
                if h.atom_refusal(atom.len()) is None {
                    h.lemma_with_atom(atom);
                }
            }
        }
    }
}

/// Reading a tree stays inside the input and leaves the arena in order, with
/// all that it held before.
pub proof fn lemma_read_node(h: Heap, bytes: Seq<u8>, pos: int)
    requires
        h.wf(),
        0 <= pos <= bytes.len(),
    ensures
        read_node(h, bytes, pos).heap.wf(),
        read_node(h, bytes, pos).heap.extends(h),
        pos <= read_node(h, bytes, pos).pos <= bytes.len(),
        read_node(h, bytes, pos).result matches Ok(n) ==> {
            &&& pos < read_node(h, bytes, pos).pos
            &&& read_node(h, bytes, pos).heap.contains(n)
        },
    decreases bytes.len() - pos,
{
    if pos >= bytes.len() {
    } else if bytes[pos] == CONS_BOX_MARKER {
        lemma_read_node(h, bytes, pos + 1);
        let left = read_node(h, bytes, pos + 1);
        if left.result is Ok {
            lemma_read_node(left.heap, bytes, left.pos);
            let right = read_node(left.heap, bytes, left.pos);
            right.heap.lemma_extends_trans(left.heap, h);
            if right.result is Ok {
                let l = left.result->Ok_0;
                let r = right.result->Ok_0;
                right.heap.lemma_extends_tree(left.heap, l);
                if right.heap.pair_refusal() is None {
                    right.heap.lemma_with_pair(l, r);
                    right.heap.with_pair(l, r).lemma_extends_trans(right.heap, h);
                }
            }
        }
    } else {
        lemma_read_leaf(h, bytes, pos);
    }
}

/// Working off "read a tree" and then `ops` is reading the tree and then
/// working off `ops`.
proof fn lemma_run_sexp(
    h: Heap,
    bytes: Seq<u8>,
    pos: int,
    ops: Seq<ParseOp>,
    values: Seq<NodePtr>,
)
    requires
        h.wf(),
        0 <= pos <= bytes.len(),
    ensures
        run_ops(h, bytes, pos, ops.push(ParseOp::SExp), values) == ({
            let r = read_node(h, bytes, pos);
            if r.result is Ok {
                run_ops(r.heap, bytes, r.pos, ops, values.push(r.result->Ok_0))
            } else {
                r
            }
        }),
    decreases bytes.len() - pos,
{
    let top = ops.push(ParseOp::SExp);
    assert(top.drop_last() =~= ops);
    assert(top.last() == ParseOp::SExp);
    if pos >= bytes.len() {
    } else if bytes[pos] == CONS_BOX_MARKER {
        let ops1 = ops.push(ParseOp::Cons).push(ParseOp::SExp);
        assert(run_ops(h, bytes, pos, top, values) == run_ops(
            h,
            bytes,
            pos + 1,
            ops1.push(ParseOp::SExp),
            values,
        ));
        lemma_run_sexp(h, bytes, pos + 1, ops1, values);
        lemma_read_node(h, bytes, pos + 1);
        let left = read_node(h, bytes, pos + 1);
        if left.result is Ok {
            let l = left.result->Ok_0;
            let ops2 = ops.push(ParseOp::Cons);
            lemma_run_sexp(left.heap, bytes, left.pos, ops2, values.push(l));
            lemma_read_node(left.heap, bytes, left.pos);
            let right = read_node(left.heap, bytes, left.pos);
            if right.result is Ok {
                let r = right.result->Ok_0;
                let vals = values.push(l).push(r);
                assert(ops2.drop_last() =~= ops);
                assert(ops2.last() == ParseOp::Cons);
                assert(vals.last() == r);
                assert(vals[vals.len() - 2] == l);
                assert(vals.drop_last().drop_last() =~= values);
            }
        }
    } else {
        lemma_read_leaf(h, bytes, pos);
    }
}

/// Reads one tree from `f` into the arena and returns its root.
///
/// The root's value is the tree that the bytes hold from the cursor on, and
/// the cursor is left at the end of that tree. Where the bytes hold no whole
/// tree, the reading fails, and it fails for no other reason but that the
/// arena lacks room. What exactly is returned and left behind, in the arena
/// and for the cursor, also after an error, is what `read_node` says.
pub fn node_from_stream(allocator: &mut Allocator, f: &mut Cursor) -> (r: Result<NodePtr, Error>)
    requires
        old(allocator).wf(),
        old(f).wf(),
    ensures
        final(allocator).wf(),
        final(f).wf(),
        final(f).bytes() == old(f).bytes(),
        final(allocator)@.extends(old(allocator)@),
        r == read_node(old(allocator)@, old(f).bytes(), old(f).offset()).result,
        final(allocator)@ == read_node(old(allocator)@, old(f).bytes(), old(f).offset()).heap,
        final(f).offset() == read_node(old(allocator)@, old(f).bytes(), old(f).offset()).pos,
        r matches Ok(n) ==> {
            &&& final(allocator)@.contains(n)
            &&& parse_tree(old(f).bytes(), old(f).offset()) == Some(
                (final(allocator)@.tree(n), final(f).offset()),
            )
        },
        r matches Err(e) ==> {
            ||| e is Alloc && !has_room(
                old(allocator)@,
                old(f).bytes().len() - old(f).offset(),
            )
            ||| e !is Alloc && parse_tree(old(f).bytes(), old(f).offset()) is None
        },
{
    let mut values: Vec<NodePtr> = Vec::new();
    let mut ops: Vec<ParseOp> = Vec::new();
    ops.push(ParseOp::SExp);
    let ghost h0 = allocator@;
    let ghost bytes = f.bytes();
    let ghost pos0 = f.offset();
    let ghost goal = read_node(h0, bytes, pos0);
    proof {
        f.lemma_bounds();
        lemma_read_node(h0, bytes, pos0);
        lemma_read_node_parse(h0, bytes, pos0);
        lemma_run_sexp(h0, bytes, pos0, Seq::<ParseOp>::empty(), Seq::<NodePtr>::empty());
        assert(ops@ =~= Seq::<ParseOp>::empty().push(ParseOp::SExp));
        assert(ops@.drop_last() =~= Seq::<ParseOp>::empty());
        assert(balanced(ops@, 0)) by {
            reveal_with_fuel(balanced, 2);
        }
        if goal.result is Ok {
            assert(Seq::<NodePtr>::empty().push(goal.result->Ok_0).last() == goal.result->Ok_0);
        }
    }
    loop
        invariant_except_break
            balanced(ops@, values@.len() as int),
            run_ops(allocator@, bytes, f.offset(), ops@, values@) == goal,
        invariant
            allocator.wf(),
            f.wf(),
            f.bytes() == bytes,
            0 <= f.offset() <= bytes.len(),
            allocator@.extends(h0),
            h0 == old(allocator)@,
            bytes == old(f).bytes(),
            pos0 == old(f).offset(),
            goal == read_node(h0, bytes, pos0),
            goal.result matches Ok(n) ==> parse_tree(bytes, pos0) == Some(
                (goal.heap.tree(n), goal.pos),
            ),
            goal.result matches Err(e) ==> {
                ||| e is Alloc && !has_room(h0, bytes.len() - pos0)
                ||| e !is Alloc && parse_tree(bytes, pos0) is None
            },
            forall|i: int| 0 <= i < values@.len() ==> allocator@.contains(#[trigger] values@[i]),
        ensures
            values@.len() == 1,
            goal.result == Ok::<NodePtr, Error>(values@[0]),
            goal.heap == allocator@,
            goal.pos == f.offset(),
        decreases bytes.len() - f.offset(), ops@.len(),
    {
        let ghost ops_before = ops@;
        let ghost h = allocator@;
        let ghost pos = f.offset();
        let op: Option<ParseOp> = ops.pop();
        if op.is_none() {
            break ;
        }
        assert(ops@ == ops_before.drop_last());
        match op.unwrap() {
            ParseOp::SExp => {
                let b: u8 = match f.read_u8() {
                    Ok(b) => b,
                    Err(e) => {
                        return Err(e);
                    },
                };
                if b == CONS_BOX_MARKER {
                    ops.push(ParseOp::Cons);
                    ops.push(ParseOp::SExp);
                    ops.push(ParseOp::SExp);
                    proof {
                        let rest = ops_before.drop_last();
                        let s1 = rest.push(ParseOp::Cons);
                        let s2 = s1.push(ParseOp::SExp);
                        assert(ops@ == s2.push(ParseOp::SExp));
                        assert(ops@.drop_last() =~= s2);
                        assert(s2.drop_last() =~= s1);
                        assert(s1.drop_last() =~= rest);
                        assert(balanced(s1, values@.len() as int + 2));
                        assert(balanced(s2, values@.len() as int + 1));
                    }
                } else {
                    proof {
                        lemma_read_leaf(h, bytes, pos);
                    }
                    let n: NodePtr = if b == 0x01 {
                        allocator.one()
                    } else if b == 0x80 {
                        allocator.null()
                    } else if b <= MAX_SINGLE_BYTE {
                        let one_byte: [u8; 1] = [b];
                        assert(one_byte@ =~= seq![b]);
                        match allocator.new_atom(one_byte.as_slice()) {
                            Ok(n) => n,
                            Err(e) => {
                                return Err(Error::Alloc(e));
                            },
                        }
                    } else {
                        let (_prefix_size, blob_size) = match decode_size(f, b) {
                            Ok(sizes) => sizes,
                            Err(e) => {
                                return Err(e);
                            },
                        };
                        if (f.get_ref().len() as u64) < blob_size {
                            return Err(bad_encoding());
                        }
                        let blob: &[u8] = match f.read_exact(blob_size) {
                            Ok(blob) => blob,
                            Err(e) => {
                                return Err(e);
                            },
                        };
                        match allocator.new_atom(blob) {
                            Ok(n) => n,
                            Err(e) => {
                                return Err(Error::Alloc(e));
                            },
                        }
                    };
                    proof {
                        allocator@.lemma_extends_trans(h, h0);
                        assert forall|i: int| 0 <= i < values@.len() implies allocator@.contains(
                            #[trigger] values@[i],
                        ) by {
                            allocator@.lemma_extends_tree(h, values@[i]);
                        }
                    }
                    values.push(n);
                }
            },
            ParseOp::Cons => {
                let ghost vals = values@;
                let v2: NodePtr = values.pop().unwrap();
                let v1: NodePtr = values.pop().unwrap();
                assert(v2 == vals.last());
                assert(v1 == vals[vals.len() - 2]);
                assert(values@ == vals.drop_last().drop_last());
                let p: NodePtr = match allocator.new_pair(v1, v2) {
                    Ok(p) => p,
                    Err(e) => {
                        return Err(Error::Alloc(e));
                    },
                };
                proof {
                    h.lemma_with_pair(v1, v2);
                    allocator@.lemma_extends_trans(h, h0);
                    assert forall|i: int| 0 <= i < values@.len() implies allocator@.contains(
                        #[trigger] values@[i],
                    ) by {
                        assert(values@[i] == vals[i]);
                        allocator@.lemma_extends_tree(h, values@[i]);
                    }
                }
                values.push(p);
            },
        }
    }
    Ok(values.pop().unwrap())
}

/// Reads one tree from the start of `b` into the arena and returns its root.
/// Bytes after the tree are not looked at.
pub fn node_from_bytes(allocator: &mut Allocator, b: &[u8]) -> (r: Result<NodePtr, Error>)
    requires
        old(allocator).wf(),
    ensures
        final(allocator).wf(),
        final(allocator)@.extends(old(allocator)@),
        r == read_node(old(allocator)@, b@, 0).result,
        final(allocator)@ == read_node(old(allocator)@, b@, 0).heap,
        r matches Ok(n) ==> {
            &&& final(allocator)@.contains(n)
            &&& parse_tree(b@, 0) matches Some((tree, _))
            &&& final(allocator)@.tree(n) == tree
        },
        r matches Err(e) ==> {
            ||| e is Alloc && !has_room(old(allocator)@, b@.len() as int)
            ||| e !is Alloc && parse_tree(b@, 0) is None
        },
{
    let mut buffer = Cursor::new(b);
    node_from_stream(allocator, &mut buffer)
}

/// Where the cursor stands once `pending` more trees have been skipped from
/// `pos` on.
spec fn skip_trees(bytes: Seq<u8>, pos: int, pending: nat) -> Result<int, Error>
    decreases bytes.len() - pos,
{
    if pending == 0 {
        Ok(pos)
    } else {
        match item_at(bytes, pos) {
            Err(e) => Err(e),
            Ok(Item::Pair) => skip_trees(bytes, pos + 1, pending + 1),
            Ok(Item::Atom { body, size }) => if pos < body + size <= bytes.len() {
                skip_trees(bytes, body + size, (pending - 1) as nat)
            } else {
                Err(Error::BadEncoding)
            },
        }
    }
}

/// An item that `item_at` accepts begins inside the input, and an atom ends
/// after the place where it begins.
pub proof fn lemma_item_at(bytes: Seq<u8>, pos: int)
    ensures
        item_at(bytes, pos) is Ok ==> 0 <= pos < bytes.len(),
        item_at(bytes, pos) matches Ok(Item::Atom { body, size }) ==> pos < body + size && pos
            <= body <= bytes.len(),
{
}

/// A tree ends after the place where it begins, and inside the input.
pub proof fn lemma_tree_end(bytes: Seq<u8>, pos: int)
    ensures
        tree_end(bytes, pos) matches Ok(end) ==> 0 <= pos < end <= bytes.len(),
    decreases bytes.len() - pos,
{
    lemma_item_at(bytes, pos);
    match item_at(bytes, pos) {
        Ok(Item::Pair) => {
            lemma_tree_end(bytes, pos + 1);
            if let Ok(mid) = tree_end(bytes, pos + 1) {
                lemma_tree_end(bytes, mid);
            }
        },
        _ => {},
    }
}

/// Skipping one tree more is finding the end of the first and skipping the
/// others from there.
proof fn lemma_skip_one(bytes: Seq<u8>, pos: int, pending: nat)
    ensures
        skip_trees(bytes, pos, pending + 1) == match tree_end(bytes, pos) {
            Err(e) => Err::<int, Error>(e),
            Ok(end) => skip_trees(bytes, end, pending),
        },
    decreases bytes.len() - pos,
{
    lemma_item_at(bytes, pos);
    match item_at(bytes, pos) {
        Ok(Item::Pair) => {
            lemma_skip_one(bytes, pos + 1, pending + 1);
            lemma_tree_end(bytes, pos + 1);
            if let Ok(mid) = tree_end(bytes, pos + 1) {
                lemma_skip_one(bytes, mid, pending);
            }
        },
        _ => {},
    }
}

/// Number of bytes of the tree that `b` begins with. No tree is built; bytes
/// after the tree are not looked at.
///
/// The number is where the tree that `b` holds ends. Where `b` holds no whole
/// tree, the error is the one that `tree_end` says.
pub fn serialized_length_from_bytes(b: &[u8]) -> (r: Result<u64, Error>)
    ensures
        match tree_end(b@, 0) {
            Ok(end) => r == Ok::<u64, Error>(end as u64),
            Err(e) => r == Err::<u64, Error>(e),
        },
        r matches Ok(n) ==> parse_tree(b@, 0) matches Some((_, end)) && end == n,
        r is Err ==> parse_tree(b@, 0) is None,
{
    let mut f = Cursor::new(b);
    let mut ops: Vec<ParseOp> = Vec::new();
    ops.push(ParseOp::SExp);
    let ghost bytes = b@;
    let ghost goal = tree_end(bytes, 0);
    proof {
        lemma_skip_one(bytes, 0, 0);
        lemma_tree_end(bytes, 0);
        lemma_tree_end_is_parse_end(bytes, 0);
    }
    loop
        invariant_except_break
            skip_trees(bytes, f.offset(), ops@.len()) == goal,
        invariant
            f.wf(),
            f.bytes() == bytes,
            bytes == b@,
            goal == tree_end(bytes, 0),
            goal matches Ok(end) ==> parse_tree(bytes, 0) matches Some((_, e)) && e == end,
            goal is Err ==> parse_tree(bytes, 0) is None,
            0 <= f.offset() <= bytes.len(),
            forall|i: int| 0 <= i < ops@.len() ==> ops@[i] is SExp,
        ensures
            goal == Ok::<int, Error>(f.offset()),
        decreases bytes.len() - f.offset(),
    {
        let ghost pos = f.offset();
        let ghost ops_before = ops@;
        let op: Option<ParseOp> = ops.pop();
        if op.is_none() {
            break ;
        }
        proof {
            lemma_item_at(bytes, pos);
            assert(ops_before.last() is SExp);
        }
        match op.unwrap() {
            ParseOp::SExp => {
                let first: u8 = match f.read_u8() {
                    Ok(first) => first,
                    Err(e) => {
                        return Err(e);
                    },
                };
                if first == CONS_BOX_MARKER {
                    // Nothing is built here, so there is no pair to make once
                    // the two elements are skipped: only they are pending.
                    ops.push(ParseOp::SExp);
                    ops.push(ParseOp::SExp);
                } else if first == 0x80 || first <= MAX_SINGLE_BYTE {
                    // This one byte was the whole atom.
                } else {
                    let (_prefix_size, blob_size) = match decode_size(&mut f, first) {
                        Ok(sizes) => sizes,
                        Err(e) => {
                            return Err(e);
                        },
                    };
                    if (f.remaining() as u64) < blob_size {
                        return Err(bad_encoding());
                    }
                    match f.read_exact(blob_size) {
                        Ok(_) => {},
                        Err(e) => {
                            return Err(e);
                        },
                    }
                }
            },
            ParseOp::Cons => {},
        }
    }
    Ok(f.position())
}

} // verus!
