//! What is written can be read back.
//!
//! The encoding of a tree, read again, gives the same tree and ends where the
//! encoding ends, whatever bytes follow it; the three ways of reading (into a
//! tree, into an arena, for the length alone) agree with one another.

use crate::allocator::{Heap, Tree};
use crate::encoding::{
    atom_encoding, atom_encoding_len, be_value, encodable, encoding, encoding_len, first_byte,
    item_at, parse_tree, prefix_len, prefix_payload, size_field, size_prefix, tree_end, Item,
    ATOM_SIZE_LIMIT, CONS_BOX_MARKER, MAX_SINGLE_BYTE,
};
use crate::serialize::{
    lemma_item_at, lemma_read_leaf, lemma_read_node, lemma_tree_end, read_leaf, read_node,
};
use crate::stream::Error;
use vstd::prelude::*;

verus! {

/// The first byte of a size prefix tells its length, and its bytes are the
/// digits of the size.
proof fn lemma_prefix_bits(size: u64)
    by (bit_vector)
    ensures
        1 <= size < 0x40 ==> 0x81 <= (0x80 | size) < 0xc0 && (0x80 | size) - 0x80 == size,
        0x40 <= size < 0x2000 ==> 0xc0 <= (0xc0 | (size >> 8)) < 0xe0 && (0xc0 | (size >> 8))
            - 0xc0 == (size >> 8) && (size >> 8) * 0x100 + (size & 0xff) == size,
        0x2000 <= size < 0x10_0000 ==> 0xe0 <= (0xe0 | (size >> 16)) < 0xf0 && (0xe0 | (size >> 16))
            - 0xe0 == (size >> 16) && ((size >> 16) * 0x100 + ((size >> 8) & 0xff)) * 0x100 + (size
            & 0xff) == size,
        0x10_0000 <= size < 0x800_0000 ==> 0xf0 <= (0xf0 | (size >> 24)) < 0xf8 && (0xf0 | (size
            >> 24)) - 0xf0 == (size >> 24) && (((size >> 24) * 0x100 + ((size >> 16) & 0xff))
            * 0x100 + ((size >> 8) & 0xff)) * 0x100 + (size & 0xff) == size,
        0x800_0000 <= size < 0x4_0000_0000 ==> 0xf8 <= (0xf8 | (size >> 32)) < 0xfc && (0xf8 | (size
            >> 32)) - 0xf8 == (size >> 32) && ((((size >> 32) * 0x100 + ((size >> 24) & 0xff))
            * 0x100 + ((size >> 16) & 0xff)) * 0x100 + ((size >> 8) & 0xff)) * 0x100 + (size
            & 0xff) == size,
        (size & 0xff) < 0x100,
        ((size >> 8) & 0xff) < 0x100,
        ((size >> 16) & 0xff) < 0x100,
        ((size >> 24) & 0xff) < 0x100,
{
}

/// One more digit at the end.
proof fn lemma_be_value_push(s: Seq<u8>, x: u8)
    ensures
        be_value(s.push(x)) == be_value(s) * 256 + x,
{
    assert(s.push(x).drop_last() =~= s);
}

/// A number of one digit.
proof fn lemma_be_value_one(x: u8)
    ensures
        be_value(seq![x]) == x,
{
    assert(seq![x] =~= Seq::<u8>::empty().push(x));
    lemma_be_value_push(Seq::<u8>::empty(), x);
}

/// The size prefix has as many bytes as the length table says.
pub proof fn lemma_size_prefix_len(atom_0: u8, size: u64)
    requires
        size < ATOM_SIZE_LIMIT,
    ensures
        size_prefix(atom_0, size).len() + size == atom_encoding_len(atom_0, size as nat),
{
}

/// The encoding of a tree has as many bytes as the sum over its nodes says.
pub proof fn lemma_encoding_len(t: Tree)
    requires
        encodable(t),
    ensures
        encoding(t).len() == encoding_len(t),
    decreases t,
{
    match t {
        Tree::Atom(a) => {
            lemma_size_prefix_len(first_byte(a), a.len() as u64);
        },
        Tree::Pair(l, r) => {
            lemma_encoding_len(*l);
            lemma_encoding_len(*r);
        },
    }
}

/// Where the encoding of an atom stands in `bytes` at `pos`, an atom of that
/// length is found there, and its bytes are the atom's.
pub proof fn lemma_atom_found(bytes: Seq<u8>, pos: int, atom: Seq<u8>)
    requires
        atom.len() < ATOM_SIZE_LIMIT,
        0 <= pos,
        pos + atom_encoding(atom).len() <= bytes.len(),
        bytes.subrange(pos, pos + atom_encoding(atom).len()) == atom_encoding(atom),
    ensures
        item_at(bytes, pos) matches Ok(Item::Atom { body, size }) && size == atom.len() && body
            + size == pos + atom_encoding(atom).len() && bytes.subrange(body, body + size) == atom,
{
    let size = atom.len() as u64;
    let atom_0 = first_byte(atom);
    let prefix = size_prefix(atom_0, size);
    let enc = atom_encoding(atom);
    let total = enc.len() as int;
    let window = bytes.subrange(pos, pos + total);
    lemma_prefix_bits(size);
    assert forall|i: int| 0 <= i < total implies bytes[pos + i] == enc[i] by {
        assert(window[i] == bytes[pos + i]);
    }
    if size == 0 {
        assert(enc[0] == 0x80u8);
        assert(bytes.subrange(pos + 1, pos + 1) =~= atom);
    } else if size == 1 && atom_0 < 0x80 {
        assert(enc[0] == atom[0]);
        assert(bytes.subrange(pos, pos + 1) =~= atom);
    } else {
        let first = prefix[0];
        let count = prefix.len() as int;
        assert(enc[0] == first);
        assert(count == prefix_len(first));
        let rest = bytes.subrange(pos + 1, pos + count);
        let digits = seq![prefix_payload(first)] + rest;
        assert(be_value(digits) == size) by {
            lemma_be_value_one(prefix_payload(first));
            if size < 0x40 {
                assert(digits =~= seq![prefix_payload(first)]);
            } else if size < 0x2000 {
                assert(enc[1] == prefix[1]);
                let d0 = seq![prefix_payload(first)];
                assert(digits =~= d0.push(prefix[1]));
                lemma_be_value_push(d0, prefix[1]);
            } else if size < 0x10_0000 {
                assert(enc[1] == prefix[1]);
                assert(enc[2] == prefix[2]);
                let d0 = seq![prefix_payload(first)];
                let d1 = d0.push(prefix[1]);
                assert(digits =~= d1.push(prefix[2]));
                lemma_be_value_push(d0, prefix[1]);
                lemma_be_value_push(d1, prefix[2]);
            } else if size < 0x800_0000 {
                assert(enc[1] == prefix[1]);
                assert(enc[2] == prefix[2]);
                assert(enc[3] == prefix[3]);
                let d0 = seq![prefix_payload(first)];
                let d1 = d0.push(prefix[1]);
                let d2 = d1.push(prefix[2]);
                assert(digits =~= d2.push(prefix[3]));
                lemma_be_value_push(d0, prefix[1]);
                lemma_be_value_push(d1, prefix[2]);
                lemma_be_value_push(d2, prefix[3]);
            } else {
                assert(enc[1] == prefix[1]);
                assert(enc[2] == prefix[2]);
                assert(enc[3] == prefix[3]);
                assert(enc[4] == prefix[4]);
                let d0 = seq![prefix_payload(first)];
                let d1 = d0.push(prefix[1]);
                let d2 = d1.push(prefix[2]);
                let d3 = d2.push(prefix[3]);
                assert(digits =~= d3.push(prefix[4]));
                lemma_be_value_push(d0, prefix[1]);
                lemma_be_value_push(d1, prefix[2]);
                lemma_be_value_push(d2, prefix[3]);
                lemma_be_value_push(d3, prefix[4]);
            }
        }
        let field = size_field(bytes, pos + 1, first);
        assert(field.result == Ok::<(usize, u64), Error>((count as usize, size)));
        assert(bytes.subrange(pos + count, pos + count + size) =~= atom) by {
            assert forall|i: int| 0 <= i < size implies bytes[pos + count + i] == atom[i] by {
                assert(enc[count + i] == atom[i]);
            }
        }
    }
}

/// Where the encoding of a tree stands in `bytes` at `pos`, reading at `pos`
/// gives that tree, and ends where the encoding ends.
pub proof fn lemma_parse_encoding_at(bytes: Seq<u8>, pos: int, t: Tree)
    requires
        encodable(t),
        0 <= pos,
        pos + encoding(t).len() <= bytes.len(),
        bytes.subrange(pos, pos + encoding(t).len()) == encoding(t),
    ensures
        parse_tree(bytes, pos) == Some((t, pos + encoding(t).len())),
    decreases t,
{
    match t {
        Tree::Atom(a) => {
            lemma_atom_found(bytes, pos, a);
        },
        Tree::Pair(l, r) => {
            let el = encoding(*l);
            let er = encoding(*r);
            let enc = encoding(t);
            let window = bytes.subrange(pos, pos + enc.len());
            assert(enc =~= seq![CONS_BOX_MARKER] + el + er);
            assert(window[0] == bytes[pos]);
            assert(bytes[pos] == CONS_BOX_MARKER);
            let mid = pos + 1 + el.len();
            let end = mid + er.len();
            assert(bytes.subrange(pos + 1, mid) =~= el) by {
                assert forall|i: int| 0 <= i < el.len() implies bytes[pos + 1 + i] == el[i] by {
                    assert(window[1 + i] == bytes[pos + 1 + i]);
                    assert(enc[1 + i] == el[i]);
                }
            }
            assert(bytes.subrange(mid, end) =~= er) by {
                assert forall|i: int| 0 <= i < er.len() implies bytes[mid + i] == er[i] by {
                    assert(window[1 + el.len() + i] == bytes[mid + i]);
                    assert(enc[1 + el.len() + i] == er[i]);
                }
            }
            lemma_parse_encoding_at(bytes, pos + 1, *l);
            lemma_parse_encoding_at(bytes, mid, *r);
            lemma_encoding_nonempty(*l);
            assert(Tree::pair(*l, *r) == t);
        },
    }
}

/// No encoding is empty.
pub proof fn lemma_encoding_nonempty(t: Tree)
    requires
        encodable(t),
    ensures
        encoding(t).len() > 0,
    decreases t,
{
    match t {
        Tree::Atom(a) => {
            lemma_size_prefix_len(first_byte(a), a.len() as u64);
        },
        Tree::Pair(l, r) => {},
    }
}

/// Reading the encoding of a tree gives the tree back, whatever bytes follow
/// the encoding.
pub proof fn lemma_parse_encoding(t: Tree, rest: Seq<u8>)
    requires
        encodable(t),
    ensures
        parse_tree(encoding(t) + rest, 0) == Some((t, encoding(t).len() as int)),
{
    let bytes = encoding(t) + rest;
    assert(bytes.subrange(0, encoding(t).len() as int) =~= encoding(t));
    lemma_parse_encoding_at(bytes, 0, t);
}

/// Finding the end of a tree succeeds exactly where reading the tree does,
/// and finds the same end.
pub proof fn lemma_tree_end_is_parse_end(bytes: Seq<u8>, pos: int)
    ensures
        tree_end(bytes, pos) matches Ok(end) ==> parse_tree(bytes, pos) matches Some((_, e)) && e
            == end,
        tree_end(bytes, pos) is Err ==> parse_tree(bytes, pos) is None,
    decreases bytes.len() - pos,
{
    lemma_item_at(bytes, pos);
    match item_at(bytes, pos) {
        Ok(Item::Pair) => {
            lemma_tree_end_is_parse_end(bytes, pos + 1);
            lemma_tree_end(bytes, pos + 1);
            if let Ok(mid) = tree_end(bytes, pos + 1) {
                lemma_tree_end_is_parse_end(bytes, mid);
            }
        },
        _ => {},
    }
}

/// The length that is found in the encoding of a tree, whatever follows it,
/// is the length of the encoding.
pub proof fn lemma_length_of_encoding(t: Tree, rest: Seq<u8>)
    requires
        encodable(t),
    ensures
        tree_end(encoding(t) + rest, 0) == Ok::<int, Error>(encoding(t).len() as int),
{
    lemma_parse_encoding(t, rest);
    lemma_tree_end_is_parse_end(encoding(t) + rest, 0);
}

/// The arena has room for `n` more nodes and `n` more bytes, in atoms of up
/// to `n` bytes.
pub open spec fn has_room(h: Heap, n: int) -> bool {
    &&& h.node_count() + n <= h.node_limit
    &&& h.bytes_used() + n <= h.byte_limit
    &&& n <= h.max_atom_len
}

/// See `lemma_read_node_parse`; this is the case of an atom.
proof fn lemma_read_leaf_parse(h: Heap, bytes: Seq<u8>, pos: int)
    requires
        h.wf(),
        0 <= pos < bytes.len(),
        bytes[pos] != CONS_BOX_MARKER,
    ensures
        read_leaf(h, bytes, pos).result matches Ok(n) ==> {
            &&& parse_tree(bytes, pos) == Some(
                (read_leaf(h, bytes, pos).heap.tree(n), read_leaf(h, bytes, pos).pos),
            )
            &&& read_leaf(h, bytes, pos).heap.node_count() - h.node_count() <= read_leaf(
                h,
                bytes,
                pos,
            ).pos - pos
            &&& read_leaf(h, bytes, pos).heap.bytes_used() - h.bytes_used() <= read_leaf(
                h,
                bytes,
                pos,
            ).pos - pos
        },
        read_leaf(h, bytes, pos).result matches Err(e) ==> {
            ||| e is Alloc && parse_tree(bytes, pos) is Some && !has_room(h, bytes.len() - pos)
            ||| e !is Alloc && parse_tree(bytes, pos) is None
        },
{
    let b = bytes[pos];
    lemma_item_at(bytes, pos);
    lemma_read_leaf(h, bytes, pos);
    if b == 0x01 {
        assert(bytes.subrange(pos, pos + 1) =~= seq![1u8]);
    } else if b == 0x80 {
        assert(bytes.subrange(pos + 1, pos + 1) =~= Seq::<u8>::empty());
    } else if b <= MAX_SINGLE_BYTE {
        assert(bytes.subrange(pos, pos + 1) =~= seq![b]);
        if h.atom_refusal(1) is None {
            h.lemma_with_atom(seq![b]);
        }
    } else {
        let field = size_field(bytes, pos + 1, b);
        if let Ok((_, size)) = field.result {
            if bytes.len() >= size && field.pos + size <= bytes.len() {
                let atom = bytes.subrange(field.pos, field.pos + size);
                if h.atom_refusal(atom.len()) is None {
                    h.lemma_with_atom(atom);
                }
            }
        }
    }
}

/// Reading into an arena and reading into a tree agree. Where the arena
/// returns a node, its value is the tree that the bytes hold, and the cursor
/// stands at the tree's end. Where the bytes hold no tree, the arena's reading
/// fails. Where they do and it fails all the same, the arena refused to grow,
/// which it does not when it has room for as many nodes and bytes as the
/// input is long.
pub proof fn lemma_read_node_parse(h: Heap, bytes: Seq<u8>, pos: int)
    requires
        h.wf(),
        0 <= pos <= bytes.len(),
    ensures
        read_node(h, bytes, pos).result matches Ok(n) ==> {
            &&& parse_tree(bytes, pos) == Some(
                (read_node(h, bytes, pos).heap.tree(n), read_node(h, bytes, pos).pos),
            )
            &&& read_node(h, bytes, pos).heap.node_count() - h.node_count() <= read_node(
                h,
                bytes,
                pos,
            ).pos - pos
            &&& read_node(h, bytes, pos).heap.bytes_used() - h.bytes_used() <= read_node(
                h,
                bytes,
                pos,
            ).pos - pos
        },
        read_node(h, bytes, pos).result matches Err(e) ==> {
            ||| e is Alloc && !has_room(h, bytes.len() - pos)
            ||| e !is Alloc && parse_tree(bytes, pos) is None
        },
    decreases bytes.len() - pos,
{
    if pos >= bytes.len() {
    } else if bytes[pos] == CONS_BOX_MARKER {
        lemma_read_node(h, bytes, pos + 1);
        lemma_read_node_parse(h, bytes, pos + 1);
        let left = read_node(h, bytes, pos + 1);
        if left.result is Ok {
            let l = left.result->Ok_0;
            lemma_read_node(left.heap, bytes, left.pos);
            lemma_read_node_parse(left.heap, bytes, left.pos);
            let right = read_node(left.heap, bytes, left.pos);
            if right.result is Ok {
                let r = right.result->Ok_0;
                right.heap.lemma_extends_tree(left.heap, l);
                if right.heap.pair_refusal() is None {
                    right.heap.lemma_with_pair(l, r);
                }
            }
        }
    } else {
        lemma_read_leaf_parse(h, bytes, pos);
    }
}

/// A tree that is written and read into an arena with room is the same tree
/// again: the node that comes back has the value that was written, and the
/// cursor stands at the end of the encoding. The reading can only fail where
/// the arena lacks room.
pub proof fn lemma_round_trip(h: Heap, t: Tree, rest: Seq<u8>)
    requires
        h.wf(),
        encodable(t),
    ensures
        read_node(h, encoding(t) + rest, 0).result matches Ok(n) ==> {
            &&& read_node(h, encoding(t) + rest, 0).heap.tree(n) == t
            &&& read_node(h, encoding(t) + rest, 0).pos == encoding(t).len()
        },
        read_node(h, encoding(t) + rest, 0).result matches Err(e) ==> e is Alloc,
        has_room(h, (encoding(t) + rest).len() as int) ==> read_node(
            h,
            encoding(t) + rest,
            0,
        ).result is Ok,
        tree_end(encoding(t) + rest, 0) == Ok::<int, Error>(encoding(t).len() as int),
{
    lemma_parse_encoding(t, rest);
    lemma_read_node_parse(h, encoding(t) + rest, 0);
    lemma_length_of_encoding(t, rest);
}

} // verus!
