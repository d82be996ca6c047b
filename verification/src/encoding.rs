//! The byte format of trees, as mathematics.
//!
//! A pair is the marker `0xff`, then its first element, then its second. The
//! empty atom is `0x80`. An atom of one byte below `0x80` is that byte. Every
//! other atom is a size prefix and then its bytes. The prefix is the atom's
//! length, big-endian, in one to five bytes, under as many leading one bits as
//! the prefix has bytes.

use crate::allocator::Tree;
use crate::stream::Error;
use vstd::prelude::*;

verus! {

/// Largest byte that is its own encoding.
pub const MAX_SINGLE_BYTE: u8 = 0x7f;

/// The byte that opens a pair.
pub const CONS_BOX_MARKER: u8 = 0xff;

/// An atom must be shorter than this to have an encoding.
pub const ATOM_SIZE_LIMIT: u64 = 0x4_0000_0000;

/// The size prefix of an atom of `size` bytes whose first byte is `atom_0`.
/// For the empty atom, `atom_0` does not matter.
pub open spec fn size_prefix(atom_0: u8, size: u64) -> Seq<u8> {
    if size == 0 {
        seq![0x80u8]
    } else if size == 1 && atom_0 < 0x80 {
        Seq::empty()
    } else if size < 0x40 {
        seq![(0x80 | size) as u8]
    } else if size < 0x2000 {
        seq![(0xc0 | (size >> 8)) as u8, (size & 0xff) as u8]
    } else if size < 0x10_0000 {
        seq![(0xe0 | (size >> 16)) as u8, ((size >> 8) & 0xff) as u8, (size & 0xff) as u8]
    } else if size < 0x800_0000 {
        seq![
            (0xf0 | (size >> 24)) as u8,
            ((size >> 16) & 0xff) as u8,
            ((size >> 8) & 0xff) as u8,
            (size & 0xff) as u8,
        ]
    } else {
        seq![
            (0xf8 | (size >> 32)) as u8,
            ((size >> 24) & 0xff) as u8,
            ((size >> 16) & 0xff) as u8,
            ((size >> 8) & 0xff) as u8,
            (size & 0xff) as u8,
        ]
    }
}

/// The first byte of an atom, or 0 for the empty atom.
pub open spec fn first_byte(atom: Seq<u8>) -> u8 {
    if atom.len() > 0 {
        atom[0]
    } else {
        0
    }
}

/// The encoding of one atom.
pub open spec fn atom_encoding(atom: Seq<u8>) -> Seq<u8> {
    size_prefix(first_byte(atom), atom.len() as u64) + atom
}

/// Number of bytes of the encoding of an atom, from its length and first byte.
pub open spec fn atom_encoding_len(atom_0: u8, size: nat) -> nat {
    if size == 0 {
        1
    } else if size == 1 && atom_0 < 0x80 {
        1
    } else if size < 0x40 {
        1 + size
    } else if size < 0x2000 {
        2 + size
    } else if size < 0x10_0000 {
        3 + size
    } else if size < 0x800_0000 {
        4 + size
    } else {
        5 + size
    }
}

/// Every atom of the tree is short enough to be written.
pub open spec fn encodable(t: Tree) -> bool
    decreases t,
{
    match t {
        Tree::Atom(a) => a.len() < ATOM_SIZE_LIMIT,
        Tree::Pair(l, r) => encodable(*l) && encodable(*r),
    }
}

/// The encoding of a tree.
pub open spec fn encoding(t: Tree) -> Seq<u8>
    decreases t,
{
    match t {
        Tree::Atom(a) => atom_encoding(a),
        Tree::Pair(l, r) => seq![CONS_BOX_MARKER] + encoding(*l) + encoding(*r),
    }
}

/// Number of bytes of the encoding of a tree.
pub open spec fn encoding_len(t: Tree) -> nat
    decreases t,
{
    match t {
        Tree::Atom(a) => atom_encoding_len(first_byte(a), a.len()),
        Tree::Pair(l, r) => 1 + encoding_len(*l) + encoding_len(*r),
    }
}

/// Number of leading one bits of `b`: the number of bytes of the size
/// prefix that `b` begins.
pub open spec fn prefix_len(b: u8) -> nat {
    if b < 0x80 {
        0
    } else if b < 0xc0 {
        1
    } else if b < 0xe0 {
        2
    } else if b < 0xf0 {
        3
    } else if b < 0xf8 {
        4
    } else if b < 0xfc {
        5
    } else if b < 0xfe {
        6
    } else if b < 0xff {
        7
    } else {
        8
    }
}

/// The byte whose first `k` bits are one and whose other bits are zero.
pub open spec fn ones(k: nat) -> u8 {
    if k == 0 {
        0
    } else if k == 1 {
        0x80
    } else if k == 2 {
        0xc0
    } else if k == 3 {
        0xe0
    } else if k == 4 {
        0xf0
    } else if k == 5 {
        0xf8
    } else if k == 6 {
        0xfc
    } else if k == 7 {
        0xfe
    } else {
        0xff
    }
}

/// What is left of `b` without its leading one bits.
pub open spec fn prefix_payload(b: u8) -> u8 {
    (b - ones(prefix_len(b))) as u8
}

/// The number that `s` is in base 256, first byte first.
pub open spec fn be_value(s: Seq<u8>) -> nat
    decreases s.len(),
{
    if s.len() == 0 {
        0
    } else {
        be_value(s.drop_last()) * 256 + s.last() as nat
    }
}

/// What reading a size prefix gives, and where the cursor stands after it.
pub struct SizeField {
    /// The number of bytes of the prefix and the length that it holds.
    pub result: Result<(usize, u64), Error>,
    /// The cursor after the attempt.
    pub pos: int,
}

/// The size prefix that begins with `initial_b`, whose other bytes stand in
/// `bytes` from `pos` on.
///
/// A first byte below `0x80` begins no prefix. Where the bytes end inside the
/// prefix the input is cut short. A prefix of more than six bytes is not
/// accepted, nor is a length of [`ATOM_SIZE_LIMIT`] or more.
pub open spec fn size_field(bytes: Seq<u8>, pos: int, initial_b: u8) -> SizeField {
    let count = prefix_len(initial_b);
    if initial_b < 0x80 {
        SizeField { result: Err(Error::Internal), pos }
    } else if pos + count - 1 > bytes.len() {
        SizeField { result: Err(Error::UnexpectedEof), pos: bytes.len() as int }
    } else {
        let after = pos + count - 1;
        let value = be_value(seq![prefix_payload(initial_b)] + bytes.subrange(pos, after));
        if count > 6 || value >= ATOM_SIZE_LIMIT {
            SizeField { result: Err(Error::BadEncoding), pos: after }
        } else {
            SizeField { result: Ok((count as usize, value as u64)), pos: after }
        }
    }
}

/// Where an item begins: a pair, or an atom of `size` bytes from `body` on.
pub enum Item {
    Pair,
    Atom { body: int, size: nat },
}

/// The item that begins at `pos`, as far as its first byte and its size
/// prefix say.
pub open spec fn item_at(bytes: Seq<u8>, pos: int) -> Result<Item, Error> {
    if pos < 0 || pos >= bytes.len() {
        Err(Error::UnexpectedEof)
    } else {
        let b = bytes[pos];
        if b == CONS_BOX_MARKER {
            Ok(Item::Pair)
        } else if b == 0x80 {
            Ok(Item::Atom { body: pos + 1, size: 0 })
        } else if b <= MAX_SINGLE_BYTE {
            Ok(Item::Atom { body: pos, size: 1 })
        } else {
            match size_field(bytes, pos + 1, b).result {
                Ok((count, size)) => Ok(Item::Atom { body: pos + count, size: size as nat }),
                Err(e) => Err(e),
            }
        }
    }
}

/// The tree whose encoding begins at `pos`, and where that encoding ends.
/// `None` where the bytes from `pos` on do not begin with a whole tree.
///
/// A size prefix need not be the shortest for its length.
pub open spec fn parse_tree(bytes: Seq<u8>, pos: int) -> Option<(Tree, int)>
    decreases bytes.len() - pos,
{
    match item_at(bytes, pos) {
        Err(_) => None,
        Ok(Item::Pair) => match parse_tree(bytes, pos + 1) {
            None => None,
            Some((left, mid)) => if pos < mid <= bytes.len() {
                match parse_tree(bytes, mid) {
                    None => None,
                    Some((right, end)) => Some((Tree::pair(left, right), end)),
                }
            } else {
                None
            },
        },
        Ok(Item::Atom { body, size }) => if body + size <= bytes.len() {
            Some((Tree::Atom(bytes.subrange(body, body + size)), body + size))
        } else {
            None
        },
    }
}

/// Where the tree that begins at `pos` ends, found without building it; or
/// the reason why no whole tree begins there.
///
/// An atom that reaches beyond the input counts as badly encoded here.
pub open spec fn tree_end(bytes: Seq<u8>, pos: int) -> Result<int, Error>
    decreases bytes.len() - pos,
{
    match item_at(bytes, pos) {
        Err(e) => Err(e),
        Ok(Item::Pair) => match tree_end(bytes, pos + 1) {
            Err(e) => Err(e),
            Ok(mid) => if pos < mid <= bytes.len() {
                tree_end(bytes, mid)
            } else {
                Err(Error::Internal)
            },
        },
        Ok(Item::Atom { body, size }) => if body + size <= bytes.len() {
            Ok(body + size)
        } else {
            Err(Error::BadEncoding)
        },
    }
}

} // verus!
