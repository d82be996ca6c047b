//! The node arena.
//!
//! An [`Allocator`] owns every node of a session. Atoms are byte strings kept
//! back to back in one buffer; pairs are two handles. Nodes are only ever
//! added, and a pair can only name nodes that were there before it, so the
//! nodes reachable from a handle always form a finite tree.
//!
//! Contracts speak of the arena through its view, a [`Heap`], and of the value
//! of a handle through [`Heap::tree`].

use vstd::prelude::*;

verus! {

/// Largest number of bytes that all atoms of one arena can hold together.
pub const MAX_HEAP_BYTES: usize = 0xffff_ffff;

/// Largest number of nodes, atoms and pairs together, of one arena.
pub const MAX_NODES: usize = 0x7fff_ffff;

/// Handle of a node. It means something only together with the arena that
/// handed it out. Two handles are equal when they name the same node.
///
/// A handle that is zero or more names a pair by its position; a negative
/// one names an atom.
#[derive(Clone, Copy, Debug, PartialEq, Eq, Hash, Structural)]
pub struct NodePtr(pub i32);

impl NodePtr {
    /// The handle names a pair.
    pub open spec fn is_pair(self) -> bool {
        self.0 >= 0
    }

    /// The handle names an atom.
    pub open spec fn is_atom(self) -> bool {
        self.0 < 0
    }

    /// Position of the node among the atoms, or among the pairs, of its arena.
    pub open spec fn index(self) -> int {
        if self.0 >= 0 {
            self.0 as int
        } else {
            -(self.0 as int) - 1
        }
    }

    /// The handle of the atom at position `i`.
    pub open spec fn of_atom(i: int) -> NodePtr {
        NodePtr((-i - 1) as i32)
    }

    /// The handle of the pair at position `i`.
    pub open spec fn of_pair(i: int) -> NodePtr {
        NodePtr(i as i32)
    }
}

/// The value that a node stands for: a byte string, or two values.
pub enum Tree {
    Atom(Seq<u8>),
    Pair(Box<Tree>, Box<Tree>),
}

impl Tree {
    /// The empty atom, which is also the empty list and "false".
    pub open spec fn nil() -> Tree {
        Tree::Atom(Seq::empty())
    }

    /// The pair of two values.
    pub open spec fn pair(left: Tree, right: Tree) -> Tree {
        Tree::Pair(Box::new(left), Box::new(right))
    }

    /// Number of nodes of the tree.
    pub open spec fn size(self) -> nat
        decreases self,
    {
        match self {
            Tree::Atom(_) => 1,
            Tree::Pair(l, r) => 1 + l.size() + r.size(),
        }
    }
}

/// Why the arena refused to grow.
#[derive(Clone, Copy, Debug, PartialEq, Eq, Structural)]
pub enum AllocError {
    /// The atom is longer than the arena allows, or the arena's byte budget
    /// does not have room for it.
    SizeLimitExceeded,
    /// The arena already holds as many nodes as it may.
    AllocationLimitExceeded,
}

/// What an arena holds, as plain values.
pub struct Heap {
    /// The bytes of each atom, in the order of creation.
    pub atoms: Seq<Seq<u8>>,
    /// The two children of each pair, in the order of creation.
    pub pairs: Seq<(NodePtr, NodePtr)>,
    /// No atom may be longer than this.
    pub max_atom_len: nat,
    /// All atoms together may not hold more bytes than this.
    pub byte_limit: nat,
    /// The arena may not hold more nodes than this.
    pub node_limit: nat,
}

impl Heap {
    /// A fresh arena: the empty atom and the atom `[1]`, no pairs.
    pub open spec fn initial(byte_limit: nat, node_limit: nat, max_atom_len: nat) -> Heap {
        Heap {
            atoms: seq![Seq::<u8>::empty(), seq![1u8]],
            pairs: Seq::empty(),
            max_atom_len,
            byte_limit,
            node_limit,
        }
    }

    /// `n` names a node of this arena.
    pub open spec fn contains(self, n: NodePtr) -> bool {
        if n.0 >= 0 {
            n.0 < self.pairs.len()
        } else {
            n.index() < self.atoms.len()
        }
    }

    /// `c` may be a child of the pair at position `i`: it is a node, and it
    /// is older than that pair.
    pub open spec fn child_ok(self, i: int, c: NodePtr) -> bool {
        self.contains(c) && c.0 < i
    }

    /// Number of bytes of the first `n` atoms together.
    pub open spec fn bytes_before(self, n: int) -> nat
        decreases n,
    {
        if n <= 0 {
            0
        } else {
            self.bytes_before(n - 1) + self.atoms[n - 1].len()
        }
    }

    /// Number of bytes that the atoms hold together.
    pub open spec fn bytes_used(self) -> nat {
        self.bytes_before(self.atoms.len() as int)
    }

    /// Number of nodes, atoms and pairs together.
    pub open spec fn node_count(self) -> nat {
        self.atoms.len() + self.pairs.len()
    }

    /// The arena is in order: it has its two first atoms, it is within what
    /// handles can address, and every pair is made of nodes older than itself.
    pub open spec fn wf(self) -> bool {
        &&& self.atoms.len() >= 2
        &&& self.atoms[0] == Seq::<u8>::empty()
        &&& self.atoms[1] == seq![1u8]
        &&& self.node_count() <= MAX_NODES
        &&& self.bytes_used() <= MAX_HEAP_BYTES
        &&& self.byte_limit <= MAX_HEAP_BYTES
        &&& self.node_limit <= MAX_NODES
        &&& forall|i: int|
            0 <= i < self.pairs.len() ==> self.child_ok(i, (#[trigger] self.pairs[i]).0)
                && self.child_ok(i, self.pairs[i].1)
    }

    /// The value of node `n`.
    pub open spec fn tree(self, n: NodePtr) -> Tree
        decreases n.0 + 0x8000_0000,
    {
        if n.0 < 0 {
            Tree::Atom(self.atoms[n.index()])
        } else {
            let (l, r) = self.pairs[n.0 as int];
            if l.0 < n.0 && r.0 < n.0 {
                Tree::pair(self.tree(l), self.tree(r))
            } else {
                Tree::nil()
            }
        }
    }

    /// The handle of the empty atom.
    pub open spec fn null() -> NodePtr {
        NodePtr(-1i32)
    }

    /// The handle of the atom `[1]`.
    pub open spec fn one() -> NodePtr {
        NodePtr(-2i32)
    }

    /// The error with which a request for an atom of `len` bytes is
    /// refused, if it is.
    pub open spec fn atom_refusal(self, len: nat) -> Option<AllocError> {
        if len > self.max_atom_len || self.bytes_used() + len > self.byte_limit {
            Some(AllocError::SizeLimitExceeded)
        } else if self.node_count() >= self.node_limit {
            Some(AllocError::AllocationLimitExceeded)
        } else {
            None
        }
    }

    /// The error with which a request for a pair is refused, if it is.
    pub open spec fn pair_refusal(self) -> Option<AllocError> {
        if self.node_count() >= self.node_limit {
            Some(AllocError::AllocationLimitExceeded)
        } else {
            None
        }
    }

    /// The handle that the next atom gets.
    pub open spec fn next_atom(self) -> NodePtr {
        NodePtr::of_atom(self.atoms.len() as int)
    }

    /// The handle that the next pair gets.
    pub open spec fn next_pair(self) -> NodePtr {
        NodePtr::of_pair(self.pairs.len() as int)
    }

    /// This arena with one more atom.
    pub open spec fn with_atom(self, bytes: Seq<u8>) -> Heap {
        Heap { atoms: self.atoms.push(bytes), ..self }
    }

    /// This arena with one more pair.
    pub open spec fn with_pair(self, first: NodePtr, rest: NodePtr) -> Heap {
        Heap { pairs: self.pairs.push((first, rest)), ..self }
    }

    /// This arena holds all of `old`, unchanged, and perhaps more.
    pub open spec fn extends(self, old: Heap) -> bool {
        &&& old.atoms.is_prefix_of(self.atoms)
        &&& old.pairs.is_prefix_of(self.pairs)
        &&& self.max_atom_len == old.max_atom_len
        &&& self.byte_limit == old.byte_limit
        &&& self.node_limit == old.node_limit
    }

    /// Growth does not change the value of a node.
    pub proof fn lemma_extends_tree(self, old: Heap, n: NodePtr)
        requires
            old.wf(),
            self.extends(old),
            old.contains(n),
        ensures
            self.contains(n),
            self.tree(n) == old.tree(n),
        decreases n.0 + 0x8000_0000,
    {
        if n.0 >= 0 {
            let (l, r) = old.pairs[n.0 as int];
            assert(self.pairs[n.0 as int] == old.pairs[n.0 as int]);
            assert(old.child_ok(n.0 as int, l));
            assert(old.child_ok(n.0 as int, r));
            self.lemma_extends_tree(old, l);
            self.lemma_extends_tree(old, r);
        } else {
            assert(self.atoms[n.index()] == old.atoms[n.index()]);
        }
    }

    /// An arena holds all of itself.
    pub proof fn lemma_extends_refl(self)
        ensures
            self.extends(self),
    {
    }

    /// What grew out of what grew out of `old` grew out of `old`.
    pub proof fn lemma_extends_trans(self, mid: Heap, old: Heap)
        requires
            self.extends(mid),
            mid.extends(old),
        ensures
            self.extends(old),
    {
    }

    proof fn lemma_bytes_before_same(self, other: Heap, n: int)
        requires
            n <= self.atoms.len(),
            n <= other.atoms.len(),
            forall|i: int| 0 <= i < n ==> self.atoms[i] == other.atoms[i],
        ensures
            self.bytes_before(n) == other.bytes_before(n),
        decreases n,
    {
        if n > 0 {
            self.lemma_bytes_before_same(other, n - 1);
        }
    }

    proof fn lemma_atom_within(self, i: int, n: int)
        requires
            0 <= i < n <= self.atoms.len(),
        ensures
            self.atoms[i].len() <= self.bytes_before(n),
        decreases n,
    {
        if i < n - 1 {
            self.lemma_atom_within(i, n - 1);
        }
    }

    /// No atom is longer than all atoms together.
    pub proof fn lemma_atom_len(self, n: NodePtr)
        requires
            self.wf(),
            self.contains(n),
            n.is_atom(),
        ensures
            self.atoms[n.index()].len() <= self.bytes_used() <= MAX_HEAP_BYTES,
    {
        self.lemma_atom_within(n.index(), self.atoms.len() as int);
    }

    /// A new atom adds its length to the bytes in use.
    pub proof fn lemma_with_atom(self, bytes: Seq<u8>)
        requires
            self.wf(),
            self.atom_refusal(bytes.len()) is None,
        ensures
            self.with_atom(bytes).wf(),
            self.with_atom(bytes).extends(self),
            self.with_atom(bytes).bytes_used() == self.bytes_used() + bytes.len(),
            self.with_atom(bytes).contains(self.next_atom()),
            self.next_atom().is_atom(),
            !self.contains(self.next_atom()),
            self.with_atom(bytes).tree(self.next_atom()) == Tree::Atom(bytes),
    {
        let h = self.with_atom(bytes);
        self.lemma_bytes_before_same(h, self.atoms.len() as int);
        assert(h.bytes_before(h.atoms.len() as int) == h.bytes_before(self.atoms.len() as int)
            + bytes.len());
        assert(h.atoms[0] == self.atoms[0]);
        assert(h.atoms[1] == self.atoms[1]);
        assert forall|i: int| 0 <= i < h.pairs.len() implies h.child_ok(
            i,
            (#[trigger] h.pairs[i]).0,
        ) && h.child_ok(i, h.pairs[i].1) by {
            assert(self.child_ok(i, self.pairs[i].0));
            assert(self.child_ok(i, self.pairs[i].1));
        }
    }

    /// A new pair stands for the pair of its children's values.
    pub proof fn lemma_with_pair(self, first: NodePtr, rest: NodePtr)
        requires
            self.wf(),
            self.contains(first),
            self.contains(rest),
            self.pair_refusal() is None,
        ensures
            self.with_pair(first, rest).wf(),
            self.with_pair(first, rest).extends(self),
            self.with_pair(first, rest).bytes_used() == self.bytes_used(),
            self.with_pair(first, rest).contains(self.next_pair()),
            self.next_pair().is_pair(),
            !self.contains(self.next_pair()),
            self.with_pair(first, rest).tree(self.next_pair()) == Tree::pair(
                self.tree(first),
                self.tree(rest),
            ),
    {
        let h = self.with_pair(first, rest);
        self.lemma_bytes_before_same(h, self.atoms.len() as int);
        assert forall|i: int| 0 <= i < h.pairs.len() implies h.child_ok(
            i,
            (#[trigger] h.pairs[i]).0,
        ) && h.child_ok(i, h.pairs[i].1) by {
            if i < self.pairs.len() {
                assert(self.child_ok(i, self.pairs[i].0));
                assert(self.child_ok(i, self.pairs[i].1));
            }
        }
        h.lemma_extends_tree(self, first);
        h.lemma_extends_tree(self, rest);
        assert(h.pairs[self.pairs.len() as int] == (first, rest));
    }
}

/// Where the bytes of one atom lie in the arena's buffer.
#[derive(Clone, Copy, Debug)]
pub struct AtomBuf {
    start: u32,
    end: u32,
}

impl AtomBuf {
    /// Number of bytes of the atom.
    pub closed spec fn spec_len(self) -> nat {
        if self.start <= self.end {
            (self.end - self.start) as nat
        } else {
            0
        }
    }

    /// Number of bytes of the atom.
    pub fn len(&self) -> (n: usize)
        ensures
            n == self.spec_len(),
    {
        if self.start <= self.end {
            (self.end - self.start) as usize
        } else {
            0
        }
    }

    /// Whether the atom has no bytes.
    pub fn is_empty(&self) -> (b: bool)
        ensures
            b == (self.spec_len() == 0),
    {
        self.start >= self.end
    }
}

/// A node, opened up: an atom's bytes (by their place) or a pair's two
/// children.
#[derive(Clone, Copy, Debug)]
pub enum SExp {
    Atom(AtomBuf),
    Pair(NodePtr, NodePtr),
}

/// The arena. It owns the atoms' bytes and the pairs; handles stay valid for
/// as long as it lives.
pub struct Allocator {
    u8_vec: Vec<u8>,
    pair_vec: Vec<(NodePtr, NodePtr)>,
    atom_vec: Vec<AtomBuf>,
    heap_limit: usize,
    node_limit: usize,
    max_atom_len: usize,
}

impl View for Allocator {
    type V = Heap;

    closed spec fn view(&self) -> Heap {
        Heap {
            atoms: Seq::new(
                self.atom_vec@.len(),
                |i: int|
                    self.u8_vec@.subrange(
                        self.atom_vec@[i].start as int,
                        self.atom_vec@[i].end as int,
                    ),
            ),
            pairs: self.pair_vec@,
            max_atom_len: self.max_atom_len as nat,
            byte_limit: self.heap_limit as nat,
            node_limit: self.node_limit as nat,
        }
    }
}

impl Allocator {
    /// How the fields hang together: every atom lies inside the buffer, and
    /// the buffer holds nothing but the atoms.
    pub closed spec fn layout_ok(&self) -> bool {
        &&& forall|i: int|
            0 <= i < self.atom_vec@.len() ==> (#[trigger] self.atom_vec@[i]).start
                <= self.atom_vec@[i].end <= self.u8_vec@.len()
        &&& self.u8_vec@.len() == self@.bytes_used()
    }

    /// The arena is in order: its fields hang together, and what it holds is
    /// in order.
    pub open spec fn wf(&self) -> bool {
        self.layout_ok() && self@.wf()
    }

    /// `b` lies inside this arena's buffer.
    pub closed spec fn owns(&self, b: AtomBuf) -> bool {
        b.start <= b.end <= self.u8_vec@.len()
    }

    /// The bytes that `b` points at.
    pub closed spec fn bytes_of(&self, b: AtomBuf) -> Seq<u8> {
        self.u8_vec@.subrange(b.start as int, b.end as int)
    }

    /// What a new arena with the largest limits holds.
    pub open spec fn fresh() -> Heap {
        Heap::initial(MAX_HEAP_BYTES as nat, MAX_NODES as nat, MAX_HEAP_BYTES as nat)
    }

    /// An arena with the largest limits.
    pub fn new() -> (a: Allocator)
        ensures
            a.wf(),
            a@ == Allocator::fresh(),
    {
        Allocator::new_limited(MAX_HEAP_BYTES, MAX_NODES, MAX_HEAP_BYTES)
    }

    /// An arena with limits of the caller's choice: on the bytes of all atoms
    /// together, on the number of nodes, and on the length of one atom. A
    /// limit beyond what handles can address is lowered to that.
    pub fn new_limited(heap_limit: usize, node_limit: usize, max_atom_len: usize) -> (a: Allocator)
        ensures
            a.wf(),
            a@ == Heap::initial(
                if heap_limit <= MAX_HEAP_BYTES {
                    heap_limit as nat
                } else {
                    MAX_HEAP_BYTES as nat
                },
                if node_limit <= MAX_NODES {
                    node_limit as nat
                } else {
                    MAX_NODES as nat
                },
                max_atom_len as nat,
            ),
    {
        let mut u8_vec: Vec<u8> = Vec::new();
        u8_vec.push(1u8);
        let mut atom_vec: Vec<AtomBuf> = Vec::new();
        atom_vec.push(AtomBuf { start: 0, end: 0 });
        atom_vec.push(AtomBuf { start: 0, end: 1 });
        let a = Allocator {
            u8_vec,
            pair_vec: Vec::new(),
            atom_vec,
            heap_limit: if heap_limit <= MAX_HEAP_BYTES {
                heap_limit
            } else {
                MAX_HEAP_BYTES
            },
            node_limit: if node_limit <= MAX_NODES {
                node_limit
            } else {
                MAX_NODES
            },
            max_atom_len,
        };
        proof {
            assert(a.u8_vec@ =~= seq![1u8]);
            assert(a@.atoms[0] =~= Seq::<u8>::empty());
            assert(a@.atoms[1] =~= seq![1u8]);
            assert(a@.atoms =~= seq![Seq::<u8>::empty(), seq![1u8]]);
            assert(a@.pairs =~= Seq::empty());
            reveal_with_fuel(Heap::bytes_before, 3);
        }
        a
    }

    /// The empty atom. Every call on one arena returns the same handle.
    pub fn null(&self) -> (n: NodePtr)
        ensures
            n == Heap::null(),
    {
        NodePtr(-1)
    }

    /// The atom `[1]`. Every call on one arena returns the same handle.
    pub fn one(&self) -> (n: NodePtr)
        ensures
            n == Heap::one(),
    {
        NodePtr(-2)
    }

    /// Copies `v` into the arena as a new atom.
    pub fn new_atom(&mut self, v: &[u8]) -> (r: Result<NodePtr, AllocError>)
        requires
            old(self).wf(),
        ensures
            final(self).wf(),
            match r {
                Ok(n) => {
                    &&& old(self)@.atom_refusal(v@.len()) is None
                    &&& n == old(self)@.next_atom()
                    &&& final(self)@ == old(self)@.with_atom(v@)
                },
                Err(e) => {
                    &&& old(self)@.atom_refusal(v@.len()) == Some(e)
                    &&& final(self)@ == old(self)@
                },
            },
    {
        let start: usize = self.u8_vec.len();
        if v.len() > self.max_atom_len || v.len() > self.heap_limit || start > self.heap_limit
            - v.len() {
            return Err(AllocError::SizeLimitExceeded);
        }
        if self.atom_vec.len() + self.pair_vec.len() >= self.node_limit {
            return Err(AllocError::AllocationLimitExceeded);
        }
        let ghost before = *self;
        let idx: usize = self.atom_vec.len();
        self.u8_vec.extend_from_slice(v);
        let end: usize = self.u8_vec.len();
        self.atom_vec.push(AtomBuf { start: start as u32, end: end as u32 });
        proof {
            assert(self.u8_vec@ =~= before.u8_vec@ + v@);
            assert(self@.atoms =~= before@.atoms.push(v@)) by {
                assert forall|i: int| 0 <= i < self@.atoms.len() implies self@.atoms[i]
                    == before@.atoms.push(v@)[i] by {
                    if i < before.atom_vec@.len() {
                        assert(self.atom_vec@[i] == before.atom_vec@[i]);
                        assert(self@.atoms[i] =~= before@.atoms[i]);
                    } else {
                        assert(self@.atoms[i] =~= v@);
                    }
                }
            }
            assert(self@ == before@.with_atom(v@));
            before@.lemma_with_atom(v@);
        }
        Ok(NodePtr(-(idx as i32) - 1))
    }

    /// Makes a pair of two nodes of this arena.
    pub fn new_pair(&mut self, first: NodePtr, rest: NodePtr) -> (r: Result<NodePtr, AllocError>)
        requires
            old(self).wf(),
            old(self)@.contains(first),
            old(self)@.contains(rest),
        ensures
            final(self).wf(),
            match r {
                Ok(n) => {
                    &&& old(self)@.pair_refusal() is None
                    &&& n == old(self)@.next_pair()
                    &&& final(self)@ == old(self)@.with_pair(first, rest)
                },
                Err(e) => {
                    &&& old(self)@.pair_refusal() == Some(e)
                    &&& final(self)@ == old(self)@
                },
            },
    {
        if self.atom_vec.len() + self.pair_vec.len() >= self.node_limit {
            return Err(AllocError::AllocationLimitExceeded);
        }
        let ghost before = *self;
        let idx: usize = self.pair_vec.len();
        self.pair_vec.push((first, rest));
        proof {
            assert(self@.atoms =~= before@.atoms);
            assert(self@ == before@.with_pair(first, rest));
            before@.lemma_with_pair(first, rest);
        }
        Ok(NodePtr(idx as i32))
    }

    /// Opens a node up.
    pub fn sexp(&self, node: NodePtr) -> (r: SExp)
        requires
            self.wf(),
            self@.contains(node),
        ensures
            match r {
                SExp::Atom(b) => {
                    &&& node.is_atom()
                    &&& self.owns(b)
                    &&& self.bytes_of(b).len() == b.spec_len()
                    &&& self.bytes_of(b) == self@.atoms[node.index()]
                    &&& self@.tree(node) == Tree::Atom(self.bytes_of(b))
                },
                SExp::Pair(first, rest) => {
                    &&& node.is_pair()
                    &&& self@.pairs[node.index()] == (first, rest)
                    &&& self@.contains(first)
                    &&& self@.contains(rest)
                    &&& first.0 < node.0
                    &&& rest.0 < node.0
                    &&& self@.tree(node) == Tree::pair(self@.tree(first), self@.tree(rest))
                },
            },
    {
        if node.0 >= 0 {
            let p: (NodePtr, NodePtr) = self.pair_vec[node.0 as usize];
            proof {
                assert(self@.child_ok(node.0 as int, self@.pairs[node.0 as int].0));
                assert(self@.child_ok(node.0 as int, self@.pairs[node.0 as int].1));
            }
            SExp::Pair(p.0, p.1)
        } else {
            let idx: usize = (-(node.0 + 1)) as usize;
            let b: AtomBuf = self.atom_vec[idx];
            SExp::Atom(b)
        }
    }

    /// The bytes of an atom that `sexp` gave out.
    pub fn buf(&self, node: &AtomBuf) -> (r: &[u8])
        requires
            self.owns(*node),
        ensures
            r@ == self.bytes_of(*node),
    {
        let s: &[u8] = self.u8_vec.as_slice();
        &s[node.start as usize..node.end as usize]
    }

    /// The bytes of the atom `node`.
    pub fn atom(&self, node: NodePtr) -> (r: &[u8])
        requires
            self.wf(),
            self@.contains(node),
            node.is_atom(),
        ensures
            r@ == self@.atoms[node.index()],
            self@.tree(node) == Tree::Atom(r@),
    {
        let idx: usize = (-(node.0 + 1)) as usize;
        let b: AtomBuf = self.atom_vec[idx];
        let s: &[u8] = self.u8_vec.as_slice();
        &s[b.start as usize..b.end as usize]
    }
}

} // verus!
