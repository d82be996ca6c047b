//! Values computed over trees from the leaves up.
//!
//! An [`ObjectCache`] remembers the value of each node that has one. A
//! combining function gives the value of an atom at once, and the value of a
//! pair once both of its children have theirs.

use crate::allocator::{Allocator, Heap, NodePtr, SExp, Tree};
use crate::encoding::{atom_encoding_len, encoding_len, first_byte};
use crate::sha2::{sha256, Sha256};
use std::collections::HashMap;
use vstd::prelude::*;

verus! {

broadcast use vstd::std_specs::hash::group_hash_axioms;

/// The values of the nodes that have one.
pub struct ObjectCache<T> {
    hash: HashMap<i32, T>,
}

impl<T> View for ObjectCache<T> {
    type V = Map<NodePtr, T>;

    closed spec fn view(&self) -> Map<NodePtr, T> {
        Map::new(|n: NodePtr| self.hash@.contains_key(n.0), |n: NodePtr| self.hash@[n.0])
    }
}

impl<T> ObjectCache<T> {
    /// The value of `key`, if it has one.
    pub fn get(&self, key: &NodePtr) -> (r: Option<&T>)
        ensures
            match r {
                Some(v) => self@.contains_key(*key) && *v == self@[*key],
                None => !self@.contains_key(*key),
            },
    {
        self.hash.get(&key.0)
    }

    /// A cache without values.
    pub fn default() -> (c: Self)
        ensures
            c@ == Map::<NodePtr, T>::empty(),
    {
        let hash: HashMap<i32, T> = HashMap::new();
        let c = ObjectCache { hash };
        assert(c@ =~= Map::<NodePtr, T>::empty());
        c
    }

    /// Remembers `value` for `key`.
    fn put(&mut self, key: NodePtr, value: T)
        ensures
            final(self)@ == old(self)@.insert(key, value),
    {
        self.hash.insert(key.0, value);
        assert(self@ =~= old(self)@.insert(key, value));
    }
}

/// The value of the node can be computed from the values at hand: it is an
/// atom, or both of its children have a value.
pub open spec fn ready(h: Heap, have: Set<NodePtr>, n: NodePtr) -> bool {
    n.is_atom() || (have.contains(h.pairs[n.index()].0) && have.contains(h.pairs[n.index()].1))
}

/// The content hash of a tree: SHA-256 of the byte 1 and the atom's bytes, or
/// of the byte 2 and the hashes of the pair's two elements.
pub open spec fn hash_of_tree(t: Tree) -> [u8; 32]
    decreases t,
{
    match t {
        Tree::Atom(a) => sha256(seq![1u8] + a),
        Tree::Pair(l, r) => sha256(seq![2u8] + hash_of_tree(*l)@ + hash_of_tree(*r)@),
    }
}

/// `n`, or the largest `usize` where `n` is larger.
pub open spec fn capped(n: nat) -> usize {
    if n <= usize::MAX {
        n as usize
    } else {
        usize::MAX
    }
}

/// Number of bytes of the encoding of a tree, or the largest `usize` where
/// the number is larger.
pub open spec fn capped_encoding_len(t: Tree) -> usize {
    capped(encoding_len(t))
}

/// The hash of a node: of an atom at once, of a pair once both of its
/// children have theirs in `cache`.
pub fn treehash(cache: &ObjectCache<[u8; 32]>, allocator: &Allocator, node: NodePtr) -> (r: Option<
    [u8; 32],
>)
    requires
        allocator.wf(),
        allocator@.contains(node),
    ensures
        r == match allocator@.tree(node) {
            Tree::Atom(a) => Some(sha256(seq![1u8] + a)),
            Tree::Pair(_, _) => {
                let (left, right) = allocator@.pairs[node.index()];
                if cache@.contains_key(left) && cache@.contains_key(right) {
                    Some(sha256(seq![2u8] + cache@[left]@ + cache@[right]@))
                } else {
                    None
                }
            },
        },
{
    match allocator.sexp(node) {
        SExp::Pair(left, right) => match cache.get(&left) {
            None => None,
            Some(left_value) => match cache.get(&right) {
                None => None,
                Some(right_value) => {
                    let mut sha256 = Sha256::new();
                    let tag: [u8; 1] = [2];
                    sha256.update(tag.as_slice());
                    sha256.update(left_value.as_slice());
                    sha256.update(right_value.as_slice());
                    assert(sha256@ =~= seq![2u8] + left_value@ + right_value@);
                    Some(sha256.finish())
                },
            },
        },
        SExp::Atom(atom_buf) => {
            let mut sha256 = Sha256::new();
            let tag: [u8; 1] = [1];
            sha256.update(tag.as_slice());
            sha256.update(allocator.buf(&atom_buf));
            assert(sha256@ =~= seq![1u8] + allocator.bytes_of(atom_buf));
            Some(sha256.finish())
        },
    }
}

/// The length of the encoding of a node: of an atom at once, of a pair once
/// both of its children have theirs in `cache`. A sum that does not fit is
/// the largest `usize`.
pub fn serialized_length(cache: &ObjectCache<usize>, allocator: &Allocator, node: NodePtr) -> (r:
    Option<usize>)
    requires
        allocator.wf(),
        allocator@.contains(node),
    ensures
        r == match allocator@.tree(node) {
            Tree::Atom(a) => Some(capped(atom_encoding_len(first_byte(a), a.len()))),
            Tree::Pair(_, _) => {
                let (left, right) = allocator@.pairs[node.index()];
                if cache@.contains_key(left) && cache@.contains_key(right) {
                    Some(capped((1 + cache@[left] + cache@[right]) as nat))
                } else {
                    None
                }
            },
        },
{
    match allocator.sexp(node) {
        SExp::Pair(left, right) => match cache.get(&left) {
            None => None,
            Some(left_value) => match cache.get(&right) {
                None => None,
                Some(right_value) => Some(
                    1usize.saturating_add(*left_value).saturating_add(*right_value),
                ),
            },
        },
        SExp::Atom(atom_buf) => {
            let buf: &[u8] = allocator.buf(&atom_buf);
            let lb: usize = buf.len();
            proof {
                allocator@.lemma_atom_len(node);
            }
            Some(
                if lb == 0 {
                    1
                } else if lb == 1 && buf[0] < 128 {
                    1
                } else if lb < 0x40 {
                    1 + lb
                } else if lb < 0x2000 {
                    2 + lb
                } else if lb < 0x100000 {
                    3 + lb
                } else if lb < 0x8000000 {
                    4 + lb
                } else {
                    lb.saturating_add(5)
                },
            )
        },
    }
}

/// Every value in `cache` is the one that `value` gives for the tree of its
/// node.
pub open spec fn agrees<T>(cache: Map<NodePtr, T>, h: Heap, value: spec_fn(Tree) -> T) -> bool {
    forall|n: NodePtr| #[trigger] cache.contains_key(n) ==> cache[n] == value(h.tree(n))
}

/// What a combining function for `value` returns for node `n`: the value of
/// the node's tree where that can be computed from `cache`, nothing where it
/// cannot yet.
pub open spec fn combined<T>(
    cache: Map<NodePtr, T>,
    h: Heap,
    n: NodePtr,
    value: spec_fn(Tree) -> T,
) -> Option<T> {
    if ready(h, cache.dom(), n) {
        Some(value(h.tree(n)))
    } else {
        None
    }
}

/// `f` is a combining function for `value`: it can be called on every node of
/// an arena in order, and on a cache that agrees with `value` it returns what
/// `combined` says.
pub open spec fn combines<T, F: Fn(&ObjectCache<T>, &Allocator, NodePtr) -> Option<T>>(
    f: F,
    value: spec_fn(Tree) -> T,
) -> bool {
    &&& forall|c: &ObjectCache<T>, a: &Allocator, n: NodePtr|
        #![trigger call_requires(f, (c, a, n))]
        a.wf() && a@.contains(n) ==> call_requires(f, (c, a, n))
    &&& forall|c: &ObjectCache<T>, a: &Allocator, n: NodePtr, r: Option<T>|
        #![trigger call_ensures(f, (c, a, n), r)]
        a.wf() && a@.contains(n) && agrees(c@, a@, value) && call_ensures(f, (c, a, n), r) ==> r
            == combined(c@, a@, n, value)
}

/// The nodes that have a value once node `n` has been given one, where the
/// nodes of `have` had one before: `n` itself, and, where `n` was not ready,
/// what its second and then its first element needed.
pub open spec fn filled(h: Heap, have: Set<NodePtr>, n: NodePtr) -> Set<NodePtr>
    decreases n.0 + 0x8000_0000,
{
    if ready(h, have, n) {
        have.insert(n)
    } else {
        let (l, r) = h.pairs[n.0 as int];
        if l.0 < n.0 && r.0 < n.0 {
            filled(h, filled(h, have, r), l).insert(n)
        } else {
            have.insert(n)
        }
    }
}

/// The nodes of the tree of `n`, `n` among them.
pub open spec fn nodes_under(h: Heap, n: NodePtr) -> Set<NodePtr>
    decreases n.0 + 0x8000_0000,
{
    if n.0 < 0 {
        set![n]
    } else {
        let (l, r) = h.pairs[n.0 as int];
        if l.0 < n.0 && r.0 < n.0 {
            nodes_under(h, l).union(nodes_under(h, r)).insert(n)
        } else {
            set![n]
        }
    }
}

/// With each node, `have` holds the nodes under it.
pub open spec fn closed_under(h: Heap, have: Set<NodePtr>) -> bool {
    forall|n: NodePtr, m: NodePtr|
        have.contains(n) && h.contains(n) && #[trigger] nodes_under(h, n).contains(m)
            ==> #[trigger] have.contains(m)
}

/// Number of times that the combining function is called until node `n` has
/// a value.
spec fn steps(h: Heap, have: Set<NodePtr>, n: NodePtr) -> nat
    decreases n.0 + 0x8000_0000,
{
    if ready(h, have, n) {
        1
    } else {
        let (l, r) = h.pairs[n.0 as int];
        if l.0 < n.0 && r.0 < n.0 {
            2 + steps(h, have, r) + steps(h, filled(h, have, r), l)
        } else {
            1
        }
    }
}

/// The nodes that have a value once the nodes of `stack` have been given
/// one, the last one first.
spec fn stack_filled(h: Heap, have: Set<NodePtr>, stack: Seq<NodePtr>) -> Set<NodePtr>
    decreases stack.len(),
{
    if stack.len() == 0 {
        have
    } else {
        stack_filled(h, filled(h, have, stack.last()), stack.drop_last())
    }
}

/// Number of times that the combining function is called until the nodes of
/// `stack` have a value.
spec fn stack_steps(h: Heap, have: Set<NodePtr>, stack: Seq<NodePtr>) -> nat
    decreases stack.len(),
{
    if stack.len() == 0 {
        0
    } else {
        steps(h, have, stack.last()) + stack_steps(
            h,
            filled(h, have, stack.last()),
            stack.drop_last(),
        )
    }
}

/// Giving a node its value takes none away, and gives it to the node.
pub proof fn lemma_filled_grows(h: Heap, have: Set<NodePtr>, n: NodePtr)
    ensures
        have.subset_of(filled(h, have, n)),
        filled(h, have, n).contains(n),
    decreases n.0 + 0x8000_0000,
{
    if !ready(h, have, n) {
        let (l, r) = h.pairs[n.0 as int];
        if l.0 < n.0 && r.0 < n.0 {
            lemma_filled_grows(h, have, r);
            lemma_filled_grows(h, filled(h, have, r), l);
        }
    }
}

/// Where the values at hand are closed under "is a node under", giving a node
/// its value gives one to exactly the nodes under it, and the values stay
/// closed.
pub proof fn lemma_filled_closed(h: Heap, have: Set<NodePtr>, n: NodePtr)
    requires
        h.wf(),
        h.contains(n),
        closed_under(h, have),
    ensures
        filled(h, have, n) == have.union(nodes_under(h, n)),
        closed_under(h, filled(h, have, n)),
    decreases n.0 + 0x8000_0000,
{
    let after = filled(h, have, n);
    if n.0 < 0 {
        assert(after =~= have.union(nodes_under(h, n)));
    } else {
        let (l, r) = h.pairs[n.0 as int];
        assert(h.child_ok(n.0 as int, l));
        assert(h.child_ok(n.0 as int, r));
        assert(nodes_under(h, l).contains(l)) by {
            lemma_nodes_under_self(h, l);
        }
        assert(nodes_under(h, r).contains(r)) by {
            lemma_nodes_under_self(h, r);
        }
        if ready(h, have, n) {
            assert forall|m: NodePtr| nodes_under(h, l).contains(m) implies have.contains(m) by {}
            assert forall|m: NodePtr| nodes_under(h, r).contains(m) implies have.contains(m) by {}
            assert(after =~= have.union(nodes_under(h, n)));
        } else {
            lemma_filled_closed(h, have, r);
            lemma_filled_closed(h, filled(h, have, r), l);
            assert(after =~= have.union(nodes_under(h, n)));
        }
    }
    assert forall|a: NodePtr, m: NodePtr|
        after.contains(a) && h.contains(a) && #[trigger] nodes_under(h, a).contains(
            m,
        ) implies #[trigger] after.contains(m) by {
        if have.contains(a) {
        } else {
            lemma_nodes_under_trans(h, n, a, m);
        }
    }
}

/// A node is among the nodes of its tree.
proof fn lemma_nodes_under_self(h: Heap, n: NodePtr)
    ensures
        nodes_under(h, n).contains(n),
{
}

/// The nodes under a node under `n` are under `n`.
proof fn lemma_nodes_under_trans(h: Heap, n: NodePtr, a: NodePtr, m: NodePtr)
    requires
        nodes_under(h, n).contains(a),
        nodes_under(h, a).contains(m),
    ensures
        nodes_under(h, n).contains(m),
    decreases n.0 + 0x8000_0000,
{
    if a != n {
        let (l, r) = h.pairs[n.0 as int];
        if nodes_under(h, l).contains(a) {
            lemma_nodes_under_trans(h, l, a, m);
        } else {
            lemma_nodes_under_trans(h, r, a, m);
        }
    }
}

/// The node that was pushed last is worked off first.
proof fn lemma_stack_push(h: Heap, have: Set<NodePtr>, stack: Seq<NodePtr>, n: NodePtr)
    ensures
        stack_filled(h, have, stack.push(n)) == stack_filled(h, filled(h, have, n), stack),
        stack_steps(h, have, stack.push(n)) == steps(h, have, n) + stack_steps(
            h,
            filled(h, have, n),
            stack,
        ),
{
    assert(stack.push(n).drop_last() =~= stack);
}

impl<T> ObjectCache<T> {
    /// Gives `root_node` its value, and before it every node under it that
    /// still needs one for that, children before parents. `f` is the
    /// combining function. A value that the cache holds already is used as it
    /// is.
    pub fn update<F: Fn(&ObjectCache<T>, &Allocator, NodePtr) -> Option<T>>(
        &mut self,
        allocator: &Allocator,
        root_node: NodePtr,
        f: F,
    )
        requires
            allocator.wf(),
            allocator@.contains(root_node),
            exists|value: spec_fn(Tree) -> T| #[trigger]
                combines(f, value) && agrees(old(self)@, allocator@, value),
        ensures
            final(self)@.dom() == filled(allocator@, old(self)@.dom(), root_node),
            final(self)@.contains_key(root_node),
            forall|value: spec_fn(Tree) -> T| #[trigger]
                combines(f, value) && agrees(old(self)@, allocator@, value) ==> agrees(
                    final(self)@,
                    allocator@,
                    value,
                ),
    {
        let mut obj_list: Vec<NodePtr> = Vec::new();
        obj_list.push(root_node);
        let ghost h = allocator@;
        let ghost start = self@;
        let ghost goal = filled(h, start.dom(), root_node);
        let ghost witness = choose|value: spec_fn(Tree) -> T| #[trigger]
            combines(f, value) && agrees(start, h, value);
        proof {
            lemma_stack_push(h, start.dom(), Seq::<NodePtr>::empty(), root_node);
            assert(obj_list@ =~= Seq::<NodePtr>::empty().push(root_node));
            lemma_filled_grows(h, start.dom(), root_node);
        }
        loop
            invariant
                allocator.wf(),
                h == allocator@,
                start == old(self)@,
                goal == filled(h, start.dom(), root_node),
                goal.contains(root_node),
                combines(f, witness),
                agrees(start, h, witness),
                forall|i: int| 0 <= i < obj_list@.len() ==> h.contains(#[trigger] obj_list@[i]),
                stack_filled(h, self@.dom(), obj_list@) == goal,
                forall|value: spec_fn(Tree) -> T| #[trigger]
                    combines(f, value) && agrees(start, h, value) ==> agrees(self@, h, value),
            decreases stack_steps(h, self@.dom(), obj_list@),
        {
            let ghost stack = obj_list@;
            let ghost have = self@.dom();
            let ghost cache = self@;
            match obj_list.pop() {
                None => {
                    return ;
                },
                Some(node) => {
                    let ghost rest = stack.drop_last();
                    assert(node == stack.last());
                    assert(obj_list@ == rest);
                    assert(agrees(cache, h, witness));
                    match f(&*self, allocator, node) {
                        None => match allocator.sexp(node) {
                            SExp::Pair(left, right) => {
                                obj_list.push(node);
                                obj_list.push(left);
                                obj_list.push(right);
                                proof {
                                    assert(!ready(h, have, node));
                                    let have1 = filled(h, have, right);
                                    let have2 = filled(h, have1, left);
                                    lemma_filled_grows(h, have, right);
                                    lemma_filled_grows(h, have1, left);
                                    assert(ready(h, have2, node));
                                    assert(filled(h, have2, node) == filled(h, have, node));
                                    let s1 = rest.push(node);
                                    let s2 = s1.push(left);
                                    assert(obj_list@ == s2.push(right));
                                    lemma_stack_push(h, have, s2, right);
                                    lemma_stack_push(h, have1, s1, left);
                                    lemma_stack_push(h, have2, rest, node);
                                }
                            },
                            SExp::Atom(_) => {
                                vstd::pervasive::unreached::<()>()
                            },
                        },
                        Some(v) => {
                            self.put(node, v);
                            proof {
                                assert(ready(h, have, node));
                                assert(self@.dom() =~= have.insert(node));
                                assert forall|value: spec_fn(Tree) -> T| #[trigger]
                                    combines(f, value) && agrees(start, h, value) implies agrees(
                                    self@,
                                    h,
                                    value,
                                ) by {
                                    assert(agrees(cache, h, value));
                                }
                            }
                        },
                    }
                },
            }
        }
    }
}

/// A cache that holds the values of `root_node` and of every node under it.
/// `f` is the combining function.
pub fn generate_cache<T, F: Fn(&ObjectCache<T>, &Allocator, NodePtr) -> Option<T>>(
    allocator: &Allocator,
    root_node: NodePtr,
    f: F,
) -> (cache: ObjectCache<T>)
    requires
        allocator.wf(),
        allocator@.contains(root_node),
        exists|value: spec_fn(Tree) -> T| #[trigger] combines(f, value),
    ensures
        cache@.dom() == nodes_under(allocator@, root_node),
        cache@.contains_key(root_node),
        forall|value: spec_fn(Tree) -> T| #[trigger]
            combines(f, value) ==> agrees(cache@, allocator@, value),
{
    let mut cache: ObjectCache<T> = ObjectCache::default();
    proof {
        lemma_filled_closed(allocator@, Set::<NodePtr>::empty(), root_node);
        assert(Set::<NodePtr>::empty().union(nodes_under(allocator@, root_node)) =~= nodes_under(
            allocator@,
            root_node,
        ));
        let value = choose|value: spec_fn(Tree) -> T| #[trigger] combines(f, value);
        assert(combines(f, value) && agrees(cache@, allocator@, value));
    }
    cache.update(allocator, root_node, f);
    cache
}

/// `treehash` is a combining function for the content hash.
pub proof fn lemma_treehash_combines()
    ensures
        combines(treehash, |t: Tree| hash_of_tree(t)),
{
    let value = |t: Tree| hash_of_tree(t);
    assert forall|c: &ObjectCache<[u8; 32]>, a: &Allocator, n: NodePtr, r: Option<[u8; 32]>|
        #![trigger call_ensures(treehash, (c, a, n), r)]
        a.wf() && a@.contains(n) && agrees(c@, a@, value) && call_ensures(
            treehash,
            (c, a, n),
            r,
        ) implies r == combined(c@, a@, n, value) by {
        if n.0 >= 0 {
            let (left, right) = a@.pairs[n.index()];
            assert(a@.child_ok(n.0 as int, left));
            assert(a@.child_ok(n.0 as int, right));
        }
    }
}

/// `serialized_length` is a combining function for the length of the
/// encoding.
pub proof fn lemma_serialized_length_combines()
    ensures
        combines(serialized_length, |t: Tree| capped_encoding_len(t)),
{
    let value = |t: Tree| capped_encoding_len(t);
    assert forall|c: &ObjectCache<usize>, a: &Allocator, n: NodePtr, r: Option<usize>|
        #![trigger call_ensures(serialized_length, (c, a, n), r)]
        a.wf() && a@.contains(n) && agrees(c@, a@, value) && call_ensures(
            serialized_length,
            (c, a, n),
            r,
        ) implies r == combined(c@, a@, n, value) by {
        if n.0 >= 0 {
            let (left, right) = a@.pairs[n.index()];
            assert(a@.child_ok(n.0 as int, left));
            assert(a@.child_ok(n.0 as int, right));
        }
    }
}

/// The content hash of the tree of `node`.
pub fn tree_hash(allocator: &Allocator, node: NodePtr) -> (r: [u8; 32])
    requires
        allocator.wf(),
        allocator@.contains(node),
    ensures
        r == hash_of_tree(allocator@.tree(node)),
{
    proof {
        lemma_treehash_combines();
    }
    let cache: ObjectCache<[u8; 32]> = generate_cache(allocator, node, treehash);
    match cache.get(&node) {
        Some(h) => *h,
        None => vstd::pervasive::unreached(),
    }
}

/// A value depends on the tree alone. Two caches that were filled with one
/// combining function, in whatever order and from whatever start, hold the
/// same value for two nodes with the same tree, be they in one arena or in
/// two. So it is with the content hash: the hash of a tree is the same
/// whenever and wherever it is computed.
pub proof fn lemma_same_tree_same_value<T>(
    value: spec_fn(Tree) -> T,
    cache1: Map<NodePtr, T>,
    h1: Heap,
    n1: NodePtr,
    cache2: Map<NodePtr, T>,
    h2: Heap,
    n2: NodePtr,
)
    requires
        agrees(cache1, h1, value),
        agrees(cache2, h2, value),
        cache1.contains_key(n1),
        cache2.contains_key(n2),
        h1.tree(n1) == h2.tree(n2),
    ensures
        cache1[n1] == cache2[n2],
        hash_of_tree(h1.tree(n1)) == hash_of_tree(h2.tree(n2)),
{
}

} // verus!
