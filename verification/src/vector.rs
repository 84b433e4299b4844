//! The vector facade: a persistent indexed sequence over the tree engine.

use std::rc::Rc;

use vstd::prelude::*;
use vstd::std_specs::cmp::PartialEqSpec;

use crate::Error;
use crate::node::{Node, Rebalance, max_leaf_items, max_items_spec, leaf_limit, ceil_log2, leaves_from_slice, flat, sat_add, chunks_of, packed_blocks, lemma_min_footprint_nonneg};

verus! {

/// Relies on std's `format` machinery: renders the failing offset into a
/// human-readable message.
#[verifier::external_body]
fn index_fail_msg(off: usize) -> String {
    format!("index {} out of bounds", off)
}

/// Persistent array using a rope-like tree of array blocks.  Every
/// copy-on-write mutation yields a logically new sequence; untouched subtrees
/// are shared with prior versions through cheap reference-counted handles.
pub struct Vector<T> {
    pub(crate) len: usize,
    pub(crate) root: Rc<Node<T>>,
    pub(crate) auto_rebalance: bool,
    pub(crate) leaf_cap: usize,
}

impl<T> Vector<T> {
    /// The structural invariant: correct weights everywhere in the tree, and
    /// a stored length that equals the tree's element count.
    pub closed spec fn inv(self) -> bool {
        &&& (*self.root).wf()
        &&& self.len == (*self.root).seq().len()
    }

    /// The configured leaf byte capacity.
    pub closed spec fn spec_leaf_cap(self) -> usize {
        self.leaf_cap
    }

    /// Whether the auto-rebalance heuristic is enabled.
    pub closed spec fn spec_auto_rebalance(self) -> bool {
        self.auto_rebalance
    }

    /// Every leaf block holds at most the configured item count (two for
    /// degenerate capacities that admit fewer than two items).
    pub closed spec fn leaves_within(self) -> bool {
        (*self.root).max_leaf() <= leaf_limit(
            max_items_spec(self.leaf_cap as nat, core::mem::size_of::<T>() as nat),
        )
    }

    /// The tree behind the facade, as a value; mutation contracts that keep
    /// the whole tree intact say so through it.
    pub closed spec fn spec_root(self) -> Node<T> {
        *self.root
    }

    /// The number of internal nodes on the tree's longest root-to-leaf path.
    pub closed spec fn spec_depth(self) -> nat {
        (*self.root).depth()
    }

    /// The number of leaf blocks in the tree.
    pub closed spec fn spec_n_leaves(self) -> nat {
        (*self.root).n_leaves()
    }

    /// A lower bound on the resident bytes: the facade plus every node plus
    /// the elements held, ignoring extra reserved capacity.
    pub closed spec fn spec_min_footprint(self) -> int {
        core::mem::size_of::<Vector<T>>() + (*self.root).min_footprint()
    }

    /// The tree is no deeper than a near-complete binary tree over `leaves`
    /// leaf blocks: its depth `d` is zero or satisfies `2^(d-1) < leaves`,
    /// that is, `d <= ceil(log2(leaves))`.
    pub closed spec fn depth_within(self, leaves: nat) -> bool {
        (*self.root).depth() == 0 || vstd::arithmetic::power2::pow2(
            ((*self.root).depth() - 1) as nat,
        ) < leaves
    }

    /// Every leaf block except possibly the last is filled to the configured
    /// item count.
    pub closed spec fn blocks_packed(self) -> bool {
        packed_blocks(
            (*self.root).blocks(),
            max_items_spec(self.leaf_cap as nat, core::mem::size_of::<T>() as nat),
        )
    }

    /// The heuristic facts handed down to the engine.
    fn rebalance_info(&self) -> (rn: Rebalance)
        ensures
            rn.leaf_cap == self.spec_leaf_cap(),
            rn.auto_rebalance == self.spec_auto_rebalance(),
    {
        Rebalance {
            n_leafs: self.len / max_leaf_items::<T>(self.leaf_cap),
            auto_rebalance: self.auto_rebalance,
            leaf_cap: self.leaf_cap,
        }
    }

    /// Create a new empty vector.
    pub fn new() -> (v: Vector<T>)
        ensures
            v.inv(),
            v@ == Seq::<T>::empty(),
            v.leaves_within(),
            v.spec_leaf_cap() == crate::LEAF_CAP,
            v.spec_auto_rebalance() == true,
    {
        Vector {
            len: 0,
            root: Node::empty_leaf(),
            auto_rebalance: true,
            leaf_cap: crate::LEAF_CAP,
        }
    }

    /// Set the target size of a leaf block, in bytes.  The number of items a
    /// leaf may hold is the ceiling of `leaf_size` over the element size.
    /// Larger leaves make the tree shallow, favouring reads over writes.
    pub fn set_leaf_size(&mut self, leaf_size: usize)
        requires
            old(self).inv(),
        ensures
            final(self).inv(),
            final(self)@ == old(self)@,
            final(self).spec_leaf_cap() == leaf_size,
            final(self).spec_auto_rebalance() == old(self).spec_auto_rebalance(),
            old(self).leaves_within() && max_items_spec(
                old(self).spec_leaf_cap() as nat,
                core::mem::size_of::<T>() as nat,
            ) <= max_items_spec(leaf_size as nat, core::mem::size_of::<T>() as nat)
                ==> final(self).leaves_within(),
            final(self).spec_root() == old(self).spec_root(),
            final(self)@.len() == old(self)@.len(),
    {
        self.leaf_cap = leaf_size;
    }

    /// Enable or disable the auto-rebalance heuristic.  Disabling trades
    /// balance maintenance for raw write speed; callers may invoke
    /// `rebalance` themselves as and when required.
    pub fn set_auto_rebalance(&mut self, rebalance: bool)
        requires
            old(self).inv(),
        ensures
            final(self).inv(),
            final(self)@ == old(self)@,
            final(self).spec_leaf_cap() == old(self).spec_leaf_cap(),
            final(self).spec_auto_rebalance() == rebalance,
            old(self).leaves_within() ==> final(self).leaves_within(),
            final(self).spec_root() == old(self).spec_root(),
            final(self)@.len() == old(self)@.len(),
    {
        self.auto_rebalance = rebalance;
    }

    /// The number of elements in the vector.
    pub fn len(&self) -> (n: usize)
        requires
            self.inv(),
        ensures
            n == self@.len(),
    {
        self.len
    }

    /// Whether the vector holds no elements.
    pub fn is_empty(&self) -> (b: bool)
        requires
            self.inv(),
        ensures
            b <==> self@.len() == 0,
    {
        self.len == 0
    }

    /// Whether this vector may be shared across threads; this build uses
    /// thread-local reference counting.
    pub fn is_thread_safe(&self) -> (b: bool)
        ensures
            b == false,
    {
        false
    }

    /// Whether this build counts references without atomics.
    pub fn is_rc_type() -> (b: bool)
        ensures
            b == true,
    {
        true
    }

    /// The resident memory of this vector in bytes: the facade, the nodes,
    /// and each leaf's reserved buffer.  Informational; saturates instead of
    /// overflowing.
    pub fn footprint(&self) -> (n: usize)
        requires
            self.inv(),
        ensures
            n >= core::mem::size_of::<Vector<T>>(),
            n >= vstd::math::min(self.spec_min_footprint(), usize::MAX as int),
    {
        proof {
            lemma_min_footprint_nonneg(&*self.root);
        }
        sat_add(core::mem::size_of::<Vector<T>>(), self.root.footprint())
    }

    /// The element count found by a full traversal of the tree; by the
    /// structural invariant it always equals the stored length.
    pub(crate) fn traversal_count(&self) -> (n: usize)
        requires
            self.inv(),
        ensures
            n == self@.len(),
    {
        self.root.count()
    }

    /// A reference to the element at `index`, or `IndexFail` when the index
    /// is out of bounds.
    pub fn get(&self, index: usize) -> (r: Result<&T, Error>)
        requires
            self.inv(),
        ensures
            index < self@.len() ==> (r matches Ok(v) && *v == self@[index as int]),
            index >= self@.len() ==> (r matches Err(e) && e is IndexFail),
    {
        if index < self.len {
            Ok(self.root.get(index))
        } else {
            Err(Error::IndexFail("Vector::get".to_owned(), index_fail_msg(index)))
        }
    }
}

impl<T: Copy> Vector<T> {
    /// Build a vector from a slice of values, chunking it into leaf blocks
    /// and assembling a near-complete tree bottom-up.
    pub fn from_slice(slice: &[T], leaf_node_size: Option<usize>) -> (v: Vector<T>)
        ensures
            v.inv(),
            v@ == slice@,
            v.leaves_within(),
            v.spec_leaf_cap() == match leaf_node_size {
                Some(c) => c,
                None => crate::LEAF_CAP,
            },
            v.spec_auto_rebalance() == true,
            v.depth_within(
                chunks_of(
                    slice@.len() as nat,
                    max_items_spec(v.spec_leaf_cap() as nat, core::mem::size_of::<T>() as nat),
                ),
            ),
            v.blocks_packed(),
    {
        let cap = match leaf_node_size {
            Some(c) => c,
            None => crate::LEAF_CAP,
        };
        let n_items = max_leaf_items::<T>(cap);
        let sl = slice.len();
        let leaves = leaves_from_slice(slice, n_items);
        let depth = ceil_log2(leaves.len());
        let mut pos: usize = 0;
        proof {
            assert(leaves@.skip(0) =~= leaves@);
            assert(flat(leaves@) == slice@);
        }
        let (root, _cnt) = Node::build_bottoms_up(depth, &leaves, &mut pos, Ghost(n_items as nat));
        proof {
            assert(leaves@.subrange(0, leaves@.len() as int) =~= leaves@);
            let rd = crate::node::rc_depth(&root);
            if rd > 0 {
                if rd - 1 < depth - 1 {
                    vstd::arithmetic::power2::lemma_pow2_strictly_increases(
                        (rd - 1) as nat,
                        (depth - 1) as nat,
                    );
                }
            }
            if leaves@.len() > 0 {
                assert forall|i: int| 0 <= i < crate::node::blocks_seq(leaves@).len() - 1
                    implies (#[trigger] crate::node::blocks_seq(leaves@)[i]).len()
                    == n_items by {
                    assert(crate::node::blocks_seq(leaves@)[i] == (*leaves@[i]).seq());
                }
            }
        }
        Vector { len: sl, root, auto_rebalance: true, leaf_cap: cap }
    }

    /// Copy-on-write insert of `value` at position `off`, or `IndexFail` when
    /// `off` lies beyond the end.  Shared subtrees stay intact; other owners
    /// observe their sequences unchanged.
    pub fn insert(&mut self, off: usize, value: T) -> (r: Result<(), Error>)
        requires
            old(self).inv(),
            off <= old(self)@.len() ==> old(self)@.len() < usize::MAX,
        ensures
            final(self).inv(),
            off <= old(self)@.len() ==> r is Ok && final(self)@ == old(self)@.insert(
                off as int,
                value,
            ),
            off > old(self)@.len() ==> (r matches Err(e) && e is IndexFail && *final(self)
                == *old(self)),
            final(self).spec_leaf_cap() == old(self).spec_leaf_cap(),
            final(self).spec_auto_rebalance() == old(self).spec_auto_rebalance(),
            old(self).leaves_within() ==> final(self).leaves_within(),
    {
        if off <= self.len {
            let rn = self.rebalance_info();
            let (root, _depth) = self.root.insert(off, value, &rn);
            self.root = root;
            self.len = self.len + 1;
            Ok(())
        } else {
            Err(Error::IndexFail("Vector::insert".to_owned(), index_fail_msg(off)))
        }
    }

    /// Insert at `off`, mutating the tree in place wherever this vector is
    /// the sole owner of a node, and copying only shared nodes.
    pub fn insert_mut(&mut self, off: usize, value: T) -> (r: Result<(), Error>)
        requires
            old(self).inv(),
            off <= old(self)@.len() ==> old(self)@.len() < usize::MAX,
        ensures
            final(self).inv(),
            off <= old(self)@.len() ==> r is Ok && final(self)@ == old(self)@.insert(
                off as int,
                value,
            ),
            off > old(self)@.len() ==> (r matches Err(e) && e is IndexFail && *final(self)
                == *old(self)),
            final(self).spec_leaf_cap() == old(self).spec_leaf_cap(),
            final(self).spec_auto_rebalance() == old(self).spec_auto_rebalance(),
            old(self).leaves_within() ==> final(self).leaves_within(),
    {
        if off <= self.len {
            let rn = self.rebalance_info();
            let mut root = Node::empty_leaf();
            core::mem::swap(&mut root, &mut self.root);
            let (root2, depth) = Node::insert_mut_rc(root, off, value, &rn);
            let (root3, _d) = Node::auto_rebalance(root2, depth, false, false, &rn);
            self.root = root3;
            self.len = self.len + 1;
            Ok(())
        } else {
            Err(Error::IndexFail("Vector::insert_mut".to_owned(), index_fail_msg(off)))
        }
    }

    /// Copy-on-write update of the element at `off`; returns the prior value,
    /// or `IndexFail` when `off` is out of bounds.
    pub fn update(&mut self, off: usize, value: T) -> (r: Result<T, Error>)
        requires
            old(self).inv(),
        ensures
            final(self).inv(),
            off < old(self)@.len() ==> (r matches Ok(prior) && prior == old(self)@[off as int]
                && final(self)@ == old(self)@.update(off as int, value)),
            off >= old(self)@.len() ==> (r matches Err(e) && e is IndexFail && *final(self)
                == *old(self)),
            final(self).spec_leaf_cap() == old(self).spec_leaf_cap(),
            final(self).spec_auto_rebalance() == old(self).spec_auto_rebalance(),
            old(self).leaves_within() ==> final(self).leaves_within(),
    {
        if off < self.len {
            let (root, prior) = self.root.update(off, value);
            self.root = root;
            Ok(prior)
        } else {
            Err(Error::IndexFail("Vector::update".to_owned(), index_fail_msg(off)))
        }
    }

    /// Update at `off` in place wherever this vector solely owns the path,
    /// copying only shared nodes; returns the prior value.
    pub fn update_mut(&mut self, off: usize, value: T) -> (r: Result<T, Error>)
        requires
            old(self).inv(),
        ensures
            final(self).inv(),
            off < old(self)@.len() ==> (r matches Ok(prior) && prior == old(self)@[off as int]
                && final(self)@ == old(self)@.update(off as int, value)),
            off >= old(self)@.len() ==> (r matches Err(e) && e is IndexFail && *final(self)
                == *old(self)),
            final(self).spec_leaf_cap() == old(self).spec_leaf_cap(),
            final(self).spec_auto_rebalance() == old(self).spec_auto_rebalance(),
            old(self).leaves_within() ==> final(self).leaves_within(),
    {
        if off < self.len {
            let mut root = Node::empty_leaf();
            core::mem::swap(&mut root, &mut self.root);
            let (root2, prior) = Node::update_mut_rc(root, off, value);
            self.root = root2;
            Ok(prior)
        } else {
            Err(Error::IndexFail("Vector::update_mut".to_owned(), index_fail_msg(off)))
        }
    }

    /// Copy-on-write removal of the element at `off`; returns the removed
    /// value, or `IndexFail` when `off` is out of bounds.
    pub fn remove(&mut self, off: usize) -> (r: Result<T, Error>)
        requires
            old(self).inv(),
        ensures
            final(self).inv(),
            off < old(self)@.len() ==> (r matches Ok(removed) && removed == old(self)@[off as int]
                && final(self)@ == old(self)@.remove(off as int)),
            off >= old(self)@.len() ==> (r matches Err(e) && e is IndexFail && *final(self)
                == *old(self)),
            final(self).spec_leaf_cap() == old(self).spec_leaf_cap(),
            final(self).spec_auto_rebalance() == old(self).spec_auto_rebalance(),
            old(self).leaves_within() ==> final(self).leaves_within(),
    {
        if off < self.len {
            let (root, removed) = self.root.remove(off);
            self.root = root;
            self.len = self.len - 1;
            Ok(removed)
        } else {
            Err(Error::IndexFail("Vector::remove".to_owned(), index_fail_msg(off)))
        }
    }

    /// Remove at `off` in place wherever this vector solely owns the path,
    /// copying only shared nodes; returns the removed value.
    pub fn remove_mut(&mut self, off: usize) -> (r: Result<T, Error>)
        requires
            old(self).inv(),
        ensures
            final(self).inv(),
            off < old(self)@.len() ==> (r matches Ok(removed) && removed == old(self)@[off as int]
                && final(self)@ == old(self)@.remove(off as int)),
            off >= old(self)@.len() ==> (r matches Err(e) && e is IndexFail && *final(self)
                == *old(self)),
            final(self).spec_leaf_cap() == old(self).spec_leaf_cap(),
            final(self).spec_auto_rebalance() == old(self).spec_auto_rebalance(),
            old(self).leaves_within() ==> final(self).leaves_within(),
    {
        if off < self.len {
            let mut root = Node::empty_leaf();
            core::mem::swap(&mut root, &mut self.root);
            let (root2, removed) = Node::remove_mut_rc(root, off);
            self.root = root2;
            self.len = self.len - 1;
            Ok(removed)
        } else {
            Err(Error::IndexFail("Vector::remove_mut".to_owned(), index_fail_msg(off)))
        }
    }

    /// Split the vector at `off`: this vector keeps `[0, off)` and a new
    /// vector holding `[off, len)` is returned, or `IndexFail` when `off`
    /// lies beyond the end.  Either side may afterwards be rebalanced.
    pub fn split_off(&mut self, off: usize) -> (r: Result<Vector<T>, Error>)
        requires
            old(self).inv(),
        ensures
            final(self).inv(),
            off <= old(self)@.len() ==> (r matches Ok(v) && v.inv() && v@ == old(self)@.skip(
                off as int) && final(self)@ == old(self)@.take(off as int) && v.spec_leaf_cap()
                == old(self).spec_leaf_cap() && v.spec_auto_rebalance()
                == old(self).spec_auto_rebalance() && (old(self).leaves_within()
                ==> v.leaves_within() && final(self).leaves_within())),
            off > old(self)@.len() ==> (r matches Err(e) && e is IndexFail && *final(self)
                == *old(self)),
            final(self).spec_leaf_cap() == old(self).spec_leaf_cap(),
            final(self).spec_auto_rebalance() == old(self).spec_auto_rebalance(),
            old(self).leaves_within() ==> final(self).leaves_within(),
    {
        if off > self.len {
            Err(Error::IndexFail("Vector::split_off".to_owned(), index_fail_msg(off)))
        } else if off == self.len {
            proof {
                assert(old(self)@.take(off as int) =~= old(self)@);
                assert(old(self)@.skip(off as int) =~= Seq::<T>::empty());
            }
            Ok(
                Vector {
                    len: 0,
                    root: Node::empty_leaf(),
                    auto_rebalance: self.auto_rebalance,
                    leaf_cap: self.leaf_cap,
                },
            )
        } else {
            let (node, root, n) = self.root.split_off(off, self.len);
            self.root = node;
            self.len = self.len - n;
            Ok(
                Vector {
                    len: n,
                    root,
                    auto_rebalance: self.auto_rebalance,
                    leaf_cap: self.leaf_cap,
                },
            )
        }
    }

    /// Join `other` onto the end of this vector.  When the leaf capacities
    /// agree this is a single fresh root over the two trees; otherwise
    /// `other` is linearised and rebuilt under this vector's capacity first.
    pub fn append(&mut self, other: Vector<T>)
        requires
            old(self).inv(),
            other.inv(),
            old(self)@.len() + other@.len() <= usize::MAX,
        ensures
            final(self).inv(),
            final(self)@ == old(self)@ + other@,
            final(self).spec_leaf_cap() == old(self).spec_leaf_cap(),
            final(self).spec_auto_rebalance() == old(self).spec_auto_rebalance(),
            old(self).leaves_within() && (other.spec_leaf_cap() == old(self).spec_leaf_cap()
                ==> other.leaves_within()) ==> final(self).leaves_within(),
    {
        let other = if other.leaf_cap != self.leaf_cap {
            let mut elems: Vec<T> = Vec::new();
            other.root.push_elems(&mut elems);
            Vector::from_slice(elems.as_slice(), Some(self.leaf_cap))
        } else {
            other
        };
        let root = Node::newm(Rc::clone(&self.root), Rc::clone(&other.root), self.len);
        self.root = root;
        self.len = self.len + other.len;
    }

    /// Rebuild the tree to a near-complete shape, preserving the sequence.
    /// With `packed`, leaf blocks are also refilled to capacity so that only
    /// the final block may be partial.
    pub fn rebalance(&self, packed: bool) -> (r: Result<Vector<T>, Error>)
        requires
            self.inv(),
        ensures
            r matches Ok(v) && v.inv() && v@ == self@ && v.spec_leaf_cap() == self.spec_leaf_cap()
                && v.spec_auto_rebalance() == self.spec_auto_rebalance() && (packed
                ==> v.leaves_within()) && (self.leaves_within() ==> v.leaves_within()) && (!packed
                ==> v.depth_within(self.spec_n_leaves())) && (packed ==> v.depth_within(
                chunks_of(
                    self@.len() as nat,
                    max_items_spec(self.spec_leaf_cap() as nat, core::mem::size_of::<T>() as nat),
                ),
            )) && (packed ==> v.blocks_packed()),
    {
        let rn = self.rebalance_info();
        let root = Rc::clone(&self.root);
        let (root, _depth) = Node::auto_rebalance(root, 0, packed, true, &rn);
        Ok(
            Vector {
                len: self.len,
                root,
                auto_rebalance: self.auto_rebalance,
                leaf_cap: self.leaf_cap,
            },
        )
    }

    /// Copy the elements out into a plain vector, in order.
    pub fn to_vec(&self) -> (v: Vec<T>)
        requires
            self.inv(),
        ensures
            v@ == self@,
    {
        let mut out: Vec<T> = Vec::new();
        self.root.push_elems(&mut out);
        out
    }
}

/// The elements still to be visited on a stack of borrowed subtrees, from
/// the top of the stack down.
pub open spec fn stack_pending<T>(s: Seq<&Node<T>>) -> Seq<T>
    decreases s.len(),
{
    if s.len() == 0 {
        Seq::empty()
    } else {
        (*s.last()).seq() + stack_pending(s.drop_last())
    }
}

/// The node count on a stack of borrowed subtrees; a termination measure.
pub open spec fn stack_size<T>(s: Seq<&Node<T>>) -> nat
    decreases s.len(),
{
    if s.len() == 0 {
        0
    } else {
        (*s.last()).size() + stack_size(s.drop_last())
    }
}

/// An iterator over borrowed elements of a `Vector`, created by its `iter`
/// method.  It keeps an explicit stack of right subtrees still to visit and
/// a cursor into the current leaf.
pub struct Iter<'a, T> {
    stack: Vec<&'a Node<T>>,
    node: Option<&'a Node<T>>,
    off: usize,
}

impl<'a, T> Iter<'a, T> {
    /// The iterator's well-formedness: the cursor rests on a leaf, within
    /// its block, and every stacked subtree has correct weights.
    pub closed spec fn wf_iter(self) -> bool {
        &&& match self.node {
            Some(n) => (*n) is Z && self.off <= (*n).leaf_data().len(),
            None => true,
        }
        &&& forall|i: int| 0 <= i < self.stack@.len() ==> (*#[trigger] self.stack@[i]).wf()
    }

    /// The elements not yet yielded, in order.
    pub closed spec fn remaining(self) -> Seq<T> {
        (match self.node {
            Some(n) => (*n).leaf_data().skip(self.off as int),
            None => Seq::empty(),
        }) + stack_pending(self.stack@)
    }

    /// Start an iterator at the leftmost leaf of the subtree.
    pub fn new(root: &'a Node<T>) -> (it: Iter<'a, T>)
        requires
            root.wf(),
        ensures
            it.wf_iter(),
            it.remaining() == root.seq(),
    {
        let mut it = Iter { stack: Vec::new(), node: None, off: 0 };
        proof {
            assert(it.remaining() =~= Seq::<T>::empty());
        }
        build_iter_stack(root, &mut it);
        proof {
            assert(it.remaining() =~= root.seq());
        }
        it
    }

    /// Yield the next element: the head of `remaining`, or nothing once the
    /// sequence is exhausted.
    pub fn next(&mut self) -> (r: Option<&'a T>)
        requires
            old(self).wf_iter(),
        ensures
            final(self).wf_iter(),
            old(self).remaining().len() > 0 ==> (r matches Some(v) && *v == old(
                self,
            ).remaining()[0] && final(self).remaining() == old(self).remaining().drop_first()),
            old(self).remaining().len() == 0 ==> r is None && final(self).remaining().len() == 0,
    {
        let cur = self.node;
        match cur {
            Some(n) => {
                match n {
                    Node::Z { data } => {
                        if self.off < data.len() {
                            let item = &data[self.off];
                            self.off = self.off + 1;
                            proof {
                                assert(self.remaining() =~= old(self).remaining().drop_first());
                            }
                            return Some(item);
                        }
                    },
                    Node::M { .. } => {
                        proof {
                            assert(false);
                        }
                    },
                }
            },
            None => {},
        }
        self.node = None;
        self.off = 0;
        proof {
            assert(self.remaining() =~= old(self).remaining());
        }
        while self.stack.len() > 0
            invariant
                self.wf_iter(),
                self.node is None,
                self.off == 0,
                self.remaining() == old(self).remaining(),
            decreases stack_size(self.stack@),
        {
            let ghost prestack = self.stack@;
            let top = self.stack.pop().unwrap();
            proof {
                assert(prestack.drop_last() =~= self.stack@);
                assert(self.remaining() =~= stack_pending(self.stack@));
            }
            build_iter_stack(top, self);
            let again = self.node;
            match again {
                Some(n) => {
                    match n {
                        Node::Z { data } => {
                            if data.len() > 0 {
                                let item = &data[0];
                                self.off = 1;
                                proof {
                                    assert(self.remaining() =~= old(self).remaining().drop_first());
                                }
                                return Some(item);
                            } else {
                                self.node = None;
                                proof {
                                    assert(self.remaining() =~= old(self).remaining());
                                }
                            }
                        },
                        Node::M { .. } => {
                            proof {
                                assert(false);
                            }
                        },
                    }
                },
                None => {
                    proof {
                        assert(false);
                    }
                },
            }
        }
        proof {
            assert(old(self).remaining().len() == 0);
        }
        None
    }
}

/// Walk to the leftmost leaf of `node`, stacking every right subtree passed
/// on the way; the iterator's cursor ends on that leaf.
fn build_iter_stack<'a, T>(node: &'a Node<T>, it: &mut Iter<'a, T>)
    requires
        node.wf(),
        old(it).wf_iter(),
        old(it).node is None,
        old(it).off == 0,
    ensures
        final(it).wf_iter(),
        final(it).node is Some,
        final(it).off == 0,
        final(it).remaining() == node.seq() + old(it).remaining(),
        stack_size(final(it).stack@) < stack_size(old(it).stack@) + node.size(),
    decreases *node,
{
    match node {
        Node::M { left, right, .. } => {
            let r: &'a Node<T> = &**right;
            it.stack.push(r);
            proof {
                assert(it.stack@.drop_last() =~= old(it).stack@);
                assert(stack_pending(it.stack@) == (**right).seq() + stack_pending(
                    old(it).stack@,
                ));
                assert(it.remaining() =~= (**right).seq() + old(it).remaining());
            }
            build_iter_stack(&**left, it);
            proof {
                assert(it.remaining() =~= node.seq() + old(it).remaining());
            }
        },
        Node::Z { .. } => {
            it.node = Some(node);
            proof {
                assert(it.remaining() =~= node.seq() + old(it).remaining());
            }
        },
    }
}

/// The elements still to be visited on a stack of owned subtree handles.
pub open spec fn rc_stack_pending<T>(s: Seq<Rc<Node<T>>>) -> Seq<T>
    decreases s.len(),
{
    if s.len() == 0 {
        Seq::empty()
    } else {
        (*s.last()).seq() + rc_stack_pending(s.drop_last())
    }
}

/// The node count on a stack of owned subtree handles.
pub open spec fn rc_stack_size<T>(s: Seq<Rc<Node<T>>>) -> nat
    decreases s.len(),
{
    if s.len() == 0 {
        0
    } else {
        (*s.last()).size() + rc_stack_size(s.drop_last())
    }
}

/// An iterator that moves elements out of a `Vector`, created by its
/// `into_iter` method.  Same traversal as `Iter`, over owned handles.
pub struct IntoIter<T> {
    stack: Vec<Rc<Node<T>>>,
    node: Option<Rc<Node<T>>>,
    off: usize,
}

impl<T> IntoIter<T> {
    /// The iterator's well-formedness.
    pub closed spec fn wf_iter(self) -> bool {
        &&& match self.node {
            Some(n) => (*n) is Z && self.off <= (*n).leaf_data().len(),
            None => true,
        }
        &&& forall|i: int| 0 <= i < self.stack@.len() ==> (*#[trigger] self.stack@[i]).wf()
    }

    /// The elements not yet yielded, in order.
    pub closed spec fn remaining(self) -> Seq<T> {
        (match self.node {
            Some(n) => (*n).leaf_data().skip(self.off as int),
            None => Seq::empty(),
        }) + rc_stack_pending(self.stack@)
    }
}

impl<T: Copy> IntoIter<T> {
    /// Yield the next element: the head of `remaining`, or nothing once the
    /// sequence is exhausted.
    pub fn next(&mut self) -> (r: Option<T>)
        requires
            old(self).wf_iter(),
        ensures
            final(self).wf_iter(),
            old(self).remaining().len() > 0 ==> (r matches Some(v) && v == old(
                self,
            ).remaining()[0] && final(self).remaining() == old(self).remaining().drop_first()),
            old(self).remaining().len() == 0 ==> r is None && final(self).remaining().len() == 0,
    {
        match &self.node {
            Some(n) => {
                match &**n {
                    Node::Z { data } => {
                        if self.off < data.len() {
                            let item = data[self.off];
                            self.off = self.off + 1;
                            proof {
                                assert(self.remaining() =~= old(self).remaining().drop_first());
                            }
                            return Some(item);
                        }
                    },
                    Node::M { .. } => {
                        proof {
                            assert(false);
                        }
                    },
                }
            },
            None => {},
        }
        self.node = None;
        self.off = 0;
        proof {
            assert(self.remaining() =~= old(self).remaining());
        }
        while self.stack.len() > 0
            invariant
                self.wf_iter(),
                self.node is None,
                self.off == 0,
                self.remaining() == old(self).remaining(),
            decreases rc_stack_size(self.stack@),
        {
            let ghost prestack = self.stack@;
            let top = self.stack.pop().unwrap();
            proof {
                assert(prestack.drop_last() =~= self.stack@);
                assert(self.remaining() =~= rc_stack_pending(self.stack@));
            }
            build_into_iter_stack(&top, self);
            let mut yielded: Option<T> = None;
            match &self.node {
                Some(n) => {
                    match &**n {
                        Node::Z { data } => {
                            if data.len() > 0 {
                                yielded = Some(data[0]);
                            }
                        },
                        Node::M { .. } => {
                            proof {
                                assert(false);
                            }
                        },
                    }
                },
                None => {
                    proof {
                        assert(false);
                    }
                },
            }
            match yielded {
                Some(item) => {
                    self.off = 1;
                    proof {
                        assert(self.remaining() =~= old(self).remaining().drop_first());
                    }
                    return Some(item);
                },
                None => {
                    self.node = None;
                    proof {
                        assert(self.remaining() =~= old(self).remaining());
                    }
                },
            }
        }
        proof {
            assert(old(self).remaining().len() == 0);
        }
        None
    }
}

/// Walk to the leftmost leaf under `node`, stacking a handle on every right
/// subtree passed on the way; the iterator's cursor ends on that leaf.
fn build_into_iter_stack<T>(node: &Rc<Node<T>>, it: &mut IntoIter<T>)
    requires
        (**node).wf(),
        old(it).wf_iter(),
        old(it).node is None,
        old(it).off == 0,
    ensures
        final(it).wf_iter(),
        final(it).node is Some,
        final(it).off == 0,
        final(it).remaining() == (**node).seq() + old(it).remaining(),
        rc_stack_size(final(it).stack@) < rc_stack_size(old(it).stack@) + (**node).size(),
    decreases (**node),
{
    match &(**node) {
        Node::M { left, right, .. } => {
            it.stack.push(Rc::clone(right));
            proof {
                assert(it.stack@.drop_last() =~= old(it).stack@);
                assert(rc_stack_pending(it.stack@) == (**right).seq() + rc_stack_pending(
                    old(it).stack@,
                ));
                assert(it.remaining() =~= (**right).seq() + old(it).remaining());
            }
            build_into_iter_stack(left, it);
            proof {
                assert(it.remaining() =~= (**node).seq() + old(it).remaining());
            }
        },
        Node::Z { .. } => {
            it.node = Some(Rc::clone(node));
            proof {
                assert(it.remaining() =~= (**node).seq() + old(it).remaining());
            }
        },
    }
}

impl<T> Vector<T> {
    /// An iterator over borrowed elements, front to back.
    pub fn iter(&self) -> (it: Iter<'_, T>)
        requires
            self.inv(),
        ensures
            it.wf_iter(),
            it.remaining() == self@,
    {
        Iter::new(&self.root)
    }

    /// An iterator that yields the elements by value, front to back.
    pub fn into_iter(self) -> (it: IntoIter<T>)
        requires
            self.inv(),
        ensures
            it.wf_iter(),
            it.remaining() == self@,
    {
        let mut it = IntoIter { stack: Vec::new(), node: None, off: 0 };
        proof {
            assert(it.remaining() =~= Seq::<T>::empty());
        }
        build_into_iter_stack(&self.root, &mut it);
        proof {
            assert(it.remaining() =~= self@);
        }
        it
    }
}

/// The integer form of the memory-overhead acceptance test: small absolute
/// overhead for tiny vectors, and at most 120 percent relative overhead per
/// element beyond that.
pub open spec fn mem_ratio_ok(k: int, mem: int, n: int) -> bool {
    if n == 0 {
        mem < 1000
    } else if n < 200 {
        mem < k * n * 3 + 1000
    } else {
        mem * 100 < 220 * k * n
    }
}

/// Check that a memory footprint `mem` is acceptable for `n` elements of
/// `k` bytes each.
pub fn validate_mem_ratio(k: usize, mem: usize, n: usize) -> (ok: bool)
    ensures
        ok == mem_ratio_ok(k as int, mem as int, n as int),
{
    if n == 0 {
        mem < 1000
    } else if n < 200 {
        proof {
            assert((k as u128) * (n as u128) <= u128::MAX) by (nonlinear_arith)
                requires
                    k <= usize::MAX,
                    n < 200,
            ;
            assert((k as u128) * (n as u128) * 3 <= (u128::MAX - 1000) as u128) by (nonlinear_arith)
                requires
                    k <= usize::MAX,
                    n < 200,
            ;
        }
        let cap: u128 = (k as u128) * (n as u128) * 3 + 1000;
        (mem as u128) < cap
    } else {
        let lhs: u128 = (mem as u128) * 100;
        let a: u128 = 220u128 * (k as u128);
        match a.checked_mul(n as u128) {
            Some(rhs) => lhs < rhs,
            None => true,
        }
    }
}

/// Check a vector against a reference slice: acceptable memory overhead, a
/// stored length that matches both the reference and a full traversal, every
/// element equal to its reference, and a failing out-of-bounds access.
///
/// The contract pins the content checks both ways; the memory-overhead leg
/// depends on the allocator's reserved capacities, so a `true` result also
/// attests it at run time without a corresponding clause here.
pub fn validate<T: Copy + PartialEq>(arr: &Vector<T>, refv: &[T]) -> (ok: bool)
    requires
        arr.inv(),
    ensures
        ok && T::obeys_eq_spec() ==> arr@.len() == refv@.len() && (forall|i: int|
            0 <= i < arr@.len() ==> arr@[i].eq_spec(&refv@[i])),
        T::obeys_eq_spec() && arr@.len() != refv@.len() ==> !ok,
        T::obeys_eq_spec() && (exists|i: int|
            0 <= i < arr@.len() && 0 <= i < refv@.len() && !arr@[i].eq_spec(&refv@[i])) ==> !ok,
{
    let k = core::mem::size_of::<T>();
    if !validate_mem_ratio(k, arr.footprint(), arr.len()) {
        return false;
    }
    if refv.len() != arr.len() {
        return false;
    }
    if arr.traversal_count() != arr.len() {
        return false;
    }
    let mut i: usize = 0;
    while i < refv.len()
        invariant
            arr.inv(),
            refv@.len() == arr@.len(),
            i <= refv@.len(),
            T::obeys_eq_spec() ==> forall|j: int| 0 <= j < i ==> arr@[j].eq_spec(&refv@[j]),
        decreases refv@.len() - i,
    {
        let expected = refv[i];
        match arr.get(i) {
            Ok(v) => {
                if !(*v == expected) {
                    return false;
                }
            },
            Err(_) => {
                return false;
            },
        }
        i = i + 1;
    }
    let oob = arr.get(arr.len());
    if !oob.is_err() {
        return false;
    }
    true
}

/// The invariant unfolded: behind `inv` stands a structurally well-formed
/// tree whose stored length is its element count.  `Node::wf` being open,
/// every internal node's weight is thereby visibly the element count of its
/// left subtree.
pub proof fn lemma_inv_structure<T>(v: Vector<T>)
    requires
        v.inv(),
    ensures
        v.spec_root().wf(),
        v.spec_root().seq() == v@,
{
}

/// The leaf bound unfolded: behind `leaves_within`, every leaf block of the
/// tree holds at most the configured item count (two where the capacity
/// admits fewer than two).
pub proof fn lemma_leaves_within_structure<T>(v: Vector<T>)
    requires
        v.leaves_within(),
    ensures
        v.spec_root().all_leaves_le(
            leaf_limit(max_items_spec(v.spec_leaf_cap() as nat, core::mem::size_of::<T>() as nat)),
        ),
{
    crate::laws::lemma_max_leaf_bounds_leaves(
        &v.spec_root(),
        leaf_limit(max_items_spec(v.spec_leaf_cap() as nat, core::mem::size_of::<T>() as nat)),
    );
}

impl<T> View for Vector<T> {
    type V = Seq<T>;

    closed spec fn view(&self) -> Seq<T> {
        (*self.root).seq()
    }
}

impl<T> Clone for Vector<T> {
    /// A clone shares the whole tree with the original: both observe the
    /// same sequence, and later mutations of either leave the other intact.
    fn clone(&self) -> (res: Vector<T>)
        ensures
            res == *self,
    {
        Vector {
            len: self.len,
            root: Rc::clone(&self.root),
            auto_rebalance: self.auto_rebalance,
            leaf_cap: self.leaf_cap,
        }
    }
}

impl<T> Default for Vector<T> {
    /// The empty vector under the default configuration.
    fn default() -> (v: Vector<T>)
        ensures
            v.inv(),
            v@ == Seq::<T>::empty(),
            v.leaves_within(),
            v.spec_leaf_cap() == crate::LEAF_CAP,
            v.spec_auto_rebalance() == true,
    {
        Vector::new()
    }
}

} // verus!
