//! The tree engine: a binary tree of contiguous array blocks behind shared
//! `Rc` handles.  Internal nodes (`M`) carry the element count of their left
//! subtree; leaves (`Z`) hold the elements.  Copy-on-write paths rebuild only
//! the spine from the root to the touched leaf and share every other subtree.

use std::rc::Rc;

use vstd::prelude::*;

verus! {

/// A tree node: either an internal node `M` whose `weight` is the element
/// count of its left subtree, or a leaf `Z` holding a contiguous block.
pub enum Node<T> {
    M { weight: usize, left: Rc<Node<T>>, right: Rc<Node<T>> },
    Z { data: Vec<T> },
}

/// Items per leaf admitted by a byte capacity `cap` for elements of size
/// `sz`: the ceiling of `cap / sz`, but always at least one item, so that a
/// capacity smaller than one element still admits single-element leaves.
pub open spec fn max_items_spec(cap: nat, sz: nat) -> nat {
    let s: nat = if sz == 0 { 1 } else { sz };
    let q: nat = cap / s + if cap % s == 0 { 0nat } else { 1nat };
    if q == 0 { 1 } else { q }
}

/// The leaf-size bound that the engine maintains: a full leaf of `m` items
/// splits into two halves and receives one more element, so for `m < 2` the
/// halves may still hold two items.
pub open spec fn leaf_limit(m: nat) -> nat {
    if m < 2 { 2 } else { m }
}

/// The number of blocks that `n` elements fill at `m` elements per block:
/// the ceiling of `n / m`.
pub open spec fn chunks_of(n: nat, m: nat) -> nat {
    if m == 0 {
        0
    } else {
        (((n + m - 1) as int) / (m as int)) as nat
    }
}

/// Whether every block except possibly the last holds exactly `m` elements.
pub open spec fn packed_blocks<T>(bs: Seq<Seq<T>>, m: nat) -> bool {
    forall|i: int| 0 <= i < bs.len() - 1 ==> (#[trigger] bs[i]).len() == m
}

/// Floor of the base-two logarithm; zero for zero.
pub open spec fn flog2(n: nat) -> nat
    decreases n,
{
    if n <= 1 {
        0
    } else {
        1 + flog2(n / 2)
    }
}

/// `flog2` characterised by powers of two: it is the largest exponent whose
/// power does not exceed `n`.
pub proof fn lemma_flog2_bounds(n: nat)
    requires
        n >= 1,
    ensures
        vstd::arithmetic::power2::pow2(flog2(n)) <= n,
        n < vstd::arithmetic::power2::pow2(flog2(n) + 1),
    decreases n,
{
    vstd::arithmetic::power2::lemma2_to64();
    if n <= 1 {
    } else {
        lemma_flog2_bounds(n / 2);
        vstd::arithmetic::power2::lemma_pow2_adds(flog2(n / 2), 1);
        vstd::arithmetic::power2::lemma_pow2_adds(flog2(n / 2) + 1, 1);
    }
}

/// Number of items a leaf block may hold for element type `T` under the
/// byte capacity `cap`.
pub fn max_leaf_items<T>(cap: usize) -> (m: usize)
    ensures
        m == max_items_spec(cap as nat, core::mem::size_of::<T>() as nat),
        m >= 1,
{
    let s = core::mem::size_of::<T>();
    let s1: usize = if s == 0 { 1 } else { s };
    let q: usize = if cap % s1 == 0 {
        cap / s1
    } else {
        proof {
            assert(s1 >= 2);
            assert(cap / s1 + 1 <= usize::MAX) by (nonlinear_arith)
                requires
                    s1 >= 2,
                    cap <= usize::MAX,
            ;
        }
        cap / s1 + 1
    };
    if q == 0 { 1 } else { q }
}

impl<T> Node<T> {
    /// The logical sequence of elements held by the subtree.
    pub open spec fn seq(self) -> Seq<T>
        decreases self,
    {
        match self {
            Node::M { left, right, .. } => (*left).seq() + (*right).seq(),
            Node::Z { data } => data@,
        }
    }

    /// Structural well-formedness: every internal node's `weight` equals the
    /// element count of its left subtree.
    pub open spec fn wf(self) -> bool
        decreases self,
    {
        match self {
            Node::M { weight, left, right } => {
                &&& weight == (*left).seq().len()
                &&& (*left).wf()
                &&& (*right).wf()
            },
            Node::Z { .. } => true,
        }
    }

    /// The largest leaf block in the subtree, in items.
    pub open spec fn max_leaf(self) -> nat
        decreases self,
    {
        match self {
            Node::M { left, right, .. } => vstd::math::max(
                (*left).max_leaf() as int,
                (*right).max_leaf() as int,
            ) as nat,
            Node::Z { data } => data@.len(),
        }
    }

    /// The block of a leaf node; empty for an internal node.
    pub open spec fn leaf_data(self) -> Seq<T> {
        match self {
            Node::Z { data } => data@,
            Node::M { .. } => Seq::empty(),
        }
    }

    /// Whether every leaf block in the subtree holds at most `b` items.
    pub open spec fn all_leaves_le(self, b: nat) -> bool
        decreases self,
    {
        match self {
            Node::M { left, right, .. } => (*left).all_leaves_le(b) && (*right).all_leaves_le(b),
            Node::Z { data } => data@.len() <= b,
        }
    }

    /// The number of internal nodes on the longest root-to-leaf path.
    pub open spec fn depth(self) -> nat
        decreases self,
    {
        match self {
            Node::M { left, right, .. } => 1 + vstd::math::max(
                (*left).depth() as int,
                (*right).depth() as int,
            ) as nat,
            Node::Z { .. } => 0,
        }
    }

    /// The number of leaf blocks in the subtree.
    pub open spec fn n_leaves(self) -> nat
        decreases self,
    {
        match self {
            Node::M { left, right, .. } => (*left).n_leaves() + (*right).n_leaves(),
            Node::Z { .. } => 1,
        }
    }

    /// The leaf blocks of the subtree, in order.
    pub open spec fn blocks(self) -> Seq<Seq<T>>
        decreases self,
    {
        match self {
            Node::M { left, right, .. } => (*left).blocks() + (*right).blocks(),
            Node::Z { data } => seq![data@],
        }
    }

    /// A lower bound on the resident bytes of the subtree: each node's own
    /// size plus each leaf's elements, ignoring any extra reserved capacity.
    pub open spec fn min_footprint(self) -> int
        decreases self,
    {
        match self {
            Node::M { left, right, .. } => core::mem::size_of::<Node<T>>()
                + (*left).min_footprint() + (*right).min_footprint(),
            Node::Z { data } => core::mem::size_of::<Node<T>>() + data@.len()
                * core::mem::size_of::<T>(),
        }
    }

    /// Number of nodes in the subtree; a termination measure for traversals.
    pub open spec fn size(self) -> nat
        decreases self,
    {
        match self {
            Node::M { left, right, .. } => 1 + (*left).size() + (*right).size(),
            Node::Z { .. } => 1,
        }
    }

    /// A fresh shared handle on an empty leaf.
    pub fn empty_leaf() -> (r: Rc<Node<T>>)
        ensures
            (*r).seq() == Seq::<T>::empty(),
            (*r).wf(),
            (*r).max_leaf() == 0,
            (*r) is Z,
            (*r).depth() == 0,
            (*r).blocks() == seq![Seq::<T>::empty()],
    {
        let r = Rc::new(Node::Z { data: Vec::new() });
        proof {
            assert((*r).seq() =~= Seq::<T>::empty());
            assert((*r).blocks() =~= seq![Seq::<T>::empty()]);
        }
        r
    }

    /// A fresh internal node over two subtrees.
    pub fn newm(left: Rc<Node<T>>, right: Rc<Node<T>>, weight: usize) -> (r: Rc<Node<T>>)
        requires
            weight == (*left).seq().len(),
            (*left).wf(),
            (*right).wf(),
        ensures
            (*r).wf(),
            (*r).seq() == (*left).seq() + (*right).seq(),
            (*r).max_leaf() == vstd::math::max((*left).max_leaf() as int, (*right).max_leaf() as int),
            (*r).depth() == 1 + vstd::math::max((*left).depth() as int, (*right).depth() as int),
            (*r).blocks() == (*left).blocks() + (*right).blocks(),
    {
        Rc::new(Node::M { left, right, weight })
    }

    /// Count the elements in the subtree by traversal.
    pub fn count(&self) -> (n: usize)
        requires
            self.wf(),
            self.seq().len() <= usize::MAX,
        ensures
            n == self.seq().len(),
        decreases *self,
    {
        match self {
            Node::M { weight, right, .. } => *weight + right.count(),
            Node::Z { data } => data.len(),
        }
    }

    /// Fetch a reference to the element at `off`.
    pub fn get(&self, off: usize) -> (r: &T)
        requires
            self.wf(),
            off < self.seq().len(),
        ensures
            *r == self.seq()[off as int],
        decreases *self,
    {
        match self {
            Node::M { weight, left, .. } if off < *weight => left.get(off),
            Node::M { weight, right, .. } => right.get(off - *weight),
            Node::Z { data } => &data[off],
        }
    }
}

impl<T: Copy> Node<T> {
    /// Copy-on-write update: rebuild the spine to `off`, replace the element
    /// there, and return the new subtree together with the prior value.
    pub fn update(&self, off: usize, value: T) -> (r: (Rc<Node<T>>, T))
        requires
            self.wf(),
            off < self.seq().len(),
        ensures
            (*r.0).wf(),
            (*r.0).seq() == self.seq().update(off as int, value),
            r.1 == self.seq()[off as int],
            (*r.0).max_leaf() <= self.max_leaf(),
        decreases *self,
    {
        match self {
            Node::M { weight, left, right } if off < *weight => {
                let (l2, old) = left.update(off, value);
                let node = Node::newm(l2, Rc::clone(right), *weight);
                proof {
                    assert((*node).seq() =~= self.seq().update(off as int, value));
                }
                (node, old)
            },
            Node::M { weight, left, right } => {
                let (r2, old) = right.update(off - *weight, value);
                let node = Node::newm(Rc::clone(left), r2, *weight);
                proof {
                    assert((*node).seq() =~= self.seq().update(off as int, value));
                }
                (node, old)
            },
            Node::Z { data } => {
                let old = data[off];
                let mut d2 = copy_all(data);
                d2[off] = value;
                proof {
                    assert(d2@ =~= self.seq().update(off as int, value));
                }
                (Rc::new(Node::Z { data: d2 }), old)
            },
        }
    }

    /// Copy-on-write remove: rebuild the spine to `off`, drop the element
    /// there, and return the new subtree together with the removed value.
    pub fn remove(&self, off: usize) -> (r: (Rc<Node<T>>, T))
        requires
            self.wf(),
            off < self.seq().len(),
        ensures
            (*r.0).wf(),
            (*r.0).seq() == self.seq().remove(off as int),
            r.1 == self.seq()[off as int],
            (*r.0).max_leaf() <= self.max_leaf(),
        decreases *self,
    {
        match self {
            Node::M { weight, left, right } => {
                if off < *weight {
                    let (l2, old) = left.remove(off);
                    let node = Node::newm(l2, Rc::clone(right), *weight - 1);
                    proof {
                        assert((*node).seq() =~= self.seq().remove(off as int));
                    }
                    (node, old)
                } else {
                    let (r2, old) = right.remove(off - *weight);
                    let node = Node::newm(Rc::clone(left), r2, *weight);
                    proof {
                        assert((*node).seq() =~= self.seq().remove(off as int));
                    }
                    (node, old)
                }
            },
            Node::Z { data } => {
                proof {
                    assert(self.seq() == data@);
                }
                let old = data[off];
                let d2 = copy_remove(data, off);
                (Rc::new(Node::Z { data: d2 }), old)
            },
        }
    }

    /// Split-insert: partition a full leaf block into two halves, insert the
    /// new element into the half its offset falls into, and return a fresh
    /// internal node over the two new leaves.
    pub fn split_insert(data: &Vec<T>, off: usize, val: T) -> (r: Node<T>)
        requires
            off <= data@.len(),
            data@.len() < usize::MAX,
        ensures
            r.wf(),
            r.seq() == data@.insert(off as int, val),
            r.max_leaf() <= (data@.len() + 1) / 2 + 1,
            r is M,
    {
        let n = data.len();
        let sp: usize = if n == 0 {
            0
        } else if n == 1 {
            1
        } else {
            n / 2
        };
        let (ld, rd, weight): (Vec<T>, Vec<T>, usize) = if off < sp {
            let ld = copy_insert(data, 0, sp, off, val);
            let rd = copy_range(data, sp, n);
            let w = ld.len();
            (ld, rd, w)
        } else {
            let ld = copy_range(data, 0, sp);
            let rd = copy_insert(data, sp, n, off - sp, val);
            (ld, rd, sp)
        };
        let left = Rc::new(Node::Z { data: ld });
        let right = Rc::new(Node::Z { data: rd });
        let r = Node::M { weight, left, right };
        proof {
            reveal_with_fuel(Node::seq, 2);
            assert(r.seq() =~= data@.insert(off as int, val));
            reveal_with_fuel(Node::wf, 2);
            reveal_with_fuel(Node::max_leaf, 2);
        }
        r
    }
}

impl<T: Copy> Node<T> {
    /// Split the subtree at `off`: everything before `off` stays in the first
    /// returned tree, everything from `off` on moves to the second.  `len` is
    /// the subtree's element count; the third result is the count moved.
    pub fn split_off(&self, off: usize, len: usize) -> (r: (Rc<Node<T>>, Rc<Node<T>>, usize))
        requires
            self.wf(),
            off < self.seq().len(),
            len == self.seq().len(),
        ensures
            (*r.0).wf(),
            (*r.1).wf(),
            (*r.0).seq() == self.seq().take(off as int),
            (*r.1).seq() == self.seq().skip(off as int),
            r.2 == self.seq().len() - off,
            (*r.0).max_leaf() <= self.max_leaf(),
            (*r.1).max_leaf() <= self.max_leaf(),
        decreases *self,
    {
        match self {
            Node::M { left, right, weight } if off < *weight => {
                let (l2, root0, n) = left.split_off(off, *weight);
                let root = Node::newm(root0, Rc::clone(right), n);
                let node = Node::newm(l2, Node::empty_leaf(), *weight - n);
                proof {
                    assert((*node).seq() =~= self.seq().take(off as int));
                    assert((*root).seq() =~= self.seq().skip(off as int));
                }
                (node, root, n + (len - *weight))
            },
            Node::M { left, right, weight } => {
                let (r2, root, n) = right.split_off(off - *weight, len - *weight);
                let node = Node::newm(Rc::clone(left), r2, *weight);
                proof {
                    assert((*node).seq() =~= self.seq().take(off as int));
                    assert((*root).seq() =~= self.seq().skip(off as int));
                }
                (node, root, n)
            },
            Node::Z { data } if off == 0 => {
                let node = Self::empty_leaf();
                let root = Rc::new(Node::Z { data: copy_all(data) });
                proof {
                    assert((*node).seq() =~= self.seq().take(0));
                    assert((*root).seq() =~= self.seq().skip(0));
                }
                (node, root, data.len())
            },
            Node::Z { data } => {
                let n = data.len();
                let node = Rc::new(Node::Z { data: copy_range(data, 0, off) });
                let root = Rc::new(Node::Z { data: copy_range(data, off, n) });
                (node, root, n - off)
            },
        }
    }

    /// In-place insert on an owned node; the leaf block is mutated directly.
    pub fn insert_mut(self, off: usize, val: T, rn: &Rebalance) -> (r: (Node<T>, usize))
        requires
            self.wf(),
            off <= self.seq().len(),
            self.seq().len() < usize::MAX,
        ensures
            r.0.wf(),
            r.0.seq() == self.seq().insert(off as int, val),
            self.max_leaf() <= leaf_limit(
                max_items_spec(rn.leaf_cap as nat, core::mem::size_of::<T>() as nat),
            ) ==> r.0.max_leaf() <= leaf_limit(
                max_items_spec(rn.leaf_cap as nat, core::mem::size_of::<T>() as nat),
            ),
        decreases self, 0int,
    {
        match self {
            Node::M { weight, left, right } => {
                if off <= weight {
                    let (l2, d) = Self::insert_mut_rc(left, off, val, rn);
                    let node = Node::M { weight: weight + 1, left: l2, right };
                    proof {
                        assert(node.seq() =~= self.seq().insert(off as int, val));
                    }
                    (node, d.saturating_add(1))
                } else {
                    let (r2, d) = Self::insert_mut_rc(right, off - weight, val, rn);
                    let node = Node::M { weight, left, right: r2 };
                    proof {
                        assert(node.seq() =~= self.seq().insert(off as int, val));
                    }
                    (node, d.saturating_add(1))
                }
            },
            Node::Z { mut data } => {
                if data.len() < max_leaf_items::<T>(rn.leaf_cap) {
                    data.insert(off, val);
                    (Node::Z { data }, 1)
                } else {
                    (Self::split_insert(&data, off, val), 2)
                }
            },
        }
    }

    /// Insert through a handle: mutate in place when the handle is the only
    /// owner, fall back to copy-on-write when it is shared.
    pub fn insert_mut_rc(h: Rc<Node<T>>, off: usize, val: T, rn: &Rebalance) -> (r: (
        Rc<Node<T>>,
        usize,
    ))
        requires
            (*h).wf(),
            off <= (*h).seq().len(),
            (*h).seq().len() < usize::MAX,
        ensures
            (*r.0).wf(),
            (*r.0).seq() == (*h).seq().insert(off as int, val),
            (*h).max_leaf() <= leaf_limit(
                max_items_spec(rn.leaf_cap as nat, core::mem::size_of::<T>() as nat),
            ) ==> (*r.0).max_leaf() <= leaf_limit(
                max_items_spec(rn.leaf_cap as nat, core::mem::size_of::<T>() as nat),
            ),
        decreases (*h), 1int,
    {
        match Rc::try_unwrap(h) {
            Ok(node) => {
                let (n2, d) = node.insert_mut(off, val, rn);
                (Rc::new(n2), d)
            },
            Err(rc) => rc.insert(off, val, rn),
        }
    }

    /// In-place update on an owned node.
    pub fn update_mut(self, off: usize, value: T) -> (r: (Node<T>, T))
        requires
            self.wf(),
            off < self.seq().len(),
        ensures
            r.0.wf(),
            r.0.seq() == self.seq().update(off as int, value),
            r.1 == self.seq()[off as int],
            r.0.max_leaf() <= self.max_leaf(),
        decreases self, 0int,
    {
        match self {
            Node::M { weight, left, right } => {
                if off < weight {
                    let (l2, old) = Self::update_mut_rc(left, off, value);
                    let node = Node::M { weight, left: l2, right };
                    proof {
                        assert(node.seq() =~= self.seq().update(off as int, value));
                    }
                    (node, old)
                } else {
                    let (r2, old) = Self::update_mut_rc(right, off - weight, value);
                    let node = Node::M { weight, left, right: r2 };
                    proof {
                        assert(node.seq() =~= self.seq().update(off as int, value));
                    }
                    (node, old)
                }
            },
            Node::Z { mut data } => {
                let old = data[off];
                data[off] = value;
                (Node::Z { data }, old)
            },
        }
    }

    /// Update through a handle: in place when solely owned, else copy-on-write.
    pub fn update_mut_rc(h: Rc<Node<T>>, off: usize, value: T) -> (r: (Rc<Node<T>>, T))
        requires
            (*h).wf(),
            off < (*h).seq().len(),
        ensures
            (*r.0).wf(),
            (*r.0).seq() == (*h).seq().update(off as int, value),
            r.1 == (*h).seq()[off as int],
            (*r.0).max_leaf() <= (*h).max_leaf(),
        decreases (*h), 1int,
    {
        match Rc::try_unwrap(h) {
            Ok(node) => {
                let (n2, old) = node.update_mut(off, value);
                (Rc::new(n2), old)
            },
            Err(rc) => rc.update(off, value),
        }
    }

    /// In-place remove on an owned node.
    pub fn remove_mut(self, off: usize) -> (r: (Node<T>, T))
        requires
            self.wf(),
            off < self.seq().len(),
        ensures
            r.0.wf(),
            r.0.seq() == self.seq().remove(off as int),
            r.1 == self.seq()[off as int],
            r.0.max_leaf() <= self.max_leaf(),
        decreases self, 0int,
    {
        match self {
            Node::M { weight, left, right } => {
                if off < weight {
                    let (l2, old) = Self::remove_mut_rc(left, off);
                    let node = Node::M { weight: weight - 1, left: l2, right };
                    proof {
                        assert(node.seq() =~= self.seq().remove(off as int));
                    }
                    (node, old)
                } else {
                    let (r2, old) = Self::remove_mut_rc(right, off - weight);
                    let node = Node::M { weight, left, right: r2 };
                    proof {
                        assert(node.seq() =~= self.seq().remove(off as int));
                    }
                    (node, old)
                }
            },
            Node::Z { mut data } => {
                let old = data[off];
                data.remove(off);
                (Node::Z { data }, old)
            },
        }
    }

    /// Remove through a handle: in place when solely owned, else copy-on-write.
    pub fn remove_mut_rc(h: Rc<Node<T>>, off: usize) -> (r: (Rc<Node<T>>, T))
        requires
            (*h).wf(),
            off < (*h).seq().len(),
        ensures
            (*r.0).wf(),
            (*r.0).seq() == (*h).seq().remove(off as int),
            r.1 == (*h).seq()[off as int],
            (*r.0).max_leaf() <= (*h).max_leaf(),
        decreases (*h), 1int,
    {
        match Rc::try_unwrap(h) {
            Ok(node) => {
                let (n2, old) = node.remove_mut(off);
                (Rc::new(n2), old)
            },
            Err(rc) => rc.remove(off),
        }
    }
}

/// Add without overflowing: the sum, or the largest value on overflow.
pub fn sat_add(a: usize, b: usize) -> (r: usize)
    ensures
        r == if a + b > usize::MAX { usize::MAX as int } else { a + b },
{
    match a.checked_add(b) {
        Some(s) => s,
        None => usize::MAX,
    }
}

/// Multiply without overflowing: the product, or the largest value on
/// overflow.
pub fn sat_mul(a: usize, b: usize) -> (r: usize)
    ensures
        r == if a * b > usize::MAX { usize::MAX as int } else { a * b },
{
    match a.checked_mul(b) {
        Some(p) => p,
        None => usize::MAX,
    }
}

/// Relies on `Vec::capacity`: the number of slots the buffer has reserved,
/// never less than its length.
#[verifier::external_body]
pub fn vec_capacity<T>(v: &Vec<T>) -> (c: usize)
    ensures
        c >= v@.len(),
{
    v.capacity()
}

/// The per-node byte floor never goes negative.
pub proof fn lemma_min_footprint_nonneg<T>(n: &Node<T>)
    ensures
        n.min_footprint() >= 0,
    decreases *n,
{
    match n {
        Node::M { left, right, .. } => {
            lemma_min_footprint_nonneg(&**left);
            lemma_min_footprint_nonneg(&**right);
        },
        Node::Z { data } => {
            vstd::arithmetic::mul::lemma_mul_nonnegative(
                data@.len() as int,
                core::mem::size_of::<T>() as int,
            );
        },
    }
}

impl<T> Node<T> {
    /// The resident bytes of the subtree: each node's own size plus each
    /// leaf buffer's reserved capacity.  Informational; saturates instead of
    /// overflowing, and never reports less than the nodes plus the elements
    /// they hold.
    pub fn footprint(&self) -> (n: usize)
        ensures
            n >= core::mem::size_of::<Node<T>>(),
            n >= vstd::math::min(self.min_footprint(), usize::MAX as int),
        decreases *self,
    {
        let base = core::mem::size_of::<Node<T>>();
        match self {
            Node::Z { data } => {
                let cap = vec_capacity(data);
                proof {
                    vstd::arithmetic::mul::lemma_mul_inequality(
                        data@.len() as int,
                        cap as int,
                        core::mem::size_of::<T>() as int,
                    );
                    vstd::arithmetic::mul::lemma_mul_nonnegative(
                        data@.len() as int,
                        core::mem::size_of::<T>() as int,
                    );
                }
                sat_add(base, sat_mul(cap, core::mem::size_of::<T>()))
            },
            Node::M { left, right, .. } => {
                let fl = left.footprint();
                let fr = right.footprint();
                proof {
                    lemma_min_footprint_nonneg(&**left);
                    lemma_min_footprint_nonneg(&**right);
                }
                sat_add(base, sat_add(fl, fr))
            },
        }
    }
}

/// The blocks held by a sequence of (leaf) handles, as plain sequences.
pub open spec fn blocks_seq<T>(s: Seq<Rc<Node<T>>>) -> Seq<Seq<T>> {
    s.map_values(|h: Rc<Node<T>>| (*h).seq())
}

/// The elements held by a sequence of (leaf) handles, in order.
pub open spec fn flat<T>(s: Seq<Rc<Node<T>>>) -> Seq<T> {
    blocks_seq(s).flatten()
}

/// `blocks_seq` and `flat` distribute over concatenation.
pub proof fn lemma_flat_concat<T>(a: Seq<Rc<Node<T>>>, b: Seq<Rc<Node<T>>>)
    ensures
        blocks_seq(a + b) == blocks_seq(a) + blocks_seq(b),
        flat(a + b) == flat(a) + flat(b),
{
    assert(blocks_seq(a + b) =~= blocks_seq(a) + blocks_seq(b));
    vstd::seq_lib::lemma_flatten_concat(blocks_seq(a), blocks_seq(b));
}

impl<T> Node<T> {
    /// Collect the leaf handles of the subtree, in order, appending to `acc`.
    pub fn collect_leaves(node: &Rc<Node<T>>, acc: &mut Vec<Rc<Node<T>>>)
        requires
            (**node).wf(),
        ensures
            final(acc)@.len() == old(acc)@.len() + (**node).n_leaves(),
            final(acc)@.subrange(0, old(acc)@.len() as int) == old(acc)@,
            flat(final(acc)@.skip(old(acc)@.len() as int)) == (**node).seq(),
            forall|i: int|
                old(acc)@.len() <= i < final(acc)@.len() ==> {
                    &&& (*#[trigger] final(acc)@[i]) is Z
                    &&& (*final(acc)@[i]).wf()
                    &&& (*final(acc)@[i]).seq().len() <= (**node).max_leaf()
                },
        decreases (**node),
    {
        match &(**node) {
            Node::M { left, right, .. } => {
                let ghost mid0 = acc@;
                Self::collect_leaves(left, acc);
                let ghost mid1 = acc@;
                Self::collect_leaves(right, acc);
                proof {
                    let k0 = mid0.len() as int;
                    let k1 = mid1.len() as int;
                    assert(acc@.subrange(0, k0) =~= mid0);
                    assert(acc@.skip(k0) =~= mid1.skip(k0) + acc@.skip(k1));
                    lemma_flat_concat(mid1.skip(k0), acc@.skip(k1));
                    assert((**node).max_leaf() >= (*left).max_leaf());
                    assert((**node).max_leaf() >= (*right).max_leaf());
                    assert forall|i: int| k0 <= i < acc@.len() implies {
                        &&& (*#[trigger] acc@[i]) is Z
                        &&& (*acc@[i]).wf()
                        &&& (*acc@[i]).seq().len() <= (**node).max_leaf()
                    } by {
                        if i < k1 {
                            assert(acc@.subrange(0, k1)[i] == acc@[i]);
                        }
                    }
                }
            },
            Node::Z { .. } => {
                acc.push(Rc::clone(node));
                proof {
                    let k = old(acc)@.len() as int;
                    assert(acc@.skip(k) =~= seq![acc@[k]]);
                    let ghost blk = blocks_seq(acc@.skip(k));
                    assert(blk =~= seq![(**node).seq()]);
                    blk.lemma_flatten_one_element();
                }
            },
        }
    }

    /// Append every element of the subtree to `out`, in order.
    pub fn push_elems(&self, out: &mut Vec<T>)
        where T: Copy
        requires
            self.wf(),
        ensures
            final(out)@ == old(out)@ + self.seq(),
        decreases *self,
    {
        match self {
            Node::M { left, right, .. } => {
                left.push_elems(out);
                right.push_elems(out);
                proof {
                    assert(out@ =~= old(out)@ + self.seq());
                }
            },
            Node::Z { data } => {
                let mut i: usize = 0;
                while i < data.len()
                    invariant
                        i <= data@.len(),
                        out@ == old(out)@ + data@.take(i as int),
                    decreases data@.len() - i,
                {
                    out.push(data[i]);
                    i = i + 1;
                    proof {
                        assert(out@ =~= old(out)@ + data@.take(i as int));
                    }
                }
                proof {
                    assert(out@ =~= old(out)@ + self.seq());
                }
            },
        }
    }
}

/// Chop a slice into fresh leaf blocks of `m` items each; only the final
/// block may hold fewer.
pub fn leaves_from_slice<T: Copy>(slice: &[T], m: usize) -> (r: Vec<Rc<Node<T>>>)
    requires
        m >= 1,
    ensures
        flat(r@) == slice@,
        forall|i: int|
            0 <= i < r@.len() ==> {
                &&& (*#[trigger] r@[i]) is Z
                &&& (*r@[i]).wf()
                &&& (*r@[i]).seq().len() <= m
            },
        forall|i: int| 0 <= i < r@.len() - 1 ==> (*#[trigger] r@[i]).seq().len() == m,
        r@.len() == chunks_of(slice@.len() as nat, m as nat),
{
    let n = slice.len();
    let mut acc: Vec<Rc<Node<T>>> = Vec::new();
    let mut i: usize = 0;
    proof {
        assert(flat(acc@) =~= slice@.take(0));
    }
    while i < n
        invariant
            i <= n == slice@.len(),
            m >= 1,
            flat(acc@) == slice@.take(i as int),
            forall|j: int|
                0 <= j < acc@.len() ==> {
                    &&& (*#[trigger] acc@[j]) is Z
                    &&& (*acc@[j]).wf()
                    &&& (*acc@[j]).seq().len() <= m
                },
            acc@.len() > 0 ==> (*acc@[acc@.len() - 1]).seq().len() == i - (acc@.len() - 1) * m,
            forall|j: int| 0 <= j < acc@.len() - 1 ==> (*#[trigger] acc@[j]).seq().len() == m,
            i == acc@.len() * m || (i == n && i < acc@.len() * m && acc@.len() * m < n + m),
        decreases n - i,
    {
        proof {
            assert((acc@.len() + 1) * m == acc@.len() * m + m) by (nonlinear_arith);
            if acc@.len() > 0 {
                assert(acc@.len() * m == (acc@.len() - 1) * m + m) by (nonlinear_arith);
                assert((*acc@[acc@.len() - 1]).seq().len() == m);
            }
        }
        let end = if n - i < m { n } else { i + m };
        let mut block: Vec<T> = Vec::with_capacity(end - i);
        let mut j: usize = i;
        while j < end
            invariant
                i <= j <= end <= slice@.len(),
                block@ == slice@.subrange(i as int, j as int),
            decreases end - j,
        {
            block.push(slice[j]);
            j = j + 1;
            proof {
                assert(block@ =~= slice@.subrange(i as int, j as int));
            }
        }
        let ghost lb = block@;
        let leaf = Rc::new(Node::Z { data: block });
        proof {
            let ghost prev = acc@;
            assert((*leaf).seq() == lb);
            assert(blocks_seq(prev.push(leaf)) =~= blocks_seq(prev).push(lb));
            blocks_seq(prev).lemma_flatten_push(lb);
            assert(flat(prev.push(leaf)) == flat(prev) + lb);
            assert(slice@.take(i as int) + slice@.subrange(i as int, end as int)
                =~= slice@.take(end as int));
        }
        acc.push(leaf);
        i = end;
    }
    proof {
        assert(slice@.take(n as int) =~= slice@);
        let l = acc@.len() as int;
        let mi = m as int;
        let ni = n as int;
        if l == 0 {
            assert(ni == 0);
            vstd::arithmetic::div_mod::lemma_div_multiples_vanish_fancy(0, mi - 1, mi);
        } else if ni == l * mi {
            vstd::arithmetic::div_mod::lemma_div_multiples_vanish_fancy(l, mi - 1, mi);
            assert((ni + mi - 1) == mi * l + (mi - 1));
        } else {
            let b = ni + mi - 1 - mi * l;
            assert(0 <= b < mi);
            vstd::arithmetic::div_mod::lemma_div_multiples_vanish_fancy(l, b, mi);
            assert((ni + mi - 1) == mi * l + b);
        }
    }
    acc
}

impl<T> Node<T> {
    /// Build a near-complete tree of the given depth from the leaf handles,
    /// consuming them left to right starting at `*pos`.  Consumes
    /// `min(2^depth, remaining)` leaves; returns the subtree and its element
    /// count.
    pub fn build_bottoms_up(
        depth: usize,
        leaves: &Vec<Rc<Node<T>>>,
        pos: &mut usize,
        Ghost(b): Ghost<nat>,
    ) -> (r: (Rc<Node<T>>, usize))
        requires
            *old(pos) <= leaves@.len(),
            forall|i: int|
                *old(pos) <= i < leaves@.len() ==> (*#[trigger] leaves@[i]).wf()
                    && (*leaves@[i]) is Z && (*leaves@[i]).max_leaf() <= b,
            flat(leaves@.skip(*old(pos) as int)).len() <= usize::MAX,
        ensures
            ({
                let k = vstd::math::min(
                    vstd::arithmetic::power2::pow2(depth as nat) as int,
                    leaves@.len() - *old(pos),
                );
                &&& *final(pos) == *old(pos) + k
                &&& (*r.0).wf()
                &&& (*r.0).seq() == flat(leaves@.subrange(*old(pos) as int, *old(pos) + k))
                &&& r.1 == (*r.0).seq().len()
                &&& (*r.0).max_leaf() <= b
                &&& (*r.0).depth() <= depth
                &&& k > 0 ==> (*r.0).blocks() == blocks_seq(
                    leaves@.subrange(*old(pos) as int, *old(pos) + k),
                )
                &&& k == 0 ==> (*r.0).blocks() == seq![Seq::<T>::empty()]
            }),
        decreases depth,
    {
        proof {
            vstd::arithmetic::power2::lemma_pow2_pos(depth as nat);
        }
        let remaining = leaves.len() - *pos;
        if remaining == 0 {
            let node = Self::empty_leaf();
            proof {
                assert(leaves@.subrange(*old(pos) as int, *old(pos) as int) =~= Seq::<
                    Rc<Node<T>>,
                >::empty());
                assert(blocks_seq(Seq::<Rc<Node<T>>>::empty()) =~= Seq::<Seq<T>>::empty());
                assert((*node).seq() =~= flat(leaves@.subrange(*old(pos) as int, *old(pos) as int)));
            }
            (node, 0)
        } else if depth == 0 || remaining == 1 {
            let node = Rc::clone(&leaves[*pos]);
            proof {
                vstd::arithmetic::power2::lemma2_to64();
                let p0 = *old(pos) as int;
                assert(leaves@.skip(p0) =~= seq![leaves@[p0]] + leaves@.skip(p0 + 1));
                lemma_flat_concat(seq![leaves@[p0]], leaves@.skip(p0 + 1));
                let ghost one = seq![leaves@[p0]];
                let ghost oneb = blocks_seq(one);
                assert(oneb =~= seq![(*leaves@[p0]).seq()]);
                oneb.lemma_flatten_one_element();
                assert(flat(one) == (*leaves@[p0]).seq());
                assert((*node).seq().len() <= usize::MAX);
                assert(leaves@.subrange(p0, p0 + 1) =~= one);
                assert((*node).blocks() =~= blocks_seq(one));
            }
            let n = node.count();
            *pos = *pos + 1;
            (node, n)
        } else {
            let ghost p0 = *old(pos) as int;
            proof {
                vstd::arithmetic::power2::lemma_pow2_pos((depth - 1) as nat);
            }
            let (left, w) = Self::build_bottoms_up(depth - 1, leaves, pos, Ghost(b));
            proof {
                let p1 = *pos as int;
                assert(leaves@.skip(p0) =~= leaves@.subrange(p0, p1) + leaves@.skip(p1));
                lemma_flat_concat(leaves@.subrange(p0, p1), leaves@.skip(p1));
            }
            if *pos >= leaves.len() {
                proof {
                    vstd::arithmetic::power2::lemma_pow2_adds((depth - 1) as nat, 1);
                    vstd::arithmetic::power2::lemma2_to64();
                }
                (left, w)
            } else {
                let ghost p1 = *pos as int;
                let (right, m) = Self::build_bottoms_up(depth - 1, leaves, pos, Ghost(b));
                proof {
                    let p2 = *pos as int;
                    assert(leaves@.subrange(p0, p2) =~= leaves@.subrange(p0, p1)
                        + leaves@.subrange(p1, p2));
                    lemma_flat_concat(leaves@.subrange(p0, p1), leaves@.subrange(p1, p2));
                    assert(leaves@.skip(p1) =~= leaves@.subrange(p1, p2) + leaves@.skip(p2));
                    lemma_flat_concat(leaves@.subrange(p1, p2), leaves@.skip(p2));
                    vstd::arithmetic::power2::lemma_pow2_adds((depth - 1) as nat, 1);
                    vstd::arithmetic::power2::lemma2_to64();
                }
                let node = Self::newm(left, right, w);
                (node, w + m)
            }
        }
    }
}

/// The least `e` with `n <= 2^e`, used as the target depth of a rebuild.
pub fn ceil_log2(n: usize) -> (e: usize)
    ensures
        n <= vstd::arithmetic::power2::pow2(e as nat),
        e > 0 ==> vstd::arithmetic::power2::pow2((e - 1) as nat) < n,
        n <= 1 ==> e == 0,
{
    let mut e: usize = 0;
    let mut p: usize = 1;
    proof {
        vstd::arithmetic::power2::lemma2_to64();
    }
    while p < n
        invariant
            p == vstd::arithmetic::power2::pow2(e as nat),
            p >= 1,
            e <= 63,
            e > 0 ==> vstd::arithmetic::power2::pow2((e - 1) as nat) < n,
        decreases 64 - e,
    {
        if p > usize::MAX / 2 {
            proof {
                vstd::arithmetic::power2::lemma_pow2_adds(e as nat, 1);
                vstd::arithmetic::power2::lemma2_to64();
                assert(vstd::arithmetic::power2::pow2((e + 1) as nat) == p * 2);
            }
            return e + 1;
        }
        proof {
            vstd::arithmetic::power2::lemma_pow2_adds(e as nat, 1);
            vstd::arithmetic::power2::lemma2_to64();
            if e == 63 {
                vstd::arithmetic::power2::lemma2_to64_rest();
                assert(false);
            }
        }
        p = p * 2;
        e = e + 1;
    }
    proof {
        if e > 0 {
            vstd::arithmetic::power2::lemma_pow2_pos((e - 1) as nat);
        }
    }
    e
}

/// The largest leaf block under a handle; a helper for ghost bindings.
pub open spec fn rc_max_leaf<T>(h: &Rc<Node<T>>) -> nat {
    (**h).max_leaf()
}

/// The depth of the tree under a handle; a helper for ghost bindings.
pub open spec fn rc_depth<T>(h: &Rc<Node<T>>) -> nat {
    (**h).depth()
}

/// Floor of the base-two logarithm.
pub fn floor_log2(n: usize) -> (e: usize)
    ensures
        e == flog2(n as nat),
        e <= 63,
{
    let mut e: usize = 0;
    let mut m: usize = n;
    while m > 1 && e < 63
        invariant
            e <= 63,
            m <= n,
            flog2(n as nat) == e + flog2(m as nat),
        decreases 63 - e,
    {
        m = m / 2;
        e = e + 1;
    }
    proof {
        if m > 1 {
            lemma_flog2_bounds(n as nat);
            vstd::arithmetic::power2::lemma2_to64();
            if flog2(n as nat) >= 64 {
                if flog2(n as nat) > 64 {
                    vstd::arithmetic::power2::lemma_pow2_strictly_increases(
                        64,
                        flog2(n as nat),
                    );
                }
                assert(false);
            }
            assert(flog2(m as nat) >= 1);
            assert(false);
        }
    }
    e
}

/// The facts the auto-rebalance heuristic consults: the rough number of
/// leaves, whether auto-rebalance is enabled, and the leaf byte capacity.
pub struct Rebalance {
    pub n_leafs: usize,
    pub auto_rebalance: bool,
    pub leaf_cap: usize,
}

impl Rebalance {
    /// The rebuild heuristic: fire only beyond the depth threshold, and only
    /// when the depth exceeds three times the balanced depth.
    pub fn can_rebalance(&self, depth: usize) -> (b: bool)
        ensures
            b == (depth >= crate::REBALANCE_THRESHOLD && depth > 3 * flog2(
                self.n_leafs as nat,
            )),
    {
        if depth < crate::REBALANCE_THRESHOLD {
            false
        } else {
            depth > 3 * floor_log2(self.n_leafs)
        }
    }
}

impl<T: Copy> Node<T> {
    /// Rebuild the subtree bottom-up when forced, or when the heuristic asks
    /// for it; otherwise hand the subtree back unchanged.  A packed rebuild
    /// first linearises the elements and refills fresh leaves to capacity.
    pub fn auto_rebalance(
        node: Rc<Node<T>>,
        depth: usize,
        packed: bool,
        force: bool,
        rn: &Rebalance,
    ) -> (r: (Rc<Node<T>>, usize))
        requires
            (*node).wf(),
            (*node).seq().len() <= usize::MAX,
        ensures
            (*r.0).wf(),
            (*r.0).seq() == (*node).seq(),
            (*r.0).max_leaf() <= vstd::math::max(
                (*node).max_leaf() as int,
                max_items_spec(rn.leaf_cap as nat, core::mem::size_of::<T>() as nat) as int,
            ),
            force && packed ==> (*r.0).max_leaf() <= max_items_spec(
                rn.leaf_cap as nat,
                core::mem::size_of::<T>() as nat,
            ),
            force ==> ({
                let leaves_n = if packed {
                    chunks_of(
                        (*node).seq().len() as nat,
                        max_items_spec(rn.leaf_cap as nat, core::mem::size_of::<T>() as nat),
                    )
                } else {
                    (*node).n_leaves()
                };
                (*r.0).depth() == 0 || vstd::arithmetic::power2::pow2(
                    ((*r.0).depth() - 1) as nat,
                ) < leaves_n
            }),
            force && packed ==> packed_blocks(
                (*r.0).blocks(),
                max_items_spec(rn.leaf_cap as nat, core::mem::size_of::<T>() as nat),
            ),
    {
        let doit = force || (rn.auto_rebalance && rn.can_rebalance(depth));
        if !doit {
            return (node, depth);
        }
        let ghost m_spec = max_items_spec(rn.leaf_cap as nat, core::mem::size_of::<T>() as nat);
        let mut leaves: Vec<Rc<Node<T>>> = Vec::new();
        let ghost bound: nat = if packed { m_spec } else { rc_max_leaf(&node) };
        if packed {
            let mut elems: Vec<T> = Vec::new();
            node.push_elems(&mut elems);
            let m = max_leaf_items::<T>(rn.leaf_cap);
            leaves = leaves_from_slice(elems.as_slice(), m);
        } else {
            Node::collect_leaves(&node, &mut leaves);
            proof {
                assert(leaves@.skip(0) =~= leaves@);
            }
        }
        let dep = ceil_log2(leaves.len());
        let mut pos: usize = 0;
        proof {
            assert(leaves@.skip(0) =~= leaves@);
            assert(flat(leaves@) == (*node).seq());
        }
        let (root, _cnt) = Node::build_bottoms_up(dep, &leaves, &mut pos, Ghost(bound));
        proof {
            assert(leaves@.subrange(0, leaves@.len() as int) =~= leaves@);
            let rd = rc_depth(&root);
            if rd > 0 {
                if rd - 1 < dep - 1 {
                    vstd::arithmetic::power2::lemma_pow2_strictly_increases(
                        (rd - 1) as nat,
                        (dep - 1) as nat,
                    );
                }
            }
            if packed && leaves@.len() > 0 {
                assert forall|i: int| 0 <= i < (*root).blocks().len() - 1 implies (#[trigger] (
                *root).blocks()[i]).len() == m_spec by {
                    assert((*root).blocks()[i] == (*leaves@[i]).seq());
                }
            }
        }
        (root, dep)
    }

    /// Copy-on-write insert: rebuild the spine to the offset, inserting the
    /// element into its leaf, splitting a full leaf in two.  Returns the new
    /// subtree and the depth of the rewritten path, after offering the new
    /// subtree to the auto-rebalance heuristic.
    pub fn insert(&self, off: usize, val: T, rn: &Rebalance) -> (r: (Rc<Node<T>>, usize))
        requires
            self.wf(),
            off <= self.seq().len(),
            self.seq().len() < usize::MAX,
        ensures
            (*r.0).wf(),
            (*r.0).seq() == self.seq().insert(off as int, val),
            self.max_leaf() <= leaf_limit(
                max_items_spec(rn.leaf_cap as nat, core::mem::size_of::<T>() as nat),
            ) ==> (*r.0).max_leaf() <= leaf_limit(
                max_items_spec(rn.leaf_cap as nat, core::mem::size_of::<T>() as nat),
            ),
        decreases *self,
    {
        let ghost lim = leaf_limit(
            max_items_spec(rn.leaf_cap as nat, core::mem::size_of::<T>() as nat),
        );
        let (node, depth): (Rc<Node<T>>, usize) = match self {
            Node::M { weight, left, right } => {
                if off <= *weight {
                    let (l2, d) = left.insert(off, val, rn);
                    let node = Node::newm(l2, Rc::clone(right), *weight + 1);
                    proof {
                        assert((*node).seq() =~= self.seq().insert(off as int, val));
                    }
                    (node, d.saturating_add(1))
                } else {
                    let (r2, d) = right.insert(off - *weight, val, rn);
                    let node = Node::newm(Rc::clone(left), r2, *weight);
                    proof {
                        assert((*node).seq() =~= self.seq().insert(off as int, val));
                    }
                    (node, d.saturating_add(1))
                }
            },
            Node::Z { data } => {
                if data.len() < max_leaf_items::<T>(rn.leaf_cap) {
                    let d2 = copy_insert(data, 0, data.len(), off, val);
                    proof {
                        assert(data@.subrange(0, data@.len() as int) =~= data@);
                    }
                    (Rc::new(Node::Z { data: d2 }), 1)
                } else {
                    (Rc::new(Self::split_insert(data, off, val)), 2)
                }
            },
        };
        proof {
            assert((*node).seq().len() == self.seq().len() + 1);
        }
        Node::auto_rebalance(node, depth, false, false, rn)
    }
}

/// Copy the elements of `v[a..b]` into a fresh vector with `val` inserted at
/// (relative) position `off`, reserving exactly the needed capacity.
pub fn copy_insert<T: Copy>(v: &Vec<T>, a: usize, b: usize, off: usize, val: T) -> (r: Vec<T>)
    requires
        a <= b <= v@.len(),
        off <= b - a,
    ensures
        r@ == v@.subrange(a as int, b as int).insert(off as int, val),
{
    let mut r: Vec<T> = Vec::with_capacity(sat_add(b - a, 1));
    let mut i: usize = a;
    while i < a + off
        invariant
            a <= i <= a + off,
            a + off <= b <= v@.len(),
            r@ == v@.subrange(a as int, i as int),
        decreases a + off - i,
    {
        r.push(v[i]);
        i = i + 1;
        proof {
            assert(r@ =~= v@.subrange(a as int, i as int));
        }
    }
    r.push(val);
    while i < b
        invariant
            a + off <= i <= b <= v@.len(),
            r@ == v@.subrange(a as int, (a + off) as int).push(val) + v@.subrange(
                (a + off) as int,
                i as int,
            ),
        decreases b - i,
    {
        r.push(v[i]);
        i = i + 1;
        proof {
            assert(r@ =~= v@.subrange(a as int, (a + off) as int).push(val) + v@.subrange(
                (a + off) as int,
                i as int,
            ));
        }
    }
    proof {
        assert(r@ =~= v@.subrange(a as int, b as int).insert(off as int, val));
    }
    r
}

/// Copy the elements of `v` into a fresh vector with the element at `off`
/// dropped, reserving exactly the needed capacity.
pub fn copy_remove<T: Copy>(v: &Vec<T>, off: usize) -> (r: Vec<T>)
    requires
        off < v@.len(),
    ensures
        r@ == v@.remove(off as int),
{
    let n = v.len();
    let mut r: Vec<T> = Vec::with_capacity(n - 1);
    let mut i: usize = 0;
    while i < n
        invariant
            i <= n == v@.len(),
            off < n,
            i <= off ==> r@ == v@.subrange(0, i as int),
            i > off ==> r@ == v@.subrange(0, off as int) + v@.subrange((off + 1) as int, i as int),
        decreases n - i,
    {
        if i != off {
            r.push(v[i]);
        }
        i = i + 1;
        proof {
            if i <= off {
                assert(r@ =~= v@.subrange(0, i as int));
            } else {
                assert(r@ =~= v@.subrange(0, off as int) + v@.subrange(
                    (off + 1) as int,
                    i as int,
                ));
            }
        }
    }
    proof {
        assert(r@ =~= v@.remove(off as int));
    }
    r
}

/// Copy the elements of `v` into a fresh vector.
pub fn copy_all<T: Copy>(v: &Vec<T>) -> (r: Vec<T>)
    ensures
        r@ == v@,
{
    let mut r: Vec<T> = Vec::with_capacity(v.len());
    let mut i: usize = 0;
    while i < v.len()
        invariant
            i <= v.len(),
            r@ == v@.take(i as int),
        decreases v.len() - i,
    {
        r.push(v[i]);
        i = i + 1;
    }
    proof {
        assert(r@ =~= v@);
    }
    r
}

/// Copy the elements of `v[a..b]` into a fresh vector.
pub fn copy_range<T: Copy>(v: &Vec<T>, a: usize, b: usize) -> (r: Vec<T>)
    requires
        a <= b <= v@.len(),
    ensures
        r@ == v@.subrange(a as int, b as int),
{
    let mut r: Vec<T> = Vec::with_capacity(b - a);
    let mut i: usize = a;
    while i < b
        invariant
            a <= i <= b <= v@.len(),
            r@ == v@.subrange(a as int, i as int),
        decreases b - i,
    {
        r.push(v[i]);
        i = i + 1;
        proof {
            assert(r@ =~= v@.subrange(a as int, i as int));
        }
    }
    r
}

} // verus!
