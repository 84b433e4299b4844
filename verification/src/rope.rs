//! A rope-style persistent list: the same tree engine behind a fully
//! persistent surface, where every mutation hands back a new value and the
//! receiver is never touched.

use vstd::prelude::*;

use crate::Error;
use crate::vector::Vector;

verus! {

/// The leaf byte capacity a rope is created with.
pub const ROPE_LEAF_CAP: usize = 1024;

/// A persistent list of values over a binary tree of array blocks; insert,
/// set and delete return a new rope sharing structure with the receiver.
pub struct Rope<T> {
    inner: Vector<T>,
}

impl<T> Rope<T> {
    /// The structural invariant, inherited from the vector facade.
    pub closed spec fn inv(self) -> bool {
        self.inner.inv()
    }

    /// The number of leaf blocks in the tree.
    pub closed spec fn spec_n_leaves(self) -> nat {
        self.inner.spec_n_leaves()
    }

    /// The tree is no deeper than a near-complete binary tree over `leaves`
    /// leaf blocks.
    pub closed spec fn depth_within(self, leaves: nat) -> bool {
        self.inner.depth_within(leaves)
    }

    /// A lower bound on the resident bytes of the rope.
    pub closed spec fn spec_min_footprint(self) -> int {
        self.inner.spec_min_footprint()
    }

    /// Create a new empty rope.
    pub fn new() -> (r: Rope<T>)
        ensures
            r.inv(),
            r@ == Seq::<T>::empty(),
    {
        let mut inner = Vector::new();
        inner.set_leaf_size(ROPE_LEAF_CAP);
        Rope { inner }
    }

    /// Enable or disable the auto-rebalance heuristic.
    pub fn set_auto_rebalance(&mut self, rebalance: bool)
        requires
            old(self).inv(),
        ensures
            final(self).inv(),
            final(self)@ == old(self)@,
    {
        self.inner.set_auto_rebalance(rebalance);
    }

    /// The number of elements in the rope.
    pub fn len(&self) -> (n: usize)
        requires
            self.inv(),
        ensures
            n == self@.len(),
    {
        self.inner.len()
    }

    /// The number of elements counted by traversing the tree; always equal
    /// to `len`.
    pub fn calculate_len(&self) -> (n: usize)
        requires
            self.inv(),
        ensures
            n == self@.len(),
    {
        self.inner.traversal_count()
    }

    /// The resident memory of this rope in bytes; informational.
    pub fn footprint(&self) -> (n: usize)
        requires
            self.inv(),
        ensures
            n >= vstd::math::min(self.spec_min_footprint(), usize::MAX as int),
    {
        self.inner.footprint()
    }

    /// A reference to the element at `index`, or `IndexFail` when the index
    /// is out of bounds.
    pub fn get(&self, index: usize) -> (r: Result<&T, Error>)
        requires
            self.inv(),
        ensures
            index < self@.len() ==> (r matches Ok(v) && *v == self@[index as int]),
            index >= self@.len() ==> (r matches Err(e) && e is IndexFail),
    {
        self.inner.get(index)
    }
}

impl<T: Copy> Rope<T> {
    /// A new rope with `value` inserted at `off`; the receiver is unchanged.
    /// Fails with `IndexFail` when `off` lies beyond the end.
    pub fn insert(&self, off: usize, value: T) -> (r: Result<Rope<T>, Error>)
        requires
            self.inv(),
            off <= self@.len() ==> self@.len() < usize::MAX,
        ensures
            off <= self@.len() ==> (r matches Ok(v) && v.inv() && v@ == self@.insert(
                off as int,
                value,
            )),
            off > self@.len() ==> (r matches Err(e) && e is IndexFail),
    {
        let mut v = self.inner.clone();
        match v.insert(off, value) {
            Ok(()) => Ok(Rope { inner: v }),
            Err(e) => Err(e),
        }
    }

    /// A new rope with the element at `off` replaced by `value`; the
    /// receiver is unchanged.  Fails with `IndexFail` when out of bounds.
    pub fn set(&self, off: usize, value: T) -> (r: Result<Rope<T>, Error>)
        requires
            self.inv(),
        ensures
            off < self@.len() ==> (r matches Ok(v) && v.inv() && v@ == self@.update(
                off as int,
                value,
            )),
            off >= self@.len() ==> (r matches Err(e) && e is IndexFail),
    {
        let mut v = self.inner.clone();
        match v.update(off, value) {
            Ok(_prior) => Ok(Rope { inner: v }),
            Err(e) => Err(e),
        }
    }

    /// A new rope with the element at `off` removed; the receiver is
    /// unchanged.  Fails with `IndexFail` when out of bounds.
    pub fn delete(&self, off: usize) -> (r: Result<Rope<T>, Error>)
        requires
            self.inv(),
        ensures
            off < self@.len() ==> (r matches Ok(v) && v.inv() && v@ == self@.remove(off as int)),
            off >= self@.len() ==> (r matches Err(e) && e is IndexFail),
    {
        let mut v = self.inner.clone();
        match v.remove(off) {
            Ok(_removed) => Ok(Rope { inner: v }),
            Err(e) => Err(e),
        }
    }

    /// A rebuilt rope holding the same sequence in a near-complete tree.
    pub fn rebalance(&self) -> (r: Result<Rope<T>, Error>)
        requires
            self.inv(),
        ensures
            r matches Ok(v) && v.inv() && v@ == self@ && v.depth_within(self.spec_n_leaves()),
    {
        match self.inner.rebalance(false) {
            Ok(v) => Ok(Rope { inner: v }),
            Err(e) => Err(e),
        }
    }
}

impl<T> View for Rope<T> {
    type V = Seq<T>;

    closed spec fn view(&self) -> Seq<T> {
        self.inner@
    }
}

impl<T> Clone for Rope<T> {
    /// A clone shares the whole tree with the original.
    fn clone(&self) -> (res: Rope<T>)
        ensures
            res == *self,
    {
        Rope { inner: self.inner.clone() }
    }
}

} // verus!
