//! The algebraic laws of the sequence operations, stated and proved once
//! over the mathematical model that every contract of this crate speaks of.

use std::rc::Rc;

use vstd::prelude::*;

use crate::node::Node;
use crate::vector::Vector;

verus! {

/// Removing the element at `i` and inserting it back at `i` restores the
/// sequence pointwise.  Together with the contracts of `Vector::remove` and
/// `Vector::insert`, a remove followed by an insert of the removed value at
/// the same offset leaves the vector's sequence unchanged.
pub proof fn lemma_remove_then_insert_restores<T>(s: Seq<T>, i: int)
    requires
        0 <= i < s.len(),
    ensures
        s.remove(i).insert(i, s[i]) == s,
{
    assert(s.remove(i).insert(i, s[i]) =~= s);
}

/// Updating a position twice with the same value equals updating it once.
/// Together with the contract of `Vector::update`, a repeated update is
/// idempotent on the vector's sequence.
pub proof fn lemma_update_idempotent<T>(s: Seq<T>, i: int, v: T)
    requires
        0 <= i < s.len(),
    ensures
        s.update(i, v).update(i, v) == s.update(i, v),
{
    assert(s.update(i, v).update(i, v) =~= s.update(i, v));
}

/// A prefix up to `o` followed by the suffix from `o` is the whole sequence.
/// Together with the contracts of `Vector::split_off` and `Vector::append`,
/// splitting a vector and appending the returned part restores its sequence.
pub proof fn lemma_split_append_round_trip<T>(s: Seq<T>, o: int)
    requires
        0 <= o <= s.len(),
    ensures
        s.take(o) + s.skip(o) == s,
{
    assert(s.take(o) + s.skip(o) =~= s);
}

/// Persistence: a clone observes exactly the sequence of the original, and a
/// mutation applied to the clone acts on that same sequence.  That the
/// original stays untouched is enforced by ownership: every mutating method
/// takes only the receiver, so no call on a clone can reach the original.
pub proof fn lemma_clone_persistence<T>(v: Vector<T>, w: Vector<T>, o: int, x: T)
    requires
        w == v,
        0 <= o <= v@.len(),
    ensures
        w@ == v@,
        w@.insert(o, x) == v@.insert(o, x),
{
}

/// Every internal node's weight is the element count of its left subtree
/// wherever the structural well-formedness predicate holds; the contracts of
/// every vector operation maintain that predicate.
pub proof fn lemma_wf_weight<T>(n: Node<T>)
    requires
        n.wf(),
    ensures
        match n {
            Node::M { weight, left, right } => {
                &&& weight == (*left).seq().len()
                &&& (*left).wf()
                &&& (*right).wf()
            },
            Node::Z { .. } => true,
        },
{
}

/// The largest-leaf measure bounds every leaf: a subtree's `max_leaf` is at
/// most `b` exactly when every leaf block in it holds at most `b` items.
pub proof fn lemma_max_leaf_bounds_leaves<T>(n: &Node<T>, b: nat)
    ensures
        n.max_leaf() <= b <==> n.all_leaves_le(b),
    decreases *n,
{
    match n {
        Node::M { left, right, .. } => {
            lemma_max_leaf_bounds_leaves(&**left, b);
            lemma_max_leaf_bounds_leaves(&**right, b);
        },
        Node::Z { .. } => {},
    }
}

/// A handle on a subtree can be held across any number of operations on
/// other owners: the sequence it reaches is a function of the value alone.
pub proof fn lemma_handle_sequence_stable<T>(h: Rc<Node<T>>, g: Rc<Node<T>>)
    requires
        h == g,
    ensures
        (*h).seq() == (*g).seq(),
{
}

} // verus!
