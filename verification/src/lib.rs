//! Persistent indexed sequence built on a rope-like binary tree of
//! array blocks, with copy-on-write mutation and structural sharing.

pub mod laws;
pub mod node;
mod rope;
mod vector;

pub use rope::Rope;
pub use vector::IntoIter;
pub use vector::Iter;
pub use vector::Vector;
pub use vector::validate;
pub use vector::validate_mem_ratio;

use vstd::prelude::*;

verus! {

/// Leaf nodes shall not exceed this default byte size.
pub const LEAF_CAP: usize = 10 * 1024;

/// Threshold on tree depth, beyond which auto-rebalance kicks in.
pub const REBALANCE_THRESHOLD: usize = 30;

/// Error variants returned by this package's API.
///
/// Each variant carries a location tag and a human-readable message.
#[derive(Debug)]
pub enum Error {
    IndexFail(String, String),
}

} // verus!
