//! Handles by which one node names another.

use crate::count_hash_set::Handle;
use vstd::prelude::*;

verus! {

/// Where a child hangs below a node.
#[derive(Clone, Copy, PartialEq, Eq, Hash, Structural)]
pub enum ChildLocation {
    Left,
    Inner,
}

/// A handle to a node that another node reports into.
///
/// Two handles are equal exactly when they name the same node, however often
/// and wherever they were made. A node is never freed while its tree lives
/// and no position is given out twice, so a handle cannot go stale.
#[derive(Clone, Copy, Debug, PartialEq, Eq, Hash, Structural)]
pub struct TopRef {
    /// Position of the node in its tree.
    pub upper: usize,
}

/// A handle hashes as the single integer it holds.
impl nohash_hasher::IsEnabled for TopRef {}

/// A handle is named by the position that it holds.
impl Handle for TopRef {
    open spec fn key(self) -> usize {
        self.upper
    }

    fn key_of(&self) -> (key: usize) {
        self.upper
    }

    proof fn lemma_key_names(self, other: Self) {
    }
}

} // verus!
