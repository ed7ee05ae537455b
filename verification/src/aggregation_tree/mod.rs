//! The tree of aggregating nodes and the policy that drives it.
//!
//! - [`AggregationContext`] is the policy: what is aggregated and how.
//! - [`counting`] is the plainest policy: every node counts the nodes that
//!   report into it.
//! - [`inner_refs`] holds the handles by which nodes name each other.
//! - [`top_tree`] holds the nodes, the tree that owns them and the
//!   operations on them.
//! - [`model`] says what a tree is as a mathematical value and what each
//!   operation makes of it; the contracts in [`top_tree`] speak of it.
//! - [`frame`] proves what the operations leave alone.
//! - [`laws`] proves that a tree under a policy that adds up holds, after
//!   any changes of the graph, what a fresh computation would give.

use std::ops::ControlFlow;
use vstd::prelude::*;

pub mod counting;
pub mod frame;
pub mod inner_refs;
pub mod laws;
pub mod model;
pub mod top_tree;

verus! {

/// The policy of an aggregation: what a node holds, how a change alters it,
/// and how a query is answered from the roots.
///
/// Every operation comes in two forms: the function that runs, and a
/// specification function that says what it computes. The tree's contracts
/// speak of the latter, so a policy is a set of pure functions: it answers
/// alike whenever it is asked alike, and it always answers.
pub trait AggregationContext {
    /// The identity of a graph item.
    type ItemRef;

    /// The aggregate that a node holds.
    type Info: Default;

    /// A change to an aggregate.
    type ItemChange;

    /// Selects the query that is run against the roots.
    type RootInfoType;

    /// The answer to a query.
    type RootInfo;

    /// The number that stands for an item: items with one number are one item.
    spec fn item_key(&self, reference: Self::ItemRef) -> u64;

    /// The number of the item `reference`. The tree keeps one node per
    /// number and depth.
    fn item_id(&self, reference: &Self::ItemRef) -> (id: u64)
        ensures
            id == self.item_key(*reference),
    ;

    /// The aggregate `info` after `change`.
    spec fn applied(&self, info: Self::Info, change: Self::ItemChange) -> Self::Info;

    /// What a node that held `info` hands on when `change` reaches it, if
    /// anything.
    spec fn forwarded(&self, info: Self::Info, change: Self::ItemChange) -> Option<
        Self::ItemChange,
    >;

    /// Folds `change` into `info` and returns the change to hand on, or
    /// `None` where nothing of it shows from above.
    fn apply_change(&self, info: &mut Self::Info, change: &Self::ItemChange) -> (forwarded: Option<
        Self::ItemChange,
    >)
        ensures
            *final(info) == self.applied(*old(info), *change),
            forwarded == self.forwarded(*old(info), *change),
    ;

    /// What a node holding `info` adds to a node that it starts to report
    /// into.
    spec fn add_change(&self, info: Self::Info) -> Option<Self::ItemChange>;

    /// The change that makes the whole of `info` known to a node that the
    /// holder of `info` has come to report into, or `None` where there is
    /// nothing to make known.
    fn info_to_add_change(&self, info: &Self::Info) -> (change: Option<Self::ItemChange>)
        ensures
            change == self.add_change(*info),
    ;

    /// What a node holding `info` takes from a node that it stops to report
    /// into.
    spec fn remove_change(&self, info: Self::Info) -> Option<Self::ItemChange>;

    /// The change that takes the whole of `info` back from a node that the
    /// holder of `info` has ceased to report into, or `None` where there
    /// is nothing to take back.
    fn info_to_remove_change(&self, info: &Self::Info) -> (change: Option<Self::ItemChange>)
        ensures
            change == self.remove_change(*info),
    ;

    /// The answer that a root holding `info` gives.
    spec fn root_info_of(
        &self,
        info: Self::Info,
        root_info_type: Self::RootInfoType,
    ) -> Self::RootInfo;

    /// Answers the query `root_info_type` for a root that holds `info`.
    fn info_to_root_info(
        &self,
        info: &Self::Info,
        root_info_type: &Self::RootInfoType,
    ) -> (root_info: Self::RootInfo)
        ensures
            root_info == self.root_info_of(*info, *root_info_type),
    ;

    /// The answer before any root was asked.
    spec fn empty_root_info(&self, root_info_type: Self::RootInfoType) -> Self::RootInfo;

    /// The answer to start from when the answers of several nodes are
    /// folded together.
    fn new_root_info(&self, root_info_type: &Self::RootInfoType) -> (root_info: Self::RootInfo)
        ensures
            root_info == self.empty_root_info(*root_info_type),
    ;

    /// The answer `root_info` with the answer `other` folded in.
    spec fn merged(&self, root_info: Self::RootInfo, other: Self::RootInfo) -> Self::RootInfo;

    /// Whether the query is settled once `other` is folded into `root_info`.
    spec fn merge_stops(&self, root_info: Self::RootInfo, other: Self::RootInfo) -> bool;

    /// Folds `other` into `root_info`. `Break` ends the query: no further
    /// node is asked.
    fn merge_root_info(&self, root_info: &mut Self::RootInfo, other: Self::RootInfo) -> (flow:
        ControlFlow<()>)
        ensures
            *final(root_info) == self.merged(*old(root_info), other),
            (flow is Break) == self.merge_stops(*old(root_info), other),
    ;
}

} // verus!
