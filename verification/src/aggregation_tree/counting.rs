//! The policy that counts, for every node, the nodes that report into it.

use super::laws::{adds_up, cancels_at, commutes_at, forwards_at};
use super::AggregationContext;
use std::ops::ControlFlow;
use vstd::prelude::*;

verus! {

/// What a node under [`CountChildren`] is told: that a node has come to
/// report into it, or has ceased to.
#[derive(Clone, Copy, Debug, PartialEq, Eq, Structural)]
pub enum CountChange {
    Gained,
    Lost,
}

/// A policy under which a node holds the number of nodes that report into
/// it, each counted once however many links it has. Items are named by
/// their numbers. A count says nothing of the nodes further down, so a node
/// hands nothing on. A query adds up the counts of the roots that it
/// reaches. Counts wrap around at the end of their range.
#[derive(Clone, Copy, Debug, Default)]
pub struct CountChildren;

impl AggregationContext for CountChildren {
    type ItemRef = u64;

    type Info = u64;

    type ItemChange = CountChange;

    type RootInfoType = ();

    type RootInfo = u64;

    open spec fn item_key(&self, reference: u64) -> u64 {
        reference
    }

    fn item_id(&self, reference: &u64) -> (id: u64) {
        *reference
    }

    open spec fn applied(&self, info: u64, change: CountChange) -> u64 {
        match change {
            CountChange::Gained => u64::wrapping_add(info, 1),
            CountChange::Lost => u64::wrapping_sub(info, 1),
        }
    }

    open spec fn forwarded(&self, info: u64, change: CountChange) -> Option<CountChange> {
        None
    }

    fn apply_change(&self, info: &mut u64, change: &CountChange) -> (forwarded: Option<
        CountChange,
    >) {
        match change {
            CountChange::Gained => {
                *info = info.wrapping_add(1);
            },
            CountChange::Lost => {
                *info = info.wrapping_sub(1);
            },
        }
        None
    }

    open spec fn add_change(&self, info: u64) -> Option<CountChange> {
        Some(CountChange::Gained)
    }

    fn info_to_add_change(&self, info: &u64) -> (change: Option<CountChange>) {
        Some(CountChange::Gained)
    }

    open spec fn remove_change(&self, info: u64) -> Option<CountChange> {
        Some(CountChange::Lost)
    }

    fn info_to_remove_change(&self, info: &u64) -> (change: Option<CountChange>) {
        Some(CountChange::Lost)
    }

    open spec fn root_info_of(&self, info: u64, root_info_type: ()) -> u64 {
        info
    }

    fn info_to_root_info(&self, info: &u64, root_info_type: &()) -> (root_info: u64) {
        *info
    }

    open spec fn empty_root_info(&self, root_info_type: ()) -> u64 {
        0
    }

    fn new_root_info(&self, root_info_type: &()) -> (root_info: u64) {
        0
    }

    open spec fn merged(&self, root_info: u64, other: u64) -> u64 {
        u64::wrapping_add(root_info, other)
    }

    open spec fn merge_stops(&self, root_info: u64, other: u64) -> bool {
        false
    }

    fn merge_root_info(&self, root_info: &mut u64, other: u64) -> (flow: ControlFlow<()>) {
        *root_info = root_info.wrapping_add(other);
        ControlFlow::Continue(())
    }
}

/// Counting adds up: under it a tree holds, after any changes of the graph,
/// what a fresh count would give.
pub proof fn lemma_counting_adds_up(context: &CountChildren)
    ensures
        adds_up(context),
{
    assert forall|info: u64, first: CountChange, second: CountChange| #[trigger]
        commutes_at(context, info, first, second) by {}
    assert forall|lower: u64, upper: u64, change: CountChange| #[trigger]
        forwards_at(context, lower, upper, change) by {}
    assert forall|lower: u64, upper: u64| #[trigger] cancels_at(context, lower, upper) by {}
}

} // verus!
