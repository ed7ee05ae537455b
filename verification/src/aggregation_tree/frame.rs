//! What the operations keep: the well-formedness of the tree, its shape,
//! and the aggregates of the nodes that a change does not reach.

use super::inner_refs::TopRef;
use super::model::{apply_opt, AggregationTreeView, Edit};
use super::AggregationContext;
use vstd::prelude::*;

verus! {

impl<T> AggregationTreeView<T> {
    /// A node that is made keeps the tree well-formed.
    pub proof fn lemma_with_top_tree_wf(self, item: u64, depth: u8, fresh: T)
        requires
            self.wf(),
            self.registered(item, depth) || self.nodes.len() < usize::MAX,
        ensures
            self.with_top_tree(item, depth, fresh).wf(),
            self.with_top_tree(item, depth, fresh).contains(self.top_tree(item, depth)),
            self.with_top_tree(item, depth, fresh).node(self.top_tree(item, depth)).depth == depth,
    {
        let after = self.with_top_tree(item, depth, fresh);
        if !self.registered(item, depth) {
            assert forall|node: TopRef| after.contains(node) implies #[trigger] after.admits(
                after.node(node),
            ) by {
                if node.upper < self.nodes.len() {
                    assert(self.admits(self.node(node)));
                }
            }
        }
    }

    /// A link to a node one level up keeps the tree well-formed.
    pub proof fn lemma_with_upper_added_wf(self, node: TopRef, upper: TopRef)
        requires
            self.wf(),
            self.contains(node),
            self.contains(upper),
            self.node(node).depth == self.node(upper).depth + 1,
        ensures
            self.with_upper(node, self.node(node).upper.added(upper)).wf(),
    {
        let links = self.node(node).upper;
        let after = self.with_upper(node, links.added(upper));
        assert(self.admits(self.node(node)));
        links.lemma_added_wf(upper);
        assert forall|other: TopRef| after.contains(other) implies #[trigger] after.admits(
            after.node(other),
        ) by {
            assert(self.admits(self.node(other)));
            assert forall|x: TopRef| #[trigger]
                after.node(other).upper.order.contains(x) implies after.contains(x) && after.node(
                x,
            ).depth + 1 == after.node(other).depth by {
                if other == node {
                    if x != upper {
                        links.lemma_added_contains(upper, x);
                    }
                }
            }
        }
    }

    /// Taking a link away keeps the tree well-formed.
    pub proof fn lemma_with_upper_removed_wf(self, node: TopRef, upper: TopRef)
        requires
            self.wf(),
            self.contains(node),
        ensures
            self.with_upper(node, self.node(node).upper.removed(upper)).wf(),
    {
        let links = self.node(node).upper;
        let after = self.with_upper(node, links.removed(upper));
        assert(self.admits(self.node(node)));
        links.lemma_removed_wf(upper);
        assert forall|other: TopRef| after.contains(other) implies #[trigger] after.admits(
            after.node(other),
        ) by {
            assert(self.admits(self.node(other)));
            assert forall|x: TopRef| #[trigger]
                after.node(other).upper.order.contains(x) implies after.contains(x) && after.node(
                x,
            ).depth + 1 == after.node(other).depth by {
                if other == node {
                    links.lemma_removed_contains(upper, x);
                }
            }
        }
    }

    /// Having the same shape carries over.
    pub proof fn lemma_same_shape_trans(self, other: Self, third: Self)
        requires
            self.same_shape(other),
            other.same_shape(third),
        ensures
            self.same_shape(third),
    {
    }

    /// Well-formedness is a matter of the shape alone.
    pub proof fn lemma_same_shape_wf(self, other: Self)
        requires
            self.wf(),
            self.same_shape(other),
        ensures
            other.wf(),
    {
        assert forall|node: TopRef| other.contains(node) implies #[trigger] other.admits(
            other.node(node),
        ) by {
            assert(self.admits(self.node(node)));
        }
    }

    /// A change alters aggregates only.
    pub proof fn lemma_child_change_shape<C: AggregationContext<Info = T>>(
        self,
        context: &C,
        node: TopRef,
        change: C::ItemChange,
    )
        requires
            self.contains(node),
        ensures
            self.same_shape(self.child_change(context, node, change)),
        decreases self.node(node).depth, 1nat, 0nat,
    {
        let info = self.node(node).data;
        let start = self.with_data(node, context.applied(info, change));
        start.lemma_propagate_shape(
            context,
            self.node(node).upper.order,
            context.forwarded(info, change),
            self.node(node).depth as nat,
        );
        self.lemma_same_shape_trans(start, self.child_change(context, node, change));
    }

    /// Handing a change on alters aggregates only.
    pub proof fn lemma_propagate_shape<C: AggregationContext<Info = T>>(
        self,
        context: &C,
        uppers: Seq<TopRef>,
        change: Option<C::ItemChange>,
        bound: nat,
    )
        ensures
            self.same_shape(self.propagate(context, uppers, change, bound)),
        decreases bound, 0nat, uppers.len(),
    {
        if change is Some && uppers.len() > 0 {
            let first = uppers[0];
            let next = if self.contains(first) && self.node(first).depth < bound {
                self.child_change(context, first, change->0)
            } else {
                self
            };
            if self.contains(first) && self.node(first).depth < bound {
                self.lemma_child_change_shape(context, first, change->0);
            }
            next.lemma_propagate_shape(context, uppers.drop_first(), change, bound);
            self.lemma_same_shape_trans(next, self.propagate(context, uppers, change, bound));
        }
    }

    /// A new link alters no aggregate but that of `upper` and of nodes
    /// nearer to the roots, and no link but the new one.
    pub proof fn lemma_add_upper_frame<C: AggregationContext<Info = T>>(
        self,
        context: &C,
        node: TopRef,
        upper: TopRef,
    )
        requires
            self.wf(),
            self.contains(node),
            self.contains(upper),
            self.node(node).depth == self.node(upper).depth + 1,
        ensures
            self.add_upper(context, node, upper).wf(),
            self.with_upper(node, self.node(node).upper.added(upper)).same_shape(
                self.add_upper(context, node, upper),
            ),
            forall|other: TopRef|
                self.contains(other) && other != upper && self.node(other).depth >= self.node(
                    upper,
                ).depth ==> (#[trigger] self.add_upper(context, node, upper).node(other)).data
                    == self.node(other).data,
    {
        let linked = self.with_upper(node, self.node(node).upper.added(upper));
        let after = self.add_upper(context, node, upper);
        self.lemma_with_upper_added_wf(node, upper);
        if self.node(node).upper.count(upper) == 0 && context.add_change(self.node(node).data)
            is Some {
            let change = context.add_change(self.node(node).data)->0;
            linked.lemma_child_change_shape(context, upper, change);
            linked.lemma_same_shape_wf(after);
            linked.lemma_child_change_frame(context, upper, change);
        }
    }

    /// Taking a link away alters no aggregate but that of `upper` and of
    /// nodes nearer to the roots, and no link but the one taken.
    pub proof fn lemma_remove_upper_frame<C: AggregationContext<Info = T>>(
        self,
        context: &C,
        node: TopRef,
        upper: TopRef,
    )
        requires
            self.wf(),
            self.contains(node),
            self.contains(upper),
        ensures
            self.remove_upper(context, node, upper).wf(),
            self.with_upper(node, self.node(node).upper.removed(upper)).same_shape(
                self.remove_upper(context, node, upper),
            ),
            forall|other: TopRef|
                self.contains(other) && other != upper && self.node(other).depth >= self.node(
                    upper,
                ).depth ==> (#[trigger] self.remove_upper(context, node, upper).node(other)).data
                    == self.node(other).data,
    {
        let unlinked = self.with_upper(node, self.node(node).upper.removed(upper));
        let after = self.remove_upper(context, node, upper);
        self.lemma_with_upper_removed_wf(node, upper);
        if self.node(node).upper.count(upper) == 1 && context.remove_change(self.node(node).data)
            is Some {
            let change = context.remove_change(self.node(node).data)->0;
            unlinked.lemma_child_change_shape(context, upper, change);
            unlinked.lemma_same_shape_wf(after);
            unlinked.lemma_child_change_frame(context, upper, change);
        }
    }

    /// A child that the item of `node` gains leaves `node` where it is,
    /// and gives no node below it more than one link to `node` on top of
    /// those it had.
    pub proof fn lemma_add_child_links<C: AggregationContext<Info = T>>(
        self,
        context: &C,
        node: TopRef,
        child: u64,
        fresh: T,
        other: u64,
    )
        requires
            self.wf(),
            self.permits(node, child),
        ensures
            self.add_child_of_child(context, node, child, fresh).wf(),
            self.add_child_of_child(context, node, child, fresh).contains(node),
            self.add_child_of_child(context, node, child, fresh).node(node).depth == self.node(
                node,
            ).depth,
            self.add_child_of_child(context, node, child, fresh).nodes.len() >= self.nodes.len(),
            self.add_child_of_child(context, node, child, fresh).link_count(
                other,
                (self.node(node).depth + 1) as u8,
                node,
            ) <= self.link_count(other, (self.node(node).depth + 1) as u8, node) + 1,
    {
        let depth = (self.node(node).depth + 1) as u8;
        let lower = self.top_tree(child, depth);
        let made = self.with_top_tree(child, depth, fresh);
        let linked = made.with_upper(lower, made.node(lower).upper.added(node));
        let after = self.add_child_of_child(context, node, child, fresh);
        self.lemma_with_top_tree_wf(child, depth, fresh);
        made.lemma_add_upper_frame(context, lower, node);
        if after.registered(other, depth) {
            let found = after.index[(other, depth)];
            assert(after.nodes[found.upper as int].upper == linked.nodes[found.upper as int].upper);
        }
    }

    /// A change that reaches `node` leaves every other node alone that is
    /// not nearer to the roots, and alters `node` as the policy says.
    pub proof fn lemma_child_change_frame<C: AggregationContext<Info = T>>(
        self,
        context: &C,
        node: TopRef,
        change: C::ItemChange,
    )
        requires
            self.wf(),
            self.contains(node),
        ensures
            self.child_change(context, node, change).node(node).data == context.applied(
                self.node(node).data,
                change,
            ),
            forall|other: TopRef|
                self.contains(other) && other != node && self.node(other).depth >= self.node(
                    node,
                ).depth ==> (#[trigger] self.child_change(context, node, change).node(other)).data
                    == self.node(other).data,
        decreases self.node(node).depth, 1nat, 0nat,
    {
        let info = self.node(node).data;
        let start = self.with_data(node, context.applied(info, change));
        let uppers = self.node(node).upper.order;
        let bound = self.node(node).depth as nat;
        self.lemma_same_shape_wf(start);
        assert(self.admits(self.node(node)));
        start.lemma_propagate_frame(context, uppers, context.forwarded(info, change), bound);
        let after = self.child_change(context, node, change);
        assert(after == start.propagate(context, uppers, context.forwarded(info, change), bound));
    }

    /// Handing a change on to `uppers` alters each of them as the policy
    /// says, and leaves alone every other node at their depth or further
    /// from the roots.
    pub proof fn lemma_propagate_frame<C: AggregationContext<Info = T>>(
        self,
        context: &C,
        uppers: Seq<TopRef>,
        change: Option<C::ItemChange>,
        bound: nat,
    )
        requires
            self.wf(),
            uppers.no_duplicates(),
            forall|upper: TopRef| #[trigger]
                uppers.contains(upper) ==> self.contains(upper) && self.node(upper).depth + 1
                    == bound,
        ensures
            forall|upper: TopRef| #[trigger]
                uppers.contains(upper) ==> self.propagate(context, uppers, change, bound).node(
                    upper,
                ).data == apply_opt(context, self.node(upper).data, change),
            forall|other: TopRef|
                self.contains(other) && !uppers.contains(other) && self.node(other).depth + 1
                    >= bound ==> (#[trigger] self.propagate(context, uppers, change, bound).node(
                    other,
                )).data == self.node(other).data,
        decreases bound, 0nat, uppers.len(),
    {
        if change is Some && uppers.len() > 0 {
            let first = uppers[0];
            let rest = uppers.drop_first();
            assert(uppers.contains(first));
            let next = self.child_change(context, first, change->0);
            let after = self.propagate(context, uppers, change, bound);
            assert(after == next.propagate(context, rest, change, bound));
            self.lemma_child_change_frame(context, first, change->0);
            self.lemma_child_change_shape(context, first, change->0);
            self.lemma_same_shape_wf(next);
            assert forall|upper: TopRef| #[trigger] rest.contains(upper) implies uppers.contains(
                upper,
            ) && upper != first by {
                assert(uppers[rest.index_of(upper) + 1] == upper);
            }
            next.lemma_propagate_frame(context, rest, change, bound);
            assert forall|upper: TopRef| #[trigger] uppers.contains(upper) implies after.node(
                upper,
            ).data == apply_opt(context, self.node(upper).data, change) by {
                if upper != first {
                    let i = uppers.index_of(upper);
                    assert(rest[i - 1] == upper);
                }
            }
        }
    }

    /// Whether `later` has every node of this tree, at its place and at its
    /// depth, and knows every item at every depth that this tree knows, by
    /// the same node.
    pub open spec fn kept_by(self, later: Self) -> bool {
        &&& self.nodes.len() <= later.nodes.len()
        &&& forall|i: int|
            0 <= i < self.nodes.len() ==> (#[trigger] later.nodes[i]).depth == self.nodes[i].depth
        &&& forall|key: (u64, u8)| #[trigger]
            self.index.contains_key(key) ==> later.index.contains_key(key) && later.index[key]
                == self.index[key]
    }

    /// A change of the graph takes no node away and moves none: a handle
    /// stays good, and an item keeps the node that it has at a depth.
    pub proof fn lemma_edited_keeps<C: AggregationContext<Info = T>>(
        self,
        context: &C,
        edit: Edit,
        fresh: T,
    )
        requires
            self.wf(),
        ensures
            self.edited(context, edit, fresh).wf(),
            self.kept_by(self.edited(context, edit, fresh)),
    {
        let after = self.edited(context, edit, fresh);
        match edit {
            Edit::TopTree { item, depth } => {
                if self.registered(item, depth) || self.nodes.len() < usize::MAX {
                    self.lemma_with_top_tree_wf(item, depth, fresh);
                }
            },
            Edit::AddChild { node, child } => {
                if self.permits(node, child) {
                    let depth = (self.node(node).depth + 1) as u8;
                    let made = self.with_top_tree(child, depth, fresh);
                    let lower = self.top_tree(child, depth);
                    self.lemma_with_top_tree_wf(child, depth, fresh);
                    made.lemma_add_upper_frame(context, lower, node);
                    let linked = made.with_upper(lower, made.node(lower).upper.added(node));
                    assert forall|i: int| 0 <= i < self.nodes.len() implies (
                    #[trigger] after.nodes[i]).depth == self.nodes[i].depth by {
                        assert(linked.nodes[i].depth == after.nodes[i].depth);
                    }
                }
            },
            Edit::RemoveChild { node, child } => {
                if self.permits(node, child) {
                    let depth = (self.node(node).depth + 1) as u8;
                    let made = self.with_top_tree(child, depth, fresh);
                    let lower = self.top_tree(child, depth);
                    self.lemma_with_top_tree_wf(child, depth, fresh);
                    made.lemma_remove_upper_frame(context, lower, node);
                    let unlinked = made.with_upper(lower, made.node(lower).upper.removed(node));
                    assert forall|i: int| 0 <= i < self.nodes.len() implies (
                    #[trigger] after.nodes[i]).depth == self.nodes[i].depth by {
                        assert(unlinked.nodes[i].depth == after.nodes[i].depth);
                    }
                }
            },
        }
    }

    /// Whatever the changes of the graph, in whatever order, no node is
    /// taken away and none is moved: a handle stays good, and an item keeps
    /// the node that it has at a depth.
    pub proof fn lemma_run_keeps<C: AggregationContext<Info = T>>(
        self,
        context: &C,
        edits: Seq<Edit>,
        fresh: T,
    )
        requires
            self.wf(),
        ensures
            self.run(context, edits, fresh).wf(),
            self.kept_by(self.run(context, edits, fresh)),
        decreases edits.len(),
    {
        if edits.len() > 0 {
            let before = self.run(context, edits.drop_last(), fresh);
            self.lemma_run_keeps(context, edits.drop_last(), fresh);
            before.lemma_edited_keeps(context, edits.last(), fresh);
        }
    }
}

} // verus!
