//! What holds of a tree whose policy adds up: every aggregate is what a
//! fresh computation from the links would give.

use super::inner_refs::TopRef;
use super::model::{apply_opt, AggregationTreeView, Edit, TopTreeView};
use super::AggregationContext;
use vstd::prelude::*;

verus! {

/// Two changes to `info` give the same in either order.
pub open spec fn commutes_at<C: AggregationContext>(
    context: &C,
    info: C::Info,
    first: C::ItemChange,
    second: C::ItemChange,
) -> bool {
    context.applied(context.applied(info, first), second) == context.applied(
        context.applied(info, second),
        first,
    )
}

/// Once `upper` has taken up what a node holding `lower` adds, the change
/// that this node hands on for `change` brings `upper` to where it would be
/// had the node held the altered aggregate from the start.
pub open spec fn forwards_at<C: AggregationContext>(
    context: &C,
    lower: C::Info,
    upper: C::Info,
    change: C::ItemChange,
) -> bool {
    apply_opt(
        context,
        apply_opt(context, upper, context.add_change(lower)),
        context.forwarded(lower, change),
    ) == apply_opt(context, upper, context.add_change(context.applied(lower, change)))
}

/// What a node holding `lower` takes from `upper` undoes what it adds.
pub open spec fn cancels_at<C: AggregationContext>(
    context: &C,
    lower: C::Info,
    upper: C::Info,
) -> bool {
    apply_opt(
        context,
        apply_opt(context, upper, context.add_change(lower)),
        context.remove_change(lower),
    ) == upper
}

/// Whether the policy adds up: changes commute, what a node hands on keeps
/// the nodes above in step with it, and a removal undoes an addition.
pub open spec fn adds_up<C: AggregationContext>(context: &C) -> bool {
    &&& forall|info: C::Info, first: C::ItemChange, second: C::ItemChange| #[trigger]
        commutes_at(context, info, first, second)
    &&& forall|lower: C::Info, upper: C::Info, change: C::ItemChange| #[trigger]
        forwards_at(context, lower, upper, change)
    &&& forall|lower: C::Info, upper: C::Info| #[trigger] cancels_at(context, lower, upper)
}

/// Whether `extra`, applied to `info` after `old_part`, gives what
/// `new_part` gives when it is applied alone.
pub open spec fn replaces_at<C: AggregationContext>(
    context: &C,
    info: C::Info,
    old_part: Option<C::ItemChange>,
    extra: Option<C::ItemChange>,
    new_part: Option<C::ItemChange>,
) -> bool {
    apply_opt(context, apply_opt(context, info, old_part), extra) == apply_opt(
        context,
        info,
        new_part,
    )
}

/// Two changes that may be absent commute where the policy's changes do.
pub proof fn lemma_apply_opt_commutes<C: AggregationContext>(
    context: &C,
    info: C::Info,
    first: Option<C::ItemChange>,
    second: Option<C::ItemChange>,
)
    requires
        adds_up(context),
    ensures
        apply_opt(context, apply_opt(context, info, first), second) == apply_opt(
            context,
            apply_opt(context, info, second),
            first,
        ),
{
    if first is Some && second is Some {
        assert(commutes_at(context, info, first->0, second->0));
    }
}

impl<T> AggregationTreeView<T> {
    /// What the node at `position` adds to `node`: what the policy makes of
    /// its aggregate if it reports into `node`, and nothing otherwise.
    pub open spec fn part<C: AggregationContext<Info = T>>(
        self,
        context: &C,
        position: int,
        node: TopRef,
    ) -> Option<C::ItemChange> {
        if self.nodes[position].upper.contains(node) {
            context.add_change(self.nodes[position].data)
        } else {
            None
        }
    }

    /// `base` with the parts of the first `upto` nodes for `node` taken up.
    pub open spec fn gathered<C: AggregationContext<Info = T>>(
        self,
        context: &C,
        node: TopRef,
        base: T,
        upto: nat,
    ) -> T
        decreases upto,
    {
        if upto == 0 {
            base
        } else {
            apply_opt(
                context,
                self.gathered(context, node, base, (upto - 1) as nat),
                self.part(context, upto - 1, node),
            )
        }
    }

    /// Whether `node` holds `base` with the parts of all nodes taken up.
    pub open spec fn tracks<C: AggregationContext<Info = T>>(
        self,
        context: &C,
        node: TopRef,
        base: T,
    ) -> bool {
        self.node(node).data == self.gathered(context, node, base, self.nodes.len())
    }

    /// Whether every node holds what the nodes that report into it add to
    /// `base`, the aggregate of a node that nothing reports into.
    pub open spec fn consistent<C: AggregationContext<Info = T>>(
        self,
        context: &C,
        base: T,
    ) -> bool {
        forall|node: TopRef| self.contains(node) ==> #[trigger] self.tracks(context, node, base)
    }

    /// The aggregate of `node` computed afresh from the links alone: `base`
    /// with, for each node that reports into `node`, what the policy makes
    /// of that node's aggregate, itself computed afresh.
    pub open spec fn recomputed<C: AggregationContext<Info = T>>(
        self,
        context: &C,
        node: TopRef,
        base: T,
    ) -> T
        decreases 256 - self.node(node).depth, 1nat, 0nat,
    {
        self.recomputed_upto(context, node, base, self.nodes.len())
    }

    /// [`Self::recomputed`] over the first `upto` nodes.
    pub open spec fn recomputed_upto<C: AggregationContext<Info = T>>(
        self,
        context: &C,
        node: TopRef,
        base: T,
        upto: nat,
    ) -> T
        decreases 256 - self.node(node).depth, 0nat, upto,
    {
        if upto == 0 {
            base
        } else {
            let before = self.recomputed_upto(context, node, base, (upto - 1) as nat);
            let lower = TopRef { upper: (upto - 1) as usize };
            if self.node(lower).upper.contains(node) && self.node(lower).depth > self.node(
                node,
            ).depth {
                apply_opt(
                    context,
                    before,
                    context.add_change(self.recomputed(context, lower, base)),
                )
            } else {
                before
            }
        }
    }

    /// Where `other` differs from this tree, for `node`, in the part of the
    /// node at `position` only, and `extra` makes up for the difference,
    /// `other` gathers for `node` what this tree gathers and `extra` on top.
    pub proof fn lemma_gathered_replaced<C: AggregationContext<Info = T>>(
        self,
        other: Self,
        context: &C,
        node: TopRef,
        base: T,
        upto: nat,
        position: int,
        extra: Option<C::ItemChange>,
    )
        requires
            adds_up(context),
            0 <= position,
            forall|i: int|
                0 <= i < upto && i != position ==> #[trigger] other.part(context, i, node)
                    == self.part(context, i, node),
            forall|info: T| #[trigger]
                replaces_at(
                    context,
                    info,
                    self.part(context, position, node),
                    extra,
                    other.part(context, position, node),
                ),
        ensures
            other.gathered(context, node, base, upto) == (if upto > position {
                apply_opt(context, self.gathered(context, node, base, upto), extra)
            } else {
                self.gathered(context, node, base, upto)
            }),
        decreases upto,
    {
        if upto > 0 {
            let before = (upto - 1) as nat;
            self.lemma_gathered_replaced(other, context, node, base, before, position, extra);
            let mine = self.gathered(context, node, base, before);
            if before == position {
                assert(replaces_at(
                    context,
                    mine,
                    self.part(context, position, node),
                    extra,
                    other.part(context, position, node),
                ));
            } else if before > position {
                lemma_apply_opt_commutes(
                    context,
                    mine,
                    extra,
                    self.part(context, before as int, node),
                );
            }
        }
    }

    /// Trees that agree, for `node`, in the part of every node gather the
    /// same for `node`.
    pub proof fn lemma_gathered_same<C: AggregationContext<Info = T>>(
        self,
        other: Self,
        context: &C,
        node: TopRef,
        base: T,
        upto: nat,
    )
        requires
            forall|i: int|
                0 <= i < upto ==> #[trigger] other.part(context, i, node) == self.part(
                    context,
                    i,
                    node,
                ),
        ensures
            other.gathered(context, node, base, upto) == self.gathered(context, node, base, upto),
        decreases upto,
    {
        if upto > 0 {
            let before = (upto - 1) as nat;
            self.lemma_gathered_same(other, context, node, base, before);
        }
    }

    /// Handing a change on to `uppers` leaves what is gathered for a node
    /// alone that is at their depth or further from the roots.
    pub proof fn lemma_propagate_keeps_gathered<C: AggregationContext<Info = T>>(
        self,
        context: &C,
        uppers: Seq<TopRef>,
        change: Option<C::ItemChange>,
        bound: nat,
        node: TopRef,
        base: T,
    )
        requires
            self.wf(),
            uppers.no_duplicates(),
            forall|upper: TopRef| #[trigger]
                uppers.contains(upper) ==> self.contains(upper) && self.node(upper).depth + 1
                    == bound,
            self.contains(node),
            self.node(node).depth + 1 >= bound,
        ensures
            self.propagate(context, uppers, change, bound).gathered(
                context,
                node,
                base,
                self.nodes.len(),
            ) == self.gathered(context, node, base, self.nodes.len()),
    {
        let after = self.propagate(context, uppers, change, bound);
        self.lemma_propagate_shape(context, uppers, change, bound);
        self.lemma_propagate_frame(context, uppers, change, bound);
        assert forall|i: int| 0 <= i < self.nodes.len() implies #[trigger] after.part(
            context,
            i,
            node,
        ) == self.part(context, i, node) by {
            let lower = TopRef { upper: i as usize };
            if self.nodes[i].upper.contains(node) {
                assert(self.admits(self.node(lower)));
                assert(self.node(lower).upper.order.contains(node));
                assert(after.node(lower).data == self.node(lower).data);
            }
        }
        self.lemma_gathered_same(after, context, node, base, self.nodes.len());
    }

    /// A change that reaches `node` leaves what is gathered for `kept` alone
    /// where `kept` is at the depth of `node` or further from the roots.
    pub proof fn lemma_child_change_keeps_gathered<C: AggregationContext<Info = T>>(
        self,
        context: &C,
        node: TopRef,
        change: C::ItemChange,
        kept: TopRef,
        base: T,
    )
        requires
            self.wf(),
            self.contains(node),
            self.contains(kept),
            self.node(kept).depth >= self.node(node).depth,
        ensures
            self.child_change(context, node, change).gathered(
                context,
                kept,
                base,
                self.nodes.len(),
            ) == self.gathered(context, kept, base, self.nodes.len()),
    {
        let after = self.child_change(context, node, change);
        self.lemma_child_change_shape(context, node, change);
        self.lemma_child_change_frame(context, node, change);
        assert forall|i: int| 0 <= i < self.nodes.len() implies #[trigger] after.part(
            context,
            i,
            kept,
        ) == self.part(context, i, kept) by {
            let lower = TopRef { upper: i as usize };
            if self.nodes[i].upper.contains(kept) {
                assert(self.admits(self.node(lower)));
                assert(self.node(lower).upper.order.contains(kept));
                assert(after.node(lower).data == self.node(lower).data);
            }
        }
        self.lemma_gathered_same(after, context, kept, base, self.nodes.len());
    }

    /// A change that reaches `node` keeps every other node in step with
    /// the nodes that report into it.
    pub proof fn lemma_child_change_tracks<C: AggregationContext<Info = T>>(
        self,
        context: &C,
        node: TopRef,
        change: C::ItemChange,
    )
        requires
            self.wf(),
            self.contains(node),
            adds_up(context),
        ensures
            forall|other: TopRef, base: T|
                self.contains(other) && other != node && self.tracks(context, other, base)
                    ==> #[trigger] self.child_change(context, node, change).tracks(
                    context,
                    other,
                    base,
                ),
        decreases self.node(node).depth, 1nat, 0nat,
    {
        let info = self.node(node).data;
        let start = self.with_data(node, context.applied(info, change));
        let uppers = self.node(node).upper.order;
        let handed = context.forwarded(info, change);
        let bound = self.node(node).depth as nat;
        let after = self.child_change(context, node, change);
        let count = self.nodes.len();
        self.lemma_same_shape_wf(start);
        assert(self.admits(self.node(node)));
        start.lemma_propagate_tracks(context, uppers, handed, bound);
        start.lemma_propagate_frame(context, uppers, handed, bound);
        start.lemma_propagate_shape(context, uppers, handed, bound);
        assert forall|other: TopRef, base: T|
            self.contains(other) && other != node && self.tracks(
                context,
                other,
                base,
            ) implies #[trigger] after.tracks(context, other, base) by {
            if uppers.contains(other) {
                start.lemma_propagate_keeps_gathered(context, uppers, handed, bound, other, base);
                assert forall|held: T| #[trigger]
                    replaces_at(
                        context,
                        held,
                        self.part(context, node.upper as int, other),
                        handed,
                        start.part(context, node.upper as int, other),
                    ) by {
                    assert(forwards_at(context, info, held, change));
                }
                self.lemma_gathered_replaced(
                    start,
                    context,
                    other,
                    base,
                    count,
                    node.upper as int,
                    handed,
                );
            } else {
                self.lemma_gathered_same(start, context, other, base, count);
            }
        }
    }

    /// Handing a change on to `uppers` keeps every node that is not among
    /// them in step with the nodes that report into it.
    pub proof fn lemma_propagate_tracks<C: AggregationContext<Info = T>>(
        self,
        context: &C,
        uppers: Seq<TopRef>,
        change: Option<C::ItemChange>,
        bound: nat,
    )
        requires
            self.wf(),
            uppers.no_duplicates(),
            forall|upper: TopRef| #[trigger]
                uppers.contains(upper) ==> self.contains(upper) && self.node(upper).depth + 1
                    == bound,
            adds_up(context),
        ensures
            forall|other: TopRef, base: T|
                self.contains(other) && !uppers.contains(other) && self.tracks(
                    context,
                    other,
                    base,
                ) ==> #[trigger] self.propagate(context, uppers, change, bound).tracks(
                    context,
                    other,
                    base,
                ),
        decreases bound, 0nat, uppers.len(),
    {
        if change is Some && uppers.len() > 0 {
            let first = uppers[0];
            let rest = uppers.drop_first();
            assert(uppers.contains(first));
            let next = self.child_change(context, first, change->0);
            let after = self.propagate(context, uppers, change, bound);
            assert(after == next.propagate(context, rest, change, bound));
            self.lemma_child_change_tracks(context, first, change->0);
            self.lemma_child_change_shape(context, first, change->0);
            self.lemma_same_shape_wf(next);
            assert forall|upper: TopRef| #[trigger] rest.contains(upper) implies uppers.contains(
                upper,
            ) by {
                assert(uppers[rest.index_of(upper) + 1] == upper);
            }
            next.lemma_propagate_tracks(context, rest, change, bound);
        }
    }

    /// A tree without nodes is consistent.
    pub proof fn lemma_empty_consistent<C: AggregationContext<Info = T>>(context: &C, base: T)
        ensures
            Self::empty().wf(),
            Self::empty().consistent(context, base),
    {
    }

    /// A node that is made with `base` as its aggregate keeps the tree
    /// consistent.
    pub proof fn lemma_top_tree_consistent<C: AggregationContext<Info = T>>(
        self,
        context: &C,
        item: u64,
        depth: u8,
        base: T,
    )
        requires
            self.wf(),
            self.consistent(context, base),
        ensures
            self.with_top_tree(item, depth, base).consistent(context, base),
    {
        let after = self.with_top_tree(item, depth, base);
        let count = self.nodes.len();
        if !self.registered(item, depth) {
            assert forall|node: TopRef| after.contains(node) implies #[trigger] after.tracks(
                context,
                node,
                base,
            ) by {
                self.lemma_gathered_same(after, context, node, base, count);
                if node.upper < count {
                    assert(self.tracks(context, node, base));
                } else {
                    assert forall|i: int| 0 <= i < count implies !(
                    #[trigger] after.nodes[i]).upper.contains(node) by {
                        let lower = TopRef { upper: i as usize };
                        assert(self.admits(self.node(lower)));
                        if self.nodes[i].upper.contains(node) {
                            assert(self.node(lower).upper.order.contains(node));
                        }
                    }
                    after.lemma_gathered_none(context, node, base, count);
                }
            }
        }
    }

    /// Nothing is gathered for a node that none of the first `upto` nodes
    /// reports into.
    pub proof fn lemma_gathered_none<C: AggregationContext<Info = T>>(
        self,
        context: &C,
        node: TopRef,
        base: T,
        upto: nat,
    )
        requires
            forall|i: int| 0 <= i < upto ==> !(#[trigger] self.nodes[i]).upper.contains(node),
        ensures
            self.gathered(context, node, base, upto) == base,
        decreases upto,
    {
        if upto > 0 {
            self.lemma_gathered_none(context, node, base, (upto - 1) as nat);
        }
    }

    /// What a new link from `node` to `upper` changes in what is gathered:
    /// `upper` gathers in addition what `node` adds, if the link is the first
    /// from `node`; no other node gathers anything else.
    pub proof fn lemma_added_gathered<C: AggregationContext<Info = T>>(
        self,
        context: &C,
        node: TopRef,
        upper: TopRef,
        other: TopRef,
        base: T,
    )
        requires
            self.wf(),
            self.contains(node),
            self.contains(other),
            adds_up(context),
        ensures
            self.with_upper(node, self.node(node).upper.added(upper)).gathered(
                context,
                other,
                base,
                self.nodes.len(),
            ) == (if other == upper && self.node(node).upper.count(upper) == 0 {
                apply_opt(
                    context,
                    self.gathered(context, other, base, self.nodes.len()),
                    context.add_change(self.node(node).data),
                )
            } else {
                self.gathered(context, other, base, self.nodes.len())
            }),
    {
        let links = self.node(node).upper;
        let linked = self.with_upper(node, links.added(upper));
        let count = self.nodes.len();
        if other == upper && links.count(upper) == 0 {
            let added = context.add_change(self.node(node).data);
            self.lemma_gathered_replaced(
                linked,
                context,
                upper,
                base,
                count,
                node.upper as int,
                added,
            );
        } else {
            self.lemma_gathered_same(linked, context, other, base, count);
        }
    }

    /// What a link less from `node` to `upper` changes in what is gathered:
    /// what `upper` gathered was what it gathers now and what `node` adds on
    /// top, if the link was the last from `node`; no other node gathers
    /// anything else.
    pub proof fn lemma_removed_gathered<C: AggregationContext<Info = T>>(
        self,
        context: &C,
        node: TopRef,
        upper: TopRef,
        other: TopRef,
        base: T,
    )
        requires
            self.wf(),
            self.contains(node),
            self.contains(other),
            adds_up(context),
        ensures
            self.gathered(context, other, base, self.nodes.len()) == (if other == upper
                && self.node(node).upper.count(upper) == 1 {
                apply_opt(
                    context,
                    self.with_upper(node, self.node(node).upper.removed(upper)).gathered(
                        context,
                        other,
                        base,
                        self.nodes.len(),
                    ),
                    context.add_change(self.node(node).data),
                )
            } else {
                self.with_upper(node, self.node(node).upper.removed(upper)).gathered(
                    context,
                    other,
                    base,
                    self.nodes.len(),
                )
            }),
    {
        let links = self.node(node).upper;
        let unlinked = self.with_upper(node, links.removed(upper));
        let count = self.nodes.len();
        if other == upper && links.count(upper) == 1 {
            let added = context.add_change(self.node(node).data);
            unlinked.lemma_gathered_replaced(
                self,
                context,
                upper,
                base,
                count,
                node.upper as int,
                added,
            );
        } else {
            self.lemma_gathered_same(unlinked, context, other, base, count);
        }
    }

    /// A new link keeps the tree consistent.
    pub proof fn lemma_add_upper_consistent<C: AggregationContext<Info = T>>(
        self,
        context: &C,
        node: TopRef,
        upper: TopRef,
        base: T,
    )
        requires
            self.wf(),
            self.contains(node),
            self.contains(upper),
            self.node(node).depth == self.node(upper).depth + 1,
            adds_up(context),
            self.consistent(context, base),
        ensures
            self.add_upper(context, node, upper).wf(),
            self.add_upper(context, node, upper).consistent(context, base),
    {
        let links = self.node(node).upper;
        let linked = self.with_upper(node, links.added(upper));
        let after = self.add_upper(context, node, upper);
        let added = context.add_change(self.node(node).data);
        self.lemma_add_upper_frame(context, node, upper);
        self.lemma_with_upper_added_wf(node, upper);
        assert forall|other: TopRef| after.contains(other) implies #[trigger] after.tracks(
            context,
            other,
            base,
        ) by {
            assert(self.tracks(context, other, base));
            self.lemma_added_gathered(context, node, upper, other, base);
            if links.count(upper) == 0 && added is Some {
                linked.lemma_child_change_tracks(context, upper, added->0);
                linked.lemma_child_change_frame(context, upper, added->0);
                if other == upper {
                    linked.lemma_child_change_keeps_gathered(
                        context,
                        upper,
                        added->0,
                        upper,
                        base,
                    );
                }
            }
        }
    }

    /// A link less keeps the tree consistent.
    pub proof fn lemma_remove_upper_consistent<C: AggregationContext<Info = T>>(
        self,
        context: &C,
        node: TopRef,
        upper: TopRef,
        base: T,
    )
        requires
            self.wf(),
            self.contains(node),
            self.contains(upper),
            adds_up(context),
            self.consistent(context, base),
        ensures
            self.remove_upper(context, node, upper).wf(),
            self.remove_upper(context, node, upper).consistent(context, base),
    {
        let links = self.node(node).upper;
        let unlinked = self.with_upper(node, links.removed(upper));
        let after = self.remove_upper(context, node, upper);
        let removed = context.remove_change(self.node(node).data);
        let count = self.nodes.len();
        self.lemma_remove_upper_frame(context, node, upper);
        self.lemma_with_upper_removed_wf(node, upper);
        assert forall|other: TopRef| after.contains(other) implies #[trigger] after.tracks(
            context,
            other,
            base,
        ) by {
            assert(self.tracks(context, other, base));
            self.lemma_removed_gathered(context, node, upper, other, base);
            if other == upper && links.count(upper) == 1 {
                assert(cancels_at(
                    context,
                    self.node(node).data,
                    unlinked.gathered(context, upper, base, count),
                ));
            }
            if links.count(upper) == 1 && removed is Some {
                unlinked.lemma_child_change_tracks(context, upper, removed->0);
                unlinked.lemma_child_change_frame(context, upper, removed->0);
                if other == upper {
                    unlinked.lemma_child_change_keeps_gathered(
                        context,
                        upper,
                        removed->0,
                        upper,
                        base,
                    );
                }
            }
        }
    }

    /// In a consistent tree, what is gathered for a node is what a fresh
    /// computation gives.
    pub proof fn lemma_gathered_is_recomputed<C: AggregationContext<Info = T>>(
        self,
        context: &C,
        node: TopRef,
        base: T,
        upto: nat,
    )
        requires
            self.wf(),
            self.consistent(context, base),
            self.contains(node),
            upto <= self.nodes.len(),
        ensures
            self.recomputed_upto(context, node, base, upto) == self.gathered(
                context,
                node,
                base,
                upto,
            ),
        decreases 256 - self.node(node).depth, 0nat, upto,
    {
        if upto > 0 {
            let before = (upto - 1) as nat;
            let lower = TopRef { upper: before as usize };
            self.lemma_gathered_is_recomputed(context, node, base, before);
            assert(self.admits(self.node(lower)));
            if self.node(lower).upper.contains(node) {
                assert(self.node(lower).upper.order.contains(node));
                self.lemma_consistent_is_recomputed(context, lower, base);
            }
        }
    }

    /// In a consistent tree, every node holds what a fresh computation from
    /// the links gives: the tree that was kept up to date change by change
    /// cannot be told from one that was computed at once.
    pub proof fn lemma_consistent_is_recomputed<C: AggregationContext<Info = T>>(
        self,
        context: &C,
        node: TopRef,
        base: T,
    )
        requires
            self.wf(),
            self.consistent(context, base),
            self.contains(node),
        ensures
            self.node(node).data == self.recomputed(context, node, base),
        decreases 256 - self.node(node).depth, 1nat, 0nat,
    {
        self.lemma_gathered_is_recomputed(context, node, base, self.nodes.len());
        assert(self.tracks(context, node, base));
    }

    /// The fresh computation looks at the links only: trees of one shape
    /// give the same.
    pub proof fn lemma_recomputed_same_shape<C: AggregationContext<Info = T>>(
        self,
        other: Self,
        context: &C,
        node: TopRef,
        base: T,
        upto: nat,
    )
        requires
            self.same_shape(other),
            self.contains(node),
            upto <= self.nodes.len(),
        ensures
            self.recomputed_upto(context, node, base, upto) == other.recomputed_upto(
                context,
                node,
                base,
                upto,
            ),
            upto == self.nodes.len() ==> self.recomputed(context, node, base) == other.recomputed(
                context,
                node,
                base,
            ),
        decreases 256 - self.node(node).depth, 0nat, upto,
    {
        if upto > 0 {
            let before = (upto - 1) as nat;
            let lower = TopRef { upper: before as usize };
            self.lemma_recomputed_same_shape(other, context, node, base, before);
            if self.node(lower).upper.contains(node) && self.node(lower).depth > self.node(
                node,
            ).depth {
                self.lemma_recomputed_same_shape(other, context, lower, base, self.nodes.len());
            }
        }
    }

    /// Trees of one shape that are both consistent hold the same.
    pub proof fn lemma_consistent_same_shape<C: AggregationContext<Info = T>>(
        self,
        other: Self,
        context: &C,
        base: T,
    )
        requires
            self.wf(),
            self.same_shape(other),
            self.consistent(context, base),
            other.consistent(context, base),
        ensures
            self == other,
    {
        self.lemma_same_shape_wf(other);
        assert forall|i: int| 0 <= i < self.nodes.len() implies self.nodes[i] == other.nodes[i] by {
            let node = TopRef { upper: i as usize };
            self.lemma_consistent_is_recomputed(context, node, base);
            other.lemma_consistent_is_recomputed(context, node, base);
            self.lemma_recomputed_same_shape(other, context, node, base, self.nodes.len());
        }
    }

    /// In a consistent tree, a link that is added and taken away at once
    /// leaves every node as it was: its links and its aggregate.
    pub proof fn lemma_add_remove_upper_restores<C: AggregationContext<Info = T>>(
        self,
        context: &C,
        node: TopRef,
        upper: TopRef,
        base: T,
    )
        requires
            self.wf(),
            self.contains(node),
            self.contains(upper),
            self.node(node).depth == self.node(upper).depth + 1,
            adds_up(context),
            self.consistent(context, base),
        ensures
            self.add_upper(context, node, upper).remove_upper(context, node, upper) == self,
    {
        let links = self.node(node).upper;
        let linked = self.with_upper(node, links.added(upper));
        let added = self.add_upper(context, node, upper);
        let unlinked = added.with_upper(node, added.node(node).upper.removed(upper));
        let after = added.remove_upper(context, node, upper);
        self.lemma_add_upper_consistent(context, node, upper, base);
        self.lemma_add_upper_frame(context, node, upper);
        added.lemma_remove_upper_consistent(context, node, upper, base);
        added.lemma_remove_upper_frame(context, node, upper);
        assert(self.admits(self.node(node)));
        links.lemma_added_removed(upper);
        assert(self.same_shape(unlinked)) by {
            assert forall|i: int| 0 <= i < self.nodes.len() implies (#[trigger] self.nodes[i]).depth
                == unlinked.nodes[i].depth && self.nodes[i].upper == unlinked.nodes[i].upper by {
                assert(linked.nodes[i].depth == added.nodes[i].depth);
            }
        }
        self.lemma_same_shape_trans(unlinked, after);
        self.lemma_consistent_same_shape(after, context, base);
    }

    /// A child that an item gains keeps the tree consistent.
    pub proof fn lemma_add_child_consistent<C: AggregationContext<Info = T>>(
        self,
        context: &C,
        node: TopRef,
        child: u64,
        base: T,
    )
        requires
            self.wf(),
            self.permits(node, child),
            adds_up(context),
            self.consistent(context, base),
        ensures
            self.add_child_of_child(context, node, child, base).wf(),
            self.add_child_of_child(context, node, child, base).consistent(context, base),
    {
        let depth = (self.node(node).depth + 1) as u8;
        let made = self.with_top_tree(child, depth, base);
        self.lemma_with_top_tree_wf(child, depth, base);
        self.lemma_top_tree_consistent(context, child, depth, base);
        made.lemma_add_upper_consistent(context, self.top_tree(child, depth), node, base);
    }

    /// A child that an item loses keeps the tree consistent.
    pub proof fn lemma_remove_child_consistent<C: AggregationContext<Info = T>>(
        self,
        context: &C,
        node: TopRef,
        child: u64,
        base: T,
    )
        requires
            self.wf(),
            self.permits(node, child),
            adds_up(context),
            self.consistent(context, base),
        ensures
            self.remove_child_of_child(context, node, child, base).wf(),
            self.remove_child_of_child(context, node, child, base).consistent(context, base),
    {
        let depth = (self.node(node).depth + 1) as u8;
        let made = self.with_top_tree(child, depth, base);
        self.lemma_with_top_tree_wf(child, depth, base);
        self.lemma_top_tree_consistent(context, child, depth, base);
        made.lemma_remove_upper_consistent(context, self.top_tree(child, depth), node, base);
    }

    /// Whatever nodes are made and whatever children the items gain and
    /// lose, in whatever order, a tree that was consistent stays so, and
    /// therefore holds in every node, the roots among them, what a fresh
    /// computation from the links that are left gives. The tree without
    /// nodes is consistent, so this holds of every tree that was built by
    /// such steps alone.
    pub proof fn lemma_run_consistent<C: AggregationContext<Info = T>>(
        self,
        context: &C,
        edits: Seq<Edit>,
        base: T,
    )
        requires
            self.wf(),
            adds_up(context),
            self.consistent(context, base),
        ensures
            self.run(context, edits, base).wf(),
            self.run(context, edits, base).consistent(context, base),
            forall|node: TopRef|
                self.run(context, edits, base).contains(node) ==> (#[trigger] self.run(
                    context,
                    edits,
                    base,
                ).node(node)).data == self.run(context, edits, base).recomputed(
                    context,
                    node,
                    base,
                ),
        decreases edits.len(),
    {
        let after = self.run(context, edits, base);
        if edits.len() > 0 {
            let before = self.run(context, edits.drop_last(), base);
            self.lemma_run_consistent(context, edits.drop_last(), base);
            match edits.last() {
                Edit::TopTree { item, depth } => {
                    if before.registered(item, depth) || before.nodes.len() < usize::MAX {
                        before.lemma_with_top_tree_wf(item, depth, base);
                        before.lemma_top_tree_consistent(context, item, depth, base);
                    }
                },
                Edit::AddChild { node, child } => {
                    if before.permits(node, child) {
                        before.lemma_add_child_consistent(context, node, child, base);
                    }
                },
                Edit::RemoveChild { node, child } => {
                    if before.permits(node, child) {
                        before.lemma_remove_child_consistent(context, node, child, base);
                    }
                },
            }
        }
        assert forall|node: TopRef| after.contains(node) implies (#[trigger] after.node(node)).data
            == after.recomputed(context, node, base) by {
            after.lemma_consistent_is_recomputed(context, node, base);
        }
    }

    /// A tree that was built from nothing, by making nodes and by letting
    /// items gain and lose children, holds in every node what a fresh
    /// computation from its links gives.
    pub proof fn lemma_built_is_recomputed<C: AggregationContext<Info = T>>(
        context: &C,
        edits: Seq<Edit>,
        base: T,
        node: TopRef,
    )
        requires
            adds_up(context),
            Self::empty().run(context, edits, base).contains(node),
        ensures
            Self::empty().run(context, edits, base).node(node).data == Self::empty().run(
                context,
                edits,
                base,
            ).recomputed(context, node, base),
    {
        Self::lemma_empty_consistent(context, base);
        Self::empty().lemma_run_consistent(context, edits, base);
    }

    /// In a consistent tree, a child that an item gains and loses at once
    /// leaves every node as it was, its links and its aggregate. The node
    /// that was made for the child, if one was, stays.
    pub proof fn lemma_add_remove_child_restores<C: AggregationContext<Info = T>>(
        self,
        context: &C,
        node: TopRef,
        child: u64,
        base: T,
    )
        requires
            self.wf(),
            self.permits(node, child),
            adds_up(context),
            self.consistent(context, base),
        ensures
            self.add_child_of_child(context, node, child, base).remove_child_of_child(
                context,
                node,
                child,
                base,
            ) == self.with_top_tree(child, (self.node(node).depth + 1) as u8, base),
    {
        let depth = (self.node(node).depth + 1) as u8;
        let made = self.with_top_tree(child, depth, base);
        let lower = self.top_tree(child, depth);
        self.lemma_with_top_tree_wf(child, depth, base);
        self.lemma_top_tree_consistent(context, child, depth, base);
        made.lemma_add_upper_frame(context, lower, node);
        made.lemma_add_remove_upper_restores(context, lower, node, base);
    }

    /// Once the policy stops the query with the answer of the first of
    /// `uppers`, the result is that answer folded into `root_info`: none of
    /// the others is asked, whatever they are.
    pub proof fn lemma_merge_uppers_stops<C: AggregationContext<Info = T>>(
        self,
        context: &C,
        uppers: Seq<TopRef>,
        root_info_type: C::RootInfoType,
        root_info: C::RootInfo,
        bound: nat,
    )
        requires
            uppers.len() > 0,
            self.contains(uppers[0]),
            self.node(uppers[0]).depth < bound,
            context.merge_stops(
                root_info,
                self.root_info(context, self.node(uppers[0]), root_info_type),
            ),
        ensures
            self.merge_uppers(context, uppers, root_info_type, root_info, bound) == context.merged(
                root_info,
                self.root_info(context, self.node(uppers[0]), root_info_type),
            ),
    {
    }

    /// Once the policy stops the query with the answer of the first node
    /// asked, it makes no difference which nodes would have been asked
    /// after it.
    pub proof fn lemma_merge_uppers_ignores_rest<C: AggregationContext<Info = T>>(
        self,
        context: &C,
        uppers: Seq<TopRef>,
        others: Seq<TopRef>,
        root_info_type: C::RootInfoType,
        root_info: C::RootInfo,
        bound: nat,
    )
        requires
            uppers.len() > 0,
            others.len() > 0,
            uppers[0] == others[0],
            self.contains(uppers[0]),
            self.node(uppers[0]).depth < bound,
            context.merge_stops(
                root_info,
                self.root_info(context, self.node(uppers[0]), root_info_type),
            ),
        ensures
            self.merge_uppers(context, uppers, root_info_type, root_info, bound)
                == self.merge_uppers(context, others, root_info_type, root_info, bound),
    {
        self.lemma_merge_uppers_stops(context, uppers, root_info_type, root_info, bound);
        self.lemma_merge_uppers_stops(context, others, root_info_type, root_info, bound);
    }

    /// Where the policy stops the query of `node` with the answer of the
    /// first node that `node` reports into, the answer of `node` is that
    /// answer folded into the empty one.
    pub proof fn lemma_root_info_stops<C: AggregationContext<Info = T>>(
        self,
        context: &C,
        node: TopTreeView<T>,
        root_info_type: C::RootInfoType,
    )
        requires
            node.depth > 0,
            node.upper.order.len() > 0,
            self.contains(node.upper.order[0]),
            self.node(node.upper.order[0]).depth < node.depth,
            context.merge_stops(
                context.empty_root_info(root_info_type),
                self.root_info(context, self.node(node.upper.order[0]), root_info_type),
            ),
        ensures
            self.root_info(context, node, root_info_type) == context.merged(
                context.empty_root_info(root_info_type),
                self.root_info(context, self.node(node.upper.order[0]), root_info_type),
            ),
    {
        self.lemma_merge_uppers_stops(
            context,
            node.upper.order,
            root_info_type,
            context.empty_root_info(root_info_type),
            node.depth as nat,
        );
    }
}

} // verus!
