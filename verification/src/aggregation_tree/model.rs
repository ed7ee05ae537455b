//! The tree as a mathematical value, and what each operation makes of it.

use super::inner_refs::TopRef;
use super::AggregationContext;
use crate::count_hash_set::CountHashSetView;
use vstd::prelude::*;

verus! {

/// What a node holds.
#[verifier::ext_equal]
pub struct TopTreeView<T> {
    /// The level of the node. The roots are at depth 0.
    pub depth: u8,
    /// The aggregate.
    pub data: T,
    /// The nodes that this node reports into, counted by link.
    pub upper: CountHashSetView<TopRef>,
}

/// What a tree holds: its nodes, each at the position that its handle gives,
/// and the node of each item at each depth, as far as one was made.
#[verifier::ext_equal]
pub struct AggregationTreeView<T> {
    pub nodes: Seq<TopTreeView<T>>,
    pub index: Map<(u64, u8), TopRef>,
}

/// A step in the life of a tree: an item is given its node at a depth, or
/// an item gains or loses a child. The item that gains or loses is given by
/// one of its nodes, every other item by its number.
pub enum Edit {
    TopTree { item: u64, depth: u8 },
    AddChild { node: TopRef, child: u64 },
    RemoveChild { node: TopRef, child: u64 },
}

/// `info` after a change that may be absent.
pub open spec fn apply_opt<C: AggregationContext>(
    context: &C,
    info: C::Info,
    change: Option<C::ItemChange>,
) -> C::Info {
    match change {
        Some(change) => context.applied(info, change),
        None => info,
    }
}

/// The numbers of the items that `children` lists.
pub open spec fn item_keys<C: AggregationContext>(
    context: &C,
    children: Seq<(u32, &C::ItemRef)>,
) -> Seq<u64> {
    Seq::new(children.len(), |i: int| context.item_key(*children[i].1))
}

impl<T: Default> AggregationTreeView<T> {
    /// Whether `after` is this tree once the item of `node` has gained each
    /// of `children` in turn, where `fresh` lists what the nodes made on the
    /// way hold: a default aggregate for each child whose node had to be
    /// made.
    pub open spec fn gains_children<C: AggregationContext<Info = T>>(
        self,
        context: &C,
        node: TopRef,
        children: Seq<u64>,
        fresh: Seq<T>,
        after: Self,
    ) -> bool {
        &&& fresh.len() == children.len()
        &&& after == self.add_children_of_child(context, node, children, fresh)
        &&& forall|i: int|
            0 <= i < fresh.len() ==> call_ensures(T::default, (), #[trigger] fresh[i])
                || self.add_children_of_child(
                context,
                node,
                children.take(i),
                fresh.take(i),
            ).registered(children[i], (self.node(node).depth + 1) as u8)
    }
}

impl<T> AggregationTreeView<T> {
    /// The tree without nodes.
    pub open spec fn empty() -> Self {
        AggregationTreeView { nodes: Seq::empty(), index: Map::empty() }
    }

    /// Whether `node` names a node of this tree.
    pub open spec fn contains(self, node: TopRef) -> bool {
        node.upper < self.nodes.len()
    }

    /// The node that `node` names.
    pub open spec fn node(self, node: TopRef) -> TopTreeView<T> {
        self.nodes[node.upper as int]
    }

    /// Whether every node that `node` reports into is a node of this tree,
    /// one level nearer to the roots.
    pub open spec fn admits(self, node: TopTreeView<T>) -> bool {
        &&& node.upper.wf()
        &&& forall|upper: TopRef| #[trigger]
            node.upper.order.contains(upper) ==> self.contains(upper) && self.node(upper).depth + 1
                == node.depth
    }

    /// What holds of every tree: a handle can name each node, every link
    /// leads one level nearer to the roots, and the node that is on record
    /// for an item and a depth is at that depth.
    pub open spec fn wf(self) -> bool {
        &&& self.nodes.len() <= usize::MAX
        &&& forall|node: TopRef| self.contains(node) ==> #[trigger] self.admits(self.node(node))
        &&& forall|key: (u64, u8)| #[trigger]
            self.index.contains_key(key) ==> self.contains(self.index[key]) && self.node(
                self.index[key],
            ).depth == key.1
    }

    /// Whether `other` has the nodes of this tree, at the same depths and
    /// with the same links: the two differ in their aggregates at most.
    pub open spec fn same_shape(self, other: Self) -> bool {
        &&& self.nodes.len() == other.nodes.len()
        &&& self.index == other.index
        &&& forall|i: int|
            0 <= i < self.nodes.len() ==> (#[trigger] self.nodes[i]).depth == other.nodes[i].depth
                && self.nodes[i].upper == other.nodes[i].upper
    }

    /// The tree with `data` as the aggregate of `node`.
    pub open spec fn with_data(self, node: TopRef, data: T) -> Self {
        AggregationTreeView {
            nodes: self.nodes.update(
                node.upper as int,
                TopTreeView { data, ..self.node(node) },
            ),
            ..self
        }
    }

    /// The tree with `upper` as the links of `node`.
    pub open spec fn with_upper(self, node: TopRef, upper: CountHashSetView<TopRef>) -> Self {
        AggregationTreeView {
            nodes: self.nodes.update(
                node.upper as int,
                TopTreeView { upper, ..self.node(node) },
            ),
            ..self
        }
    }

    /// The tree after `change` has reached `node`: the node's aggregate takes
    /// it up, and what the policy hands on reaches every node that `node`
    /// reports into, in the order of the walk, and so on up to the roots.
    pub open spec fn child_change<C: AggregationContext<Info = T>>(
        self,
        context: &C,
        node: TopRef,
        change: C::ItemChange,
    ) -> Self
        decreases self.node(node).depth, 1nat, 0nat,
    {
        let info = self.node(node).data;
        self.with_data(node, context.applied(info, change)).propagate(
            context,
            self.node(node).upper.order,
            context.forwarded(info, change),
            self.node(node).depth as nat,
        )
    }

    /// The tree after `change`, if there is one, has reached each of `uppers`
    /// in turn. `bound` is the depth of the node that hands the change on:
    /// in a well-formed tree every one of `uppers` is a node above it.
    pub open spec fn propagate<C: AggregationContext<Info = T>>(
        self,
        context: &C,
        uppers: Seq<TopRef>,
        change: Option<C::ItemChange>,
        bound: nat,
    ) -> Self
        decreases bound, 0nat, uppers.len(),
    {
        if change is None || uppers.len() == 0 {
            self
        } else {
            let first = uppers[0];
            let next = if self.contains(first) && self.node(first).depth < bound {
                self.child_change(context, first, change->0)
            } else {
                self
            };
            next.propagate(context, uppers.drop_first(), change, bound)
        }
    }

    /// The tree after `node` has gained one link to `upper`. With the first
    /// such link, `upper` receives what the policy says `node` adds to it.
    pub open spec fn add_upper<C: AggregationContext<Info = T>>(
        self,
        context: &C,
        node: TopRef,
        upper: TopRef,
    ) -> Self {
        let links = self.node(node).upper;
        let linked = self.with_upper(node, links.added(upper));
        if links.count(upper) == 0 {
            match context.add_change(self.node(node).data) {
                Some(change) => linked.child_change(context, upper, change),
                None => linked,
            }
        } else {
            linked
        }
    }

    /// The tree after `node` has lost one link to `upper`, if it had one.
    /// With the last such link, `upper` receives what the policy says `node`
    /// takes from it.
    pub open spec fn remove_upper<C: AggregationContext<Info = T>>(
        self,
        context: &C,
        node: TopRef,
        upper: TopRef,
    ) -> Self {
        let links = self.node(node).upper;
        let unlinked = self.with_upper(node, links.removed(upper));
        if links.count(upper) == 1 {
            match context.remove_change(self.node(node).data) {
                Some(change) => unlinked.child_change(context, upper, change),
                None => unlinked,
            }
        } else {
            unlinked
        }
    }

    /// Whether the node of `item` at `depth` was made.
    pub open spec fn registered(self, item: u64, depth: u8) -> bool {
        self.index.contains_key((item, depth))
    }

    /// The handle of the node of `item` at `depth`: that of the node that was
    /// made for them, or else that of the next node to be made.
    pub open spec fn top_tree(self, item: u64, depth: u8) -> TopRef {
        if self.registered(item, depth) {
            self.index[(item, depth)]
        } else {
            TopRef { upper: self.nodes.len() as usize }
        }
    }

    /// The tree in which `item` has its node at `depth`: where there was
    /// none, a node that holds `fresh` and reports into nothing is made.
    pub open spec fn with_top_tree(self, item: u64, depth: u8, fresh: T) -> Self {
        if self.registered(item, depth) {
            self
        } else {
            AggregationTreeView {
                nodes: self.nodes.push(
                    TopTreeView { depth, data: fresh, upper: CountHashSetView::<TopRef>::empty() },
                ),
                index: self.index.insert(
                    (item, depth),
                    TopRef { upper: self.nodes.len() as usize },
                ),
            }
        }
    }

    /// How many links the node of `item` at `depth` has to `upper`: none
    /// where that node was not made.
    pub open spec fn link_count(self, item: u64, depth: u8, upper: TopRef) -> nat {
        if self.registered(item, depth) {
            self.node(self.index[(item, depth)]).upper.count(upper)
        } else {
            0
        }
    }

    /// The tree after the item of `node` has gained `child` as a child in the
    /// graph: the node of `child` one level down gains a link to `node`.
    pub open spec fn add_child_of_child<C: AggregationContext<Info = T>>(
        self,
        context: &C,
        node: TopRef,
        child: u64,
        fresh: T,
    ) -> Self {
        let depth = (self.node(node).depth + 1) as u8;
        self.with_top_tree(child, depth, fresh).add_upper(
            context,
            self.top_tree(child, depth),
            node,
        )
    }

    /// The tree after the item of `node` has lost `child` as a child in the
    /// graph: the node of `child` one level down loses a link to `node`.
    pub open spec fn remove_child_of_child<C: AggregationContext<Info = T>>(
        self,
        context: &C,
        node: TopRef,
        child: u64,
        fresh: T,
    ) -> Self {
        let depth = (self.node(node).depth + 1) as u8;
        self.with_top_tree(child, depth, fresh).remove_upper(
            context,
            self.top_tree(child, depth),
            node,
        )
    }

    /// The tree after the item of `node` has gained each of `children` in
    /// turn. `fresh` holds, for each of them, what a node made for it holds.
    pub open spec fn add_children_of_child<C: AggregationContext<Info = T>>(
        self,
        context: &C,
        node: TopRef,
        children: Seq<u64>,
        fresh: Seq<T>,
    ) -> Self
        decreases children.len(),
    {
        if children.len() == 0 {
            self
        } else {
            self.add_children_of_child(
                context,
                node,
                children.drop_last(),
                fresh.drop_last(),
            ).add_child_of_child(context, node, children.last(), fresh.last())
        }
    }

    /// Whether the item of `node` can gain or lose `child`: `node` is a node
    /// of this tree, there is a level below it, and the child's node there
    /// exists or can be made.
    pub open spec fn permits(self, node: TopRef, child: u64) -> bool {
        &&& self.contains(node)
        &&& self.node(node).depth < u8::MAX
        &&& (self.registered(child, (self.node(node).depth + 1) as u8) || self.nodes.len()
            < usize::MAX)
    }

    /// The tree after `edit`, where the tree permits it, and the tree as it
    /// is where it does not: where a handle names no node, or there is no
    /// level below, or no room for another node. A node that is made holds
    /// `fresh`.
    pub open spec fn edited<C: AggregationContext<Info = T>>(
        self,
        context: &C,
        edit: Edit,
        fresh: T,
    ) -> Self {
        match edit {
            Edit::TopTree { item, depth } => if self.registered(item, depth) || self.nodes.len()
                < usize::MAX {
                self.with_top_tree(item, depth, fresh)
            } else {
                self
            },
            Edit::AddChild { node, child } => if self.permits(node, child) {
                self.add_child_of_child(context, node, child, fresh)
            } else {
                self
            },
            Edit::RemoveChild { node, child } => if self.permits(node, child) {
                self.remove_child_of_child(context, node, child, fresh)
            } else {
                self
            },
        }
    }

    /// The tree after `edits`, one after the other.
    pub open spec fn run<C: AggregationContext<Info = T>>(
        self,
        context: &C,
        edits: Seq<Edit>,
        fresh: T,
    ) -> Self
        decreases edits.len(),
    {
        if edits.len() == 0 {
            self
        } else {
            self.run(context, edits.drop_last(), fresh).edited(context, edits.last(), fresh)
        }
    }

    /// The answer of `node` to the query `root_info_type`. A root answers
    /// from its own aggregate. Any other node asks the nodes that it reports
    /// into, in the order of the walk, and folds their answers together.
    pub open spec fn root_info<C: AggregationContext<Info = T>>(
        self,
        context: &C,
        node: TopTreeView<T>,
        root_info_type: C::RootInfoType,
    ) -> C::RootInfo
        decreases node.depth, 1nat, 0nat,
    {
        if node.depth == 0 {
            context.root_info_of(node.data, root_info_type)
        } else {
            self.merge_uppers(
                context,
                node.upper.order,
                root_info_type,
                context.empty_root_info(root_info_type),
                node.depth as nat,
            )
        }
    }

    /// `root_info` with the answers of `uppers` folded in, one after the
    /// other, up to and including the first with which the policy stops.
    /// `bound` is the depth of the node that asks: in a well-formed tree
    /// every one of `uppers` is a node above it.
    pub open spec fn merge_uppers<C: AggregationContext<Info = T>>(
        self,
        context: &C,
        uppers: Seq<TopRef>,
        root_info_type: C::RootInfoType,
        root_info: C::RootInfo,
        bound: nat,
    ) -> C::RootInfo
        decreases bound, 0nat, uppers.len(),
    {
        if uppers.len() == 0 {
            root_info
        } else if self.contains(uppers[0]) && self.node(uppers[0]).depth < bound {
            let other = self.root_info(context, self.node(uppers[0]), root_info_type);
            let merged = context.merged(root_info, other);
            if context.merge_stops(root_info, other) {
                merged
            } else {
                self.merge_uppers(context, uppers.drop_first(), root_info_type, merged, bound)
            }
        } else {
            self.merge_uppers(context, uppers.drop_first(), root_info_type, root_info, bound)
        }
    }
}

} // verus!
