//! The nodes of the tree and the operations that link and update them.
//!
//! A tree owns its nodes and hands out handles to them. A node is made when
//! it is first asked for and lives as long as the tree, so a handle stays
//! good for good. An operation that reaches from one node to another goes
//! through the tree, and every step of it leads from a node to one exactly
//! one level nearer to the roots: that is why it ends, and a tree with a
//! lock on every node could take its locks in that order.

use super::inner_refs::TopRef;
use super::model::{item_keys, AggregationTreeView, TopTreeView};
use super::AggregationContext;
use crate::count_hash_set::{CountHashSet, CountHashSetView};
use std::collections::HashMap;
use std::ops::ControlFlow;
use vstd::prelude::*;

verus! {

/// One node: the aggregate of one graph item at one depth.
pub struct TopTree<T> {
    depth: u8,
    data: T,
    upper: CountHashSet<TopRef>,
}

impl<T> View for TopTree<T> {
    type V = TopTreeView<T>;

    closed spec fn view(&self) -> TopTreeView<T> {
        TopTreeView { depth: self.depth, data: self.data, upper: self.upper@ }
    }
}

impl<T: Default> TopTree<T> {
    /// A node at `depth` that reports into nothing and holds the default
    /// aggregate.
    pub fn new(depth: u8) -> (node: Self)
        ensures
            node.wf(),
            node@.depth == depth,
            node@.upper == CountHashSetView::<TopRef>::empty(),
            call_ensures(T::default, (), node@.data),
    {
        Self { depth, data: T::default(), upper: CountHashSet::new() }
    }
}

impl<T> TopTree<T> {
    /// What holds of every node: its links are a well-formed set.
    pub closed spec fn wf(&self) -> bool {
        self.upper.wf()
    }

    /// The links of a well-formed node are well-formed.
    pub proof fn lemma_view_wf(&self)
        requires
            self.wf(),
        ensures
            self@.upper.wf(),
    {
        self.upper.lemma_view_wf();
    }

    /// The level of the node.
    pub fn depth(&self) -> (depth: u8)
        ensures
            depth == self@.depth,
    {
        self.depth
    }

    /// The aggregate of the node.
    pub fn info(&self) -> (info: &T)
        ensures
            *info == self@.data,
    {
        &self.data
    }

    /// The nodes that this node reports into.
    pub fn upper(&self) -> (upper: &CountHashSet<TopRef>)
        requires
            self.wf(),
        ensures
            upper.wf(),
            upper@ == self@.upper,
    {
        &self.upper
    }

    /// Answers the query `root_info_type` for this node of `tree`. A root
    /// answers from its own aggregate. Any other node asks the nodes that it
    /// reports into and folds their answers together, until the policy stops
    /// the query or none is left.
    pub fn get_root_info<C: AggregationContext<Info = T>>(
        &self,
        context: &C,
        root_info_type: &C::RootInfoType,
        tree: &AggregationTree<T>,
    ) -> (root_info: C::RootInfo)
        requires
            self.wf(),
            tree.wf(),
            tree@.admits(self@),
        ensures
            root_info == tree@.root_info(context, self@, *root_info_type),
        decreases self@.depth, 1nat, 0nat,
    {
        if self.depth == 0 {
            context.info_to_root_info(&self.data, root_info_type)
        } else {
            let mut result = context.new_root_info(root_info_type);
            let uppers = self.upper.iter();
            let ghost bound = self@.depth as nat;
            let ghost whole = tree@.merge_uppers(context, uppers@, *root_info_type, result, bound);
            assert(uppers@.skip(0) =~= uppers@);
            let mut i: usize = 0;
            while i < uppers.len()
                invariant_except_break
                    i <= uppers.len(),
                    tree@.merge_uppers(
                        context,
                        uppers@.skip(i as int),
                        *root_info_type,
                        result,
                        bound,
                    ) == whole,
                invariant
                    self.wf(),
                    tree.wf(),
                    tree@.admits(self@),
                    uppers@ == self@.upper.order,
                    bound == self@.depth,
                ensures
                    result == whole,
                decreases uppers.len() - i,
            {
                let upper = uppers[i];
                proof {
                    assert(self@.upper.order.contains(upper));
                    assert(uppers@.skip(i as int).drop_first() =~= uppers@.skip(i as int + 1));
                }
                let info = tree.node(upper).get_root_info(context, root_info_type, tree);
                let flow = context.merge_root_info(&mut result, info);
                match flow {
                    ControlFlow::Break(_) => {
                        break ;
                    },
                    ControlFlow::Continue(_) => {},
                }
                i += 1;
            }
            result
        }
    }
}

/// The nodes of an aggregation, each named by a [`TopRef`], and a record of
/// the node that was made for each item at each depth.
pub struct AggregationTree<T> {
    nodes: Vec<TopTree<T>>,
    index: HashMap<u128, usize>,
}

/// The number under which the node of item `item` at `depth` is filed.
pub open spec fn index_key(item: u64, depth: u8) -> u128 {
    (item as u128 * 256 + depth as u128) as u128
}

impl<T> View for AggregationTree<T> {
    type V = AggregationTreeView<T>;

    closed spec fn view(&self) -> AggregationTreeView<T> {
        AggregationTreeView {
            nodes: Seq::new(self.nodes@.len(), |i: int| self.nodes@[i]@),
            index: Map::new(
                |key: (u64, u8)| self.index@.contains_key(index_key(key.0, key.1)),
                |key: (u64, u8)| TopRef { upper: self.index@[index_key(key.0, key.1)] },
            ),
        }
    }
}

/// Computes [`index_key`].
fn index_key_of(item: u64, depth: u8) -> (key: u128)
    ensures
        key == index_key(item, depth),
{
    item as u128 * 256 + depth as u128
}

impl<T> AggregationTree<T> {
    /// What holds of every tree: its view is well-formed, and so is each
    /// of its nodes.
    pub closed spec fn wf(&self) -> bool {
        &&& self@.wf()
        &&& forall|i: int| 0 <= i < self.nodes@.len() ==> #[trigger] self.nodes@[i].wf()
    }

    /// A well-formed tree has a well-formed view.
    pub proof fn lemma_view_wf(&self)
        requires
            self.wf(),
        ensures
            self@.wf(),
    {
    }

    /// A tree without nodes.
    pub fn new() -> (tree: Self)
        ensures
            tree.wf(),
            tree@ == AggregationTreeView::<T>::empty(),
    {
        AggregationTree { nodes: Vec::new(), index: HashMap::new() }
    }

    /// The number of nodes.
    pub fn len(&self) -> (len: usize)
        ensures
            len == self@.nodes.len(),
    {
        self.nodes.len()
    }

    /// Whether `node` names a node of this tree.
    pub fn contains(&self, node: TopRef) -> (found: bool)
        ensures
            found == self@.contains(node),
    {
        node.upper < self.nodes.len()
    }

    /// The node of the item with the number `item` at `depth`, if one was
    /// made.
    pub fn get(&self, item: u64, depth: u8) -> (found: Option<TopRef>)
        requires
            self.wf(),
        ensures
            found.is_some() == self@.registered(item, depth),
            found matches Some(node) ==> node == self@.top_tree(item, depth) && self@.contains(
                node,
            ),
    {
        let key = index_key_of(item, depth);
        match self.index.get(&key) {
            Some(position) => Some(TopRef { upper: *position }),
            None => None,
        }
    }

    /// Access to the aggregate of `node` for as long as the caller holds
    /// the result. The tree cannot be touched meanwhile, and whatever the
    /// caller leaves there is the node's aggregate afterwards.
    pub fn lock_info(&mut self, node: TopRef) -> (info: &mut T)
        requires
            old(self).wf(),
            old(self)@.contains(node),
        ensures
            *info == old(self)@.node(node).data,
            final(self)@ == old(self)@.with_data(node, *final(info)),
            final(self).wf(),
    {
        proof {
            assert(self.nodes@[node.upper as int].wf());
            assert forall|data: T| #[trigger] self@.with_data(node, data).wf() by {
                self@.lemma_same_shape_wf(self@.with_data(node, data));
            }
        }
        &mut self.nodes[node.upper].data
    }

    /// The node that `node` names.
    pub fn node(&self, node: TopRef) -> (found: &TopTree<T>)
        requires
            self.wf(),
            self@.contains(node),
        ensures
            found.wf(),
            found@ == self@.node(node),
            self@.admits(found@),
    {
        &self.nodes[node.upper]
    }

    /// Links `node` to `upper` once more. With the first link, `upper`
    /// takes up what `node` holds by then.
    pub fn add_upper<C: AggregationContext<Info = T>>(
        &mut self,
        context: &C,
        node: TopRef,
        upper: TopRef,
    )
        requires
            old(self).wf(),
            old(self)@.contains(node),
            old(self)@.contains(upper),
            old(self)@.node(node).depth == old(self)@.node(upper).depth + 1,
            old(self)@.node(node).upper.count(upper) < usize::MAX,
        ensures
            final(self).wf(),
            final(self)@ == old(self)@.add_upper(context, node, upper),
    {
        assert(self.nodes@[node.upper as int].wf());
        let first = self.nodes[node.upper].upper.add(upper);
        proof {
            let links = old(self)@.node(node).upper;
            let linked = old(self)@.with_upper(node, links.added(upper));
            assert(self@.nodes =~= linked.nodes);
            old(self)@.lemma_with_upper_added_wf(node, upper);
        }
        if first {
            if let Some(change) = context.info_to_add_change(&self.nodes[node.upper].data) {
                self.child_change(context, upper, &change);
            }
        }
    }

    /// Takes one link from `node` to `upper` away, if there is one. With the
    /// last link, `upper` gives up what `node` holds by then.
    pub fn remove_upper<C: AggregationContext<Info = T>>(
        &mut self,
        context: &C,
        node: TopRef,
        upper: TopRef,
    )
        requires
            old(self).wf(),
            old(self)@.contains(node),
            old(self)@.contains(upper),
        ensures
            final(self).wf(),
            final(self)@ == old(self)@.remove_upper(context, node, upper),
    {
        assert(self.nodes@[node.upper as int].wf());
        let last = self.nodes[node.upper].upper.remove(upper);
        proof {
            let links = old(self)@.node(node).upper;
            let unlinked = old(self)@.with_upper(node, links.removed(upper));
            assert(self@.nodes =~= unlinked.nodes);
            old(self)@.lemma_with_upper_removed_wf(node, upper);
        }
        if last {
            if let Some(change) = context.info_to_remove_change(&self.nodes[node.upper].data) {
                self.child_change(context, upper, &change);
            }
        }
    }

    /// Lets `change` reach `node`: the node's aggregate takes it up, and what
    /// the policy hands on travels to every node that `node` reports into.
    pub fn child_change<C: AggregationContext<Info = T>>(
        &mut self,
        context: &C,
        node: TopRef,
        change: &C::ItemChange,
    )
        requires
            old(self).wf(),
            old(self)@.contains(node),
        ensures
            final(self).wf(),
            final(self)@ == old(self)@.child_change(context, node, *change),
        decreases old(self)@.node(node).depth, 1nat, 0nat,
    {
        let forwarded = context.apply_change(&mut self.nodes[node.upper].data, change);
        proof {
            let start = old(self)@.with_data(
                node,
                context.applied(old(self)@.node(node).data, *change),
            );
            assert(self@.nodes =~= start.nodes);
            old(self)@.lemma_same_shape_wf(start);
            assert forall|i: int| 0 <= i < self.nodes@.len() implies #[trigger]
                self.nodes@[i].wf() by {
                assert(old(self).nodes@[i].wf());
            }
        }
        self.propagate_change_to_upper(context, node, forwarded);
    }

    /// Hands `change`, if there is one, to every node that `node` reports
    /// into.
    pub fn propagate_change_to_upper<C: AggregationContext<Info = T>>(
        &mut self,
        context: &C,
        node: TopRef,
        change: Option<C::ItemChange>,
    )
        requires
            old(self).wf(),
            old(self)@.contains(node),
        ensures
            final(self).wf(),
            final(self)@ == old(self)@.propagate(
                context,
                old(self)@.node(node).upper.order,
                change,
                old(self)@.node(node).depth as nat,
            ),
        decreases old(self)@.node(node).depth, 0nat, 1nat,
    {
        proof {
            old(self)@.lemma_propagate_shape(
                context,
                old(self)@.node(node).upper.order,
                change,
                old(self)@.node(node).depth as nat,
            );
        }
        let Some(change) = change else {
            return ;
        };
        assert(self.nodes@[node.upper as int].wf());
        let uppers = self.nodes[node.upper].upper.iter();
        assert(uppers@.skip(0) =~= uppers@);
        let ghost bound = self@.node(node).depth as nat;
        let mut i: usize = 0;
        while i < uppers.len()
            invariant
                i <= uppers.len(),
                self.wf(),
                old(self)@.contains(node),
                old(self)@.same_shape(self@),
                bound == old(self)@.node(node).depth,
                uppers@ == old(self)@.node(node).upper.order,
                self@.propagate(context, uppers@.skip(i as int), Some(change), bound) == old(
                    self,
                )@.propagate(context, uppers@, Some(change), bound),
            decreases uppers.len() - i,
        {
            let upper = uppers[i];
            proof {
                assert(self@.admits(self@.node(node)));
                assert(self@.node(node).upper.order.contains(upper));
                assert(uppers@.skip(i as int).drop_first() =~= uppers@.skip(i as int + 1));
                self@.lemma_child_change_shape(context, upper, change);
            }
            self.child_change(context, upper, &change);
            i += 1;
        }
    }
}

impl<T: Default> AggregationTree<T> {
    /// The node of the item `reference` at `depth`. The first call for an
    /// item and a depth makes the node; every later call returns the same
    /// handle.
    pub fn top_tree<C: AggregationContext<Info = T>>(
        &mut self,
        context: &C,
        reference: &C::ItemRef,
        depth: u8,
    ) -> (node: TopRef)
        requires
            old(self).wf(),
        ensures
            final(self).wf(),
            node == old(self)@.top_tree(context.item_key(*reference), depth),
            final(self)@ == old(self)@.with_top_tree(
                context.item_key(*reference),
                depth,
                final(self)@.node(node).data,
            ),
            !old(self)@.registered(context.item_key(*reference), depth) ==> call_ensures(
                T::default,
                (),
                final(self)@.node(node).data,
            ),
            old(self)@.registered(context.item_key(*reference), depth) || old(self)@.nodes.len()
                < usize::MAX,
    {
        let item = context.item_id(reference);
        let key = index_key_of(item, depth);
        match self.index.get(&key) {
            Some(position) => TopRef { upper: *position },
            None => {
                let position = self.nodes.len();
                let made = TopTree::new(depth);
                self.nodes.push(made);
                self.index.insert(key, position);
                let node = TopRef { upper: position };
                proof {
                    let after = old(self)@.with_top_tree(item, depth, made@.data);
                    assert(self@.nodes =~= after.nodes);
                    assert(self@.index =~= after.index);
                    assert(self.nodes.len() == self.nodes@.len());
                    old(self)@.lemma_with_top_tree_wf(item, depth, made@.data);
                }
                node
            },
        }
    }

    /// Records that the item of `node` has gained `child_of_child` as a
    /// child: the child's node one level down is linked to `node`.
    pub fn add_child_of_child<C: AggregationContext<Info = T>>(
        &mut self,
        context: &C,
        node: TopRef,
        child_of_child: &C::ItemRef,
    )
        requires
            old(self).wf(),
            old(self)@.contains(node),
            old(self)@.node(node).depth < u8::MAX,
            old(self)@.link_count(
                context.item_key(*child_of_child),
                (old(self)@.node(node).depth + 1) as u8,
                node,
            ) < usize::MAX,
        ensures
            final(self).wf(),
            ({
                let item = context.item_key(*child_of_child);
                let depth = (old(self)@.node(node).depth + 1) as u8;
                let fresh = final(self)@.node(old(self)@.top_tree(item, depth)).data;
                &&& final(self)@ == old(self)@.add_child_of_child(context, node, item, fresh)
                &&& !old(self)@.registered(item, depth) ==> call_ensures(T::default, (), fresh)
                &&& old(self)@.permits(node, item)
            }),
    {
        let depth = self.nodes[node.upper].depth + 1;
        let child = self.top_tree(context, child_of_child, depth);
        proof {
            let item = context.item_key(*child_of_child);
            old(self)@.lemma_with_top_tree_wf(item, depth, self@.node(child).data);
            self@.lemma_add_upper_frame(context, child, node);
        }
        self.add_upper(context, child, node);
    }

    /// Records that the item of `node` has gained each of `children`, in
    /// their order. The number that comes with a child is not looked at.
    pub fn add_children_of_child<C: AggregationContext<Info = T>>(
        &mut self,
        context: &C,
        node: TopRef,
        children: &[(u32, &C::ItemRef)],
    )
        requires
            old(self).wf(),
            old(self)@.contains(node),
            old(self)@.node(node).depth < u8::MAX,
            forall|i: int|
                0 <= i < children@.len() ==> old(self)@.link_count(
                    #[trigger] item_keys(context, children@)[i],
                    (old(self)@.node(node).depth + 1) as u8,
                    node,
                ) + children@.len() <= usize::MAX,
        ensures
            final(self).wf(),
            exists|fresh: Seq<T>| #[trigger]
                old(self)@.gains_children(
                    context,
                    node,
                    item_keys(context, children@),
                    fresh,
                    final(self)@,
                ),
    {
        let ghost start = self@;
        let ghost items = item_keys(context, children@);
        let ghost depth = (self@.node(node).depth + 1) as u8;
        let ghost mut fresh: Seq<T> = Seq::empty();
        let mut done: usize = 0;
        while done < children.len()
            invariant
                done <= children.len(),
                self.wf(),
                start.wf(),
                self@.contains(node),
                self@.node(node).depth == start.node(node).depth,
                start.node(node).depth < u8::MAX,
                depth == start.node(node).depth + 1,
                items == item_keys(context, children@),
                fresh.len() == done,
                self@ == start.add_children_of_child(context, node, items.take(done as int), fresh),
                forall|i: int|
                    0 <= i < children@.len() ==> self@.link_count(#[trigger] items[i], depth, node)
                        <= start.link_count(items[i], depth, node) + done,
                forall|i: int|
                    0 <= i < children@.len() ==> start.link_count(#[trigger] items[i], depth, node)
                        + children@.len() <= usize::MAX,
                forall|i: int|
                    0 <= i < fresh.len() ==> call_ensures(T::default, (), #[trigger] fresh[i])
                        || start.add_children_of_child(
                        context,
                        node,
                        items.take(i),
                        fresh.take(i),
                    ).registered(items[i], depth),
            decreases children.len() - done,
        {
            let ghost before = self@;
            let ghost item = items[done as int];
            let ghost earlier = fresh;
            self.add_child_of_child(context, node, children[done].1);
            proof {
                let made = self@.node(before.top_tree(item, depth)).data;
                assert forall|i: int| 0 <= i < children@.len() implies self@.link_count(
                    #[trigger] items[i],
                    depth,
                    node,
                ) <= start.link_count(items[i], depth, node) + done + 1 by {
                    before.lemma_add_child_links(context, node, item, made, items[i]);
                }
                before.lemma_add_child_links(context, node, item, made, item);
                fresh = earlier.push(made);
                let taken = items.take(done as int + 1);
                assert(taken.drop_last() =~= items.take(done as int));
                assert(fresh.drop_last() =~= earlier);
                assert forall|i: int| 0 <= i < fresh.len() implies call_ensures(
                    T::default,
                    (),
                    #[trigger] fresh[i],
                ) || start.add_children_of_child(
                    context,
                    node,
                    items.take(i),
                    fresh.take(i),
                ).registered(items[i], depth) by {
                    if i < done {
                        assert(fresh.take(i) =~= earlier.take(i));
                    }
                }
            }
            done += 1;
        }
        proof {
            assert(items.take(done as int) =~= items);
            assert(start.gains_children(context, node, items, fresh, self@));
        }
    }

    /// Records that the item of `node` has lost `child_of_child` as a child:
    /// the child's node one level down loses a link to `node`.
    pub fn remove_child_of_child<C: AggregationContext<Info = T>>(
        &mut self,
        context: &C,
        node: TopRef,
        child_of_child: &C::ItemRef,
    )
        requires
            old(self).wf(),
            old(self)@.contains(node),
            old(self)@.node(node).depth < u8::MAX,
        ensures
            final(self).wf(),
            ({
                let item = context.item_key(*child_of_child);
                let depth = (old(self)@.node(node).depth + 1) as u8;
                let fresh = final(self)@.node(old(self)@.top_tree(item, depth)).data;
                &&& final(self)@ == old(self)@.remove_child_of_child(context, node, item, fresh)
                &&& !old(self)@.registered(item, depth) ==> call_ensures(T::default, (), fresh)
                &&& old(self)@.permits(node, item)
            }),
    {
        let depth = self.nodes[node.upper].depth + 1;
        let child = self.top_tree(context, child_of_child, depth);
        proof {
            let item = context.item_key(*child_of_child);
            old(self)@.lemma_with_top_tree_wf(item, depth, self@.node(child).data);
            self@.lemma_remove_upper_frame(context, child, node);
        }
        self.remove_upper(context, child, node);
    }
}

} // verus!
