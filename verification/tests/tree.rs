use aggregation_tree::aggregation_tree::counting::{CountChange, CountChildren};
use aggregation_tree::aggregation_tree::inner_refs::TopRef;
use aggregation_tree::aggregation_tree::top_tree::{AggregationTree, TopTree};
use aggregation_tree::aggregation_tree::AggregationContext;
use std::cell::Cell;
use std::ops::ControlFlow;

/// Every node counts the nodes below it: a node hands on what it takes up,
/// and adds to a node above it one for itself and what it holds.
/// A query sums the answers of the roots, or, where `first_only` is set,
/// stops at the first root that answers with more than nothing.
struct Census {
    first_only: bool,
    roots_asked: Cell<u32>,
    adds: Cell<u32>,
    removes: Cell<u32>,
}

impl Census {
    fn new() -> Self {
        Census {
            first_only: false,
            roots_asked: Cell::new(0),
            adds: Cell::new(0),
            removes: Cell::new(0),
        }
    }

    fn first_only() -> Self {
        Census { first_only: true, ..Census::new() }
    }
}

impl AggregationContext for Census {
    type ItemRef = u32;
    type Info = i64;
    type ItemChange = i64;
    type RootInfoType = i64;
    type RootInfo = i64;

    fn item_key(&self, reference: u32) -> u64 {
        reference as u64
    }

    fn item_id(&self, reference: &u32) -> u64 {
        self.item_key(*reference)
    }

    fn applied(&self, info: i64, change: i64) -> i64 {
        info + change
    }

    fn forwarded(&self, _info: i64, change: i64) -> Option<i64> {
        Some(change)
    }

    fn apply_change(&self, info: &mut i64, change: &i64) -> Option<i64> {
        let forwarded = self.forwarded(*info, *change);
        *info = self.applied(*info, *change);
        forwarded
    }

    fn add_change(&self, info: i64) -> Option<i64> {
        Some(info + 1)
    }

    fn info_to_add_change(&self, info: &i64) -> Option<i64> {
        self.adds.set(self.adds.get() + 1);
        self.add_change(*info)
    }

    fn remove_change(&self, info: i64) -> Option<i64> {
        Some(-(info + 1))
    }

    fn info_to_remove_change(&self, info: &i64) -> Option<i64> {
        self.removes.set(self.removes.get() + 1);
        self.remove_change(*info)
    }

    fn root_info_of(&self, info: i64, root_info_type: i64) -> i64 {
        info * root_info_type
    }

    fn info_to_root_info(&self, info: &i64, root_info_type: &i64) -> i64 {
        self.roots_asked.set(self.roots_asked.get() + 1);
        self.root_info_of(*info, *root_info_type)
    }

    fn empty_root_info(&self, _root_info_type: i64) -> i64 {
        0
    }

    fn new_root_info(&self, root_info_type: &i64) -> i64 {
        self.empty_root_info(*root_info_type)
    }

    fn merged(&self, root_info: i64, other: i64) -> i64 {
        root_info + other
    }

    fn merge_stops(&self, _root_info: i64, other: i64) -> bool {
        self.first_only && other > 0
    }

    fn merge_root_info(&self, root_info: &mut i64, other: i64) -> ControlFlow<()> {
        let stops = self.merge_stops(*root_info, other);
        *root_info = self.merged(*root_info, other);
        if stops {
            ControlFlow::Break(())
        } else {
            ControlFlow::Continue(())
        }
    }
}

/// Counts like [`CountChildren`] and keeps a tally of how often a node
/// was asked what it adds to another or takes from it.
struct Watched {
    counting: CountChildren,
    adds: Cell<u32>,
    removes: Cell<u32>,
}

impl Watched {
    fn new() -> Self {
        Watched { counting: CountChildren, adds: Cell::new(0), removes: Cell::new(0) }
    }
}

impl AggregationContext for Watched {
    type ItemRef = u64;
    type Info = u64;
    type ItemChange = CountChange;
    type RootInfoType = ();
    type RootInfo = u64;

    fn item_key(&self, reference: u64) -> u64 {
        reference
    }

    fn item_id(&self, reference: &u64) -> u64 {
        self.counting.item_id(reference)
    }

    fn applied(&self, info: u64, change: CountChange) -> u64 {
        match change {
            CountChange::Gained => info.wrapping_add(1),
            CountChange::Lost => info.wrapping_sub(1),
        }
    }

    fn forwarded(&self, _info: u64, _change: CountChange) -> Option<CountChange> {
        None
    }

    fn apply_change(&self, info: &mut u64, change: &CountChange) -> Option<CountChange> {
        self.counting.apply_change(info, change)
    }

    fn add_change(&self, _info: u64) -> Option<CountChange> {
        Some(CountChange::Gained)
    }

    fn info_to_add_change(&self, info: &u64) -> Option<CountChange> {
        self.adds.set(self.adds.get() + 1);
        self.counting.info_to_add_change(info)
    }

    fn remove_change(&self, _info: u64) -> Option<CountChange> {
        Some(CountChange::Lost)
    }

    fn info_to_remove_change(&self, info: &u64) -> Option<CountChange> {
        self.removes.set(self.removes.get() + 1);
        self.counting.info_to_remove_change(info)
    }

    fn root_info_of(&self, info: u64, _root_info_type: ()) -> u64 {
        info
    }

    fn info_to_root_info(&self, info: &u64, root_info_type: &()) -> u64 {
        self.counting.info_to_root_info(info, root_info_type)
    }

    fn empty_root_info(&self, _root_info_type: ()) -> u64 {
        0
    }

    fn new_root_info(&self, root_info_type: &()) -> u64 {
        self.counting.new_root_info(root_info_type)
    }

    fn merged(&self, root_info: u64, other: u64) -> u64 {
        root_info.wrapping_add(other)
    }

    fn merge_stops(&self, _root_info: u64, _other: u64) -> bool {
        false
    }

    fn merge_root_info(&self, root_info: &mut u64, other: u64) -> ControlFlow<()> {
        self.counting.merge_root_info(root_info, other)
    }
}

/// What every node holds, by position.
fn infos(tree: &AggregationTree<i64>) -> Vec<i64> {
    (0..tree.len()).map(|upper| *tree.node(TopRef { upper }).info()).collect()
}

/// What every node reports into, by position, with the number of links.
fn links(tree: &AggregationTree<i64>) -> Vec<Vec<(TopRef, usize)>> {
    (0..tree.len())
        .map(|upper| {
            let set = tree.node(TopRef { upper }).upper();
            set.iter().into_iter().map(|to| (to, set.get(to))).collect()
        })
        .collect()
}

/// The aggregate of `node` computed afresh from the links.
fn recomputed(context: &Census, tree: &AggregationTree<i64>, node: TopRef) -> i64 {
    let mut info = 0;
    for upper in 0..tree.len() {
        let lower = TopRef { upper };
        if tree.node(lower).upper().get(node) > 0 {
            if let Some(change) = context.add_change(recomputed(context, tree, lower)) {
                info = context.applied(info, change);
            }
        }
    }
    info
}

fn assert_recomputed(context: &Census, tree: &AggregationTree<i64>) {
    for upper in 0..tree.len() {
        let node = TopRef { upper };
        assert_eq!(*tree.node(node).info(), recomputed(context, tree, node));
    }
}

/// Root 0 with children 1 and 2, which share the child 3.
fn diamond(context: &Census) -> (AggregationTree<i64>, TopRef, TopRef, TopRef, TopRef) {
    let mut tree = AggregationTree::new();
    let root = tree.top_tree(context, &0, 0);
    tree.add_child_of_child(context, root, &1);
    tree.add_child_of_child(context, root, &2);
    let left = tree.get(1, 1).unwrap();
    let right = tree.get(2, 1).unwrap();
    tree.add_child_of_child(context, left, &3);
    tree.add_child_of_child(context, right, &3);
    let bottom = tree.get(3, 2).unwrap();
    (tree, root, left, right, bottom)
}

#[test]
fn duplicate_edge_counts_once() {
    let context = Watched::new();
    let mut tree: AggregationTree<u64> = AggregationTree::new();
    let leaf = tree.top_tree(&context, &0, 0);
    let (a, b) = (1u64, 2u64);

    tree.add_child_of_child(&context, leaf, &a);
    tree.add_child_of_child(&context, leaf, &b);
    tree.add_child_of_child(&context, leaf, &a);
    assert_eq!(*tree.node(leaf).info(), 2);
    assert_eq!(context.adds.get(), 2);

    let node_a = tree.get(1, 1).unwrap();
    assert_eq!(tree.node(node_a).upper().get(leaf), 2);

    tree.remove_child_of_child(&context, leaf, &a);
    assert_eq!(*tree.node(leaf).info(), 2);
    assert_eq!(context.removes.get(), 0);
    assert_eq!(tree.node(node_a).upper().get(leaf), 1);

    tree.remove_child_of_child(&context, leaf, &a);
    assert_eq!(*tree.node(leaf).info(), 1);
    assert_eq!(context.removes.get(), 1);
    assert_eq!(tree.node(node_a).upper().get(leaf), 0);
}

#[test]
fn counting_counts_nodes_not_links() {
    let context = CountChildren;
    let mut tree: AggregationTree<u64> = AggregationTree::new();
    let root = tree.top_tree(&context, &0, 0);
    tree.add_children_of_child(&context, root, &[(0, &1), (0, &2), (0, &1), (0, &3)]);
    assert_eq!(*tree.node(root).info(), 3);
    let middle = tree.get(2, 1).unwrap();
    tree.add_child_of_child(&context, middle, &4);
    // The root counts its own children only.
    assert_eq!(*tree.node(middle).info(), 1);
    assert_eq!(*tree.node(root).info(), 3);
    let bottom = tree.get(4, 2).unwrap();
    assert_eq!(tree.node(bottom).get_root_info(&context, &(), &tree), 3);
    tree.remove_child_of_child(&context, root, &3);
    tree.remove_child_of_child(&context, root, &1);
    assert_eq!(*tree.node(root).info(), 2);
    tree.remove_child_of_child(&context, root, &1);
    assert_eq!(*tree.node(root).info(), 1);
}

#[test]
fn counting_wraps_around() {
    let context = CountChildren;
    let mut count = 0u64;
    assert_eq!(context.apply_change(&mut count, &CountChange::Lost), None);
    assert_eq!(count, u64::MAX);
    assert_eq!(context.apply_change(&mut count, &CountChange::Gained), None);
    assert_eq!(count, 0);
    assert_eq!(context.info_to_add_change(&7), Some(CountChange::Gained));
    assert_eq!(context.info_to_remove_change(&7), Some(CountChange::Lost));
    assert_eq!(context.info_to_root_info(&7, &()), 7);
    assert_eq!(context.new_root_info(&()), 0);
    let mut sum = u64::MAX;
    assert_eq!(context.merge_root_info(&mut sum, 3), ControlFlow::Continue(()));
    assert_eq!(sum, 2);
    assert_eq!(context.item_id(&9), 9);
}

#[test]
fn new_tree_has_no_nodes() {
    let tree: AggregationTree<i64> = AggregationTree::new();
    assert_eq!(tree.len(), 0);
    assert!(!tree.contains(TopRef { upper: 0 }));
    assert_eq!(tree.get(0, 0), None);
}

#[test]
fn new_node_holds_the_default() {
    let node: TopTree<i64> = TopTree::new(3);
    assert_eq!(node.depth(), 3);
    assert_eq!(*node.info(), 0);
    assert!(node.upper().is_empty());
}

#[test]
fn top_tree_makes_a_node_once() {
    let context = Census::new();
    let mut tree: AggregationTree<i64> = AggregationTree::new();
    let first = tree.top_tree(&context, &5, 2);
    assert_eq!(first, TopRef { upper: 0 });
    assert_eq!(tree.len(), 1);
    assert_eq!(tree.node(first).depth(), 2);
    assert_eq!(*tree.node(first).info(), 0);
    assert!(tree.node(first).upper().is_empty());

    let again = tree.top_tree(&context, &5, 2);
    assert_eq!(again, first);
    assert_eq!(tree.len(), 1);

    let other_depth = tree.top_tree(&context, &5, 3);
    let other_item = tree.top_tree(&context, &6, 2);
    assert_eq!(other_depth, TopRef { upper: 1 });
    assert_eq!(other_item, TopRef { upper: 2 });
    assert_eq!(tree.get(5, 2), Some(first));
    assert_eq!(tree.get(5, 3), Some(other_depth));
    assert_eq!(tree.get(6, 2), Some(other_item));
    assert_eq!(tree.get(6, 3), None);
    assert!(tree.contains(other_item));
    assert!(!tree.contains(TopRef { upper: 3 }));
}

#[test]
fn items_far_apart_get_nodes_of_their_own() {
    let context = Census::new();
    let mut tree: AggregationTree<i64> = AggregationTree::new();
    let low = tree.top_tree(&context, &0, 255);
    let high = tree.top_tree(&context, &1, 0);
    let last = tree.top_tree(&context, &u32::MAX, 255);
    assert_ne!(low, high);
    assert_ne!(low, last);
    assert_eq!(tree.get(0, 255), Some(low));
    assert_eq!(tree.get(1, 0), Some(high));
    assert_eq!(tree.get(u32::MAX as u64, 255), Some(last));
    assert_eq!(tree.get(1, 255), None);
}

#[test]
fn add_child_links_the_node_one_level_down() {
    let context = Census::new();
    let mut tree: AggregationTree<i64> = AggregationTree::new();
    let root = tree.top_tree(&context, &0, 0);
    tree.add_child_of_child(&context, root, &1);
    let child = tree.get(1, 1).unwrap();
    assert_eq!(tree.node(child).depth(), 1);
    assert_eq!(tree.node(child).upper().iter(), vec![root]);
    assert_eq!(*tree.node(child).info(), 0);
    assert_eq!(*tree.node(root).info(), 1);
    assert!(tree.node(root).upper().is_empty());
}

#[test]
fn changes_travel_up_to_the_roots() {
    let context = Census::new();
    let (tree, root, left, right, bottom) = diamond(&context);
    assert_eq!(infos(&tree), vec![4, 1, 1, 0]);
    assert_eq!(tree.node(bottom).upper().iter(), vec![left, right]);
    assert_eq!(tree.node(left).upper().iter(), vec![root]);
    assert_recomputed(&context, &tree);
}

#[test]
fn child_change_reaches_every_node_above() {
    let context = Census::new();
    let (mut tree, _root, _left, _right, bottom) = diamond(&context);
    tree.child_change(&context, bottom, &10);
    // The root hears of the change once through each of the two parents.
    assert_eq!(infos(&tree), vec![24, 11, 11, 10]);
}

#[test]
fn propagate_hands_a_change_to_the_uppers_only() {
    let context = Census::new();
    let (mut tree, _root, left, _right, bottom) = diamond(&context);
    tree.propagate_change_to_upper(&context, bottom, Some(5));
    assert_eq!(infos(&tree), vec![14, 6, 6, 0]);
    tree.propagate_change_to_upper(&context, left, None);
    assert_eq!(infos(&tree), vec![14, 6, 6, 0]);
}

#[test]
fn aggregates_match_a_fresh_computation_after_every_edit() {
    let context = Census::new();
    let mut tree: AggregationTree<i64> = AggregationTree::new();
    let root = tree.top_tree(&context, &0, 0);
    let other_root = tree.top_tree(&context, &9, 0);
    let edits: [(bool, u32, u8, u32); 14] = [
        (true, 0, 0, 1),
        (true, 0, 0, 2),
        (true, 1, 1, 3),
        (true, 2, 1, 3),
        (true, 9, 0, 1),
        (true, 1, 1, 4),
        (true, 3, 2, 5),
        (true, 0, 0, 1),
        (false, 2, 1, 3),
        (false, 0, 0, 1),
        (true, 4, 2, 5),
        (false, 0, 0, 1),
        (false, 1, 1, 3),
        (false, 7, 0, 8),
    ];
    for (add, item, depth, child) in edits {
        let node = tree.top_tree(&context, &item, depth);
        if add {
            tree.add_child_of_child(&context, node, &child);
        } else {
            tree.remove_child_of_child(&context, node, &child);
        }
        assert_recomputed(&context, &tree);
    }
    // What is left: 9 -> 1 -> 4 -> 5, 0 -> 2, and 3 -> 5 with 3 cut off.
    assert_eq!(*tree.node(root).info(), 1);
    assert_eq!(*tree.node(other_root).info(), 3);
}

#[test]
fn aggregates_match_a_fresh_computation_under_many_edits() {
    let context = Census::new();
    let mut tree: AggregationTree<i64> = AggregationTree::new();
    let mut state: u64 = 0x2545_f491_4f6c_dd1d;
    let mut next = |bound: u64| {
        state = state.wrapping_mul(6364136223846793005).wrapping_add(1442695040888963407);
        (state >> 33) % bound
    };
    for _ in 0..400 {
        let item = next(6) as u32;
        let depth = next(3) as u8;
        let child = next(6) as u32;
        let node = tree.top_tree(&context, &item, depth);
        if next(3) < 2 {
            tree.add_child_of_child(&context, node, &child);
        } else {
            tree.remove_child_of_child(&context, node, &child);
        }
    }
    assert_recomputed(&context, &tree);
    // Taking every link away again leaves every node with nothing.
    for upper in 0..tree.len() {
        let node = TopRef { upper };
        for to in tree.node(node).upper().iter() {
            while tree.node(node).upper().get(to) > 0 {
                tree.remove_upper(&context, node, to);
            }
        }
    }
    assert_eq!(infos(&tree), vec![0; tree.len()]);
}

#[test]
fn add_then_remove_restores_every_aggregate() {
    let context = Census::new();
    let (mut tree, root, left, _right, _bottom) = diamond(&context);
    tree.top_tree(&context, &7, 2);
    tree.add_child_of_child(&context, tree.get(7, 2).unwrap(), &8);
    let infos_before = infos(&tree);
    let links_before = links(&tree);

    // A link that is new, to a node that has nodes below it.
    tree.add_child_of_child(&context, left, &7);
    assert_ne!(infos(&tree), infos_before);
    tree.remove_child_of_child(&context, left, &7);
    assert_eq!(infos(&tree), infos_before);
    assert_eq!(links(&tree), links_before);

    // A link that is there already.
    tree.add_child_of_child(&context, root, &1);
    assert_eq!(infos(&tree), infos_before);
    tree.remove_child_of_child(&context, root, &1);
    assert_eq!(infos(&tree), infos_before);
    assert_eq!(links(&tree), links_before);
}

#[test]
fn add_upper_and_remove_upper_mirror_each_other() {
    let context = Census::new();
    let mut tree: AggregationTree<i64> = AggregationTree::new();
    let upper = tree.top_tree(&context, &0, 0);
    let node = tree.top_tree(&context, &1, 1);
    *tree.lock_info(node) = 6;

    tree.add_upper(&context, node, upper);
    assert_eq!(*tree.node(upper).info(), 7);
    assert_eq!(context.adds.get(), 1);
    tree.add_upper(&context, node, upper);
    assert_eq!(*tree.node(upper).info(), 7);
    assert_eq!(context.adds.get(), 1);
    assert_eq!(tree.node(node).upper().get(upper), 2);

    tree.remove_upper(&context, node, upper);
    assert_eq!(*tree.node(upper).info(), 7);
    assert_eq!(context.removes.get(), 0);
    tree.remove_upper(&context, node, upper);
    assert_eq!(*tree.node(upper).info(), 0);
    assert_eq!(context.removes.get(), 1);

    tree.remove_upper(&context, node, upper);
    assert_eq!(*tree.node(upper).info(), 0);
    assert_eq!(context.removes.get(), 1);
    assert!(tree.node(node).upper().is_empty());
}

#[test]
fn remove_child_of_unknown_child_changes_no_aggregate() {
    let context = Census::new();
    let (mut tree, root, _left, _right, _bottom) = diamond(&context);
    let before = infos(&tree);
    tree.remove_child_of_child(&context, root, &42);
    // The node of the child is made, and nothing else happens.
    assert_eq!(tree.len(), before.len() + 1);
    assert_eq!(infos(&tree)[..before.len()], before[..]);
    assert_eq!(context.removes.get(), 0);
    let made = tree.get(42, 1).unwrap();
    assert!(tree.node(made).upper().is_empty());
}

#[test]
fn add_children_adds_each_in_turn() {
    let context = Census::new();
    let mut batched: AggregationTree<i64> = AggregationTree::new();
    let root = batched.top_tree(&context, &0, 0);
    let (a, b) = (1u32, 2u32);
    batched.add_children_of_child(&context, root, &[(7, &a), (8, &b), (9, &a)]);

    let mut single: AggregationTree<i64> = AggregationTree::new();
    single.top_tree(&context, &0, 0);
    single.add_child_of_child(&context, root, &a);
    single.add_child_of_child(&context, root, &b);
    single.add_child_of_child(&context, root, &a);

    assert_eq!(infos(&batched), vec![2, 0, 0]);
    assert_eq!(infos(&batched), infos(&single));
    assert_eq!(links(&batched), links(&single));
    assert_eq!(batched.node(batched.get(1, 1).unwrap()).upper().get(root), 2);

    batched.add_children_of_child(&context, root, &[]);
    assert_eq!(infos(&batched), vec![2, 0, 0]);
}

#[test]
fn root_answers_from_its_own_aggregate() {
    let context = Census::new();
    let (tree, root, _left, _right, _bottom) = diamond(&context);
    assert_eq!(tree.node(root).get_root_info(&context, &10, &tree), 40);
    assert_eq!(context.roots_asked.get(), 1);
}

#[test]
fn query_folds_the_answers_of_all_branches() {
    let context = Census::new();
    let (tree, _root, left, _right, bottom) = diamond(&context);
    assert_eq!(tree.node(left).get_root_info(&context, &1, &tree), 4);
    assert_eq!(context.roots_asked.get(), 1);
    assert_eq!(tree.node(bottom).get_root_info(&context, &1, &tree), 8);
    assert_eq!(context.roots_asked.get(), 3);
}

#[test]
fn query_of_a_node_without_uppers_is_empty() {
    let context = Census::new();
    let mut tree: AggregationTree<i64> = AggregationTree::new();
    let alone = tree.top_tree(&context, &1, 4);
    *tree.lock_info(alone) = 9;
    assert_eq!(tree.node(alone).get_root_info(&context, &1, &tree), 0);
    assert_eq!(context.roots_asked.get(), 0);
}

#[test]
fn query_stops_at_the_first_branch_that_settles_it() {
    let context = Census::first_only();
    let (tree, _root, _left, _right, bottom) = diamond(&context);
    assert_eq!(tree.node(bottom).get_root_info(&context, &1, &tree), 4);
    // Only the branch through the first parent was walked.
    assert_eq!(context.roots_asked.get(), 1);
}

#[test]
fn query_goes_on_while_nothing_settles_it() {
    let context = Census::first_only();
    let (tree, _root, _left, _right, bottom) = diamond(&context);
    // Every root answers with nothing, so no branch stops the query.
    assert_eq!(tree.node(bottom).get_root_info(&context, &0, &tree), 0);
    assert_eq!(context.roots_asked.get(), 2);
}

#[test]
fn query_does_not_change_the_tree() {
    let context = Census::new();
    let (tree, _root, _left, _right, bottom) = diamond(&context);
    let before = infos(&tree);
    tree.node(bottom).get_root_info(&context, &1, &tree);
    assert_eq!(infos(&tree), before);
}

#[test]
fn lock_info_reads_and_writes_one_aggregate() {
    let context = Census::new();
    let (mut tree, root, left, _right, _bottom) = diamond(&context);
    {
        let info = tree.lock_info(left);
        assert_eq!(*info, 1);
        *info += 100;
    }
    assert_eq!(*tree.node(left).info(), 101);
    assert_eq!(*tree.node(root).info(), 4);
    assert_eq!(tree.node(left).upper().iter(), vec![root]);
}
