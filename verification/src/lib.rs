//! An incrementally maintained aggregation over a changing graph.
//!
//! Every graph item owns one node per depth. A node at depth `d + 1` reports
//! into nodes at depth `d`, and the nodes at depth 0 are the roots. A change
//! that reaches a node is folded into its aggregate by a caller-supplied
//! policy and sent on to every node it reports into, so that a root always
//! holds the aggregate of everything below it without a rescan of the graph.
//!
//! - [`count_hash_set`] holds the counted set by which a node keeps its
//!   links: two links to one node are one element, counted twice. It takes
//!   any element that a number names.
//! - [`aggregation_tree`] holds the policy interface, the nodes, the tree
//!   that owns them, and the laws that the tree obeys under a policy that
//!   adds up.
//! - [`transform`] names the rewrites that a stylesheet goes through; the
//!   build pipeline that drives the tree shares these names.

pub mod aggregation_tree;
pub mod count_hash_set;
pub mod transform;
