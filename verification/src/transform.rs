//! The rewrites that a stylesheet goes through before it is read.

use vstd::prelude::*;

verus! {

/// One rewrite of a stylesheet.
#[derive(PartialEq, Eq, PartialOrd, Ord, Hash, Debug, Copy, Clone)]
pub enum CssInputTransform {
    /// Flattens nested rules.
    Nested,
    /// A rewrite that the user supplies.
    Custom,
}

/// The rewrites of one stylesheet, in the order in which they run.
#[derive(Debug, PartialEq, Eq, PartialOrd, Ord, Hash, Clone)]
pub struct CssInputTransforms(pub Vec<CssInputTransform>);

} // verus!
