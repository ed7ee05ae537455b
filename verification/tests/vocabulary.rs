use aggregation_tree::aggregation_tree::inner_refs::ChildLocation;
use aggregation_tree::transform::{CssInputTransform, CssInputTransforms};

#[test]
fn child_locations_differ() {
    let left = ChildLocation::Left;
    let copy = left;
    assert!(left == copy);
    assert!(ChildLocation::Left != ChildLocation::Inner);
}

#[test]
fn transforms_are_ordered_as_declared() {
    assert!(CssInputTransform::Nested < CssInputTransform::Custom);
    assert_eq!(CssInputTransform::Nested, CssInputTransform::Nested);
    assert_ne!(CssInputTransform::Nested, CssInputTransform::Custom);
}

#[test]
fn transform_lists_compare_element_by_element() {
    let nested = CssInputTransforms(vec![CssInputTransform::Nested]);
    let both = CssInputTransforms(vec![CssInputTransform::Nested, CssInputTransform::Custom]);
    assert_eq!(nested.clone(), nested);
    assert_ne!(nested, both);
    assert!(nested < both);
    assert_eq!(both.0.len(), 2);
    assert_eq!(format!("{:?}", nested), "CssInputTransforms([Nested])");
}
