use vstd::prelude::*;

verus! {

/// Orientation of the line through a node of a 2-d tree: horizontal or
/// vertical.
#[derive(Debug, Clone, Copy, PartialEq, Eq, Structural)]
pub enum SplitHV {
    H,
    V,
}

} // verus!
