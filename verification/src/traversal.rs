//! How a traversal moves through arrows, and which arrows it may take.
use vstd::prelude::*;

verus! {

/// The direction in which a traversal follows arrows.
#[derive(Debug, Default, PartialEq, Eq, Structural, Clone, Copy)]
pub enum TraversalDirection {
    #[default]
    Forward,
    Backward,
    Both,
}

/// The arrows a traversal may take: those of none of the named components,
/// or those of one of them.
pub enum Traversal {
    Exclude { components: &'static [&'static str] },
    Include { components: &'static [&'static str] },
}

} // verus!
