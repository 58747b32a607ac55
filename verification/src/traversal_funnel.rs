//! The direction of a traversal through a funnel.
use vstd::prelude::*;

verus! {

/// The direction in which a funnel traversal follows arrows.
#[derive(Debug, Default, PartialEq, Eq, Structural, Clone, Copy)]
pub enum Traversal {
    #[default]
    Forward,
    Backward,
    Both,
}

} // verus!
