//! Analyses that can be run over a dependency network.

pub mod criticality;

use vstd::prelude::*;

verus! {

/// Flag value marking a node as visible in a visibility sample.
pub const VISIBLE_VAL: u8 = 1;

/// An analysis consumes its fully configured collaborators and
/// produces a result.
pub trait Analysis: Sized {
    type Output;

    fn analyze(self) -> Self::Output;
}

} // verus!
