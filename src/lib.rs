//! Perfect-maze generation over a rectangular grid by randomized depth-first traversal with an
//! explicit stack.
use vstd::prelude::*;

pub mod node;
pub mod grid;
mod random;
pub mod generator;

verus! {

} // verus!
