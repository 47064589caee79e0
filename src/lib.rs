//! Properties, classification, equivalence classes and closures of binary
//! relations on a finite set, given as square 0/1 matrices.
use vstd::prelude::*;

pub mod classes;
pub mod closure;
pub mod equivalence;
pub mod input;
pub mod laws;
pub mod relation;
pub mod violations;

verus! {

/// A relation on `{0, ..., n-1}`: row `i`, column `j` is 1 when `i` is related to `j`.
pub type Matrix = Vec<Vec<u8>>;

} // verus!
