//! A CDCL SAT solver core: literal encoding, DIMACS parsing, an
//! activity-ordered variable heap, and the clause database with
//! two-watched-literal propagation and 1-UIP conflict analysis.
pub mod clause;
pub mod dimacs;
pub mod heap;
pub mod lit;
pub mod restart;
pub mod semantics;
pub mod solver;

use vstd::prelude::*;

verus! {

} // verus!
