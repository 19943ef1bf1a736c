//! Game-tree search core for a two-player territory game on a fixed square
//! grid. Players alternately grow their color into empty cells adjacent to
//! two or more of their own stones; the engine ranks moves by an adversarial
//! search over a material-based evaluation.

use vstd::prelude::*;

pub mod board;
pub mod rank;
pub mod random;
pub mod search;
pub mod tree;

verus! {

} // verus!
