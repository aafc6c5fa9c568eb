//! Puzzle solvers built on verified parsers and simulations, around a small
//! register machine whose instruction pointer is one of its registers.

use vstd::prelude::*;

pub mod box_ids;
pub mod caves;
pub mod coords;
pub mod device18;
pub mod fabric;
pub mod flow;
pub mod frequency;
pub mod fuel_cells;
pub mod halting;
pub mod license;
pub mod lumber;
pub mod marbles;
pub mod nanobots;
pub mod opcodes;
pub mod parse;
pub mod plants;
pub mod polymer;
pub mod recipes;
pub mod stars;
pub mod steps;

verus! {

/// The lines of `input`, each as a string of its own.
pub fn parse_input(input: String) -> (r: Vec<String>)
    ensures
        r@.len() == parse::lines(input@).len(),
        forall|i: int| 0 <= i < r@.len() ==> #[trigger] r@[i]@ == parse::lines(input@)[i],
{
    parse::to_strings(input)
}

} // verus!
