//! An order in which to visit the cells of a puzzle.

use crate::misc::Coords;
use vstd::prelude::*;

verus! {

/// One candidate order of the cells, with the number of steps it took to
/// solve the puzzle in that order, once that is known.
#[derive(Clone, Debug)]
pub struct TspIndividual {
    pub order: Vec<Coords>,
    pub fitness: Option<u32>,
}

impl TspIndividual {
    /// A candidate whose fitness is not known yet.
    pub fn new(order: Vec<Coords>) -> (out: TspIndividual)
        ensures
            out.order == order,
            out.fitness is None,
    {
        TspIndividual { order, fitness: None }
    }
}

} // verus!
