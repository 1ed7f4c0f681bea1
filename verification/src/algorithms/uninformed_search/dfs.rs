use crate::algorithms::frontier::Discipline;
use crate::algorithms::informed_search::heuristic::HeuristicFn;
use crate::algorithms::best_first::{best_first, weighed};
use crate::algorithms::Algorithms;
use crate::board::board::Board;
use vstd::prelude::*;

verus! {

/// Depth-first search: the board found last is expanded next.
pub struct DfsAlgorithms {}

impl DfsAlgorithms {
    /// A depth-first solver.
    pub fn new() -> (solver: Self)
        ensures
            solver.wf(),
    {
        Self {  }
    }
}

impl Algorithms for DfsAlgorithms {
    open spec fn wf(&self) -> bool {
        true
    }

    /// A solution found by expanding the board found last first. The boards of it
    /// carry the weight of `initial_state`.
    fn solve(&mut self, initial_state: Board) -> (solution: Option<Vec<Board>>)
        ensures
            solution matches Some(path) ==> forall|i: int|
                0 <= i < path.len() ==> (#[trigger] path[i])@.config.weight
                    == initial_state@.config.weight,
    {
        let mut blind: Option<Box<dyn HeuristicFn>> = None;
        let solution = best_first(initial_state, &mut blind, Discipline::Newest);
        proof {
            if let Some(path) = &solution {
                assert forall|i: int| 0 <= i < path.len() implies (#[trigger] path[i])@.config.weight
                    == initial_state@.config.weight by {
                    assert(weighed(None, initial_state@, path[i]@));
                }
            }
        }
        solution
    }
}

} // verus!
