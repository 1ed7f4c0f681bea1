//! Best-first search, led by an estimate of the moves that are left.

use self::heuristic::HeuristicFn;
use super::frontier::Discipline;
use super::best_first::{best_first, same_estimates, weighed};
use super::shortest::{consistent, is_shortest};
use super::Algorithms;
use crate::board::board::{board_views, Board, BoardView};
use vstd::prelude::*;

pub mod heuristic;

verus! {

/// A* search: of the boards that wait, the one with the lowest depth plus
/// estimate is expanded next; among equals, the one that has waited longest.
pub struct AStarAlgorithms {
    heuristic: Option<Box<dyn HeuristicFn>>,
}

impl AStarAlgorithms {
    /// The estimator that leads the search.
    pub closed spec fn guide(&self) -> Option<Box<dyn HeuristicFn>> {
        self.heuristic
    }

    /// The estimate that leads the search.
    pub closed spec fn estimate(&self, board: BoardView) -> nat {
        match self.heuristic {
            Some(heuristic) => heuristic.estimate(board),
            None => 0,
        }
    }

    /// A solver led by `heuristic`.
    pub fn with(heuristic: Box<dyn HeuristicFn>) -> (solver: Self)
        ensures
            solver.wf(),
            solver.guide() is Some,
            solver.guide().unwrap() == heuristic,
            forall|board: BoardView| solver.estimate(board) == heuristic.estimate(board),
    {
        let heuristic = Some(heuristic);
        Self { heuristic }
    }
}

impl Algorithms for AStarAlgorithms {
    closed spec fn wf(&self) -> bool {
        self.heuristic is Some
    }

    /// A solution found by expanding the cheapest board first. Each board of
    /// it that carries costs carries the estimate as its weight. Where the
    /// estimate is consistent, the solution is a shortest one, unless the cost
    /// of its last board is held at the largest number.
    fn solve(&mut self, initial_state: Board) -> (solution: Option<Vec<Board>>)
        ensures
            forall|board: BoardView| final(self).estimate(board) == old(self).estimate(board),
            same_estimates(old(self).guide(), final(self).guide()),
            solution matches Some(path) ==> (consistent(old(self).guide(), initial_state@)
                && path[path.len() - 1]@.config.total_weight() < usize::MAX ==> is_shortest(
                initial_state@,
                board_views(path@),
            )),
            solution matches Some(path) ==> forall|i: int|
                0 <= i < path.len() ==> ((#[trigger] path[i])@.config.weight matches Some(weight)
                    ==> weight == old(self).estimate(path[i]@)),
    {
        let solution = best_first(initial_state, &mut self.heuristic, Discipline::Cheapest);
        proof {
            if let Some(path) = &solution {
                assert forall|i: int|
                    0 <= i < path.len() implies ((#[trigger] path[i])@.config.weight matches Some(
                    weight,
                ) ==> weight == old(self).estimate(path[i]@)) by {
                    assert(weighed(old(self).heuristic, initial_state@, path[i]@));
                }
            }
        }
        solution
    }
}

} // verus!
