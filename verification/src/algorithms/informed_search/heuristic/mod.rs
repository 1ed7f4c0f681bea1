//! Estimates of the number of moves between a board and its goal.

use crate::board::board::{Board, BoardView};
use vstd::prelude::*;

pub mod inversion_distance;
pub mod mahattan_distance;

verus! {

/// Why an estimate could not be updated from the board before.
#[derive(Debug, PartialEq, Eq, Structural, Clone, Copy)]
pub enum HeuristicError {
    /// The board before was never evaluated by this estimator.
    NotEvaluated,
    /// The estimate kept for the board before cannot be that board's.
    Inconsistent,
}

/// An estimate of the moves that are left, evaluated either from scratch or
/// from the evaluation of the board one move before.
pub trait HeuristicFn {
    /// The estimate for `board`. It goes by the cells and the goal, not by
    /// the costs that the board carries.
    spec fn estimate(&self, board: BoardView) -> nat;

    /// What was kept of `board` is enough to evaluate a successor of it
    /// without starting over.
    spec fn tracks(&self, board: BoardView) -> bool;

    /// The estimate for `new_state`. Without `old_state` it is worked out
    /// from scratch. With it, `new_state` is one slide away from `old_state`,
    /// and what was kept of `old_state` is updated. Either way the result is
    /// the same number, and a board that carries it is tracked from then on.
    /// An update from a board that is not tracked may fail, or give another
    /// number; each estimator says which.
    fn compute(&mut self, new_state: &Board, old_state: Option<&Board>) -> (value: Result<
        usize,
        HeuristicError,
    >)
        requires
            new_state@.wf(),
            old_state matches Some(previous) ==> previous@.wf() && new_state@.follows(previous@),
        ensures
            forall|board: BoardView| final(self).estimate(board) == old(self).estimate(board),
            (old_state matches Some(previous) ==> old(self).tracks(previous@)) ==> {
                &&& value matches Ok(weight)
                &&& weight == old(self).estimate(new_state@)
                &&& weight == old(self).estimate(new_state@.with_weight(weight))
                &&& new_state@.config.informed() ==> final(self).tracks(
                    new_state@.with_weight(weight),
                )
            },
            forall|board: BoardView|
                board.config.goal_state == new_state@.config.goal_state && old(self).tracks(board)
                    ==> final(self).tracks(board),
    ;
}

} // verus!
