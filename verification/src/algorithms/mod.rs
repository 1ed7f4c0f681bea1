//! The searches that solve a board.

use crate::board::board::{board_views, Board, BoardView};
use crate::board::board_config::ConfigView;
use crate::board::layout::{
    is_path, reachable, reachable_in, slide_target, slides_at, slides_to,
};
use vstd::prelude::*;

pub mod best_first;
pub mod frontier;
pub mod informed_search;
pub mod shortest;
pub mod uninformed_search;

verus! {

/// Two boards of the same puzzle: the same grid and the same goal.
pub open spec fn same_puzzle(a: BoardView, b: BoardView) -> bool {
    a.config.goal_state == b.config.goal_state && a.config.n == b.config.n
}

/// `board` is `initial`, but for the weight it carries.
pub open spec fn starts_as(board: BoardView, initial: BoardView) -> bool {
    &&& board.tiles == initial.tiles
    &&& board.config == (ConfigView { weight: board.config.weight, ..initial.config })
}

/// The board after the one at `i` follows from it by one slide and is one
/// move deeper.
pub open spec fn succeeds_at(path: Seq<BoardView>, i: int) -> bool {
    path[i + 1].succeeds(path[i])
}

/// `path` solves `initial`: it starts with `initial`, ends at the goal, and
/// each board follows from the one before by one slide and is one move
/// deeper.
pub open spec fn is_solution(initial: BoardView, path: Seq<BoardView>) -> bool {
    &&& path.len() >= 1
    &&& starts_as(path.first(), initial)
    &&& path.last().at_goal()
    &&& forall|i: int|
        0 <= i < path.len() ==> (#[trigger] path[i]).wf() && same_puzzle(path[i], initial)
    &&& forall|i: int| 0 <= i < path.len() - 1 ==> #[trigger] succeeds_at(path, i)
}

/// No two boards of `path` have the same cells.
pub open spec fn no_cells_twice(path: Seq<BoardView>) -> bool {
    forall|i: int, j: int|
        #![trigger path[i], path[j]]
        0 <= i < j < path.len() ==> path[i].tiles != path[j].tiles
}

/// The goal of `board` can be reached from it.
pub open spec fn solvable(board: BoardView) -> bool {
    reachable(board.tiles, board.config.goal_state, board.n())
}

/// A way to solve a board.
pub trait Algorithms {
    /// What the solver's own state must satisfy.
    spec fn wf(&self) -> bool;

    /// A solution of `initial_state`, from the board itself to the goal, if
    /// there is one; `None` exactly where the goal cannot be reached. No cells
    /// occur twice on a solution.
    fn solve(&mut self, initial_state: Board) -> (solution: Option<Vec<Board>>)
        requires
            old(self).wf(),
            initial_state@.wf(),
        ensures
            final(self).wf(),
            solution is Some <==> solvable(initial_state@),
            solution matches Some(path) ==> is_solution(initial_state@, board_views(path@)),
            solution matches Some(path) ==> no_cells_twice(board_views(path@)),
    ;
}

/// A board follows from another by one slide of the cells.
pub proof fn lemma_follows_is_slide(previous: BoardView, next: BoardView)
    requires
        previous.wf(),
        next.follows(previous),
    ensures
        slides_to(previous.tiles, next.tiles, previous.n()),
{
    let direction = choose|direction: int| #[trigger]
        slide_target(previous.blank(), previous.n(), direction) == Some(next.blank());
    assert(slide_target(previous.blank(), previous.n(), direction) is Some);
}

/// A board that has a solution is solvable: the cells of the solution are a
/// path from the board to its goal, one step shorter than the solution is
/// long.
pub proof fn lemma_solution_shows_solvable(initial: BoardView, path: Seq<BoardView>)
    requires
        is_solution(initial, path),
    ensures
        reachable_in(
            initial.tiles,
            initial.config.goal_state,
            initial.n(),
            (path.len() - 1) as nat,
        ),
        solvable(initial),
{
    let cells = path.map_values(|board: BoardView| board.tiles);
    assert forall|k: int| 0 <= k < cells.len() - 1 implies #[trigger] slides_at(
        cells,
        initial.n(),
        k,
    ) by {
        assert(succeeds_at(path, k));
        assert(path[k].wf() && same_puzzle(path[k], initial));
        lemma_follows_is_slide(path[k], path[k + 1]);
    }
    assert(is_path(cells, initial.n()));
    assert(cells.first() == initial.tiles);
    assert(same_puzzle(path[path.len() - 1], initial));
    assert(cells.last() == initial.config.goal_state);
    assert(reachable_in(
        initial.tiles,
        initial.config.goal_state,
        initial.n(),
        (path.len() - 1) as nat,
    ));
}

} // verus!
