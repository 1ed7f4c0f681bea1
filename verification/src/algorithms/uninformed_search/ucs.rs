use crate::algorithms::best_first::{best_first, weighed};
use crate::algorithms::frontier::Discipline;
use crate::algorithms::informed_search::heuristic::{HeuristicError, HeuristicFn};
use crate::algorithms::shortest::{consistent, is_shortest, lemma_depth_counts_slides};
use crate::algorithms::{is_solution, no_cells_twice, same_puzzle, succeeds_at, Algorithms};
use crate::board::board::{board_views, Board, BoardManager, BoardView};
use vstd::prelude::*;

verus! {

/// The estimate of a search that goes by the slides behind a board alone:
/// nothing, for every board.
pub struct NoEstimate;

impl HeuristicFn for NoEstimate {
    open spec fn estimate(&self, board: BoardView) -> nat {
        0
    }

    open spec fn tracks(&self, board: BoardView) -> bool {
        true
    }

    fn compute(&mut self, new_state: &Board, old_state: Option<&Board>) -> (value: Result<
        usize,
        HeuristicError,
    >)
        ensures
            value == Ok::<usize, HeuristicError>(0),
    {
        Ok(0)
    }
}

/// An estimate of nothing is consistent.
pub proof fn lemma_no_estimate_consistent(guide: Option<Box<dyn HeuristicFn>>, initial: BoardView)
    requires
        guide is Some,
        forall|board: BoardView| #[trigger] guide.unwrap().estimate(board) == 0,
        initial.config.informed(),
    ensures
        consistent(guide, initial),
{
}

/// A solution of a board with the costs that a board without costs was
/// given, with the costs taken off again, is a solution of the board without
/// costs.
pub proof fn lemma_solution_without_costs(
    initial: BoardView,
    path: Seq<BoardView>,
    plain: Seq<BoardView>,
)
    requires
        initial.wf(),
        !initial.config.informed(),
        is_solution(initial.with_costs(), path),
        no_cells_twice(path),
        plain.len() == path.len(),
        forall|i: int| 0 <= i < plain.len() ==> #[trigger] plain[i] == path[i].without_costs(),
    ensures
        is_solution(initial, plain),
        no_cells_twice(plain),
{
    let start = initial.with_costs();
    assert(plain[0] == path[0].without_costs());
    assert(plain[plain.len() - 1] == path[path.len() - 1].without_costs());
    assert forall|i: int| 0 <= i < plain.len() implies (#[trigger] plain[i]).wf() && same_puzzle(
        plain[i],
        initial,
    ) by {
        assert(path[i].wf() && same_puzzle(path[i], start));
        assert(plain[i] == path[i].without_costs());
    }
    assert forall|i: int| 0 <= i < plain.len() - 1 implies #[trigger] succeeds_at(plain, i) by {
        assert(succeeds_at(path, i));
        assert(plain[i] == path[i].without_costs());
        assert(plain[i + 1] == path[i + 1].without_costs());
    }
    assert forall|i: int, j: int|
        #![trigger plain[i], plain[j]]
        0 <= i < j < plain.len() implies plain[i].tiles != plain[j].tiles by {
        assert(path[i].tiles != path[j].tiles);
        assert(plain[i] == path[i].without_costs());
        assert(plain[j] == path[j].without_costs());
    }
}

/// On a solution that starts at depth 0 and weighs nothing, the cost of the
/// last board is the number of slides, which is below the largest number as
/// long as the boards can be counted.
pub proof fn lemma_cost_counts_slides(start: BoardView, path: Seq<BoardView>)
    requires
        is_solution(start, path),
        start.config.depth == Some(0usize),
        path.len() <= usize::MAX,
        path.last().config.weight matches Some(weight) ==> weight == 0,
    ensures
        path.last().config.total_weight() == path.len() - 1,
{
    lemma_depth_counts_slides(start, path, path.len() - 1);
    assert(path[path.len() - 1].wf());
}

/// The boards without their costs.
fn without_costs(path: Vec<Board>) -> (plain: Vec<Board>)
    ensures
        plain.len() == path.len(),
        forall|i: int| 0 <= i < plain.len() ==> (#[trigger] plain[i])@ == path[i]@.without_costs(),
{
    let mut plain: Vec<Board> = Vec::with_capacity(path.len());
    let mut i: usize = 0;
    while i < path.len()
        invariant
            i <= path.len(),
            plain.len() == i,
            forall|k: int| 0 <= k < i ==> (#[trigger] plain[k])@ == path[k]@.without_costs(),
        decreases path.len() - i,
    {
        plain.push(BoardManager::without_costs(path[i].duplicate()));
        i = i + 1;
    }
    plain
}

/// Uniform-cost search: every slide costs the same, so the board with the
/// fewest slides behind it is expanded next; among equals, the one found
/// first. A board without costs is searched with costs counted from 0, which
/// are taken off the boards of the solution again.
pub struct UcsAlgorithms {}

impl UcsAlgorithms {
    /// A uniform-cost solver.
    pub fn new() -> (solver: Self)
        ensures
            solver.wf(),
    {
        Self {  }
    }
}

impl Algorithms for UcsAlgorithms {
    open spec fn wf(&self) -> bool {
        true
    }

    /// A solution found by expanding the shallowest board first. A board of
    /// it that carries costs carries the weight 0; the boards of the solution
    /// of a board without costs carry none. The solution is a shortest one,
    /// unless `initial_state` carries costs and the depth of the last board is
    /// held at the largest number.
    fn solve(&mut self, initial_state: Board) -> (solution: Option<Vec<Board>>)
        ensures
            solution matches Some(path) ==> forall|i: int|
                0 <= i < path.len() ==> ((#[trigger] path[i])@.config.weight matches Some(weight)
                    ==> weight == 0),
            solution matches Some(path) ==> forall|i: int|
                0 <= i < path.len() ==> (#[trigger] path[i])@.config.informed()
                    == initial_state@.config.informed(),
            solution matches Some(path) ==> (!initial_state@.config.informed() || path[path.len()
                - 1]@.config.total_weight() < usize::MAX ==> is_shortest(
                initial_state@,
                board_views(path@),
            )),
    {
        let ghost initial = initial_state@;
        let costed = BoardManager::is_informed(&initial_state);
        let start = BoardManager::with_costs(initial_state);
        let blind: Box<dyn HeuristicFn> = Box::new(NoEstimate);
        let mut guide = Some(blind);
        proof {
            lemma_no_estimate_consistent(guide, start@);
        }
        let ghost led = guide;
        let solution = best_first(start, &mut guide, Discipline::Cheapest);
        match solution {
            None => None,
            Some(path) => {
                proof {
                    assert forall|i: int|
                        0 <= i < path.len() implies ((#[trigger] path[i])@.config.weight matches Some(
                        weight,
                    ) ==> weight == 0) by {
                        assert(weighed(led, start@, path[i]@));
                    }
                    assert(board_views(path@).last() == path[path.len() - 1]@);
                    assert forall|i: int|
                        0 <= i < path.len() implies (#[trigger] path[i])@.config.informed() by {
                        lemma_depth_counts_slides(start@, board_views(path@), i);
                        assert(board_views(path@)[i] == path[i]@);
                    }
                }
                if costed {
                    Some(path)
                } else {
                    let plain = without_costs(path);
                    proof {
                        let views = board_views(path@);
                        let bare = board_views(plain@);
                        lemma_cost_counts_slides(start@, views);
                        assert forall|i: int| 0 <= i < bare.len() implies #[trigger] bare[i]
                            == views[i].without_costs() by {
                            assert(bare[i] == plain[i]@);
                            assert(views[i] == path[i]@);
                        }
                        lemma_solution_without_costs(initial, views, bare);
                        assert(is_shortest(start@, views));
                    }
                    Some(plain)
                }
            },
        }
    }
}

} // verus!
