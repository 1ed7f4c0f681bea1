use super::{HeuristicError, HeuristicFn};
use crate::algorithms::same_puzzle;
use crate::algorithms::shortest::{board_of, consistent, estimate_of, lemma_boards_of_slide};
use crate::board::board::{find_tile, Board, BoardManager, BoardView};
use crate::board::cell::Tile;
use crate::board::layout::{
    is_arrangement, lemma_cell_coordinates, lemma_position_exists, lemma_position_found,
    lemma_slide_is_one_step, position_of, slide_target, slides_to,
};
use vstd::prelude::*;

verus! {

/// How far two numbers are apart.
pub open spec fn distance(a: int, b: int) -> nat {
    if a <= b {
        (b - a) as nat
    } else {
        (a - b) as nat
    }
}

/// The rows plus the columns between the cell `idx` and the cell where
/// `tile` lies in `goal`; the blank counts for nothing.
pub open spec fn tile_distance(goal: Seq<Tile>, n: int, idx: int, tile: Tile) -> nat {
    if tile == Tile::Empty {
        0
    } else {
        let home = position_of(goal, tile);
        distance(idx % n, home % n) + distance(idx / n, home / n)
    }
}

/// The distances of the first `k` cells, added up.
pub open spec fn manhattan_prefix(tiles: Seq<Tile>, goal: Seq<Tile>, n: int, k: int) -> nat
    decreases k,
{
    if k <= 0 {
        0
    } else {
        manhattan_prefix(tiles, goal, n, k - 1) + tile_distance(goal, n, k - 1, tiles[k - 1])
    }
}

/// The Manhattan distance of a board: over all pieces, the rows plus the
/// columns between a piece and its place in the goal.
pub open spec fn manhattan(board: BoardView) -> nat {
    manhattan_prefix(board.tiles, board.config.goal_state, board.n(), board.tiles.len() as int)
}

/// No piece is further from home than twice the side of the grid.
pub proof fn lemma_tile_distance_bound(goal: Seq<Tile>, tiles: Seq<Tile>, n: int, idx: int, i: int)
    requires
        is_arrangement(goal, n),
        is_arrangement(tiles, n),
        0 <= idx < n * n,
        0 <= i < tiles.len(),
    ensures
        tile_distance(goal, n, idx, tiles[i]) <= 2 * (n - 1),
{
    if tiles[i] != Tile::Empty {
        lemma_position_exists(goal, tiles, n, i);
        lemma_cell_coordinates(idx, n);
        lemma_cell_coordinates(position_of(goal, tiles[i]), n);
    }
}

/// The distances of `k` cells add up to `30 * k` at most.
pub proof fn lemma_manhattan_prefix_bound(tiles: Seq<Tile>, goal: Seq<Tile>, n: int, k: int)
    requires
        is_arrangement(goal, n),
        is_arrangement(tiles, n),
        0 <= k <= tiles.len(),
    ensures
        manhattan_prefix(tiles, goal, n, k) <= k * 30,
    decreases k,
{
    if k > 0 {
        lemma_manhattan_prefix_bound(tiles, goal, n, k - 1);
        lemma_tile_distance_bound(goal, tiles, n, k - 1, k - 1);
    }
}

/// Putting `tile` into the cell `i` changes the sum by what the cell's
/// distance changes.
pub proof fn lemma_manhattan_update(
    tiles: Seq<Tile>,
    goal: Seq<Tile>,
    n: int,
    k: int,
    i: int,
    tile: Tile,
)
    requires
        0 <= i < tiles.len(),
        0 <= k <= tiles.len(),
    ensures
        manhattan_prefix(tiles.update(i, tile), goal, n, k) + (if i < k {
            tile_distance(goal, n, i, tiles[i])
        } else {
            0
        }) == manhattan_prefix(tiles, goal, n, k) + (if i < k {
            tile_distance(goal, n, i, tile)
        } else {
            0
        }),
    decreases k,
{
    if k > 0 {
        lemma_manhattan_update(tiles, goal, n, k - 1, i, tile);
    }
}

/// The distance after a slide: the piece that moved into the old place of the
/// blank is the only one whose distance changed.
pub proof fn lemma_manhattan_slide(previous: BoardView, next: BoardView)
    requires
        previous.wf(),
        next.wf(),
        next.follows(previous),
    ensures
        manhattan(next) + tile_distance(
            next.config.goal_state,
            next.n(),
            next.blank(),
            next.tiles[previous.blank()],
        ) == manhattan(previous) + tile_distance(
            next.config.goal_state,
            next.n(),
            previous.blank(),
            next.tiles[previous.blank()],
        ),
{
    let goal = previous.config.goal_state;
    let n = previous.n();
    let from = previous.blank();
    let to = next.blank();
    let moved = previous.tiles[to];
    let len = previous.tiles.len() as int;
    let half = previous.tiles.update(from, moved);
    assert(next.tiles =~= half.update(to, Tile::Empty));
    assert(next.tiles[from] == moved);
    lemma_manhattan_update(previous.tiles, goal, n, len, from, moved);
    lemma_manhattan_update(half, goal, n, len, to, Tile::Empty);
}

impl BoardView {
    /// The weight the board carries is its Manhattan distance.
    pub open spec fn carries_manhattan(self) -> bool {
        self.config.heuristic_value() == manhattan(self)
    }
}

/// How far two numbers are apart.
pub fn gap(a: usize, b: usize) -> (d: usize)
    ensures
        d == distance(a as int, b as int),
{
    if a <= b {
        b - a
    } else {
        a - b
    }
}

/// The rows plus the columns between two cells are no more than the larger
/// of their indices.
pub proof fn lemma_cell_distance_fits(a: int, b: int, n: int)
    requires
        0 < n,
        0 <= a,
        0 <= b,
    ensures
        distance(a % n, b % n) + distance(a / n, b / n) <= if a <= b {
            b
        } else {
            a
        },
{
    vstd::arithmetic::div_mod::lemma_fundamental_div_mod(a, n);
    vstd::arithmetic::div_mod::lemma_fundamental_div_mod(b, n);
    vstd::arithmetic::div_mod::lemma_mod_bound(a, n);
    vstd::arithmetic::div_mod::lemma_mod_bound(b, n);
    vstd::arithmetic::div_mod::lemma_div_pos_is_pos(a, n);
    vstd::arithmetic::div_mod::lemma_div_pos_is_pos(b, n);
    let qa = a / n;
    let qb = b / n;
    let ra = a % n;
    let rb = b % n;
    if qa == qb {
    } else if qa > qb {
        assert(n - 1 + qa <= n * qa) by (nonlinear_arith)
            requires
                n >= 1,
                qa >= 1,
        ;
    } else {
        assert(n - 1 + qb <= n * qb) by (nonlinear_arith)
            requires
                n >= 1,
                qb >= 1,
        ;
    }
}

/// The rows plus the columns between the cells `idx` and `home`.
pub fn cell_distance(idx: usize, home: usize, n: usize) -> (d: usize)
    requires
        0 < n,
    ensures
        d == distance(idx as int % n as int, home as int % n as int) + distance(
            idx as int / n as int,
            home as int / n as int,
        ),
{
    proof {
        lemma_cell_distance_fits(idx as int, home as int, n as int);
    }
    let dx = gap(idx % n, home % n);
    let dy = gap(idx / n, home / n);
    dx + dy
}

/// The Manhattan distance of `board`, worked out from scratch.
pub fn mahattan_distance(board: &Board, _old_idx: Option<usize>) -> (value: usize)
    requires
        board@.wf(),
    ensures
        value == manhattan(board@),
{
    let n = BoardManager::size_of(board) as usize;
    let tiles = BoardManager::tiles_of(board);
    let goal = BoardManager::goal_of(board);
    let mut total: usize = 0;
    let mut idx: usize = 0;
    proof {
        assert(n * n <= 256) by (nonlinear_arith)
            requires
                2 <= n <= 16,
        ;
    }
    while idx < tiles.len()
        invariant
            idx <= tiles.len(),
            tiles.len() == n * n,
            n * n <= 256,
            board@.wf(),
            n == board@.n(),
            tiles@ == board@.tiles,
            goal@ == board@.config.goal_state,
            total == manhattan_prefix(tiles@, goal@, n as int, idx as int),
            total <= idx * 30,
        decreases tiles.len() - idx,
    {
        let tile = tiles[idx];
        proof {
            lemma_manhattan_prefix_bound(tiles@, goal@, n as int, idx + 1);
            lemma_position_exists(goal@, tiles@, n as int, idx as int);
        }
        if tile != Tile::Empty {
            match find_tile(goal, tile) {
                Some(home) => {
                    proof {
                        lemma_position_found(goal@, n as int, home as int);
                    }
                    total = total + cell_distance(idx, home, n);
                },
                None => {
                    proof {
                        assert(false);
                    }
                },
            }
        }
        idx = idx + 1;
    }
    total
}

/// The Manhattan distance as an estimator. It keeps nothing of its own:
/// the weight that a board carries is what it goes by.
pub struct MahattanDistance;

impl HeuristicFn for MahattanDistance {
    open spec fn estimate(&self, board: BoardView) -> nat {
        manhattan(board)
    }

    open spec fn tracks(&self, board: BoardView) -> bool {
        board.carries_manhattan()
    }

    /// From scratch: the Manhattan distance. From the board before: the weight
    /// that board carries, corrected by the one piece that moved; this is the
    /// Manhattan distance again whenever that weight was.
    fn compute(&mut self, new_state: &Board, old_state: Option<&Board>) -> (value: Result<
        usize,
        HeuristicError,
    >)
        ensures
            old_state is None ==> value == Ok::<usize, HeuristicError>(
                manhattan(new_state@) as usize,
            ),
            old_state matches Some(previous) ==> warm_manhattan(previous@, new_state@) == value,
    {
        match old_state {
            None => Ok(mahattan_distance(new_state, None)),
            Some(old_state) => {
                let n = BoardManager::size_of(new_state) as usize;
                let old_idx = BoardManager::empty_tile_idx(old_state) as usize;
                let new_idx = BoardManager::empty_tile_idx(new_state) as usize;
                let tiles = BoardManager::tiles_of(new_state);
                let goal = BoardManager::goal_of(new_state);
                let moved = tiles[old_idx];
                proof {
                    lemma_position_exists(goal@, tiles@, n as int, old_idx as int);
                    lemma_manhattan_slide(old_state@, new_state@);
                    lemma_manhattan_prefix_bound(
                        new_state@.tiles,
                        goal@,
                        n as int,
                        tiles.len() as int,
                    );
                    assert(n * n <= 256) by (nonlinear_arith)
                        requires
                            2 <= n <= 16,
                    ;
                }
                if moved == Tile::Empty {
                    return Ok(BoardManager::heuristic_value_of(old_state));
                }
                match find_tile(goal, moved) {
                    Some(home) => {
                        proof {
                            lemma_position_found(goal@, n as int, home as int);
                        }
                        let gained = cell_distance(old_idx, home, n);
                        let lost = cell_distance(new_idx, home, n);
                        let before = BoardManager::heuristic_value_of(old_state);
                        if before > usize::MAX - gained || before + gained < lost {
                            Err(HeuristicError::Inconsistent)
                        } else {
                            Ok(before + gained - lost)
                        }
                    },
                    None => {
                        proof {
                            assert(false);
                        }
                        Err(HeuristicError::Inconsistent)
                    },
                }
            },
        }
    }
}

/// What the update from the board before returns: that board's weight, plus
/// the distance of the moved piece where it is now, minus its distance where
/// it was; an error where the result would not be a number.
pub open spec fn warm_manhattan(previous: BoardView, next: BoardView) -> Result<
    usize,
    HeuristicError,
> {
    let moved = next.tiles[previous.blank()];
    let gained = tile_distance(next.config.goal_state, next.n(), previous.blank(), moved);
    let lost = tile_distance(next.config.goal_state, next.n(), next.blank(), moved);
    let before = previous.config.heuristic_value();
    if before + gained > usize::MAX || before + gained < lost {
        Err(HeuristicError::Inconsistent)
    } else {
        Ok((before + gained - lost) as usize)
    }
}

/// At the goal no piece is away from home.
pub proof fn lemma_goal_has_no_distance(board: BoardView)
    requires
        board.wf(),
        board.at_goal(),
    ensures
        manhattan(board) == 0,
{
    lemma_home_cells_add_nothing(board.tiles, board.n(), board.tiles.len() as int);
}

/// The distances of the first `k` cells of the goal itself add up to
/// nothing.
proof fn lemma_home_cells_add_nothing(goal: Seq<Tile>, n: int, k: int)
    requires
        is_arrangement(goal, n),
        0 <= k <= goal.len(),
    ensures
        manhattan_prefix(goal, goal, n, k) == 0,
    decreases k,
{
    if k > 0 {
        lemma_home_cells_add_nothing(goal, n, k - 1);
        lemma_position_found(goal, n, k - 1);
    }
}

/// One slide away from the goal the Manhattan distance is 1.
pub proof fn lemma_one_slide_from_goal(previous: BoardView, next: BoardView)
    requires
        previous.wf(),
        next.wf(),
        previous.at_goal(),
        next.follows(previous),
    ensures
        manhattan(next) == 1,
{
    let n = previous.n();
    let goal = next.config.goal_state;
    let moved = next.tiles[previous.blank()];
    lemma_goal_has_no_distance(previous);
    lemma_manhattan_slide(previous, next);
    let direction = choose|direction: int| #[trigger]
        slide_target(previous.blank(), n, direction) == Some(next.blank());
    lemma_slide_is_one_step(previous.blank(), n, direction);
    crate::board::layout::lemma_slide_target_on_grid(previous.blank(), n, direction);
    assert(moved == previous.tiles[next.blank()]);
    lemma_position_found(goal, n, next.blank());
    if moved == Tile::Empty {
        assert(previous.tiles[next.blank()] != previous.tiles[previous.blank()]) by {
            if next.blank() < previous.blank() {
                assert(previous.tiles[next.blank()] != previous.tiles[previous.blank()]);
            } else {
                assert(previous.tiles[previous.blank()] != previous.tiles[next.blank()]);
            }
        }
    }
    assert(position_of(goal, moved) == next.blank());
    assert(tile_distance(goal, n, next.blank(), moved) == 0);
    assert(tile_distance(goal, n, previous.blank(), moved) == 1);
}

/// One slide changes the Manhattan distance by one at most.
pub proof fn lemma_manhattan_one_apart(previous: BoardView, next: BoardView)
    requires
        previous.wf(),
        next.wf(),
        next.follows(previous),
    ensures
        manhattan(previous) <= manhattan(next) + 1,
        manhattan(next) <= manhattan(previous) + 1,
{
    let n = previous.n();
    let goal = next.config.goal_state;
    let moved = next.tiles[previous.blank()];
    lemma_manhattan_slide(previous, next);
    let direction = choose|direction: int| #[trigger]
        slide_target(previous.blank(), n, direction) == Some(next.blank());
    lemma_slide_is_one_step(previous.blank(), n, direction);
    let gained = tile_distance(goal, n, previous.blank(), moved);
    let lost = tile_distance(goal, n, next.blank(), moved);
    assert(gained <= lost + 1 && lost <= gained + 1);
}

/// The Manhattan distance is a consistent estimate: it goes by the cells
/// alone, and over one slide it drops by one at most.
pub proof fn lemma_manhattan_consistent(guide: Option<Box<dyn HeuristicFn>>, initial: BoardView)
    requires
        guide is Some,
        forall|board: BoardView| #[trigger] guide.unwrap().estimate(board) == manhattan(board),
        initial.wf(),
        initial.config.informed(),
    ensures
        consistent(guide, initial),
{
    assert forall|board: BoardView|
        board.wf() && same_puzzle(board, initial) implies #[trigger] guide.unwrap().estimate(board)
        == estimate_of(guide, initial, board.tiles) by {
        assert(guide.unwrap().estimate(board_of(initial, board.tiles)) == manhattan(
            board_of(initial, board.tiles),
        ));
    }
    assert forall|from: Seq<Tile>, to: Seq<Tile>|
        is_arrangement(from, initial.n()) && #[trigger] slides_to(
            from,
            to,
            initial.n(),
        ) implies estimate_of(guide, initial, from) <= estimate_of(guide, initial, to) + 1 by {
        lemma_boards_of_slide(initial, from, to);
        lemma_manhattan_one_apart(board_of(initial, from), board_of(initial, to));
        assert(guide.unwrap().estimate(board_of(initial, from)) == manhattan(
            board_of(initial, from),
        ));
        assert(guide.unwrap().estimate(board_of(initial, to)) == manhattan(board_of(initial, to)));
    }
}

} // verus!
