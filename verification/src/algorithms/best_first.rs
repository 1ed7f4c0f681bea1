//! The search that the solvers share: a frontier of boards that wait, a
//! record of the boards that were expanded, and the steps between the two.

use super::frontier::{precedes, Discipline, Entry, Frontier};
use super::informed_search::heuristic::HeuristicFn;
use super::shortest::{
    capped, consistent, depth_of, estimate_of, is_shortest, lemma_cheapest_is_nearest,
    lemma_estimates_transfer, lemma_nearest_expanded, lemma_nearest_joined,
    lemma_nearest_passed_over, lemma_nearest_settled, lemma_nearest_start,
    lemma_recorded_so_far, lemma_shallow_is_shortest, lemma_successor_costs_more, nearest_first,
    recorded,
};
use super::{
    is_solution, lemma_solution_shows_solvable, no_cells_twice, same_puzzle, solvable, starts_as,
    succeeds_at,
};
use crate::board::board::{board_views, Board, BoardManager, BoardView};
use crate::board::board_config::copy_tiles;
use crate::board::cell::Tile;
use crate::board::layout::{is_path, reachable_in, slide_target, slides_at, slides_to, swapped};
use crate::board::tile_map::TileMap;
use vstd::multiset::Multiset;
use vstd::prelude::*;

verus! {

/// A board that was expanded, and the place of the board it was reached
/// from among those expanded before it.
pub struct Node {
    pub board: Board,
    pub parent: Option<usize>,
}

/// `board` is a board of the puzzle, reached by one slide from the expanded
/// board that `parent` names, or the first board itself.
pub open spec fn linked(
    initial: BoardView,
    closed: Seq<Node>,
    board: BoardView,
    parent: Option<usize>,
) -> bool {
    &&& board.wf()
    &&& same_puzzle(board, initial)
    &&& match parent {
        Some(p) => p < closed.len() && board.succeeds(closed[p as int].board@),
        None => starts_as(board, initial),
    }
}

/// The expanded board at `k` is linked to one expanded before it, and is
/// not at the goal.
pub open spec fn node_linked(initial: BoardView, closed: Seq<Node>, k: int) -> bool {
    linked(initial, closed.take(k), closed[k].board@, closed[k].parent)
        && !closed[k].board@.at_goal()
}

/// Each expanded board is linked to one expanded before it, and none is at
/// the goal.
pub open spec fn nodes_linked(initial: BoardView, closed: Seq<Node>) -> bool {
    forall|k: int| 0 <= k < closed.len() ==> #[trigger] node_linked(initial, closed, k)
}

/// A board with the cells `tiles` waits in the frontier.
pub open spec fn waits(frontier: Multiset<Entry>, tiles: Seq<Tile>) -> bool {
    exists|entry: Entry| #[trigger] frontier.contains(entry) && entry.board@.tiles == tiles
}

/// The cells `tiles` will not be missed: they were expanded, or wait, or are
/// in hand.
pub open spec fn covered(
    visited: Map<Seq<Tile>, usize>,
    frontier: Multiset<Entry>,
    pending: Option<Seq<Tile>>,
    tiles: Seq<Tile>,
) -> bool {
    visited.contains_key(tiles) || waits(frontier, tiles) || pending == Some(tiles)
}

/// What holds of a search between two steps. Of the expanded boards the
/// first `settled` have all their successors covered.
#[verifier::opaque]
pub open spec fn search_inv(
    initial: BoardView,
    closed: Seq<Node>,
    visited: Map<Seq<Tile>, usize>,
    best: Map<Seq<Tile>, usize>,
    frontier: Multiset<Entry>,
    settled: int,
    pending: Option<Seq<Tile>>,
) -> bool {
    &&& initial.wf()
    &&& nodes_linked(initial, closed)
    &&& 0 <= settled <= closed.len()
    &&& forall|k: int|
        0 <= k < closed.len() ==> visited.contains_key((#[trigger] closed[k]).board@.tiles)
            && visited[closed[k].board@.tiles] == k
    &&& forall|tiles: Seq<Tile>| #[trigger]
        visited.contains_key(tiles) ==> visited[tiles] < closed.len()
            && closed[visited[tiles] as int].board@.tiles == tiles
    &&& forall|entry: Entry| #[trigger]
        frontier.contains(entry) ==> linked(initial, closed, entry.board@, entry.parent)
    &&& forall|k: int, tiles: Seq<Tile>|
        0 <= k < settled && #[trigger] slides_to(closed[k].board@.tiles, tiles, initial.n())
            ==> covered(visited, frontier, pending, tiles)
    &&& forall|tiles: Seq<Tile>| #[trigger]
        best.contains_key(tiles) ==> covered(visited, frontier, pending, tiles)
    &&& covered(visited, frontier, pending, initial.tiles)
}

/// `board` is one of the expanded boards.
pub open spec fn expanded(closed: Seq<Node>, board: BoardView) -> bool {
    exists|k: int| 0 <= k < closed.len() && (#[trigger] closed[k]).board@ == board
}

/// The weight of `board` is what the search gave it: with an estimator the
/// estimate for the board, without one the weight of the first board.
pub open spec fn weighed(
    guide: Option<Box<dyn HeuristicFn>>,
    initial: BoardView,
    board: BoardView,
) -> bool {
    match guide {
        Some(heuristic) => board.config.weight matches Some(weight) ==> weight
            == heuristic.estimate(board),
        None => board.config.weight == initial.config.weight,
    }
}

/// Every board of the search is weighed, and the estimator, where there is
/// one, tracks every informed board that waits.
#[verifier::opaque]
pub open spec fn guided(
    guide: Option<Box<dyn HeuristicFn>>,
    initial: BoardView,
    closed: Seq<Node>,
    frontier: Multiset<Entry>,
) -> bool {
    &&& guide matches Some(heuristic) ==> forall|entry: Entry| #[trigger]
        frontier.contains(entry) && entry.board@.config.informed() ==> heuristic.tracks(
            entry.board@,
        )
    &&& forall|entry: Entry| #[trigger]
        frontier.contains(entry) ==> weighed(guide, initial, entry.board@)
    &&& forall|k: int| 0 <= k < closed.len() ==> weighed(guide, initial, (#[trigger] closed[k]).board@)
}

/// Two estimators, if there are any, give the same estimates.
pub open spec fn same_estimates(
    before: Option<Box<dyn HeuristicFn>>,
    after: Option<Box<dyn HeuristicFn>>,
) -> bool {
    &&& before is Some <==> after is Some
    &&& before is Some ==> forall|board: BoardView|
        #![trigger after.unwrap().estimate(board)]
        after.unwrap().estimate(board) == before.unwrap().estimate(board)
}

/// All rows of `len` cells.
pub open spec fn rows(len: nat) -> Set<Seq<Tile>> {
    Set::new(|tiles: Seq<Tile>| tiles.len() == len)
}

/// How many rows of `len` cells were not expanded yet.
pub open spec fn unvisited(visited: Map<Seq<Tile>, usize>, len: nat) -> nat {
    rows(len).difference(visited.dom()).len()
}

/// There are finitely many cells.
proof fn lemma_tiles_finite()
    ensures
        Set::<Tile>::new(|tile: Tile| true).finite(),
{
    let numbers = vstd::set_lib::set_int_range(0, 256);
    vstd::set_lib::lemma_int_range(0, 256);
    let make = |i: int| Tile::Value(i as u8);
    numbers.lemma_map_finite(make);
    let values = numbers.map(make).insert(Tile::Empty);
    let all = Set::<Tile>::new(|tile: Tile| true);
    assert forall|tile: Tile| all.contains(tile) implies values.contains(tile) by {
        match tile {
            Tile::Empty => {},
            Tile::Value(v) => {
                assert(numbers.contains(v as int));
                assert(make(v as int) == tile);
            },
        }
    }
    vstd::set_lib::lemma_set_subset_finite(values, all);
}

/// There are finitely many rows of a given length.
pub proof fn lemma_rows_finite(len: nat)
    ensures
        rows(len).finite(),
    decreases len,
{
    if len == 0 {
        let only = Set::<Seq<Tile>>::empty().insert(Seq::<Tile>::empty());
        assert forall|tiles: Seq<Tile>| rows(0).contains(tiles) implies only.contains(tiles) by {
            assert(tiles =~= Seq::<Tile>::empty());
        }
        vstd::set_lib::lemma_set_subset_finite(only, rows(0));
    } else {
        let shorter = rows((len - 1) as nat);
        lemma_rows_finite((len - 1) as nat);
        lemma_tiles_finite();
        let all = Set::<Tile>::new(|tile: Tile| true);
        let extend = |tile: Tile| shorter.map(|tiles: Seq<Tile>| tiles.push(tile));
        all.lemma_map_finite(extend);
        let families = all.map(extend);
        assert forall|family: Set<Seq<Tile>>| families.contains(family) implies #[trigger]
            family.finite() by {
            let tile = choose|tile: Tile| all.contains(tile) && family == extend(tile);
            shorter.lemma_map_finite(|tiles: Seq<Tile>| tiles.push(tile));
        }
        families.lemma_flatten_finite();
        assert forall|tiles: Seq<Tile>| rows(len).contains(tiles) implies families.flatten().contains(
            tiles,
        ) by {
            let head = tiles.drop_last();
            let tile = tiles.last();
            assert(shorter.contains(head));
            assert(tiles =~= head.push(tile));
            assert(all.contains(tile));
            assert(extend(tile).contains(tiles));
            assert(families.contains(extend(tile)));
        }
        vstd::set_lib::lemma_set_subset_finite(families.flatten(), rows(len));
    }
}

/// Expanding a row that was not expanded leaves fewer to expand.
pub proof fn lemma_fewer_unvisited(visited: Map<Seq<Tile>, usize>, tiles: Seq<Tile>, place: usize)
    requires
        !visited.contains_key(tiles),
    ensures
        unvisited(visited.insert(tiles, place), tiles.len()) < unvisited(visited, tiles.len()),
{
    let len = tiles.len();
    lemma_rows_finite(len);
    let before = rows(len).difference(visited.dom());
    let after = rows(len).difference(visited.insert(tiles, place).dom());
    vstd::set_lib::lemma_set_subset_finite(rows(len), before);
    assert(before.contains(tiles));
    assert(after =~= before.remove(tiles));
}

/// A slide from a board leads to one of its successors.
pub proof fn lemma_slide_is_successor(board: BoardView, tiles: Seq<Tile>)
    requires
        board.wf(),
        slides_to(board.tiles, tiles, board.n()),
    ensures
        exists|i: int|
            0 <= i < board.successors().len() && (#[trigger] board.successors()[i]).tiles
                == tiles,
{
    let (blank, direction) = choose|blank: int, direction: int|
        {
            &&& 0 <= blank < board.tiles.len()
            &&& board.tiles[blank] == Tile::Empty
            &&& #[trigger] slide_target(blank, board.n(), direction) is Some
            &&& tiles == swapped(
                board.tiles,
                blank,
                slide_target(blank, board.n(), direction).unwrap(),
            )
        };
    if blank < board.blank() {
        assert(board.tiles[blank] != board.tiles[board.blank()]);
    } else if board.blank() < blank {
        assert(board.tiles[board.blank()] != board.tiles[blank]);
    }
    assert(blank == board.blank());
    let target = slide_target(blank, board.n(), direction).unwrap();
    let all = board.successors();
    let i = if direction == 0 {
        0
    } else if direction == 1 {
        board.step(0).len() as int
    } else if direction == 2 {
        (board.step(0).len() + board.step(1).len()) as int
    } else {
        (board.step(0).len() + board.step(1).len() + board.step(2).len()) as int
    };
    assert(board.step(direction) == seq![board.slid_to(target)]);
    assert(board.step(direction)[0] == board.slid_to(target));
    assert(0 <= i < all.len() && all[i] == board.slid_to(target));
}

/// A path that starts inside a set of rows which no slide leaves stays
/// inside it.
pub proof fn lemma_walk_stays(inside: Set<Seq<Tile>>, path: Seq<Seq<Tile>>, n: int, i: int)
    requires
        forall|from: Seq<Tile>, to: Seq<Tile>|
            inside.contains(from) && #[trigger] slides_to(from, to, n) ==> inside.contains(to),
        is_path(path, n),
        inside.contains(path.first()),
        0 <= i < path.len(),
    ensures
        inside.contains(path[i]),
    decreases i,
{
    if i > 0 {
        lemma_walk_stays(inside, path, n, i - 1);
        assert(slides_at(path, n, i - 1));
    }
}

/// When nothing waits any more, every board that can be reached was
/// expanded; none of them was at the goal, so the goal cannot be reached.
pub proof fn lemma_exhausted(
    initial: BoardView,
    closed: Seq<Node>,
    visited: Map<Seq<Tile>, usize>,
    best: Map<Seq<Tile>, usize>,
    frontier: Multiset<Entry>,
)
    requires
        search_inv(initial, closed, visited, best, frontier, closed.len() as int, None),
        frontier.len() == 0,
    ensures
        !solvable(initial),
{
    reveal(search_inv);
    let n = initial.n();
    let inside = visited.dom();
    assert forall|tiles: Seq<Tile>| !waits(frontier, tiles) by {
        if waits(frontier, tiles) {
            let entry = choose|entry: Entry| #[trigger]
                frontier.contains(entry) && entry.board@.tiles == tiles;
            assert(frontier.count(entry) > 0);
            vstd::multiset::lemma_multiset_empty_len(frontier);
        }
    }
    assert forall|from: Seq<Tile>, to: Seq<Tile>|
        inside.contains(from) && #[trigger] slides_to(from, to, n) implies inside.contains(to) by {
        let k = visited[from] as int;
        assert(closed[k].board@.tiles == from);
        assert(covered(visited, frontier, None, to));
    }
    if solvable(initial) {
        let steps = choose|steps: nat| #[trigger]
            reachable_in(initial.tiles, initial.config.goal_state, n, steps);
        let path = choose|path: Seq<Seq<Tile>>|
            {
                &&& #[trigger] is_path(path, n)
                &&& path.len() == steps + 1
                &&& path.first() == initial.tiles
                &&& path.last() == initial.config.goal_state
            };
        assert(covered(visited, frontier, None, initial.tiles));
        lemma_walk_stays(inside, path, n, path.len() - 1);
        let k = visited[path.last()] as int;
        assert(closed[k].board@.tiles == initial.config.goal_state);
        assert(node_linked(initial, closed, k));
        assert(closed[k].board@.at_goal());
    }
}

/// Taking an entry out of the frontier leaves everything covered that was,
/// as long as the entry is in hand.
pub proof fn lemma_popped(
    initial: BoardView,
    closed: Seq<Node>,
    visited: Map<Seq<Tile>, usize>,
    best: Map<Seq<Tile>, usize>,
    frontier: Multiset<Entry>,
    first: Entry,
)
    requires
        search_inv(initial, closed, visited, best, frontier, closed.len() as int, None),
        frontier.contains(first),
    ensures
        search_inv(
            initial,
            closed,
            visited,
            best,
            frontier.remove(first),
            closed.len() as int,
            Some(first.board@.tiles),
        ),
        linked(initial, closed, first.board@, first.parent),
        frontier.remove(first).len() < frontier.len(),
{
    reveal(search_inv);
    let rest = frontier.remove(first);
    let pending = Some(first.board@.tiles);
    assert forall|tiles: Seq<Tile>| covered(visited, frontier, None, tiles) implies covered(
        visited,
        rest,
        pending,
        tiles,
    ) by {
        if waits(frontier, tiles) {
            let entry = choose|entry: Entry| #[trigger]
                frontier.contains(entry) && entry.board@.tiles == tiles;
            if entry != first {
                assert(rest.contains(entry));
            }
        }
    }
    assert forall|entry: Entry| #[trigger] rest.contains(entry) implies frontier.contains(entry) by {
    }
}

/// Expanding the board in hand: it joins the expanded boards, with none of
/// its successors looked at yet.
pub proof fn lemma_expanded(
    initial: BoardView,
    closed: Seq<Node>,
    visited: Map<Seq<Tile>, usize>,
    best: Map<Seq<Tile>, usize>,
    frontier: Multiset<Entry>,
    node: Node,
)
    requires
        search_inv(
            initial,
            closed,
            visited,
            best,
            frontier,
            closed.len() as int,
            Some(node.board@.tiles),
        ),
        linked(initial, closed, node.board@, node.parent),
        !node.board@.at_goal(),
        !visited.contains_key(node.board@.tiles),
        closed.len() <= usize::MAX,
    ensures
        search_inv(
            initial,
            closed.push(node),
            visited.insert(node.board@.tiles, closed.len() as usize),
            best,
            frontier,
            closed.len() as int,
            None,
        ),
{
    reveal(search_inv);
    let grown = closed.push(node);
    let place = closed.len() as usize;
    let seen = visited.insert(node.board@.tiles, place);
    let pending = Some(node.board@.tiles);
    assert forall|k: int| 0 <= k < grown.len() implies #[trigger] node_linked(
        initial,
        grown,
        k,
    ) by {
        if k < closed.len() {
            assert(node_linked(initial, closed, k));
            assert(grown.take(k) =~= closed.take(k));
            assert(grown[k] == closed[k]);
        } else {
            assert(grown.take(k) =~= closed);
        }
    }
    assert forall|tiles: Seq<Tile>| covered(visited, frontier, pending, tiles) implies covered(
        seen,
        frontier,
        None,
        tiles,
    ) by {}
    assert forall|tiles: Seq<Tile>| #[trigger] seen.contains_key(tiles) implies seen[tiles]
        < grown.len() && grown[seen[tiles] as int].board@.tiles == tiles by {
        if tiles != node.board@.tiles {
            assert(visited.contains_key(tiles));
        }
    }
    assert forall|k: int, tiles: Seq<Tile>|
        0 <= k < closed.len() && #[trigger] slides_to(
            grown[k].board@.tiles,
            tiles,
            initial.n(),
        ) implies covered(seen, frontier, None, tiles) by {
        assert(grown[k] == closed[k]);
        assert(covered(visited, frontier, pending, tiles));
    }
    assert forall|entry: Entry| #[trigger] frontier.contains(entry) implies linked(
        initial,
        grown,
        entry.board@,
        entry.parent,
    ) by {
        assert(linked(initial, closed, entry.board@, entry.parent));
        if let Some(p) = entry.parent {
            assert(grown[p as int] == closed[p as int]);
        }
    }
    assert forall|k: int| 0 <= k < grown.len() implies seen.contains_key(
        (#[trigger] grown[k]).board@.tiles,
    ) && seen[grown[k].board@.tiles] == k by {
        if k < closed.len() {
            assert(grown[k] == closed[k]);
            assert(visited.contains_key(closed[k].board@.tiles));
        }
    }
}

/// Once each successor of the board expanded last is covered, that board is
/// settled too.
pub proof fn lemma_settled(
    initial: BoardView,
    closed: Seq<Node>,
    visited: Map<Seq<Tile>, usize>,
    best: Map<Seq<Tile>, usize>,
    frontier: Multiset<Entry>,
)
    requires
        closed.len() >= 1,
        search_inv(initial, closed, visited, best, frontier, closed.len() - 1, None),
        forall|i: int|
            0 <= i < closed.last().board@.successors().len() ==> covered(
                visited,
                frontier,
                None,
                (#[trigger] closed.last().board@.successors()[i]).tiles,
            ),
    ensures
        search_inv(initial, closed, visited, best, frontier, closed.len() as int, None),
{
    reveal(search_inv);
    let last = closed.len() - 1;
    assert forall|k: int, tiles: Seq<Tile>|
        0 <= k < closed.len() && #[trigger] slides_to(
            closed[k].board@.tiles,
            tiles,
            initial.n(),
        ) implies covered(visited, frontier, None, tiles) by {
        if k == last {
            assert(node_linked(initial, closed, k));
            lemma_slide_is_successor(closed[k].board@, tiles);
        }
    }
}

/// The board at `i` follows from the one after it by one slide and is one
/// move deeper.
pub open spec fn precedes_at(back: Seq<BoardView>, i: int) -> bool {
    back[i].succeeds(back[i + 1])
}

/// A chain of boards from the goal back to the first board, read backwards,
/// is a solution.
proof fn lemma_read_backwards(initial: BoardView, back: Seq<BoardView>, path: Seq<BoardView>)
    requires
        back.len() >= 1,
        back[0].at_goal(),
        starts_as(back[back.len() - 1], initial),
        forall|i: int|
            0 <= i < back.len() ==> (#[trigger] back[i]).wf() && same_puzzle(back[i], initial),
        forall|i: int| 0 <= i < back.len() - 1 ==> #[trigger] precedes_at(back, i),
        path.len() == back.len(),
        forall|i: int| 0 <= i < path.len() ==> #[trigger] path[i] == back[back.len() - 1 - i],
    ensures
        is_solution(initial, path),
{
    assert forall|i: int| 0 <= i < path.len() - 1 implies #[trigger] succeeds_at(path, i) by {
        let k = back.len() - 1 - (i + 1);
        assert(precedes_at(back, k));
        assert(path[i + 1] == back[k]);
        assert(path[i] == back[k + 1]);
    }
    assert(path.first() == back[back.len() - 1]);
    assert(path.last() == back[0]);
    assert forall|i: int| 0 <= i < path.len() implies (#[trigger] path[i]).wf() && same_puzzle(
        path[i],
        initial,
    ) by {
        assert(path[i] == back[back.len() - 1 - i]);
    }
}

/// No two of the expanded boards have the same cells, and none has the
/// cells of `last`.
pub open spec fn cells_apart(closed: Seq<Node>, last: BoardView) -> bool {
    &&& forall|j: int, k: int|
        #![trigger closed[j], closed[k]]
        0 <= j < k < closed.len() ==> closed[j].board@.tiles != closed[k].board@.tiles
    &&& forall|k: int| 0 <= k < closed.len() ==> (#[trigger] closed[k]).board@.tiles != last.tiles
}

/// The cells of the board at `place`: of an expanded board, or, one past
/// them, of `last`.
pub open spec fn cells_at(closed: Seq<Node>, last: BoardView, place: int) -> Seq<Tile> {
    if place == closed.len() {
        last.tiles
    } else {
        closed[place].board@.tiles
    }
}

/// The boards of a search have their cells apart: each row of cells is
/// expanded once, and the board in hand was not expanded.
proof fn lemma_search_keeps_cells_apart(
    initial: BoardView,
    closed: Seq<Node>,
    visited: Map<Seq<Tile>, usize>,
    best: Map<Seq<Tile>, usize>,
    frontier: Multiset<Entry>,
    settled: int,
    pending: Option<Seq<Tile>>,
    last: BoardView,
)
    requires
        search_inv(initial, closed, visited, best, frontier, settled, pending),
        !visited.contains_key(last.tiles),
    ensures
        cells_apart(closed, last),
{
    reveal(search_inv);
    assert forall|j: int, k: int|
        #![trigger closed[j], closed[k]]
        0 <= j < k < closed.len() implies closed[j].board@.tiles != closed[k].board@.tiles by {
        assert(visited[closed[j].board@.tiles] == j);
        assert(visited[closed[k].board@.tiles] == k);
    }
}

/// A chain of boards taken from ever earlier places among boards whose cells
/// are apart, read backwards, has no cells twice.
proof fn lemma_chain_has_no_cells_twice(
    closed: Seq<Node>,
    last: BoardView,
    back: Seq<BoardView>,
    places: Seq<int>,
    path: Seq<BoardView>,
)
    requires
        cells_apart(closed, last),
        places.len() == back.len(),
        path.len() == back.len(),
        forall|i: int|
            0 <= i < places.len() ==> 0 <= #[trigger] places[i] <= closed.len() && back[i].tiles
                == cells_at(closed, last, places[i]),
        forall|i: int, j: int|
            #![trigger places[i], places[j]]
            0 <= i < j < places.len() ==> places[i] > places[j],
        forall|i: int| 0 <= i < path.len() ==> #[trigger] path[i] == back[back.len() - 1 - i],
    ensures
        no_cells_twice(path),
{
    assert forall|i: int, j: int|
        #![trigger path[i], path[j]]
        0 <= i < j < path.len() implies path[i].tiles != path[j].tiles by {
        let a = back.len() - 1 - j;
        let b = back.len() - 1 - i;
        assert(path[i] == back[b]);
        assert(path[j] == back[a]);
        assert(places[a] > places[b]);
        assert(back[a].tiles == cells_at(closed, last, places[a]));
        assert(back[b].tiles == cells_at(closed, last, places[b]));
        if places[a] == closed.len() {
            assert(closed[places[b]].board@.tiles != last.tiles);
        } else {
            assert(closed[places[b]].board@.tiles != closed[places[a]].board@.tiles);
        }
    }
}

/// The solution that ends with `last`: its ancestors among the expanded
/// boards, from the first board on, and then `last`.
fn rebuild(
    closed: &Vec<Node>,
    last: Board,
    parent: Option<usize>,
    Ghost(initial): Ghost<BoardView>,
) -> (path: Vec<Board>)
    requires
        initial.wf(),
        nodes_linked(initial, closed@),
        linked(initial, closed@, last@, parent),
        last@.at_goal(),
        cells_apart(closed@, last@),
    ensures
        is_solution(initial, board_views(path@)),
        no_cells_twice(board_views(path@)),
        path.len() >= 1,
        path[path.len() - 1]@ == last@,
        forall|i: int|
            0 <= i < path.len() ==> (#[trigger] path[i])@ == last@ || expanded(closed@, path[i]@),
{
    let mut reversed: Vec<Board> = Vec::new();
    reversed.push(last);
    let mut at = parent;
    let ghost mut places: Seq<int> = seq![closed.len() as int];
    while at.is_some()
        invariant
            nodes_linked(initial, closed@),
            places.len() == reversed.len(),
            forall|i: int|
                0 <= i < places.len() ==> 0 <= #[trigger] places[i] <= closed.len()
                    && reversed[i]@.tiles == cells_at(closed@, last@, places[i]),
            forall|i: int, j: int|
                #![trigger places[i], places[j]]
                0 <= i < j < places.len() ==> places[i] > places[j],
            at matches Some(p) ==> p < places[places.len() - 1],
            reversed.len() >= 1,
            reversed[0]@ == last@,
            reversed[0]@.at_goal(),
            forall|i: int|
                0 <= i < reversed.len() ==> (#[trigger] reversed[i])@.wf() && same_puzzle(
                    reversed[i]@,
                    initial,
                ),
            forall|i: int|
                0 <= i < reversed.len() - 1 ==> #[trigger] precedes_at(board_views(reversed@), i),
            forall|i: int|
                0 <= i < reversed.len() ==> (#[trigger] reversed[i])@ == last@ || expanded(
                    closed@,
                    reversed[i]@,
                ),
            match at {
                Some(p) => p < closed.len() && reversed[reversed.len() - 1]@.succeeds(
                    closed[p as int].board@,
                ),
                None => starts_as(reversed[reversed.len() - 1]@, initial),
            },
        decreases
                match at {
                    Some(p) => p + 1,
                    None => 0,
                },
    {
        let p = at.unwrap();
        proof {
            assert(node_linked(initial, closed@, p as int));
        }
        assert(expanded(closed@, closed@[p as int].board@));
        let ghost before = board_views(reversed@);
        let ghost earlier = places;
        reversed.push(closed[p].board.duplicate());
        proof {
            places = earlier.push(p as int);
            assert forall|i: int, j: int|
                #![trigger places[i], places[j]]
                0 <= i < j < places.len() implies places[i] > places[j] by {
                if j < earlier.len() {
                    assert(earlier[i] > earlier[j]);
                } else if i < earlier.len() - 1 {
                    assert(earlier[i] > earlier[earlier.len() - 1]);
                }
            }
            assert forall|i: int| 0 <= i < places.len() implies 0 <= #[trigger] places[i]
                <= closed.len() && reversed[i]@.tiles == cells_at(closed@, last@, places[i]) by {
                if i < earlier.len() {
                    assert(places[i] == earlier[i]);
                }
            }
            let after = board_views(reversed@);
            assert forall|i: int| 0 <= i < after.len() - 1 implies #[trigger] precedes_at(
                after,
                i,
            ) by {
                assert(after[i] == reversed[i]@);
                assert(after[i + 1] == reversed[i + 1]@);
                if i < before.len() - 1 {
                    assert(precedes_at(before, i));
                    assert(before[i] == reversed[i]@);
                    assert(before[i + 1] == reversed[i + 1]@);
                } else {
                    assert(before[before.len() - 1] == reversed[i]@);
                }
            }
        }
        at = closed[p].parent;
    }
    let mut path: Vec<Board> = Vec::with_capacity(reversed.len());
    let mut left: usize = reversed.len();
    assert(reversed[0]@ == last@);
    while left > 0
        invariant
            left <= reversed.len(),
            path.len() == reversed.len() - left,
            forall|i: int|
                0 <= i < path.len() ==> (#[trigger] path[i])@ == reversed[reversed.len() - 1 - i]@,
        decreases left,
    {
        left = left - 1;
        path.push(reversed[left].duplicate());
    }
    proof {
        let views = board_views(path@);
        let back = board_views(reversed@);
        assert forall|i: int| 0 <= i < views.len() implies #[trigger] views[i] == back[back.len()
            - 1 - i] by {
            assert(views[i] == path[i]@);
            assert(back[back.len() - 1 - i] == reversed[reversed.len() - 1 - i]@);
        }
        assert forall|i: int| 0 <= i < back.len() implies (#[trigger] back[i]).wf() && same_puzzle(
            back[i],
            initial,
        ) by {
            assert(back[i] == reversed[i]@);
        }

        assert(back[0] == reversed[0]@);
        assert(back[back.len() - 1] == reversed[reversed.len() - 1]@);
        lemma_read_backwards(initial, back, views);
        assert forall|i: int| 0 <= i < places.len() implies 0 <= #[trigger] places[i]
            <= closed.len() && back[i].tiles == cells_at(closed@, last@, places[i]) by {
            assert(back[i] == reversed[i]@);
        }
        lemma_chain_has_no_cells_twice(closed@, last@, back, places, views);
        assert(path[path.len() - 1]@ == reversed[0]@);
        assert forall|i: int| 0 <= i < path.len() implies (#[trigger] path[i])@ == last@
            || expanded(closed@, path[i]@) by {
            assert(path[i]@ == reversed[reversed.len() - 1 - i]@);
        }
    }
    path
}

/// Looks at one successor of the board expanded last. One that was expanded
/// already is passed over. Otherwise it is weighed, where there is an
/// estimator, from the board it follows; under the discipline `Cheapest` it
/// is then dropped unless its cost is the first recorded for its cells or
/// lower than the one recorded, and the lower cost is recorded; what is left
/// joins the frontier.
fn consider(
    neighbor: Board,
    index: usize,
    closed: &Vec<Node>,
    visited: &TileMap<usize>,
    best: &mut TileMap<usize>,
    frontier: &mut Frontier,
    guide: &mut Option<Box<dyn HeuristicFn>>,
    Ghost(initial): Ghost<BoardView>,
    Ghost(nearest): Ghost<bool>,
    Ghost(floor): Ghost<usize>,
)
    requires
        visited.wf(),
        old(best).wf(),
        old(frontier).wf(),
        search_inv(initial, closed@, visited@, old(best)@, old(frontier)@, index as int, None),
        nearest ==> {
            &&& old(frontier).discipline() == Discipline::Cheapest
            &&& consistent(*old(guide), initial)
            &&& nearest_first(
                *old(guide),
                initial,
                closed@,
                visited@,
                old(best)@,
                old(frontier)@,
                floor,
                index as int,
                None,
            )
            &&& floor == closed[index as int].board@.config.total_weight()
        },
        index + 1 == closed.len(),
        neighbor@.wf(),
        neighbor@.slid_from(closed[index as int].board@),
        guided(*old(guide), initial, closed@, old(frontier)@),
        (*old(guide)) matches Some(heuristic) ==> (closed[index as int].board@.config.informed()
            ==> heuristic.tracks(closed[index as int].board@)),
    ensures
        final(best).wf(),
        final(frontier).wf(),
        search_inv(initial, closed@, visited@, final(best)@, final(frontier)@, index as int, None),
        guided(*final(guide), initial, closed@, final(frontier)@),
        (*final(guide)) matches Some(heuristic) ==> (closed[index as int].board@.config.informed()
            ==> heuristic.tracks(closed[index as int].board@)),
        same_estimates(*old(guide), *final(guide)),
        covered(visited@, final(frontier)@, None, neighbor@.tiles),
        forall|tiles: Seq<Tile>|
            covered(visited@, old(frontier)@, None, tiles) ==> covered(
                visited@,
                final(frontier)@,
                None,
                tiles,
            ),
        final(frontier)@.len() <= old(frontier)@.len() + 1,
        final(frontier).discipline() == old(frontier).discipline(),
        nearest ==> {
            &&& consistent(*final(guide), initial)
            &&& nearest_first(
                *final(guide),
                initial,
                closed@,
                visited@,
                final(best)@,
                final(frontier)@,
                floor,
                index as int,
                None,
            )
            &&& recorded(
                *final(guide),
                initial,
                closed[index as int].board@,
                visited@,
                final(best)@,
                neighbor@.tiles,
            )
        },
        forall|tiles: Seq<Tile>| #[trigger]
            old(best)@.contains_key(tiles) ==> final(best)@.contains_key(tiles)
                && final(best)@[tiles] <= old(best)@[tiles],
{
    reveal(search_inv);
    reveal(guided);
    reveal(nearest_first);
    if visited.contains(BoardManager::tiles_of(&neighbor)) {
        return ;
    }
    let current = &closed[index].board;
    proof {
        assert(node_linked(initial, closed@, index as int));
    }
    let ghost plain = neighbor@;
    let neighbor = match guide {
        Some(heuristic) => {
            let previous = if BoardManager::is_informed(current) {
                Some(current)
            } else {
                None
            };
            match heuristic.compute(&neighbor, previous) {
                Ok(weight) => BoardManager::assign_weight(neighbor, weight),
                Err(_) => {
                    proof {
                        assert(false);
                    }
                    neighbor
                },
            }
        },
        None => neighbor,
    };
    assert(neighbor@.tiles == plain.tiles && neighbor@.wf() && neighbor@.succeeds(
        closed[index as int].board@,
    ));
    assert(same_estimates(*old(guide), *guide));
    assert(weighed(*guide, initial, neighbor@)) by {
        assert(weighed(*old(guide), initial, closed[index as int].board@));
    }
    assert(guided(*guide, initial, closed@, frontier@)) by {
        if let Some(heuristic) = *guide {
            assert forall|entry: Entry| #[trigger]
                frontier@.contains(entry) && entry.board@.config.informed() implies heuristic.tracks(
                entry.board@,
            ) by {
                assert(linked(initial, closed@, entry.board@, entry.parent));
            }
        }
        assert forall|entry: Entry| #[trigger] frontier@.contains(entry) implies weighed(
            *guide,
            initial,
            entry.board@,
        ) by {
            assert(weighed(*old(guide), initial, entry.board@));
        }
        assert forall|k: int| 0 <= k < closed.len() implies weighed(
            *guide,
            initial,
            (#[trigger] closed[k]).board@,
        ) by {
            assert(weighed(*old(guide), initial, closed[k].board@));
        }
    }
    proof {
        if nearest {
            lemma_estimates_transfer(
                *old(guide),
                *guide,
                initial,
                closed@,
                visited@,
                best@,
                frontier@,
                floor,
                index as int,
            );
            assert(weighed(*guide, initial, closed[index as int].board@));
            lemma_successor_costs_more(*guide, initial, closed[index as int].board@, neighbor@);
        }
    }
    let cheapest = match frontier.discipline_of() {
        Discipline::Cheapest => true,
        Discipline::Newest => false,
    };
    let cost = if cheapest {
        BoardManager::total_weight(&neighbor)
    } else {
        0
    };
    if cheapest {
        match best.get(BoardManager::tiles_of(&neighbor)) {
            Some(known) => {
                if *known <= cost {
                    return ;
                }
            },
            None => {},
        }
    }
    let ghost waiting = frontier@;
    let ghost order = frontier.pushed();
    let ghost recorded = best@;
    let ghost entry = Entry { board: neighbor, parent: Some(index), cost, order };
    if cheapest {
        best.insert(copy_tiles(BoardManager::tiles_of(&neighbor)), cost);
    }
    frontier.push(neighbor, Some(index), cost);
    proof {
        if nearest {
            lemma_nearest_joined(
                *guide,
                initial,
                closed@,
                visited@,
                recorded,
                waiting,
                floor,
                index as int,
                entry,
            );
        }
        assert(frontier@ == waiting.insert(entry));
        assert(frontier@.contains(entry));
        assert(waits(frontier@, entry.board@.tiles));
        assert forall|tiles: Seq<Tile>| covered(visited@, waiting, None, tiles) implies covered(
            visited@,
            frontier@,
            None,
            tiles,
        ) by {
            if waits(waiting, tiles) {
                let other = choose|other: Entry| #[trigger]
                    waiting.contains(other) && other.board@.tiles == tiles;
                assert(frontier@.contains(other));
            }
        }
        assert forall|other: Entry| #[trigger] frontier@.contains(other) implies linked(
            initial,
            closed@,
            other.board@,
            other.parent,
        ) by {
            if other != entry {
                assert(waiting.contains(other));
            }
        }
        assert forall|tiles: Seq<Tile>| #[trigger] best@.contains_key(tiles) implies covered(
            visited@,
            frontier@,
            None,
            tiles,
        ) by {
            if tiles != entry.board@.tiles {
                assert(recorded.contains_key(tiles));
            }
        }
        assert(guided(*guide, initial, closed@, frontier@)) by {
            if let Some(heuristic) = *guide {
                assert forall|other: Entry| #[trigger]
                    frontier@.contains(other) && other.board@.config.informed() implies heuristic.tracks(
                    other.board@,
                ) by {
                    if other != entry {
                        assert(waiting.contains(other));
                    }
                }
            }
            assert forall|other: Entry| #[trigger] frontier@.contains(other) implies weighed(
                *guide,
                initial,
                other.board@,
            ) by {
                if other != entry {
                    assert(waiting.contains(other));
                }
            }
        }
    }
}

/// Looks at the successors of the board expanded last, in their order, and
/// settles that board.
fn look_around(
    neighbors: &Vec<Board>,
    index: usize,
    closed: &Vec<Node>,
    visited: &TileMap<usize>,
    best: &mut TileMap<usize>,
    frontier: &mut Frontier,
    guide: &mut Option<Box<dyn HeuristicFn>>,
    Ghost(initial): Ghost<BoardView>,
    Ghost(nearest): Ghost<bool>,
    Ghost(floor): Ghost<usize>,
)
    requires
        index + 1 == closed.len(),
        visited.wf(),
        old(best).wf(),
        old(frontier).wf(),
        search_inv(initial, closed@, visited@, old(best)@, old(frontier)@, index as int, None),
        guided(*old(guide), initial, closed@, old(frontier)@),
        nearest ==> {
            &&& old(frontier).discipline() == Discipline::Cheapest
            &&& consistent(*old(guide), initial)
            &&& nearest_first(
                *old(guide),
                initial,
                closed@,
                visited@,
                old(best)@,
                old(frontier)@,
                floor,
                index as int,
                None,
            )
            &&& floor == closed[index as int].board@.config.total_weight()
        },
        (*old(guide)) matches Some(heuristic) ==> (closed[index as int].board@.config.informed()
            ==> heuristic.tracks(closed[index as int].board@)),
        board_views(neighbors@) == closed[index as int].board@.successors(),
        forall|j: int|
            0 <= j < neighbors.len() ==> (#[trigger] neighbors[j])@.wf() && neighbors[j]@.slid_from(
                closed[index as int].board@,
            ),
    ensures
        final(best).wf(),
        final(frontier).wf(),
        search_inv(
            initial,
            closed@,
            visited@,
            final(best)@,
            final(frontier)@,
            closed.len() as int,
            None,
        ),
        guided(*final(guide), initial, closed@, final(frontier)@),
        final(frontier).discipline() == old(frontier).discipline(),
        same_estimates(*old(guide), *final(guide)),
        nearest ==> consistent(*final(guide), initial) && nearest_first(
            *final(guide),
            initial,
            closed@,
            visited@,
            final(best)@,
            final(frontier)@,
            floor,
            closed.len() as int,
            None,
        ),
{
    let mut i: usize = 0;
    while i < neighbors.len()
        invariant
            i <= neighbors.len(),
            index + 1 == closed.len(),
            visited.wf(),
            best.wf(),
            frontier.wf(),
            search_inv(initial, closed@, visited@, best@, frontier@, index as int, None),
            guided(*guide, initial, closed@, frontier@),
            frontier.discipline() == old(frontier).discipline(),
            same_estimates(*old(guide), *guide),
            nearest ==> {
                &&& frontier.discipline() == Discipline::Cheapest
                &&& consistent(*guide, initial)
                &&& nearest_first(
                    *guide,
                    initial,
                    closed@,
                    visited@,
                    best@,
                    frontier@,
                    floor,
                    index as int,
                    None,
                )
                &&& floor == closed[index as int].board@.config.total_weight()
                &&& forall|j: int|
                    0 <= j < i ==> recorded(
                        *guide,
                        initial,
                        closed[index as int].board@,
                        visited@,
                        best@,
                        (#[trigger] closed[index as int].board@.successors()[j]).tiles,
                    )
            },
            (*guide) matches Some(heuristic) ==> (closed[index as int].board@.config.informed()
                ==> heuristic.tracks(closed[index as int].board@)),
            board_views(neighbors@) == closed[index as int].board@.successors(),
            forall|j: int|
                0 <= j < neighbors.len() ==> (#[trigger] neighbors[j])@.wf()
                    && neighbors[j]@.slid_from(closed[index as int].board@),
            forall|j: int|
                0 <= j < i ==> covered(visited@, frontier@, None, (#[trigger] neighbors[j])@.tiles),
        decreases neighbors.len() - i,
    {
        let ghost led = *guide;
        let ghost known = best@;
        consider(
            neighbors[i].duplicate(),
            index,
            closed,
            visited,
            best,
            frontier,
            guide,
            Ghost(initial),
            Ghost(nearest),
            Ghost(floor),
        );
        proof {
            assert(board_views(neighbors@)[i as int] == neighbors[i as int]@);
            if nearest {
                lemma_recorded_so_far(
                    led,
                    *guide,
                    initial,
                    closed[index as int].board@,
                    visited@,
                    known,
                    best@,
                    closed[index as int].board@.successors(),
                    i as int,
                );
            }
        }
        i = i + 1;
    }
    proof {
        reveal(search_inv);
        reveal(guided);
        reveal(nearest_first);
        assert forall|j: int|
            0 <= j < closed@.last().board@.successors().len() implies covered(
            visited@,
            frontier@,
            None,
            (#[trigger] closed@.last().board@.successors()[j]).tiles,
        ) by {
            assert(board_views(neighbors@)[j] == neighbors[j]@);
        }
        lemma_settled(initial, closed@, visited@, best@, frontier@);
        if nearest {
            assert forall|j: int|
                0 <= j < closed@.last().board@.successors().len() && !visited@.contains_key(
                    (#[trigger] closed@.last().board@.successors()[j]).tiles,
                ) implies best@.contains_key(closed@.last().board@.successors()[j].tiles)
                && best@[closed@.last().board@.successors()[j].tiles] <= capped(
                closed@.last().board@.config.deeper().unwrap()
                    + estimate_of(*guide, initial, closed@.last().board@.successors()[j].tiles, )) by {
                assert(recorded(
                    *guide,
                    initial,
                    closed[index as int].board@,
                    visited@,
                    best@,
                    closed[index as int].board@.successors()[j].tiles,
                ));
            }
            assert(node_linked(initial, closed@, index as int));
            lemma_nearest_settled(*guide, initial, closed@, visited@, best@, frontier@, floor);
        }
    }
}

/// Searches for the goal of `initial_state`. The boards that wait leave the
/// frontier as its discipline says. A board that leaves is passed over if its
/// cells were expanded before; it ends the search if it is at the goal;
/// otherwise it is expanded, and its successors are looked at in the order
/// left, right, up, down. With an estimator, each board is weighed before it
/// joins the frontier. The search ends without a solution when nothing waits
/// any more, which happens only where the goal cannot be reached.
pub fn best_first(
    initial_state: Board,
    guide: &mut Option<Box<dyn HeuristicFn>>,
    discipline: Discipline,
) -> (solution: Option<Vec<Board>>)
    requires
        initial_state@.wf(),
    ensures
        same_estimates(*old(guide), *final(guide)),
        solution is Some <==> solvable(initial_state@),
        solution matches Some(path) ==> is_solution(initial_state@, board_views(path@)),
        solution matches Some(path) ==> no_cells_twice(board_views(path@)),
        solution matches Some(path) ==> forall|i: int|
            0 <= i < path.len() ==> weighed(*old(guide), initial_state@, (#[trigger] path[i])@),
        solution matches Some(path) ==> (consistent(*old(guide), initial_state@) && discipline
            == Discipline::Cheapest && path[path.len() - 1]@.config.total_weight() < usize::MAX
            ==> is_shortest(initial_state@, board_views(path@))),
{
    reveal(search_inv);
    reveal(guided);
    reveal(nearest_first);
    let ghost initial = initial_state@;
    let ghost nearest = consistent(*old(guide), initial_state@) && discipline
        == Discipline::Cheapest;
    let mut closed: Vec<Node> = Vec::new();
    let mut visited: TileMap<usize> = TileMap::new();
    let mut best: TileMap<usize> = TileMap::new();
    let mut frontier = Frontier::new(discipline);
    let first = match guide {
        Some(heuristic) => {
            match heuristic.compute(&initial_state, None) {
                Ok(weight) => BoardManager::assign_weight(initial_state, weight),
                Err(_) => {
                    proof {
                        assert(false);
                    }
                    initial_state
                },
            }
        },
        None => initial_state,
    };
    let cost = match discipline {
        Discipline::Cheapest => BoardManager::total_weight(&first),
        Discipline::Newest => 0,
    };
    let ghost start = Entry { board: first, parent: None, cost, order: 0 };
    match discipline {
        Discipline::Cheapest => {
            best.insert(copy_tiles(BoardManager::tiles_of(&first)), cost);
        },
        Discipline::Newest => {},
    }
    frontier.push(first, None, cost);
    let ghost mut floor: usize = 0;
    proof {
        assert(frontier@.contains(start));
        assert(waits(frontier@, initial.tiles));
        assert forall|entry: Entry| #[trigger] frontier@.contains(entry) implies entry == start by {}
        if nearest {
            lemma_nearest_start(*old(guide), initial, start);
            lemma_estimates_transfer(
                *old(guide),
                *guide,
                initial,
                closed@,
                visited@,
                best@,
                frontier@,
                floor,
                0,
            );
        }
    }
    loop
        invariant
            initial == initial_state@,
            visited.wf(),
            best.wf(),
            frontier.wf(),
            search_inv(initial, closed@, visited@, best@, frontier@, closed.len() as int, None),
            guided(*guide, initial, closed@, frontier@),
            frontier.discipline() == discipline,
            same_estimates(*old(guide), *guide),
            nearest == (consistent(*old(guide), initial) && discipline == Discipline::Cheapest),
            nearest ==> consistent(*guide, initial) && nearest_first(
                *guide,
                initial,
                closed@,
                visited@,
                best@,
                frontier@,
                floor,
                closed.len() as int,
                None,
            ),
        decreases unvisited(visited@, initial.tiles.len()), frontier@.len(),
    {
        reveal(search_inv);
        reveal(guided);
        reveal(nearest_first);
        let ghost waiting = frontier@;
        let entry = match frontier.pop() {
            Some(entry) => entry,
            None => {
                proof {
                    lemma_exhausted(initial, closed@, visited@, best@, frontier@);
                }
                return None;
            },
        };
        proof {
            lemma_popped(initial, closed@, visited@, best@, waiting, entry);
            assert forall|other: Entry| #[trigger] frontier@.contains(other) implies waiting.contains(
                other,
            ) by {}
            assert(guided(*guide, initial, closed@, frontier@));
            assert(weighed(*guide, initial, entry.board@));
        }
        let Entry { board, parent, cost: _, order: _ } = entry;
        if visited.contains(BoardManager::tiles_of(&board)) {
            proof {
                if nearest {
                    lemma_nearest_passed_over(
                        *guide,
                        initial,
                        closed@,
                        visited@,
                        best@,
                        waiting,
                        floor,
                        entry,
                    );
                }
            }
            continue ;
        }
        proof {
            if nearest {
                assert(weighed(*guide, initial, entry.board@));
                assert(linked(initial, closed@, entry.board@, entry.parent));
                assert(entry.board@.config.informed());
                assert forall|other: Entry| #[trigger] waiting.contains(other) implies other.cost
                    >= entry.cost by {
                    assert(!precedes(discipline, other, entry));
                }
            }
        }
        if board.match_goal() {
            let ghost last = board@;
            proof {
                lemma_search_keeps_cells_apart(
                    initial,
                    closed@,
                    visited@,
                    best@,
                    frontier@,
                    closed.len() as int,
                    Some(board@.tiles),
                    board@,
                );
            }
            let path = rebuild(&closed, board, parent, Ghost(initial));
            proof {
                if nearest && last.config.total_weight() < usize::MAX {
                    assert forall|steps: nat| #[trigger]
                        reachable_in(initial.tiles, last.tiles, initial.n(), steps) implies depth_of(
                        last,
                    ) <= depth_of(initial) + steps by {
                        lemma_cheapest_is_nearest(
                            *guide,
                            initial,
                            closed@,
                            visited@,
                            best@,
                            waiting,
                            floor,
                            entry,
                            steps,
                        );
                    }
                    assert(board_views(path@).last() == last);
                    lemma_shallow_is_shortest(initial, board_views(path@));
                }
                lemma_solution_shows_solvable(initial, board_views(path@));
                assert forall|i: int| 0 <= i < path.len() implies weighed(
                    *old(guide),
                    initial,
                    (#[trigger] path[i])@,
                ) by {
                    if path[i]@ != last {
                        let k = choose|k: int|
                            0 <= k < closed.len() && (#[trigger] closed[k]).board@ == path[i]@;
                        assert(weighed(*guide, initial, closed[k].board@));
                    }
                }
            }
            return Some(path);
        }
        let index = closed.len();
        let neighbors = BoardManager::neigbors_of(&board);
        let node = Node { board, parent };
        proof {
            lemma_expanded(initial, closed@, visited@, best@, frontier@, node);
            lemma_fewer_unvisited(visited@, node.board@.tiles, index);
            if nearest {
                lemma_nearest_expanded(
                    *guide,
                    initial,
                    closed@,
                    visited@,
                    best@,
                    waiting,
                    floor,
                    entry,
                    node,
                );
                floor = entry.cost;
            }
        }
        visited.insert(copy_tiles(BoardManager::tiles_of(&node.board)), index);
        closed.push(node);
        look_around(
            &neighbors,
            index,
            &closed,
            &visited,
            &mut best,
            &mut frontier,
            guide,
            Ghost(initial),
            Ghost(nearest),
            Ghost(floor),
        );
    }
}

} // verus!
