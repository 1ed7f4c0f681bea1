//! Why the cheapest-first search finds a shortest solution when its estimate
//! never drops by more than one over a slide.

use super::frontier::Entry;
use super::informed_search::heuristic::HeuristicFn;
use super::best_first::{lemma_slide_is_successor, same_estimates, Node};
use super::{is_solution, lemma_follows_is_slide, same_puzzle, succeeds_at};
use crate::board::board::BoardView;
use crate::board::board_config::ConfigView;
use crate::board::cell::Tile;
use crate::board::layout::{
    is_arrangement, is_path, lemma_blank_position, lemma_slide_target_on_grid,
    lemma_swapped_is_arrangement, position_of, reachable_in, slide_target, slides_at, slides_to,
    swapped,
};
use crate::board::scramble::lemma_path_keeps_arrangements;
use vstd::multiset::Multiset;
use vstd::prelude::*;

verus! {

/// The board of the puzzle of `initial` with the cells `tiles`, and with the
/// costs of `initial`.
pub open spec fn board_of(initial: BoardView, tiles: Seq<Tile>) -> BoardView {
    BoardView {
        tiles,
        config: ConfigView {
            empty_tile_idx: position_of(tiles, Tile::Empty) as u8,
            ..initial.config
        },
    }
}

/// The estimate for the cells `tiles` in the puzzle of `initial`.
pub open spec fn estimate_of(
    guide: Option<Box<dyn HeuristicFn>>,
    initial: BoardView,
    tiles: Seq<Tile>,
) -> nat {
    guide.unwrap().estimate(board_of(initial, tiles))
}

/// The estimator goes by the cells alone, and over one slide its estimate
/// drops by one at most. The boards of the puzzle carry costs.
pub open spec fn consistent(guide: Option<Box<dyn HeuristicFn>>, initial: BoardView) -> bool {
    &&& guide is Some
    &&& initial.config.informed()
    &&& forall|board: BoardView|
        board.wf() && same_puzzle(board, initial) ==> #[trigger] guide.unwrap().estimate(board)
            == estimate_of(guide, initial, board.tiles)
    &&& forall|from: Seq<Tile>, to: Seq<Tile>|
        is_arrangement(from, initial.n()) && #[trigger] slides_to(from, to, initial.n())
            ==> estimate_of(guide, initial, from) <= estimate_of(guide, initial, to) + 1
}

/// A sum of costs, held at the largest number.
pub open spec fn capped(sum: int) -> int {
    if sum <= usize::MAX {
        sum
    } else {
        usize::MAX as int
    }
}

/// The depth of a board with costs.
pub open spec fn depth_of(board: BoardView) -> int {
    board.config.depth.unwrap() as int
}

/// The boards that wait carry costs, their entries say what they cost, none
/// is cheaper than `floor`, and none is cheaper than the cost recorded for
/// its cells.
pub open spec fn costs_kept(
    frontier: Multiset<Entry>,
    best: Map<Seq<Tile>, usize>,
    floor: usize,
) -> bool {
    forall|entry: Entry| #[trigger]
        frontier.contains(entry) ==> {
            &&& entry.board@.config.informed()
            &&& entry.cost == entry.board@.config.total_weight()
            &&& entry.cost >= floor
            &&& best.contains_key(entry.board@.tiles)
            &&& best[entry.board@.tiles] <= entry.cost
        }
}

/// The expanded boards carry costs, and none is dearer than `floor`.
pub open spec fn closed_below(closed: Seq<Node>, floor: usize) -> bool {
    forall|k: int|
        0 <= k < closed.len() ==> (#[trigger] closed[k]).board@.config.informed()
            && closed[k].board@.config.total_weight() <= floor
}

/// A board waits with the cost `cost` for the cells `tiles`.
pub open spec fn waits_at(frontier: Multiset<Entry>, tiles: Seq<Tile>, cost: usize) -> bool {
    exists|entry: Entry| #[trigger]
        frontier.contains(entry) && entry.board@.tiles == tiles && entry.cost == cost
}

/// The lowest cost recorded for cells that were not expanded belongs to a
/// board that waits.
pub open spec fn best_waits(
    visited: Map<Seq<Tile>, usize>,
    best: Map<Seq<Tile>, usize>,
    frontier: Multiset<Entry>,
    pending: Option<Seq<Tile>>,
) -> bool {
    forall|tiles: Seq<Tile>|
        #[trigger] best.contains_key(tiles) && !visited.contains_key(tiles) && pending != Some(
            tiles,
        ) ==> waits_at(frontier, tiles, best[tiles])
}

/// An expanded board is as shallow as any walk to its cells allows, unless
/// its cost is held at the largest number.
pub open spec fn closed_nearest(initial: BoardView, closed: Seq<Node>) -> bool {
    forall|k: int, steps: nat|
        0 <= k < closed.len() && closed[k].board@.config.total_weight() < usize::MAX
            && #[trigger] reachable_in(initial.tiles, closed[k].board@.tiles, initial.n(), steps)
            ==> depth_of(closed[k].board@) <= depth_of(initial) + steps
}

/// The cost recorded for a successor of a settled board that was not
/// expanded is no higher than the cost by way of that board.
pub open spec fn successors_recorded(
    guide: Option<Box<dyn HeuristicFn>>,
    initial: BoardView,
    closed: Seq<Node>,
    visited: Map<Seq<Tile>, usize>,
    best: Map<Seq<Tile>, usize>,
    settled: int,
) -> bool {
    forall|k: int, tiles: Seq<Tile>|
        0 <= k < settled && #[trigger] slides_to(closed[k].board@.tiles, tiles, initial.n())
            && !visited.contains_key(tiles) ==> best.contains_key(tiles) && best[tiles] <= capped(
            closed[k].board@.config.deeper().unwrap() + estimate_of(guide, initial, tiles, ))
}

/// Until the first board is expanded, the cost recorded for it is its own.
pub open spec fn start_recorded(
    guide: Option<Box<dyn HeuristicFn>>,
    initial: BoardView,
    visited: Map<Seq<Tile>, usize>,
    best: Map<Seq<Tile>, usize>,
) -> bool {
    !visited.contains_key(initial.tiles) ==> best.contains_key(initial.tiles)
        && best[initial.tiles] <= capped(
        depth_of(initial) + estimate_of(guide, initial, initial.tiles),
    )
}

/// Every expanded row of cells is found among the expanded boards.
pub open spec fn visited_found(closed: Seq<Node>, visited: Map<Seq<Tile>, usize>) -> bool {
    forall|tiles: Seq<Tile>| #[trigger]
        visited.contains_key(tiles) ==> visited[tiles] < closed.len()
            && closed[visited[tiles] as int].board@.tiles == tiles
}

/// What holds of a cheapest-first search led by a consistent estimate,
/// between two steps.
#[verifier::opaque]
pub open spec fn nearest_first(
    guide: Option<Box<dyn HeuristicFn>>,
    initial: BoardView,
    closed: Seq<Node>,
    visited: Map<Seq<Tile>, usize>,
    best: Map<Seq<Tile>, usize>,
    frontier: Multiset<Entry>,
    floor: usize,
    settled: int,
    pending: Option<Seq<Tile>>,
) -> bool {
    &&& costs_kept(frontier, best, floor)
    &&& closed_below(closed, floor)
    &&& best_waits(visited, best, frontier, pending)
    &&& closed_nearest(initial, closed)
    &&& successors_recorded(guide, initial, closed, visited, best, settled)
    &&& start_recorded(guide, initial, visited, best)
}

/// Along a path the estimate drops by one a slide at most.
pub proof fn lemma_estimate_along(
    guide: Option<Box<dyn HeuristicFn>>,
    initial: BoardView,
    path: Seq<Seq<Tile>>,
    j: int,
    k: int,
)
    requires
        consistent(guide, initial),
        is_path(path, initial.n()),
        is_arrangement(path.first(), initial.n()),
        0 <= j <= k < path.len(),
    ensures
        estimate_of(guide, initial, path[j]) - estimate_of(guide, initial, path[k]) <= k - j,
    decreases k - j,
{
    let here = estimate_of(guide, initial, path[j]);
    let there = estimate_of(guide, initial, path[k]);
    if j < k {
        let next = estimate_of(guide, initial, path[j + 1]);
        lemma_estimate_along(guide, initial, path, j + 1, k);
        lemma_path_keeps_arrangements(path, initial.n(), j);
        assert(slides_at(path, initial.n(), j));
        assert(here <= next + 1);
        assert(next - there <= k - (j + 1));
        assert(here - there <= k - j) by (nonlinear_arith)
            requires
                here <= next + 1,
                next - there <= k - (j + 1),
        ;
    }
}

/// The first state of a path that is outside a set, when the state at `k` is.
pub proof fn lemma_first_outside(inside: Set<Seq<Tile>>, path: Seq<Seq<Tile>>, k: int) -> (j: int)
    requires
        0 <= k < path.len(),
        !inside.contains(path[k]),
    ensures
        0 <= j <= k,
        !inside.contains(path[j]),
        forall|i: int| 0 <= i < j ==> inside.contains(#[trigger] path[i]),
    decreases k,
{
    if exists|i: int| 0 <= i < k && !inside.contains(#[trigger] path[i]) {
        let i = choose|i: int| 0 <= i < k && !inside.contains(#[trigger] path[i]);
        lemma_first_outside(inside, path, i)
    } else {
        k
    }
}

/// The start of a path, up to the state at `j`, is a path of `j` slides.
pub proof fn lemma_path_prefix(path: Seq<Seq<Tile>>, n: int, j: int)
    requires
        is_path(path, n),
        0 <= j < path.len(),
    ensures
        reachable_in(path.first(), path[j], n, j as nat),
{
    let head = path.take(j + 1);
    assert forall|i: int| 0 <= i < head.len() - 1 implies #[trigger] slides_at(head, n, i) by {
        assert(slides_at(path, n, i));
    }
    assert(is_path(head, n));
    assert(head.first() == path.first() && head.last() == path[j]);
}

/// The cost recorded for the first state of a walk that was not expanded is
/// no higher than the cost of that state by way of the walk.
proof fn lemma_first_outside_recorded(
    guide: Option<Box<dyn HeuristicFn>>,
    initial: BoardView,
    closed: Seq<Node>,
    visited: Map<Seq<Tile>, usize>,
    best: Map<Seq<Tile>, usize>,
    floor: usize,
    path: Seq<Seq<Tile>>,
    j: int,
)
    requires
        floor < usize::MAX,
        visited_found(closed, visited),
        closed_below(closed, floor),
        closed_nearest(initial, closed),
        successors_recorded(guide, initial, closed, visited, best, closed.len() as int),
        start_recorded(guide, initial, visited, best),
        is_path(path, initial.n()),
        path.first() == initial.tiles,
        0 <= j < path.len(),
        !visited.contains_key(path[j]),
        forall|i: int| 0 <= i < j ==> visited.contains_key(#[trigger] path[i]),
    ensures
        best.contains_key(path[j]),
        best[path[j]] <= capped(
            depth_of(initial) + j + estimate_of(guide, initial, path[j]),
        ),
{
    if j > 0 {
        let before = path[j - 1];
        assert(visited.contains_key(before));
        let k = visited[before] as int;
        assert(closed[k].board@.tiles == before);
        assert(slides_at(path, initial.n(), j - 1));
        assert(closed[k].board@.config.total_weight() <= floor);
        lemma_path_prefix(path, initial.n(), j - 1);
        assert(reachable_in(initial.tiles, closed[k].board@.tiles, initial.n(), (j - 1) as nat));
        assert(depth_of(closed[k].board@) <= depth_of(initial) + (j - 1));
    }
}

/// The board that leaves a cheapest-first frontier is as shallow as any walk
/// to its cells allows, unless its cost is held at the largest number.
pub proof fn lemma_cheapest_is_nearest(
    guide: Option<Box<dyn HeuristicFn>>,
    initial: BoardView,
    closed: Seq<Node>,
    visited: Map<Seq<Tile>, usize>,
    best: Map<Seq<Tile>, usize>,
    frontier: Multiset<Entry>,
    floor: usize,
    first: Entry,
    steps: nat,
)
    requires
        consistent(guide, initial),
        initial.wf(),
        visited_found(closed, visited),
        nearest_first(
            guide,
            initial,
            closed,
            visited,
            best,
            frontier,
            floor,
            closed.len() as int,
            None,
        ),
        frontier.contains(first),
        forall|other: Entry| #[trigger] frontier.contains(other) ==> other.cost >= first.cost,
        !visited.contains_key(first.board@.tiles),
        first.cost < usize::MAX,
        first.board@.config.weight == Some(
            estimate_of(guide, initial, first.board@.tiles) as usize,
        ),
        estimate_of(guide, initial, first.board@.tiles) <= usize::MAX,
        reachable_in(initial.tiles, first.board@.tiles, initial.n(), steps),
    ensures
        depth_of(first.board@) <= depth_of(initial) + steps,
{
    reveal(nearest_first);
    let n = initial.n();
    let path = choose|path: Seq<Seq<Tile>>|
        {
            &&& #[trigger] is_path(path, n)
            &&& path.len() == steps + 1
            &&& path.first() == initial.tiles
            &&& path.last() == first.board@.tiles
        };
    let j = lemma_first_outside(visited.dom(), path, steps as int);
    let tiles = path[j];
    assert(first.cost >= floor);
    lemma_first_outside_recorded(guide, initial, closed, visited, best, floor, path, j);
    assert(waits_at(frontier, tiles, best[tiles]));
    let waiting = choose|entry: Entry| #[trigger]
        frontier.contains(entry) && entry.board@.tiles == tiles && entry.cost == best[tiles];
    assert(waiting.cost >= first.cost);
    lemma_estimate_along(guide, initial, path, j, steps as int);
}

/// `path` is as short as a solution of `initial` can be.
pub open spec fn is_shortest(initial: BoardView, path: Seq<BoardView>) -> bool {
    forall|steps: nat| #[trigger]
        reachable_in(initial.tiles, initial.config.goal_state, initial.n(), steps) ==> path.len()
            - 1 <= steps
}

/// The search starts with the first board waiting at its own cost.
pub proof fn lemma_nearest_start(
    guide: Option<Box<dyn HeuristicFn>>,
    initial: BoardView,
    start: Entry,
)
    requires
        start.board@.tiles == initial.tiles,
        start.board@.config.informed(),
        start.cost == start.board@.config.total_weight(),
        start.cost <= capped(
            depth_of(initial) + estimate_of(guide, initial, initial.tiles),
        ),
    ensures
        nearest_first(
            guide,
            initial,
            Seq::<Node>::empty(),
            Map::<Seq<Tile>, usize>::empty(),
            Map::<Seq<Tile>, usize>::empty().insert(initial.tiles, start.cost),
            Multiset::<Entry>::empty().insert(start),
            0,
            0,
            None,
        ),
{
    reveal(nearest_first);
    let frontier = Multiset::<Entry>::empty().insert(start);
    let best = Map::<Seq<Tile>, usize>::empty().insert(initial.tiles, start.cost);
    assert forall|entry: Entry| #[trigger] frontier.contains(entry) implies entry == start by {}
    assert(frontier.contains(start));
    assert(waits_at(frontier, initial.tiles, start.cost));
}

/// Passing over a board whose cells were expanded before leaves the search
/// as it was.
pub proof fn lemma_nearest_passed_over(
    guide: Option<Box<dyn HeuristicFn>>,
    initial: BoardView,
    closed: Seq<Node>,
    visited: Map<Seq<Tile>, usize>,
    best: Map<Seq<Tile>, usize>,
    frontier: Multiset<Entry>,
    floor: usize,
    first: Entry,
)
    requires
        nearest_first(
            guide,
            initial,
            closed,
            visited,
            best,
            frontier,
            floor,
            closed.len() as int,
            None,
        ),
        frontier.contains(first),
        visited.contains_key(first.board@.tiles),
    ensures
        nearest_first(
            guide,
            initial,
            closed,
            visited,
            best,
            frontier.remove(first),
            floor,
            closed.len() as int,
            None,
        ),
{
    reveal(nearest_first);
    let rest = frontier.remove(first);
    assert forall|entry: Entry| #[trigger] rest.contains(entry) implies frontier.contains(entry) by {}
    assert forall|tiles: Seq<Tile>|
        #[trigger] best.contains_key(tiles) && !visited.contains_key(tiles) implies waits_at(
        rest,
        tiles,
        best[tiles],
    ) by {
        assert(waits_at(frontier, tiles, best[tiles]));
        let entry = choose|entry: Entry| #[trigger]
            frontier.contains(entry) && entry.board@.tiles == tiles && entry.cost == best[tiles];
        assert(entry != first);
        assert(rest.contains(entry));
    }
}

/// Expanding the cheapest board that waits keeps the search in order: the
/// board is as shallow as can be, and its cost is the new floor.
pub proof fn lemma_nearest_expanded(
    guide: Option<Box<dyn HeuristicFn>>,
    initial: BoardView,
    closed: Seq<Node>,
    visited: Map<Seq<Tile>, usize>,
    best: Map<Seq<Tile>, usize>,
    frontier: Multiset<Entry>,
    floor: usize,
    first: Entry,
    node: Node,
)
    requires
        consistent(guide, initial),
        initial.wf(),
        visited_found(closed, visited),
        nearest_first(
            guide,
            initial,
            closed,
            visited,
            best,
            frontier,
            floor,
            closed.len() as int,
            None,
        ),
        frontier.contains(first),
        forall|other: Entry| #[trigger] frontier.contains(other) ==> other.cost >= first.cost,
        !visited.contains_key(first.board@.tiles),
        first.board@.config.weight == Some(
            estimate_of(guide, initial, first.board@.tiles) as usize,
        ),
        estimate_of(guide, initial, first.board@.tiles) <= usize::MAX,
        node.board@ == first.board@,
        closed.len() <= usize::MAX,
    ensures
        nearest_first(
            guide,
            initial,
            closed.push(node),
            visited.insert(first.board@.tiles, closed.len() as usize),
            best,
            frontier.remove(first),
            first.cost,
            closed.len() as int,
            None,
        ),
{
    reveal(nearest_first);
    let rest = frontier.remove(first);
    let grown = closed.push(node);
    let seen = visited.insert(first.board@.tiles, closed.len() as usize);
    assert forall|entry: Entry| #[trigger] rest.contains(entry) implies frontier.contains(entry) by {}
    assert(costs_kept(rest, best, first.cost));
    assert(closed_below(grown, first.cost)) by {
        assert forall|k: int|
            0 <= k < grown.len() implies (#[trigger] grown[k]).board@.config.informed()
            && grown[k].board@.config.total_weight() <= first.cost by {
            if k < closed.len() {
                assert(grown[k] == closed[k]);
            }
        }
    }
    assert(best_waits(seen, best, rest, None)) by {
        assert forall|tiles: Seq<Tile>|
            #[trigger] best.contains_key(tiles) && !seen.contains_key(tiles) implies waits_at(
            rest,
            tiles,
            best[tiles],
        ) by {
            assert(waits_at(frontier, tiles, best[tiles]));
            let entry = choose|entry: Entry| #[trigger]
                frontier.contains(entry) && entry.board@.tiles == tiles && entry.cost
                    == best[tiles];
            assert(entry != first);
            assert(rest.contains(entry));
        }
    }
    assert(closed_nearest(initial, grown)) by {
        assert forall|k: int, steps: nat|
            0 <= k < grown.len() && grown[k].board@.config.total_weight() < usize::MAX
                && #[trigger] reachable_in(
                initial.tiles,
                grown[k].board@.tiles,
                initial.n(),
                steps,
            ) implies depth_of(grown[k].board@) <= depth_of(initial) + steps by {
            if k < closed.len() {
                assert(grown[k] == closed[k]);
            } else {
                lemma_cheapest_is_nearest(
                    guide,
                    initial,
                    closed,
                    visited,
                    best,
                    frontier,
                    floor,
                    first,
                    steps,
                );
            }
        }
    }
    assert(successors_recorded(guide, initial, grown, seen, best, closed.len() as int)) by {
        assert forall|k: int, tiles: Seq<Tile>|
            0 <= k < closed.len() && #[trigger] slides_to(
                grown[k].board@.tiles,
                tiles,
                initial.n(),
            ) && !seen.contains_key(tiles) implies best.contains_key(tiles) && best[tiles]
            <= capped(
            grown[k].board@.config.deeper().unwrap() + estimate_of(guide, initial, tiles, )) by {
            assert(grown[k] == closed[k]);
        }
    }
}

/// A board that joins the frontier at a cost lower than the one recorded
/// for its cells, or the first recorded for them, keeps the search in order.
pub proof fn lemma_nearest_joined(
    guide: Option<Box<dyn HeuristicFn>>,
    initial: BoardView,
    closed: Seq<Node>,
    visited: Map<Seq<Tile>, usize>,
    best: Map<Seq<Tile>, usize>,
    frontier: Multiset<Entry>,
    floor: usize,
    settled: int,
    entry: Entry,
)
    requires
        nearest_first(guide, initial, closed, visited, best, frontier, floor, settled, None),
        entry.board@.config.informed(),
        entry.cost == entry.board@.config.total_weight(),
        entry.cost >= floor,
        best.contains_key(entry.board@.tiles) ==> entry.cost < best[entry.board@.tiles],
    ensures
        nearest_first(
            guide,
            initial,
            closed,
            visited,
            best.insert(entry.board@.tiles, entry.cost),
            frontier.insert(entry),
            floor,
            settled,
            None,
        ),
{
    reveal(nearest_first);
    let more = frontier.insert(entry);
    let lower = best.insert(entry.board@.tiles, entry.cost);
    assert forall|other: Entry| #[trigger] more.contains(other) implies other == entry
        || frontier.contains(other) by {}
    assert(costs_kept(more, lower, floor));
    assert(best_waits(visited, lower, more, None)) by {
        assert forall|tiles: Seq<Tile>|
            #[trigger] lower.contains_key(tiles) && !visited.contains_key(tiles) implies waits_at(
            more,
            tiles,
            lower[tiles],
        ) by {
            if tiles == entry.board@.tiles {
                assert(more.contains(entry));
            } else {
                assert(best.contains_key(tiles));
                assert(waits_at(frontier, tiles, best[tiles]));
                let other = choose|other: Entry| #[trigger]
                    frontier.contains(other) && other.board@.tiles == tiles && other.cost
                        == best[tiles];
                assert(more.contains(other));
            }
        }
    }
    assert(successors_recorded(guide, initial, closed, visited, lower, settled)) by {
        assert forall|k: int, tiles: Seq<Tile>|
            0 <= k < settled && #[trigger] slides_to(closed[k].board@.tiles, tiles, initial.n())
                && !visited.contains_key(tiles) implies lower.contains_key(tiles) && lower[tiles]
            <= capped(
            closed[k].board@.config.deeper().unwrap() + estimate_of(guide, initial, tiles, )) by {
            assert(best.contains_key(tiles));
        }
    }
}

/// Once the cost by way of the board expanded last is recorded for each of
/// its successors, that board is settled.
pub proof fn lemma_nearest_settled(
    guide: Option<Box<dyn HeuristicFn>>,
    initial: BoardView,
    closed: Seq<Node>,
    visited: Map<Seq<Tile>, usize>,
    best: Map<Seq<Tile>, usize>,
    frontier: Multiset<Entry>,
    floor: usize,
)
    requires
        closed.len() >= 1,
        closed.last().board@.wf(),
        closed.last().board@.config.n == initial.config.n,
        nearest_first(
            guide,
            initial,
            closed,
            visited,
            best,
            frontier,
            floor,
            closed.len() - 1,
            None,
        ),
        forall|i: int|
            0 <= i < closed.last().board@.successors().len() && !visited.contains_key(
                (#[trigger] closed.last().board@.successors()[i]).tiles,
            ) ==> best.contains_key(closed.last().board@.successors()[i].tiles)
                && best[closed.last().board@.successors()[i].tiles] <= capped(
                closed.last().board@.config.deeper().unwrap() + estimate_of(
                    guide,
                    initial,
                    closed.last().board@.successors()[i].tiles,
                ),
            ),
    ensures
        nearest_first(
            guide,
            initial,
            closed,
            visited,
            best,
            frontier,
            floor,
            closed.len() as int,
            None,
        ),
{
    reveal(nearest_first);
    let last = closed.len() - 1;
    assert forall|k: int, tiles: Seq<Tile>|
        0 <= k < closed.len() && #[trigger] slides_to(closed[k].board@.tiles, tiles, initial.n())
            && !visited.contains_key(tiles) implies best.contains_key(tiles) && best[tiles]
        <= capped(
        closed[k].board@.config.deeper().unwrap() + estimate_of(guide, initial, tiles),
    ) by {
        if k == last {
            lemma_slide_is_successor(closed[k].board@, tiles);
            let i = choose|i: int|
                0 <= i < closed[k].board@.successors().len() && (
                #[trigger] closed[k].board@.successors()[i]).tiles == tiles;
            assert(closed.last().board@.successors()[i].tiles == tiles);
        }
    }
}

/// A successor weighed by a consistent estimate costs no less than the
/// board it follows, and its cost is the depth after the slide plus the
/// estimate for its cells.
pub proof fn lemma_successor_costs_more(
    guide: Option<Box<dyn HeuristicFn>>,
    initial: BoardView,
    current: BoardView,
    next: BoardView,
)
    requires
        consistent(guide, initial),
        current.wf(),
        same_puzzle(current, initial),
        next.wf(),
        next.succeeds(current),
        current.config.weight matches Some(weight) && weight == guide.unwrap().estimate(current),
        next.config.weight matches Some(weight) && weight == guide.unwrap().estimate(next),
    ensures
        next.config.informed(),
        next.config.total_weight() >= current.config.total_weight(),
        next.config.total_weight() == capped(
            current.config.deeper().unwrap() + estimate_of(guide, initial, next.tiles),
        ),
{
    lemma_follows_is_slide(current, next);
    assert(same_puzzle(next, initial));
    let here = estimate_of(guide, initial, current.tiles);
    let there = estimate_of(guide, initial, next.tiles);
    assert(guide.unwrap().estimate(current) == here);
    assert(guide.unwrap().estimate(next) == there);
    assert(slides_to(current.tiles, next.tiles, initial.n()));
    assert(is_arrangement(current.tiles, initial.n()));
    assert(here <= there + 1);
    let depth = current.config.depth.unwrap();
    assert(current.config.weight.unwrap() == here);
    assert(next.config.weight.unwrap() == there);
    assert(next.config.depth == current.config.deeper());
    assert(current.config.total_weight() == capped(depth + here));
    assert(next.config.total_weight() == capped(current.config.deeper().unwrap() + there));
}

/// Along a solution the depth counts the slides, until it is held at the
/// largest number.
pub proof fn lemma_depth_counts_slides(initial: BoardView, path: Seq<BoardView>, i: int)
    requires
        is_solution(initial, path),
        initial.config.informed(),
        0 <= i < path.len(),
    ensures
        path[i].config.depth == Some(capped(depth_of(initial) + i) as usize),
    decreases i,
{
    if i > 0 {
        lemma_depth_counts_slides(initial, path, i - 1);
        assert(succeeds_at(path, i - 1));
    }
}

/// A solution whose last board is as shallow as any walk to the goal allows
/// is a shortest one.
pub proof fn lemma_shallow_is_shortest(initial: BoardView, path: Seq<BoardView>)
    requires
        is_solution(initial, path),
        initial.config.informed(),
        path.last().config.total_weight() < usize::MAX,
        forall|steps: nat| #[trigger]
            reachable_in(initial.tiles, path.last().tiles, initial.n(), steps) ==> depth_of(
                path.last(),
            ) <= depth_of(initial) + steps,
    ensures
        is_shortest(initial, path),
{
    lemma_depth_counts_slides(initial, path, path.len() - 1);
    assert(same_puzzle(path[path.len() - 1], initial));
}

/// The cost by way of `current` is recorded for the cells `tiles`, unless
/// they were expanded.
pub open spec fn recorded(
    guide: Option<Box<dyn HeuristicFn>>,
    initial: BoardView,
    current: BoardView,
    visited: Map<Seq<Tile>, usize>,
    best: Map<Seq<Tile>, usize>,
    tiles: Seq<Tile>,
) -> bool {
    !visited.contains_key(tiles) ==> best.contains_key(tiles) && best[tiles] <= capped(
        current.config.deeper().unwrap() + estimate_of(guide, initial, tiles),
    )
}

/// Two estimators that give the same estimates give the same estimates for
/// cells.
pub proof fn lemma_same_estimates_of(
    before: Option<Box<dyn HeuristicFn>>,
    after: Option<Box<dyn HeuristicFn>>,
    initial: BoardView,
    tiles: Seq<Tile>,
)
    requires
        same_estimates(before, after),
        before is Some,
    ensures
        estimate_of(after, initial, tiles) == estimate_of(before, initial, tiles),
{
    let board = board_of(initial, tiles);
    assert(after.unwrap().estimate(board) == before.unwrap().estimate(board));
}

/// A cost that was recorded stays recorded when the costs on record only
/// drop.
pub proof fn lemma_recorded_persists(
    before: Option<Box<dyn HeuristicFn>>,
    after: Option<Box<dyn HeuristicFn>>,
    initial: BoardView,
    current: BoardView,
    visited: Map<Seq<Tile>, usize>,
    known: Map<Seq<Tile>, usize>,
    best: Map<Seq<Tile>, usize>,
    tiles: Seq<Tile>,
)
    requires
        same_estimates(before, after),
        before is Some,
        recorded(before, initial, current, visited, known, tiles),
        forall|other: Seq<Tile>| #[trigger]
            known.contains_key(other) ==> best.contains_key(other) && best[other] <= known[other],
    ensures
        recorded(after, initial, current, visited, best, tiles),
{
    lemma_same_estimates_of(before, after, initial, tiles);
    if !visited.contains_key(tiles) {
        assert(known.contains_key(tiles));
    }
}

/// What holds of one estimator holds of another that gives the same
/// estimates.
pub proof fn lemma_estimates_transfer(
    before: Option<Box<dyn HeuristicFn>>,
    after: Option<Box<dyn HeuristicFn>>,
    initial: BoardView,
    closed: Seq<Node>,
    visited: Map<Seq<Tile>, usize>,
    best: Map<Seq<Tile>, usize>,
    frontier: Multiset<Entry>,
    floor: usize,
    settled: int,
)
    requires
        same_estimates(before, after),
        consistent(before, initial),
        nearest_first(before, initial, closed, visited, best, frontier, floor, settled, None),
    ensures
        consistent(after, initial),
        nearest_first(after, initial, closed, visited, best, frontier, floor, settled, None),
{
    reveal(nearest_first);
    let first = before.unwrap();
    let second = after.unwrap();
    assert forall|board: BoardView|
        board.wf() && same_puzzle(board, initial) implies #[trigger] second.estimate(board)
        == estimate_of(after, initial, board.tiles) by {
        lemma_same_estimates_of(before, after, initial, board.tiles);
        assert(first.estimate(board) == estimate_of(before, initial, board.tiles));
    }
    assert forall|from: Seq<Tile>, to: Seq<Tile>|
        is_arrangement(from, initial.n()) && #[trigger] slides_to(
            from,
            to,
            initial.n(),
        ) implies estimate_of(after, initial, from) <= estimate_of(after, initial, to) + 1 by {
        lemma_same_estimates_of(before, after, initial, from);
        lemma_same_estimates_of(before, after, initial, to);
        assert(estimate_of(before, initial, from) <= estimate_of(before, initial, to) + 1);
    }
    assert(successors_recorded(after, initial, closed, visited, best, settled)) by {
        assert forall|k: int, tiles: Seq<Tile>|
            0 <= k < settled && #[trigger] slides_to(closed[k].board@.tiles, tiles, initial.n())
                && !visited.contains_key(tiles) implies best.contains_key(tiles) && best[tiles]
            <= capped(
            closed[k].board@.config.deeper().unwrap() + estimate_of(after, initial, tiles),
        ) by {
            lemma_same_estimates_of(before, after, initial, tiles);
        }
    }
    assert(start_recorded(after, initial, visited, best)) by {
        lemma_same_estimates_of(before, after, initial, initial.tiles);
    }
}

/// The costs recorded for the first successors of a board stay recorded when
/// one more successor is looked at.
pub proof fn lemma_recorded_so_far(
    before: Option<Box<dyn HeuristicFn>>,
    after: Option<Box<dyn HeuristicFn>>,
    initial: BoardView,
    current: BoardView,
    visited: Map<Seq<Tile>, usize>,
    known: Map<Seq<Tile>, usize>,
    best: Map<Seq<Tile>, usize>,
    successors: Seq<BoardView>,
    i: int,
)
    requires
        same_estimates(before, after),
        before is Some,
        0 <= i < successors.len(),
        forall|j: int|
            0 <= j < i ==> recorded(
                before,
                initial,
                current,
                visited,
                known,
                (#[trigger] successors[j]).tiles,
            ),
        recorded(after, initial, current, visited, best, successors[i].tiles),
        forall|other: Seq<Tile>| #[trigger]
            known.contains_key(other) ==> best.contains_key(other) && best[other] <= known[other],
    ensures
        forall|j: int|
            0 <= j < i + 1 ==> recorded(
                after,
                initial,
                current,
                visited,
                best,
                (#[trigger] successors[j]).tiles,
            ),
{
    assert forall|j: int| 0 <= j < i + 1 implies recorded(
        after,
        initial,
        current,
        visited,
        best,
        (#[trigger] successors[j]).tiles,
    ) by {
        if j < i {
            lemma_recorded_persists(
                before,
                after,
                initial,
                current,
                visited,
                known,
                best,
                successors[j].tiles,
            );
        }
    }
}

/// The board of an arrangement is well formed, and it is a board of the
/// puzzle.
pub proof fn lemma_board_of_arrangement(initial: BoardView, tiles: Seq<Tile>)
    requires
        initial.wf(),
        is_arrangement(tiles, initial.n()),
    ensures
        board_of(initial, tiles).wf(),
        same_puzzle(board_of(initial, tiles), initial),
        board_of(initial, tiles).blank() == position_of(tiles, Tile::Empty),
{
    lemma_blank_position(tiles, initial.n());
    assert(tiles.len() <= 256) by (nonlinear_arith)
        requires
            tiles.len() == initial.n() * initial.n(),
            2 <= initial.n() <= 16,
    ;
}

/// Where one slide leads from one arrangement to another, the board of the
/// second follows the board of the first.
pub proof fn lemma_boards_of_slide(initial: BoardView, from: Seq<Tile>, to: Seq<Tile>)
    requires
        initial.wf(),
        is_arrangement(from, initial.n()),
        slides_to(from, to, initial.n()),
    ensures
        is_arrangement(to, initial.n()),
        board_of(initial, from).wf(),
        board_of(initial, to).wf(),
        board_of(initial, to).follows(board_of(initial, from)),
{
    let n = initial.n();
    let (blank, direction) = choose|blank: int, direction: int|
        {
            &&& 0 <= blank < from.len()
            &&& from[blank] == Tile::Empty
            &&& #[trigger] slide_target(blank, n, direction) is Some
            &&& to == swapped(from, blank, slide_target(blank, n, direction).unwrap())
        };
    let target = slide_target(blank, n, direction).unwrap();
    lemma_slide_target_on_grid(blank, n, direction);
    lemma_swapped_is_arrangement(from, n, blank, target);
    lemma_board_of_arrangement(initial, from);
    lemma_board_of_arrangement(initial, to);
    lemma_blank_position(from, n);
    lemma_blank_position(to, n);
    assert(to[target] == Tile::Empty);
    assert(slide_target(board_of(initial, from).blank(), n, direction) == Some(
        board_of(initial, to).blank(),
    ));
}

} // verus!
