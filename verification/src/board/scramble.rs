use super::board::{find_tile, BoardManager};
use super::board_config::copy_tiles;
use super::cell::Tile;
use super::layout::{
    is_arrangement, is_path, lemma_arrangement_holds, lemma_cell_coordinates, lemma_cell_index,
    lemma_slide_target_on_grid, lemma_swapped_is_arrangement, reachable, reachable_in,
    slide_target, slides_at, slides_to, swapped,
};
use rand::rngs::ThreadRng;
use rand::Rng;
use vstd::prelude::*;

verus! {

/// How often a direction is drawn for one slide before a slide is taken
/// without a draw.
pub const DRAW_LIMIT: u8 = 64;

/// The number of directions: left, right, up and down.
pub const DIRECTIONS: u8 = 4;

/// `rand::rngs::ThreadRng`, the handle to a thread's generator, carried
/// without a look inside.
#[verifier::external_type_specification]
#[verifier::external_body]
pub struct ExThreadRng(ThreadRng);

/// `rand::thread_rng`: the handle to the generator of the calling thread.
/// Nothing is claimed of the handle. The call panics where the system cannot
/// seed the generator of the thread, which no input of this library brings
/// about or prevents.
pub assume_specification[ rand::thread_rng ]() -> (rng: ThreadRng)
;

/// `Rng::gen_range` on the range from 0 up to, and without, `bound`: a
/// number of that range. The range must not be empty, or the call panics.
/// Which number comes is not claimed. The generator of a thread seeds itself
/// anew from the system now and then; a draw at which the system gives it
/// nothing to seed from panics too, whatever is handed in here.
#[verifier::external_body]
fn draw_below(rng: &mut ThreadRng, bound: u8) -> (drawn: u8)
    requires
        bound > 0,
    ensures
        drawn < bound,
{
    rng.gen_range(0..bound)
}

/// The direction that undoes `direction`.
pub open spec fn opposite(direction: int) -> int {
    if direction == 0 {
        1
    } else if direction == 1 {
        0
    } else if direction == 2 {
        3
    } else {
        2
    }
}

/// From where a slide ends, the opposite slide leads back.
pub proof fn lemma_opposite_leads_back(idx: int, n: int, direction: int)
    requires
        0 < n,
        0 <= idx < n * n,
        slide_target(idx, n, direction) is Some,
    ensures
        slide_target(slide_target(idx, n, direction).unwrap(), n, opposite(direction)) == Some(
            idx,
        ),
{
    lemma_slide_target_on_grid(idx, n, direction);
    lemma_cell_coordinates(idx, n);
    let row = idx / n;
    let col = idx % n;
    assert(n * (n - 1) == n * n - n) by (nonlinear_arith);
    if direction == 0 {
        lemma_cell_index(row, col - 1, n);
    } else if direction == 1 {
        lemma_cell_index(row, col + 1, n);
    } else if direction == 2 {
    } else {
    }
}

/// Every slide can be undone by a slide.
pub proof fn lemma_slide_reversible(from: Seq<Tile>, to: Seq<Tile>, n: int)
    requires
        is_arrangement(from, n),
        slides_to(from, to, n),
    ensures
        is_arrangement(to, n),
        slides_to(to, from, n),
{
    let (blank, direction) = choose|blank: int, direction: int|
        {
            &&& 0 <= blank < from.len()
            &&& from[blank] == Tile::Empty
            &&& #[trigger] slide_target(blank, n, direction) is Some
            &&& to == swapped(from, blank, slide_target(blank, n, direction).unwrap())
        };
    let target = slide_target(blank, n, direction).unwrap();
    lemma_slide_target_on_grid(blank, n, direction);
    lemma_swapped_is_arrangement(from, n, blank, target);
    lemma_opposite_leads_back(blank, n, direction);
    assert(to[target] == Tile::Empty);
    assert(swapped(to, target, blank) =~= from);
    assert(slide_target(target, n, opposite(direction)) is Some);
}

/// Every state of a path that starts at an arrangement is one.
pub proof fn lemma_path_keeps_arrangements(path: Seq<Seq<Tile>>, n: int, k: int)
    requires
        is_path(path, n),
        is_arrangement(path.first(), n),
        0 <= k < path.len(),
    ensures
        is_arrangement(path[k], n),
    decreases k,
{
    if k > 0 {
        lemma_path_keeps_arrangements(path, n, k - 1);
        assert(slides_at(path, n, k - 1));
        lemma_slide_reversible(path[k - 1], path[k], n);
    }
}

/// What can be reached can be left the same way: a walk of slides, read
/// backwards, is a walk of slides.
pub proof fn lemma_reachable_symmetric(from: Seq<Tile>, to: Seq<Tile>, n: int, steps: nat)
    requires
        is_arrangement(from, n),
        reachable_in(from, to, n, steps),
    ensures
        is_arrangement(to, n),
        reachable_in(to, from, n, steps),
        reachable(to, from, n),
{
    let path = choose|path: Seq<Seq<Tile>>|
        {
            &&& #[trigger] is_path(path, n)
            &&& path.len() == steps + 1
            &&& path.first() == from
            &&& path.last() == to
        };
    let back = path.reverse();
    assert forall|k: int| 0 <= k < back.len() - 1 implies #[trigger] slides_at(back, n, k) by {
        let j = path.len() - 2 - k;
        assert(back[k] == path[j + 1]);
        assert(back[k + 1] == path[j]);
        lemma_path_keeps_arrangements(path, n, j);
        assert(slides_at(path, n, j));
        lemma_slide_reversible(path[j], path[j + 1], n);
    }
    lemma_path_keeps_arrangements(path, n, path.len() - 1);
    assert(is_path(back, n));
    assert(back.first() == to && back.last() == from);
    assert(reachable_in(to, from, n, steps));
}

impl BoardManager {
    /// A slide that stays on the grid, found without a draw: to the left,
    /// or to the right from the first column.
    pub fn first_slide(idx: usize, n: usize) -> (target: usize)
        requires
            2 <= n,
            idx < n * n <= usize::MAX,
        ensures
            target < n * n,
            slide_target(idx as int, n as int, 0) == Some(target as int) || (slide_target(
                idx as int,
                n as int,
                0,
            ) is None && slide_target(idx as int, n as int, 1) == Some(target as int)),
    {
        match Self::move_left(idx, n) {
            Some(target) => target,
            None => match Self::move_right(idx, n) {
                Some(target) => target,
                None => {
                    proof {
                        assert(false);
                    }
                    idx
                },
            },
        }
    }

    /// A walk of `steps` slides from the goal. For each slide a direction is
    /// drawn until one stays on the grid; after `DRAW_LIMIT` draws that do not,
    /// the slide of `first_slide` is taken. Returns the cells after the walk
    /// and where the blank is.
    pub fn generate_random_board(n: u8, goal_state: &[Tile], steps: u16) -> (scrambled: (
        Vec<Tile>,
        u8,
    ))
        requires
            is_arrangement(goal_state@, n as int),
        ensures
            is_arrangement(scrambled.0@, n as int),
            scrambled.1 < scrambled.0.len(),
            forall|i: int|
                0 <= i < scrambled.0.len() ==> (scrambled.0@[i] == Tile::Empty <==> i
                    == scrambled.1),
            reachable_in(goal_state@, scrambled.0@, n as int, steps as nat),
    {
        let side = n as usize;
        proof {
            assert(side * side <= 256) by (nonlinear_arith)
                requires
                    2 <= side <= 16,
            ;
        }
        let mut tiles = copy_tiles(goal_state);
        let mut idx: usize = match find_tile(goal_state, Tile::Empty) {
            Some(blank) => blank,
            None => {
                proof {
                    assert(0 < n as int * n as int) by (nonlinear_arith)
                        requires
                            2 <= n,
                    ;
                    lemma_arrangement_holds(goal_state@, n as int, 0);
                    let k = choose|k: int|
                        0 <= k < goal_state@.len() && (#[trigger] goal_state@[k]).value() == 0;
                    assert(goal_state@[k].wf());
                    assert(false);
                }
                0
            },
        };
        let mut rng = rand::thread_rng();
        let mut times = steps;
        let ghost mut path: Seq<Seq<Tile>> = seq![goal_state@];
        while times > 0
            invariant
                2 <= side <= 16,
                side == n,
                side * side <= 256,
                times <= steps,
                is_arrangement(tiles@, n as int),
                idx < tiles.len(),
                tiles@[idx as int] == Tile::Empty,
                is_path(path, n as int),
                path.len() == steps - times + 1,
                path.first() == goal_state@,
                path.last() == tiles@,
            decreases times,
        {
            let mut tries: u8 = DRAW_LIMIT;
            let mut drawn: Option<usize> = None;
            while drawn.is_none() && tries > 0
                invariant
                    2 <= side,
                    idx < side * side <= 256,
                    drawn matches Some(target) ==> target < side * side && exists|direction: int|
                        #[trigger] slide_target(idx as int, side as int, direction) == Some(
                            target as int,
                        ),
                decreases tries,
            {
                let direction = draw_below(&mut rng, DIRECTIONS);
                drawn = Self::slide(idx, side, direction);
                tries = tries - 1;
            }
            let next = match drawn {
                Some(target) => target,
                None => Self::first_slide(idx, side),
            };
            let ghost before = tiles@;
            let moved = tiles[next];
            tiles.set(next, Tile::Empty);
            tiles.set(idx, moved);
            proof {
                let direction = choose|direction: int| #[trigger]
                    slide_target(idx as int, side as int, direction) == Some(next as int);
                assert(slide_target(idx as int, side as int, direction) is Some);
                lemma_slide_target_on_grid(idx as int, side as int, direction);
                assert(tiles@ =~= swapped(before, idx as int, next as int));
                lemma_swapped_is_arrangement(before, n as int, idx as int, next as int);
                assert(slides_to(before, tiles@, n as int));
                let longer = path.push(tiles@);
                assert forall|k: int| 0 <= k < longer.len() - 1 implies #[trigger] slides_at(
                    longer,
                    n as int,
                    k,
                ) by {
                    if k < path.len() - 1 {
                        assert(slides_at(path, n as int, k));
                    }
                }
                path = longer;
            }
            idx = next;
            times = times - 1;
        }
        proof {
            assert forall|i: int| 0 <= i < tiles.len() && tiles@[i] == Tile::Empty implies i
                == idx by {
                if i < idx {
                    assert(tiles@[i] != tiles@[idx as int]);
                } else if idx < i {
                    assert(tiles@[idx as int] != tiles@[i]);
                }
            }
        }
        (tiles, idx as u8)
    }
}

} // verus!
