use super::cell::Tile;
use vstd::arithmetic::div_mod::{lemma_fundamental_div_mod, lemma_fundamental_div_mod_converse};
use vstd::prelude::*;
use vstd::set_lib::{lemma_int_range, lemma_subset_equality};

verus! {

/// The smallest grid with a move to make.
pub const MIN_DIMENSION: u8 = 2;

/// The largest grid whose cells can all be numbered in a byte.
pub const MAX_DIMENSION: u8 = 16;

/// The number that stands for a slide of the blank to the left.
pub const LEFT: u8 = 0;

/// The number that stands for a slide of the blank to the right.
pub const RIGHT: u8 = 1;

/// The number that stands for a slide of the blank upwards.
pub const UP: u8 = 2;

/// The number that stands for a slide of the blank downwards.
pub const DOWN: u8 = 3;

/// `tiles` lays the numbers `0 .. n * n`, each once, on an `n`×`n` grid in
/// row-major order.
pub open spec fn is_arrangement(tiles: Seq<Tile>, n: int) -> bool {
    &&& 2 <= n <= 16
    &&& tiles.len() == n * n
    &&& forall|i: int|
        0 <= i < tiles.len() ==> (#[trigger] tiles[i]).wf() && tiles[i].value() < n * n
    &&& forall|i: int, j: int|
        #![trigger tiles[i], tiles[j]]
        0 <= i < j < tiles.len() ==> tiles[i] != tiles[j]
}

/// Where the blank lands when it slides from `idx` in `direction`, if the
/// slide stays on the grid.
pub open spec fn slide_target(idx: int, n: int, direction: int) -> Option<int> {
    if direction == 0 {
        if idx % n == 0 {
            None
        } else {
            Some(idx - 1)
        }
    } else if direction == 1 {
        if idx % n == n - 1 {
            None
        } else {
            Some(idx + 1)
        }
    } else if direction == 2 {
        if idx < n {
            None
        } else {
            Some(idx - n)
        }
    } else if direction == 3 {
        if idx >= n * (n - 1) {
            None
        } else {
            Some(idx + n)
        }
    } else {
        None
    }
}

/// `tiles` with the cells at `i` and `j` exchanged.
pub open spec fn swapped(tiles: Seq<Tile>, i: int, j: int) -> Seq<Tile> {
    tiles.update(i, tiles[j]).update(j, tiles[i])
}

/// One slide of the blank leads from `from` to `to`.
pub open spec fn slides_to(from: Seq<Tile>, to: Seq<Tile>, n: int) -> bool {
    exists|blank: int, direction: int|
        {
            &&& 0 <= blank < from.len()
            &&& from[blank] == Tile::Empty
            &&& #[trigger] slide_target(blank, n, direction) is Some
            &&& to == swapped(from, blank, slide_target(blank, n, direction).unwrap())
        }
}

/// One slide leads from the state at `k` to the next state of `path`.
pub open spec fn slides_at(path: Seq<Seq<Tile>>, n: int, k: int) -> bool {
    slides_to(path[k], path[k + 1], n)
}

/// Each state of `path` follows from the one before it by one slide.
pub open spec fn is_path(path: Seq<Seq<Tile>>, n: int) -> bool {
    &&& path.len() >= 1
    &&& forall|k: int| 0 <= k < path.len() - 1 ==> #[trigger] slides_at(path, n, k)
}

/// `to` can be reached from `from` by exactly `steps` slides.
pub open spec fn reachable_in(from: Seq<Tile>, to: Seq<Tile>, n: int, steps: nat) -> bool {
    exists|path: Seq<Seq<Tile>>|
        {
            &&& #[trigger] is_path(path, n)
            &&& path.len() == steps + 1
            &&& path.first() == from
            &&& path.last() == to
        }
}

/// `to` can be reached from `from` by some number of slides.
pub open spec fn reachable(from: Seq<Tile>, to: Seq<Tile>, n: int) -> bool {
    exists|steps: nat| #[trigger] reachable_in(from, to, n, steps)
}

/// Row and column of a cell of the grid.
pub proof fn lemma_cell_coordinates(idx: int, n: int)
    requires
        0 < n,
        0 <= idx < n * n,
    ensures
        0 <= idx % n < n,
        0 <= idx / n < n,
        idx == (idx / n) * n + idx % n,
{
    lemma_fundamental_div_mod(idx, n);
    assert(n * (idx / n) == (idx / n) * n) by (nonlinear_arith);
    assert(idx / n < n) by (nonlinear_arith)
        requires
            0 < n,
            0 <= idx < n * n,
            idx == (idx / n) * n + idx % n,
            0 <= idx % n,
    {
        if idx / n >= n {
            assert((idx / n) * n >= n * n);
        }
    }
    assert(0 <= idx / n) by (nonlinear_arith)
        requires
            0 < n,
            0 <= idx,
    ;
}

/// The cell in row `row` and column `col`.
pub proof fn lemma_cell_index(row: int, col: int, n: int)
    requires
        0 < n,
        0 <= row < n,
        0 <= col < n,
    ensures
        0 <= row * n + col < n * n,
        (row * n + col) / n == row,
        (row * n + col) % n == col,
{
    assert(0 <= row * n && row * n + n <= n * n) by (nonlinear_arith)
        requires
            0 < n,
            0 <= row < n,
    ;
    lemma_fundamental_div_mod_converse(row * n + col, n, row, col);
}

/// A legal slide stays on the grid and moves the blank by one cell.
pub proof fn lemma_slide_target_on_grid(idx: int, n: int, direction: int)
    requires
        0 < n,
        0 <= idx < n * n,
        slide_target(idx, n, direction) is Some,
    ensures
        0 <= slide_target(idx, n, direction).unwrap() < n * n,
        slide_target(idx, n, direction).unwrap() != idx,
        0 <= direction < 4,
{
    lemma_cell_coordinates(idx, n);
    let row = idx / n;
    let col = idx % n;
    assert(n * (n - 1) == n * n - n) by (nonlinear_arith);
    if direction == 0 {
    } else if direction == 1 {
        lemma_cell_index(row, col + 1, n);
    } else if direction == 2 {
    } else {
    }
}

/// Exchanging two cells of an arrangement gives an arrangement.
pub proof fn lemma_swapped_is_arrangement(tiles: Seq<Tile>, n: int, i: int, j: int)
    requires
        is_arrangement(tiles, n),
        0 <= i < tiles.len(),
        0 <= j < tiles.len(),
    ensures
        is_arrangement(swapped(tiles, i, j), n),
{
    let out = swapped(tiles, i, j);
    assert forall|a: int, b: int| 0 <= a < b < out.len() implies out[a] != out[b] by {
        let src_a = if a == i {
            j
        } else if a == j {
            i
        } else {
            a
        };
        let src_b = if b == i {
            j
        } else if b == j {
            i
        } else {
            b
        };
        assert(out[a] == tiles[src_a]);
        assert(out[b] == tiles[src_b]);
        assert(src_a != src_b);
        if src_a < src_b {
            assert(tiles[src_a] != tiles[src_b]);
        } else {
            assert(tiles[src_b] != tiles[src_a]);
        }
    }
    assert forall|a: int| 0 <= a < out.len() implies (#[trigger] out[a]).wf() && out[a].value() < n
        * n by {
        let src_a = if a == i {
            j
        } else if a == j {
            i
        } else {
            a
        };
        assert(out[a] == tiles[src_a]);
    }
}

/// Every number of the grid occurs in an arrangement.
pub proof fn lemma_arrangement_holds(tiles: Seq<Tile>, n: int, value: int)
    requires
        is_arrangement(tiles, n),
        0 <= value < n * n,
    ensures
        exists|i: int| 0 <= i < tiles.len() && (#[trigger] tiles[i]).value() == value,
{
    let numbers = tiles.map_values(|t: Tile| t.value() as int);
    assert forall|a: int, b: int|
        0 <= a < numbers.len() && 0 <= b < numbers.len() && a != b implies numbers[a]
        != numbers[b] by {
        if a < b {
            assert(tiles[a] != tiles[b]);
        } else {
            assert(tiles[b] != tiles[a]);
        }
    }
    assert(numbers.no_duplicates());
    numbers.unique_seq_to_set();
    let all = vstd::set_lib::set_int_range(0, n * n);
    lemma_int_range(0, n * n);
    assert forall|v: int| numbers.to_set().contains(v) implies all.contains(v) by {
        let k = choose|k: int| 0 <= k < numbers.len() && numbers[k] == v;
        assert(tiles[k].value() < n * n);
    }
    assert(numbers.to_set().subset_of(all));
    vstd::seq_lib::seq_to_set_is_finite(numbers);
    lemma_subset_equality(numbers.to_set(), all);
    assert(all.contains(value));
    assert(numbers.to_set().contains(value));
    let k = choose|k: int| 0 <= k < numbers.len() && numbers[k] == value;
    assert(tiles[k].value() == value);
}

/// Where `tile` lies in `goal`.
pub open spec fn position_of(goal: Seq<Tile>, tile: Tile) -> int {
    choose|i: int| 0 <= i < goal.len() && goal[i] == tile
}

/// In an arrangement a tile lies where it is found.
pub proof fn lemma_position_found(goal: Seq<Tile>, n: int, i: int)
    requires
        is_arrangement(goal, n),
        0 <= i < goal.len(),
    ensures
        position_of(goal, goal[i]) == i,
{
    let p = position_of(goal, goal[i]);
    assert(0 <= p < goal.len() && goal[p] == goal[i]);
    if p < i {
        assert(goal[p] != goal[i]);
    } else if i < p {
        assert(goal[i] != goal[p]);
    }
}

/// Every tile of one arrangement lies somewhere in another of the same grid.
pub proof fn lemma_position_exists(goal: Seq<Tile>, tiles: Seq<Tile>, n: int, i: int)
    requires
        is_arrangement(goal, n),
        is_arrangement(tiles, n),
        0 <= i < tiles.len(),
    ensures
        0 <= position_of(goal, tiles[i]) < goal.len(),
        goal[position_of(goal, tiles[i])] == tiles[i],
{
    lemma_arrangement_holds(goal, n, tiles[i].value() as int);
    let k = choose|k: int| 0 <= k < goal.len() && (#[trigger] goal[k]).value() == tiles[i].value();
    assert(goal[k].wf() && tiles[i].wf());
    assert(goal[k] == tiles[i]);
}


/// A slide leaves the blank in its row and moves it by one column, or
/// leaves it in its column and moves it by one row.
pub proof fn lemma_slide_is_one_step(idx: int, n: int, direction: int)
    requires
        0 < n,
        0 <= idx < n * n,
        slide_target(idx, n, direction) is Some,
    ensures
        ({
            let target = slide_target(idx, n, direction).unwrap();
            let along_row = target / n == idx / n && (target % n == idx % n + 1 || target % n
                == idx % n - 1);
            let along_column = target % n == idx % n && (target / n == idx / n + 1 || target / n
                == idx / n - 1);
            along_row || along_column
        }),
{
    lemma_slide_target_on_grid(idx, n, direction);
    lemma_cell_coordinates(idx, n);
    let row = idx / n;
    let col = idx % n;
    assert(n * (n - 1) == n * n - n) by (nonlinear_arith);
    if direction == 0 {
        lemma_cell_index(row, col - 1, n);
    } else if direction == 1 {
        lemma_cell_index(row, col + 1, n);
    } else if direction == 2 {
        assert(row >= 1) by (nonlinear_arith)
            requires
                idx >= n,
                idx == row * n + col,
                col < n,
                n > 0,
        ;
        assert((row - 1) * n == row * n - n) by (nonlinear_arith);
        lemma_cell_index(row - 1, col, n);
    } else {
        assert(row + 1 < n) by (nonlinear_arith)
            requires
                idx < n * n - n,
                idx == row * n + col,
                0 <= col,
                n > 0,
        ;
        assert((row + 1) * n == row * n + n) by (nonlinear_arith);
        lemma_cell_index(row + 1, col, n);
    }
}

/// In an arrangement the blank lies in one cell, and `position_of` finds it.
pub proof fn lemma_blank_position(tiles: Seq<Tile>, n: int)
    requires
        is_arrangement(tiles, n),
    ensures
        0 <= position_of(tiles, Tile::Empty) < tiles.len(),
        tiles[position_of(tiles, Tile::Empty)] == Tile::Empty,
        forall|i: int|
            0 <= i < tiles.len() && tiles[i] == Tile::Empty ==> i == position_of(
                tiles,
                Tile::Empty,
            ),
{
    assert(0 < n * n) by (nonlinear_arith)
        requires
            2 <= n,
    ;
    lemma_arrangement_holds(tiles, n, 0);
    let k = choose|k: int| 0 <= k < tiles.len() && (#[trigger] tiles[k]).value() == 0;
    assert(tiles[k].wf());
    assert(tiles[k] == Tile::Empty);
    let blank = position_of(tiles, Tile::Empty);
    assert forall|i: int| 0 <= i < tiles.len() && tiles[i] == Tile::Empty implies i == blank by {
        if i < blank {
            assert(tiles[i] != tiles[blank]);
        } else if blank < i {
            assert(tiles[blank] != tiles[i]);
        }
    }
}

} // verus!
