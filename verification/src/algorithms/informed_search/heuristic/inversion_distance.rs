use super::{HeuristicError, HeuristicFn};
use crate::algorithms::same_puzzle;
use crate::algorithms::shortest::{
    board_of, consistent, estimate_of, lemma_boards_of_slide,
};
use crate::board::board::{same_tiles, Board, BoardManager, BoardView};
use crate::board::board_config::copy_tiles;
use crate::board::cell::Tile;
use crate::board::layout::{
    is_arrangement, lemma_cell_coordinates, lemma_cell_index, lemma_position_exists,
    lemma_position_found, lemma_slide_target_on_grid, lemma_swapped_is_arrangement, position_of,
    slide_target, slides_to, swapped,
};
use crate::board::tile_map::TileMap;
use std::collections::HashMap;
use vstd::prelude::*;

verus! {

/// The row-major index of the cell that column-major reading reaches at
/// step `k`. On the grid this is its own inverse.
pub open spec fn transposed_index(k: int, n: int) -> int {
    (k % n) * n + k / n
}

/// The cells read column by column.
pub open spec fn transposed(tiles: Seq<Tile>, n: int) -> Seq<Tile> {
    Seq::new(tiles.len(), |k: int| tiles[transposed_index(k, n)])
}

/// The cells in the reading that an inversion count goes by: row by row
/// for the horizontal count, column by column for the vertical one.
pub open spec fn oriented(tiles: Seq<Tile>, n: int, vertical: bool) -> Seq<Tile> {
    if vertical {
        transposed(tiles, n)
    } else {
        tiles
    }
}

/// Where a cell lies in the reading.
pub open spec fn oriented_index(idx: int, n: int, vertical: bool) -> int {
    if vertical {
        transposed_index(idx, n)
    } else {
        idx
    }
}

/// Two pieces, `first` read before `second`, stand in the other order in
/// `order`. The blank is never out of order.
pub open spec fn out_of_order(order: Seq<Tile>, first: Tile, second: Tile) -> bool {
    first != Tile::Empty && second != Tile::Empty && position_of(order, first) > position_of(
        order,
        second,
    )
}

/// How many of `pieces[lo..hi]`, read before `tile`, are out of order with it.
pub open spec fn disorder_before(
    order: Seq<Tile>,
    pieces: Seq<Tile>,
    lo: int,
    hi: int,
    tile: Tile,
) -> nat
    decreases hi - lo,
{
    if hi <= lo {
        0
    } else {
        disorder_before(order, pieces, lo, hi - 1, tile) + if out_of_order(
            order,
            pieces[hi - 1],
            tile,
        ) {
            1nat
        } else {
            0nat
        }
    }
}

/// How many of `pieces[lo..hi]`, read after `tile`, are out of order with it.
pub open spec fn disorder_after(
    order: Seq<Tile>,
    pieces: Seq<Tile>,
    lo: int,
    hi: int,
    tile: Tile,
) -> nat
    decreases hi - lo,
{
    if hi <= lo {
        0
    } else {
        disorder_after(order, pieces, lo, hi - 1, tile) + if out_of_order(
            order,
            tile,
            pieces[hi - 1],
        ) {
            1nat
        } else {
            0nat
        }
    }
}

/// The pairs among the first `k` pieces that are out of order.
pub open spec fn inversions_prefix(order: Seq<Tile>, pieces: Seq<Tile>, k: int) -> nat
    decreases k,
{
    if k <= 0 {
        0
    } else {
        inversions_prefix(order, pieces, k - 1) + disorder_before(
            order,
            pieces,
            0,
            k - 1,
            pieces[k - 1],
        )
    }
}

/// The inversions of `pieces` against `order`: the pairs of pieces that
/// `pieces` reads in one order and `order` in the other.
pub open spec fn inversions(order: Seq<Tile>, pieces: Seq<Tile>) -> nat {
    inversions_prefix(order, pieces, pieces.len() as int)
}

/// The inversions of a board against its goal in one of the two readings.
pub open spec fn inversion_count(board: BoardView, vertical: bool) -> nat {
    inversions(
        oriented(board.config.goal_state, board.n(), vertical),
        oriented(board.tiles, board.n(), vertical),
    )
}

/// The moves that `count` inversions ask for at least, where one move
/// mends at most `n - 1` of them.
pub open spec fn folded(count: nat, n: int) -> nat {
    (count as int / (n - 1) + count as int % (n - 1)) as nat
}

/// The inversion distance of a board.
pub open spec fn inversion_distance(board: BoardView) -> nat {
    folded(inversion_count(board, false), board.n()) + folded(
        inversion_count(board, true),
        board.n(),
    )
}

/// Reading column by column visits each cell of the grid once: the index
/// of a cell in that reading leads back to the cell.
pub proof fn lemma_transposed_index(k: int, n: int)
    requires
        0 < n,
        0 <= k < n * n,
    ensures
        0 <= transposed_index(k, n) < n * n,
        transposed_index(transposed_index(k, n), n) == k,
        transposed_index(k, n) / n == k % n,
        transposed_index(k, n) % n == k / n,
{
    lemma_cell_coordinates(k, n);
    lemma_cell_index(k % n, k / n, n);
}

/// An arrangement read column by column is an arrangement.
pub proof fn lemma_transposed_is_arrangement(tiles: Seq<Tile>, n: int)
    requires
        is_arrangement(tiles, n),
    ensures
        is_arrangement(transposed(tiles, n), n),
{
    let out = transposed(tiles, n);
    assert forall|i: int| 0 <= i < out.len() implies (#[trigger] out[i]).wf() && out[i].value()
        < n * n by {
        lemma_transposed_index(i, n);
        assert(out[i] == tiles[transposed_index(i, n)]);
    }
    assert forall|i: int, j: int|
        #![trigger out[i], out[j]]
        0 <= i < j < out.len() implies out[i] != out[j] by {
        lemma_transposed_index(i, n);
        lemma_transposed_index(j, n);
        let a = transposed_index(i, n);
        let b = transposed_index(j, n);
        assert(a != b);
        if a < b {
            assert(tiles[a] != tiles[b]);
        } else {
            assert(tiles[b] != tiles[a]);
        }
    }
}

/// An arrangement is one in either reading.
pub proof fn lemma_oriented_is_arrangement(tiles: Seq<Tile>, n: int, vertical: bool)
    requires
        is_arrangement(tiles, n),
    ensures
        is_arrangement(oriented(tiles, n, vertical), n),
{
    if vertical {
        lemma_transposed_is_arrangement(tiles, n);
    }
}

/// Reading an exchange of two cells column by column gives the exchange of
/// the two cells in the column-by-column reading.
pub proof fn lemma_oriented_swapped(tiles: Seq<Tile>, n: int, a: int, b: int, vertical: bool)
    requires
        is_arrangement(tiles, n),
        0 <= a < tiles.len(),
        0 <= b < tiles.len(),
    ensures
        0 <= oriented_index(a, n, vertical) < tiles.len(),
        0 <= oriented_index(b, n, vertical) < tiles.len(),
        oriented(tiles, n, vertical)[oriented_index(a, n, vertical)] == tiles[a],
        oriented(tiles, n, vertical)[oriented_index(b, n, vertical)] == tiles[b],
        oriented(swapped(tiles, a, b), n, vertical) == swapped(
            oriented(tiles, n, vertical),
            oriented_index(a, n, vertical),
            oriented_index(b, n, vertical),
        ),
{
    if vertical {
        lemma_transposed_index(a, n);
        lemma_transposed_index(b, n);
        let ta = transposed_index(a, n);
        let tb = transposed_index(b, n);
        let left = transposed(swapped(tiles, a, b), n);
        let right = swapped(transposed(tiles, n), ta, tb);
        assert forall|k: int| 0 <= k < left.len() implies left[k] == right[k] by {
            lemma_transposed_index(k, n);
        }
        assert(left =~= right);
    }
}

/// The pieces of a range that are out of order with `tile` are those of
/// its two parts.
pub proof fn lemma_disorder_split(
    order: Seq<Tile>,
    pieces: Seq<Tile>,
    lo: int,
    mid: int,
    hi: int,
    tile: Tile,
)
    requires
        lo <= mid <= hi,
    ensures
        disorder_before(order, pieces, lo, hi, tile) == disorder_before(
            order,
            pieces,
            lo,
            mid,
            tile,
        ) + disorder_before(order, pieces, mid, hi, tile),
        disorder_after(order, pieces, lo, hi, tile) == disorder_after(order, pieces, lo, mid, tile)
            + disorder_after(order, pieces, mid, hi, tile),
    decreases hi - mid,
{
    if mid < hi {
        lemma_disorder_split(order, pieces, lo, mid, hi - 1, tile);
    }
}

/// Rows that are the same over a range have the same pieces out of order
/// with `tile` there.
pub proof fn lemma_disorder_agree(
    order: Seq<Tile>,
    one: Seq<Tile>,
    other: Seq<Tile>,
    lo: int,
    hi: int,
    tile: Tile,
)
    requires
        forall|x: int| lo <= x < hi ==> one[x] == other[x],
    ensures
        disorder_before(order, one, lo, hi, tile) == disorder_before(order, other, lo, hi, tile),
        disorder_after(order, one, lo, hi, tile) == disorder_after(order, other, lo, hi, tile),
    decreases hi - lo,
{
    if lo < hi {
        lemma_disorder_agree(order, one, other, lo, hi - 1, tile);
    }
}

/// In a range of one cell the piece is out of order with `tile` or not.
pub proof fn lemma_disorder_single(order: Seq<Tile>, pieces: Seq<Tile>, k: int, tile: Tile)
    ensures
        disorder_before(order, pieces, k, k + 1, tile) == if out_of_order(order, pieces[k], tile) {
            1nat
        } else {
            0nat
        },
        disorder_after(order, pieces, k, k + 1, tile) == if out_of_order(order, tile, pieces[k]) {
            1nat
        } else {
            0nat
        },
{
    assert(disorder_before(order, pieces, k, k, tile) == 0);
    assert(disorder_after(order, pieces, k, k, tile) == 0);
}

/// No more pieces of a range are out of order with `tile` than the range
/// holds, and none is out of order with the blank.
pub proof fn lemma_disorder_bound(order: Seq<Tile>, pieces: Seq<Tile>, lo: int, hi: int, tile: Tile)
    requires
        lo <= hi,
    ensures
        disorder_before(order, pieces, lo, hi, tile) <= hi - lo,
        disorder_after(order, pieces, lo, hi, tile) <= hi - lo,
        tile == Tile::Empty ==> disorder_before(order, pieces, lo, hi, tile) == 0
            && disorder_after(order, pieces, lo, hi, tile) == 0,
    decreases hi - lo,
{
    if lo < hi {
        lemma_disorder_bound(order, pieces, lo, hi - 1, tile);
    }
}

/// Among `k` pieces there are no more than `k * k` inversions.
pub proof fn lemma_inversions_prefix_bound(order: Seq<Tile>, pieces: Seq<Tile>, k: int)
    requires
        0 <= k,
    ensures
        inversions_prefix(order, pieces, k) <= k * k,
    decreases k,
{
    if k > 0 {
        lemma_inversions_prefix_bound(order, pieces, k - 1);
        lemma_disorder_bound(order, pieces, 0, k - 1, pieces[k - 1]);
        assert((k - 1) * (k - 1) + (k - 1) <= k * k) by (nonlinear_arith)
            requires
                k > 0,
        ;
    }
}

/// Taking the piece out of the cell `k` takes away the one pair it makes
/// with `tile`.
pub proof fn lemma_disorder_without(
    order: Seq<Tile>,
    pieces: Seq<Tile>,
    lo: int,
    hi: int,
    k: int,
    tile: Tile,
)
    requires
        0 <= lo <= k < hi <= pieces.len(),
    ensures
        disorder_before(order, pieces, lo, hi, tile) == disorder_before(
            order,
            pieces.update(k, Tile::Empty),
            lo,
            hi,
            tile,
        ) + if out_of_order(order, pieces[k], tile) {
            1nat
        } else {
            0nat
        },
{
    let gone = pieces.update(k, Tile::Empty);
    lemma_disorder_split(order, pieces, lo, k, hi, tile);
    lemma_disorder_split(order, pieces, k, k + 1, hi, tile);
    lemma_disorder_split(order, gone, lo, k, hi, tile);
    lemma_disorder_split(order, gone, k, k + 1, hi, tile);
    lemma_disorder_agree(order, pieces, gone, lo, k, tile);
    lemma_disorder_agree(order, pieces, gone, k + 1, hi, tile);
    lemma_disorder_single(order, pieces, k, tile);
    lemma_disorder_single(order, gone, k, tile);
}

/// The inversions of the first `m` pieces, split into those that the piece
/// in the cell `k` takes part in and the rest.
pub proof fn lemma_inversions_without(order: Seq<Tile>, pieces: Seq<Tile>, k: int, m: int)
    requires
        0 <= k < pieces.len(),
        0 <= m <= pieces.len(),
    ensures
        inversions_prefix(order, pieces, m) == inversions_prefix(
            order,
            pieces.update(k, Tile::Empty),
            m,
        ) + if k < m {
            disorder_before(order, pieces, 0, k, pieces[k]) + disorder_after(
                order,
                pieces,
                k + 1,
                m,
                pieces[k],
            )
        } else {
            0nat
        },
    decreases m,
{
    let gone = pieces.update(k, Tile::Empty);
    if m > 0 {
        lemma_inversions_without(order, pieces, k, m - 1);
        let j = m - 1;
        if j < k {
            lemma_disorder_agree(order, pieces, gone, 0, j, pieces[j]);
        } else if j == k {
            lemma_disorder_bound(order, gone, 0, k, Tile::Empty);
            assert(disorder_after(order, pieces, k + 1, k + 1, pieces[k]) == 0);
        } else {
            lemma_disorder_without(order, pieces, 0, j, k, pieces[j]);
        }
    }
}

/// Between two pieces of an arrangement one order or the other is out of
/// order: each piece of the range makes one pair with `tile`, before or after.
pub proof fn lemma_disorder_complement(
    order: Seq<Tile>,
    pieces: Seq<Tile>,
    n: int,
    lo: int,
    hi: int,
    at: int,
)
    requires
        is_arrangement(order, n),
        is_arrangement(pieces, n),
        0 <= lo <= hi <= pieces.len(),
        0 <= at < pieces.len(),
        !(lo <= at < hi),
        pieces[at] != Tile::Empty,
        forall|x: int| lo <= x < hi ==> pieces[x] != Tile::Empty,
    ensures
        disorder_before(order, pieces, lo, hi, pieces[at]) + disorder_after(
            order,
            pieces,
            lo,
            hi,
            pieces[at],
        ) == hi - lo,
    decreases hi - lo,
{
    if lo < hi {
        lemma_disorder_complement(order, pieces, n, lo, hi - 1, at);
        let x = hi - 1;
        lemma_position_exists(order, pieces, n, x);
        lemma_position_exists(order, pieces, n, at);
        if x < at {
            assert(pieces[x] != pieces[at]);
        } else {
            assert(pieces[at] != pieces[x]);
        }
        assert(position_of(order, pieces[x]) != position_of(order, pieces[at]));
    }
}

/// What a slide does to the inversions of one reading. The blank at `p` and
/// the piece at `q` change places; the pieces between the two cells stay. The
/// piece has jumped over them, so each pair it makes with one of them turns
/// round: with `below` of them ranking below the piece, the count grows by
/// `below` and shrinks by the others when the piece moved towards the front,
/// and the other way round when it moved towards the back.
pub proof fn lemma_jump_changes_inversions(
    order: Seq<Tile>,
    pieces: Seq<Tile>,
    n: int,
    p: int,
    q: int,
)
    requires
        is_arrangement(order, n),
        is_arrangement(pieces, n),
        0 <= p < pieces.len(),
        0 <= q < pieces.len(),
        p != q,
        pieces[p] == Tile::Empty,
    ensures
        ({
            let after = swapped(pieces, p, q);
            let lo = if p < q {
                p
            } else {
                q
            };
            let hi = if p < q {
                q
            } else {
                p
            };
            let below = disorder_after(order, after, lo + 1, hi, after[p]);
            &&& below <= hi - lo - 1
            &&& p < q ==> inversions(order, after) == inversions(order, pieces) + 2 * below - (hi
                - lo - 1)
            &&& p > q ==> inversions(order, after) == inversions(order, pieces) + (hi - lo - 1) - 2
                * below
        }),
{
    let len = pieces.len() as int;
    let tile = pieces[q];
    let after = swapped(pieces, p, q);
    assert(tile != Tile::Empty) by {
        if p < q {
            assert(pieces[p] != pieces[q]);
        } else {
            assert(pieces[q] != pieces[p]);
        }
    }
    assert(after[p] == tile && after[q] == Tile::Empty);
    lemma_swapped_is_arrangement(pieces, n, p, q);
    let gone = pieces.update(q, Tile::Empty);
    assert(after.update(p, Tile::Empty) =~= gone);
    lemma_inversions_without(order, pieces, q, len);
    lemma_inversions_without(order, after, p, len);
    let lo = if p < q {
        p
    } else {
        q
    };
    let hi = if p < q {
        q
    } else {
        p
    };
    lemma_disorder_bound(order, after, lo + 1, hi, tile);
    assert forall|x: int| lo + 1 <= x < hi implies after[x] != Tile::Empty by {
        if x < q {
            assert(after[x] != after[q]);
        } else {
            assert(after[q] != after[x]);
        }
    }
    lemma_disorder_complement(order, after, n, lo + 1, hi, p);
    lemma_disorder_agree(order, pieces, after, lo + 1, hi, tile);
    lemma_disorder_agree(order, pieces, after, 0, lo, tile);
    lemma_disorder_agree(order, pieces, after, hi + 1, len, tile);
    if p < q {
        // before: the piece at q; after: the piece at p, in front of the range
        lemma_disorder_split(order, pieces, 0, p, q, tile);
        lemma_disorder_split(order, pieces, p, p + 1, q, tile);
        lemma_disorder_single(order, pieces, p, tile);
        lemma_disorder_split(order, after, p + 1, q, len, tile);
        lemma_disorder_split(order, after, q, q + 1, len, tile);
        lemma_disorder_single(order, after, q, tile);
    } else {
        lemma_disorder_split(order, pieces, q + 1, p, len, tile);
        lemma_disorder_split(order, pieces, p, p + 1, len, tile);
        lemma_disorder_single(order, pieces, p, tile);
        lemma_disorder_split(order, after, 0, q, p, tile);
        lemma_disorder_split(order, after, q, q + 1, p, tile);
        lemma_disorder_single(order, after, q, tile);
    }
}

/// In the reading that runs along a slide the blank moves to the next cell;
/// in the other reading it moves over one line of the grid.
pub proof fn lemma_slide_gap(previous: BoardView, next: BoardView)
    requires
        previous.wf(),
        next.wf(),
        next.follows(previous),
    ensures
        ({
            let n = previous.n();
            let from = previous.blank();
            let to = next.blank();
            let along_row = to == from + 1 || to == from - 1;
            let along_column = to == from + n || to == from - n;
            &&& along_row != along_column
            &&& along_row ==> transposed_index(to, n) - transposed_index(from, n) == n * (to - from)
            &&& along_column ==> n * (transposed_index(to, n) - transposed_index(from, n)) == to
                - from
            &&& 0 <= transposed_index(to, n) < n * n
            &&& 0 <= transposed_index(from, n) < n * n
        }),
{
    let n = previous.n();
    let from = previous.blank();
    let to = next.blank();
    let direction = choose|direction: int| #[trigger]
        slide_target(from, n, direction) == Some(to);
    lemma_transposed_index(from, n);
    lemma_transposed_index(to, n);
    lemma_cell_coordinates(from, n);
    lemma_cell_coordinates(to, n);
    let row = from / n;
    let col = from % n;
    if direction == 0 {
        lemma_cell_index(row, col - 1, n);
        assert((col - 1) * n == col * n - n) by (nonlinear_arith);
        assert(n * (to - from) == -n) by (nonlinear_arith)
            requires
                to - from == -1,
        ;
    } else if direction == 1 {
        lemma_cell_index(row, col + 1, n);
        assert((col + 1) * n == col * n + n) by (nonlinear_arith);
        assert(n * (to - from) == n) by (nonlinear_arith)
            requires
                to - from == 1,
        ;
    } else if direction == 2 {
        assert(row >= 1) by (nonlinear_arith)
            requires
                from >= n,
                from == row * n + col,
                col < n,
                n > 0,
        ;
        assert((row - 1) * n == row * n - n) by (nonlinear_arith);
        lemma_cell_index(row - 1, col, n);
        assert(n * (-1) == -n) by (nonlinear_arith);
    } else {
        assert(n * (n - 1) == n * n - n) by (nonlinear_arith);
        assert(row + 1 < n) by (nonlinear_arith)
            requires
                from < n * n - n,
                from == row * n + col,
                0 <= col,
                n > 0,
        ;
        assert((row + 1) * n == row * n + n) by (nonlinear_arith);
        lemma_cell_index(row + 1, col, n);
        assert(n * 1 == n) by (nonlinear_arith);
    }
}

/// What a slide does to the inversion count of one reading, in the terms of
/// that reading: see `lemma_jump_changes_inversions`.
pub proof fn lemma_slide_changes_count(previous: BoardView, next: BoardView, vertical: bool)
    requires
        previous.wf(),
        next.wf(),
        next.follows(previous),
    ensures
        ({
            let n = previous.n();
            let order = oriented(next.config.goal_state, n, vertical);
            let pieces = oriented(next.tiles, n, vertical);
            let p = oriented_index(previous.blank(), n, vertical);
            let q = oriented_index(next.blank(), n, vertical);
            let lo = if p < q {
                p
            } else {
                q
            };
            let hi = if p < q {
                q
            } else {
                p
            };
            let below = disorder_after(order, pieces, lo + 1, hi, pieces[p]);
            &&& 0 <= p < n * n
            &&& 0 <= q < n * n
            &&& p != q
            &&& pieces[p] == next.tiles[previous.blank()]
            &&& pieces[p] != Tile::Empty
            &&& below <= hi - lo - 1
            &&& p < q ==> inversion_count(next, vertical) == inversion_count(previous, vertical) + 2
                * below - (hi - lo - 1)
            &&& p > q ==> inversion_count(next, vertical) == inversion_count(previous, vertical)
                + (hi - lo - 1) - 2 * below
        }),
{
    let n = previous.n();
    let from = previous.blank();
    let to = next.blank();
    let direction = choose|direction: int| #[trigger]
        slide_target(from, n, direction) == Some(to);
    lemma_slide_target_on_grid(from, n, direction);
    lemma_oriented_swapped(previous.tiles, n, from, to, vertical);
    lemma_oriented_is_arrangement(previous.tiles, n, vertical);
    lemma_oriented_is_arrangement(previous.config.goal_state, n, vertical);
    let p = oriented_index(from, n, vertical);
    let q = oriented_index(to, n, vertical);
    if vertical {
        lemma_transposed_index(from, n);
        lemma_transposed_index(to, n);
    }
    assert(p != q);
    let before = oriented(previous.tiles, n, vertical);
    assert(before[p] == Tile::Empty);
    lemma_jump_changes_inversions(oriented(previous.config.goal_state, n, vertical), before, n, p, q);
    let pieces = oriented(next.tiles, n, vertical);
    assert(pieces == swapped(before, p, q));
    assert(pieces[p] == before[q]);
    assert(before[q] == previous.tiles[to]);
    assert(next.tiles[from] == previous.tiles[to]);
    if p < q {
        assert(before[p] != before[q]);
    } else {
        assert(before[q] != before[p]);
    }
}

/// A board at its goal has no inversions, in either reading, and so its
/// inversion distance is 0.
pub proof fn lemma_goal_has_no_inversions(board: BoardView)
    requires
        board.wf(),
        board.at_goal(),
    ensures
        inversion_count(board, false) == 0,
        inversion_count(board, true) == 0,
        inversion_distance(board) == 0,
{
    let n = board.n();
    let rows = oriented(board.config.goal_state, n, false);
    let columns = oriented(board.config.goal_state, n, true);
    lemma_oriented_is_arrangement(board.config.goal_state, n, false);
    lemma_oriented_is_arrangement(board.config.goal_state, n, true);
    lemma_sorted_has_no_inversions(rows, n, rows.len() as int);
    lemma_sorted_has_no_inversions(columns, n, columns.len() as int);
    assert(0int / (n - 1) == 0 && 0int % (n - 1) == 0) by (nonlinear_arith)
        requires
            n >= 2,
    ;
}

/// Two grids with the same number of cells have the same side.
proof fn lemma_same_side(n: int, m: int)
    by (nonlinear_arith)
    requires
        0 <= n,
        0 <= m,
        n * n == m * m,
    ensures
        n == m,
{
}

/// In the goal no piece read before another is out of order with it.
proof fn lemma_sorted_disorder(order: Seq<Tile>, n: int, hi: int, j: int)
    requires
        is_arrangement(order, n),
        0 <= hi <= j < order.len(),
    ensures
        disorder_before(order, order, 0, hi, order[j]) == 0,
    decreases hi,
{
    if hi > 0 {
        lemma_sorted_disorder(order, n, hi - 1, j);
        lemma_position_found(order, n, hi - 1);
        lemma_position_found(order, n, j);
    }
}

/// The goal has no inversions against itself.
proof fn lemma_sorted_has_no_inversions(order: Seq<Tile>, n: int, k: int)
    requires
        is_arrangement(order, n),
        0 <= k <= order.len(),
    ensures
        inversions_prefix(order, order, k) == 0,
    decreases k,
{
    if k > 0 {
        lemma_sorted_has_no_inversions(order, n, k - 1);
        lemma_sorted_disorder(order, n, k - 1, k - 1);
    }
}


/// The ranks of the pieces: `ranks[v]` is where the piece numbered `v` lies
/// in `order`.
pub open spec fn is_ranking(ranks: Map<u8, u8>, order: Seq<Tile>) -> bool {
    forall|i: int|
        0 <= i < order.len() ==> ranks.contains_key((#[trigger] order[i]).value())
            && ranks[order[i].value()] == i
}

/// The inversion distance, with the counts of the boards it has evaluated
/// kept for the evaluation of their successors.
pub struct InversionDistance {
    cache: TileMap<(usize, usize)>,
    goal: Vec<Tile>,
    n: u8,
}

impl InversionDistance {
    /// Each pair of counts that is kept is the pair of the board it is kept
    /// for, against the goal that the estimator last worked for.
    #[verifier::type_invariant]
    spec fn kept_counts_are_right(&self) -> bool {
        &&& self.cache.wf()
        &&& forall|tiles: Seq<Tile>| #[trigger]
            self.cache@.contains_key(tiles) ==> {
                &&& is_arrangement(self.goal@, self.n as int)
                &&& is_arrangement(tiles, self.n as int)
                &&& self.cache@[tiles].0 == inversions(self.goal@, tiles)
                &&& self.cache@[tiles].1 == inversions(
                    transposed(self.goal@, self.n as int),
                    transposed(tiles, self.n as int),
                )
            }
    }

    /// An estimator that has kept nothing yet.
    pub fn new() -> (estimator: Self)
        ensures
            forall|board: BoardView| !estimator.tracks(board),
    {
        Self { cache: TileMap::new(), goal: Vec::new(), n: 0 }
    }

    /// The horizontal and the vertical count kept for `board`, if it was
    /// evaluated.
    pub fn counts_of(&self, board: &Board) -> (counts: Option<(usize, usize)>)
        ensures
            match counts {
                Some((horizontal, vertical)) => self.tracks(board@) && horizontal
                    == inversion_count(board@, false) && vertical == inversion_count(board@, true),
                None => !self.tracks(board@),
            },
    {
        proof {
            use_type_invariant(self);
        }
        if BoardManager::size_of(board) != self.n || !same_tiles(
            BoardManager::goal_of(board),
            self.goal.as_slice(),
        ) {
            return None;
        }
        match self.cache.get(BoardManager::tiles_of(board)) {
            Some(counts) => Some(*counts),
            None => None,
        }
    }

    /// The cells read column by column.
    pub fn transpose(&self, tiles: &[Tile], n: usize) -> (result: Vec<Tile>)
        requires
            0 < n,
            tiles.len() == n * n,
        ensures
            result@ == transposed(tiles@, n as int),
    {
        let mut result: Vec<Tile> = Vec::with_capacity(tiles.len());
        let mut k: usize = 0;
        while k < tiles.len()
            invariant
                0 < n,
                tiles.len() == n * n,
                k <= tiles.len(),
                result.len() == k,
                forall|i: int| 0 <= i < k ==> result@[i] == tiles@[transposed_index(i, n as int)],
            decreases tiles.len() - k,
        {
            proof {
                lemma_transposed_index(k as int, n as int);
                lemma_cell_coordinates(k as int, n as int);
                assert((k % n) * n <= (k % n) * n + k / n);
            }
            result.push(tiles[(k % n) * n + k / n]);
            k = k + 1;
        }
        assert(result@ =~= transposed(tiles@, n as int));
        result
    }

    /// The goal in one of the two readings.
    fn oriented_goal(&self, board: &Board, vertical: bool) -> (goal: Vec<Tile>)
        requires
            board@.wf(),
        ensures
            goal@ == oriented(board@.config.goal_state, board@.n(), vertical),
            is_arrangement(goal@, board@.n()),
    {
        let n = BoardManager::size_of(board) as usize;
        let goal = copy_tiles(BoardManager::goal_of(board));
        proof {
            lemma_oriented_is_arrangement(board@.config.goal_state, board@.n(), vertical);
        }
        if vertical {
            self.transpose(goal.as_slice(), n)
        } else {
            goal
        }
    }

    /// The inversions of `board` against its goal in one of the two readings,
    /// counted pair by pair.
    pub fn inversion_count(&self, board: &Board, vertical: bool) -> (count: usize)
        requires
            board@.wf(),
        ensures
            count == inversion_count(board@, vertical),
            count <= 65536,
    {
        let order = self.compute_order(board, vertical);
        let n = BoardManager::size_of(board) as usize;
        let mut tiles = copy_tiles(BoardManager::tiles_of(board));
        if vertical {
            tiles = self.transpose(tiles.as_slice(), n);
        }
        let ghost goal = oriented(board@.config.goal_state, n as int, vertical);
        proof {
            lemma_oriented_is_arrangement(board@.config.goal_state, n as int, vertical);
            lemma_oriented_is_arrangement(board@.tiles, n as int, vertical);
            assert(n * n <= 256) by (nonlinear_arith)
                requires
                    2 <= n <= 16,
            ;
        }
        let mut count: usize = 0;
        let mut j: usize = 0;
        while j < tiles.len()
            invariant
                j <= tiles.len(),
                tiles.len() == n * n,
                n * n <= 256,
                is_arrangement(goal, n as int),
                is_arrangement(tiles@, n as int),
                is_ranking(order@, goal),
                count == inversions_prefix(goal, tiles@, j as int),
                count <= j * 256,
            decreases tiles.len() - j,
        {
            let later = tiles[j].get_value();
            let mut pairs: usize = 0;
            if later != 0 {
                let later_rank = Self::rank_in(
                    &order,
                    tiles[j],
                    Ghost(goal),
                    Ghost(tiles@),
                    Ghost(j as int),
                    Ghost(n as int),
                );
                let mut i: usize = 0;
                while i < j
                    invariant
                        i <= j < tiles.len(),
                        tiles.len() == n * n,
                        n * n <= 256,
                        is_arrangement(goal, n as int),
                        is_arrangement(tiles@, n as int),
                        is_ranking(order@, goal),
                        tiles@[j as int] != Tile::Empty,
                        later_rank == position_of(goal, tiles@[j as int]),
                        pairs == disorder_before(goal, tiles@, 0, i as int, tiles@[j as int]),
                        pairs <= i,
                    decreases j - i,
                {
                    if tiles[i].get_value() != 0 {
                        let earlier_rank = Self::rank_in(
                            &order,
                            tiles[i],
                            Ghost(goal),
                            Ghost(tiles@),
                            Ghost(i as int),
                            Ghost(n as int),
                        );
                        if earlier_rank > later_rank {
                            pairs = pairs + 1;
                        }
                    }
                    i = i + 1;
                }
            } else {
                proof {
                    assert(tiles@[j as int] == Tile::Empty);
                    lemma_disorder_bound(goal, tiles@, 0, j as int, Tile::Empty);
                }
            }
            count = count + pairs;
            j = j + 1;
        }
        count
    }

    /// The rank of a piece of the board, looked up.
    fn rank_in(
        order: &HashMap<u8, u8>,
        tile: Tile,
        Ghost(goal): Ghost<Seq<Tile>>,
        Ghost(pieces): Ghost<Seq<Tile>>,
        Ghost(at): Ghost<int>,
        Ghost(n): Ghost<int>,
    ) -> (rank: u8)
        requires
            is_arrangement(goal, n),
            is_arrangement(pieces, n),
            is_ranking(order@, goal),
            0 <= at < pieces.len(),
            pieces[at] == tile,
        ensures
            rank == position_of(goal, tile),
    {
        broadcast use {
            vstd::std_specs::hash::axiom_contains_deref_key,
            vstd::std_specs::hash::axiom_maps_deref_key_to_value,
        };

        proof {
            lemma_position_exists(goal, pieces, n, at);
            let home = position_of(goal, tile);
            assert(order@.contains_key(goal[home].value()));
        }
        let value = tile.get_value();
        match order.get(&value) {
            Some(rank) => *rank,
            None => {
                proof {
                    assert(false);
                }
                0
            },
        }
    }

    /// For each piece, where it lies in the goal, read in one of the two
    /// readings.
    pub fn compute_order(&self, board: &Board, vertical: bool) -> (order: HashMap<u8, u8>)
        requires
            board@.wf(),
        ensures
            is_ranking(order@, oriented(board@.config.goal_state, board@.n(), vertical)),
    {
        let goal = self.oriented_goal(board, vertical);
        let mut result: HashMap<u8, u8> = HashMap::new();
        let ghost n = board@.n();
        proof {
            assert(n * n <= 256) by (nonlinear_arith)
                requires
                    2 <= n <= 16,
            ;
        }
        let mut i: usize = 0;
        while i < goal.len()
            invariant
                i <= goal.len(),
                goal.len() <= 256,
                is_arrangement(goal@, n),
                forall|k: int|
                    0 <= k < i ==> result@.contains_key((#[trigger] goal@[k]).value())
                        && result@[goal@[k].value()] == k,
            decreases goal.len() - i,
        {
            let ghost before = result@;
            result.insert(goal[i].get_value(), i as u8);
            proof {
                assert forall|k: int| 0 <= k < i + 1 implies result@.contains_key(
                    (#[trigger] goal@[k]).value(),
                ) && result@[goal@[k].value()] == k by {
                    if k < i {
                        assert(goal@[k] != goal@[i as int]);
                        assert(goal@[k].wf() && goal@[i as int].wf());
                        assert(before.contains_key(goal@[k].value()));
                    }
                }
            }
            i = i + 1;
        }
        result
    }

    /// The count of the reading that a slide changes, from the count before:
    /// the pieces between the old and the new cell of the blank in that
    /// reading are walked, and those that rank below the piece that moved are
    /// counted.
    #[verifier::rlimit(30)]
    fn jumped_count(
        &self,
        new_state: &Board,
        old_state: &Board,
        vertical: bool,
        before: usize,
    ) -> (count: usize)
        requires
            new_state@.wf(),
            old_state@.wf(),
            new_state@.follows(old_state@),
            before == inversion_count(old_state@, vertical),
        ensures
            count == inversion_count(new_state@, vertical),
    {
        let n = BoardManager::size_of(new_state) as usize;
        let tiles = BoardManager::tiles_of(new_state);
        let old_blank = BoardManager::empty_tile_idx(old_state) as usize;
        let new_blank = BoardManager::empty_tile_idx(new_state) as usize;
        let order = self.compute_order(new_state, vertical);
        let ghost goal = oriented(new_state@.config.goal_state, n as int, vertical);
        let ghost pieces = oriented(new_state@.tiles, n as int, vertical);
        proof {
            lemma_slide_changes_count(old_state@, new_state@, vertical);
            lemma_slide_gap(old_state@, new_state@);
            lemma_oriented_is_arrangement(new_state@.config.goal_state, n as int, vertical);
            lemma_oriented_is_arrangement(new_state@.tiles, n as int, vertical);
            lemma_cell_coordinates(old_blank as int, n as int);
            lemma_cell_coordinates(new_blank as int, n as int);
            lemma_transposed_index(old_blank as int, n as int);
            lemma_transposed_index(new_blank as int, n as int);
            assert(n * n <= 256) by (nonlinear_arith)
                requires
                    2 <= n <= 16,
            ;
            assert((n * n) * (n * n) <= 65536) by (nonlinear_arith)
                requires
                    0 <= n * n <= 256,
            ;
            lemma_inversions_prefix_bound(
                oriented(old_state@.config.goal_state, n as int, vertical),
                oriented(old_state@.tiles, n as int, vertical),
                old_state@.tiles.len() as int,
            );
            lemma_cell_index(
                old_blank as int % n as int,
                old_blank as int / n as int,
                n as int,
            );
            lemma_cell_index(
                new_blank as int % n as int,
                new_blank as int / n as int,
                n as int,
            );
        }
        let old_idx = if vertical {
            (old_blank % n) * n + old_blank / n
        } else {
            old_blank
        };
        let new_idx = if vertical {
            (new_blank % n) * n + new_blank / n
        } else {
            new_blank
        };
        let start = if old_idx < new_idx {
            old_idx
        } else {
            new_idx
        };
        let end = if old_idx < new_idx {
            new_idx
        } else {
            old_idx
        };
        let moved = tiles[old_blank];
        let moved_rank = Self::rank_in(
            &order,
            moved,
            Ghost(goal),
            Ghost(new_state@.tiles),
            Ghost(old_blank as int),
            Ghost(n as int),
        );
        let mut below: usize = 0;
        let mut i: usize = start + 1;
        while i < end
            invariant
                start < i <= end < n * n,
                0 < n,
                n * n <= 256,
                tiles@ == new_state@.tiles,
                tiles.len() == n * n,
                pieces == oriented(tiles@, n as int, vertical),
                is_arrangement(goal, n as int),
                is_arrangement(tiles@, n as int),
                is_arrangement(pieces, n as int),
                is_ranking(order@, goal),
                moved != Tile::Empty,
                moved_rank == position_of(goal, moved),
                below == disorder_after(goal, pieces, start + 1, i as int, moved),
                below <= i - start - 1,
                new_idx == start || new_idx == end,
                new_idx == oriented_index(new_blank as int, n as int, vertical),
                0 <= new_blank < tiles.len(),
                tiles@[new_blank as int] == Tile::Empty,
            decreases end - i,
        {
            proof {
                lemma_transposed_index(i as int, n as int);
                lemma_cell_coordinates(i as int, n as int);
                lemma_transposed_index(new_blank as int, n as int);
            }
            let at = if vertical {
                (i % n) * n + i / n
            } else {
                i
            };
            let piece = tiles[at];
            proof {
                assert(pieces[i as int] == piece);
                assert(at != new_blank);
                if at < new_blank {
                    assert(tiles@[at as int] != tiles@[new_blank as int]);
                } else {
                    assert(tiles@[new_blank as int] != tiles@[at as int]);
                }
            }
            let rank = Self::rank_in(
                &order,
                piece,
                Ghost(goal),
                Ghost(tiles@),
                Ghost(at as int),
                Ghost(n as int),
            );
            if rank < moved_rank {
                below = below + 1;
            }
            i = i + 1;
        }
        let between = end - start - 1;
        if old_idx < new_idx {
            before + 2 * below - between
        } else {
            before + between - 2 * below
        }
    }

    /// The moves that `count` inversions ask for at least.
    fn fold(count: usize, n: usize) -> (moves: usize)
        requires
            2 <= n,
            count <= 65536,
        ensures
            moves == folded(count as nat, n as int),
            moves <= 2 * count,
    {
        proof {
            vstd::arithmetic::div_mod::lemma_div_nonincreasing(count as int, n as int - 1);
            vstd::arithmetic::div_mod::lemma_mod_decreases(count as nat, (n - 1) as nat);
        }
        count / (n - 1) + count % (n - 1)
    }
}

impl HeuristicFn for InversionDistance {
    open spec fn estimate(&self, board: BoardView) -> nat {
        inversion_distance(board)
    }

    /// The board has the goal that the estimator last worked for, and its
    /// counts are kept.
    closed spec fn tracks(&self, board: BoardView) -> bool {
        &&& board.config.goal_state == self.goal@
        &&& board.config.n == self.n
        &&& self.cache@.contains_key(board.tiles)
    }

    /// From scratch: both counts, pair by pair. From the board before: that
    /// board's counts, of which the slide changes one. Either way the counts
    /// are kept for `new_state`, and the result is the inversion distance.
    /// `NotEvaluated` is returned exactly where the counts of the board before
    /// are not kept; nothing is worked out then, and the estimator stays as it
    /// is. An update forgets none of the boards that were tracked.
    fn compute(&mut self, new_state: &Board, old_state: Option<&Board>) -> (value: Result<
        usize,
        HeuristicError,
    >)
        ensures
            old_state is Some && !old(self).tracks(old_state.unwrap()@) ==> value == Err::<
                usize,
                HeuristicError,
            >(HeuristicError::NotEvaluated),
            old_state is Some ==> forall|board: BoardView|
                old(self).tracks(board) ==> #[trigger] final(self).tracks(board),
            match value {
                Ok(weight) => weight == inversion_distance(new_state@) && final(self).tracks(
                    new_state@,
                ),
                Err(error) => {
                    &&& error == HeuristicError::NotEvaluated
                    &&& old_state is Some
                    &&& !old(self).tracks(old_state.unwrap()@)
                    &&& *final(self) == *old(self)
                },
            },
    {
        proof {
            use_type_invariant(&*self);
        }
        let n = BoardManager::size_of(new_state) as usize;
        let (horizontal, vertical) = match old_state {
            None => {
                if self.n != BoardManager::size_of(new_state) || !same_tiles(
                    BoardManager::goal_of(new_state),
                    self.goal.as_slice(),
                ) {
                    proof {
                        assert forall|board: BoardView|
                            board.config.goal_state == new_state@.config.goal_state implies !old(
                            self,
                        ).tracks(board) by {
                            if old(self).tracks(board) {
                                lemma_same_side(self.n as int, new_state@.n());
                            }
                        }
                    }
                    self.cache = TileMap::new();
                    self.goal = copy_tiles(BoardManager::goal_of(new_state));
                    self.n = BoardManager::size_of(new_state);
                }
                (self.inversion_count(new_state, false), self.inversion_count(new_state, true))
            },
            Some(old_state) => {
                let kept = self.counts_of(old_state);
                match kept {
                    None => {
                        return Err(HeuristicError::NotEvaluated);
                    },
                    Some((horizontal, vertical)) => {
                        let old_idx = BoardManager::empty_tile_idx(old_state) as usize;
                        let new_idx = BoardManager::empty_tile_idx(new_state) as usize;
                        proof {
                            lemma_slide_gap(old_state@, new_state@);
                            lemma_slide_changes_count(old_state@, new_state@, false);
                            lemma_slide_changes_count(old_state@, new_state@, true);
                        }
                        // a slide along a row leaves the row-by-row reading as
                        // it is and changes the column-by-column one
                        let along_row = new_idx == old_idx + 1 || new_idx + 1 == old_idx;
                        if along_row {
                            (
                                horizontal,
                                self.jumped_count(new_state, old_state, true, vertical),
                            )
                        } else {
                            proof {
                                let p = transposed_index(old_idx as int, n as int);
                                let q = transposed_index(new_idx as int, n as int);
                                assert(q - p == 1 || q - p == -1) by (nonlinear_arith)
                                    requires
                                        n as int * (q - p) == new_idx as int - old_idx as int,
                                        new_idx as int - old_idx as int == n as int || new_idx as int
                                            - old_idx as int == -(n as int),
                                        n >= 2,
                                ;
                            }
                            (
                                self.jumped_count(new_state, old_state, false, horizontal),
                                vertical,
                            )
                        }
                    },
                }
            },
        };
        proof {
            lemma_inversions_prefix_bound(
                oriented(new_state@.config.goal_state, n as int, false),
                oriented(new_state@.tiles, n as int, false),
                new_state@.tiles.len() as int,
            );
            lemma_inversions_prefix_bound(
                oriented(new_state@.config.goal_state, n as int, true),
                oriented(new_state@.tiles, n as int, true),
                new_state@.tiles.len() as int,
            );
            assert(n * n <= 256) by (nonlinear_arith)
                requires
                    2 <= n <= 16,
            ;
            assert((n * n) * (n * n) <= 65536) by (nonlinear_arith)
                requires
                    0 <= n * n <= 256,
            ;
        }
        let mut cache = TileMap::new();
        std::mem::swap(&mut self.cache, &mut cache);
        cache.insert(copy_tiles(BoardManager::tiles_of(new_state)), (horizontal, vertical));
        self.cache = cache;
        Ok(Self::fold(horizontal, n) + Self::fold(vertical, n))
    }
}


/// In the goal, a piece read after a range of pieces is out of order with
/// none of them when it is put in front of them, and one read before them is
/// out of order with all of them when it is put behind them.
proof fn lemma_disorder_in_goal(order: Seq<Tile>, pieces: Seq<Tile>, n: int, lo: int, hi: int, at: int)
    requires
        is_arrangement(order, n),
        0 <= lo <= hi <= order.len(),
        0 <= at < order.len(),
        order[at] != Tile::Empty,
        pieces.len() == order.len(),
        forall|x: int| lo <= x < hi ==> pieces[x] == order[x] && order[x] != Tile::Empty,
    ensures
        at >= hi ==> disorder_after(order, pieces, lo, hi, order[at]) == hi - lo,
        at < lo ==> disorder_after(order, pieces, lo, hi, order[at]) == 0,
    decreases hi - lo,
{
    if lo < hi {
        lemma_disorder_in_goal(order, pieces, n, lo, hi - 1, at);
        lemma_position_found(order, n, hi - 1);
        lemma_position_found(order, n, at);
    }
}

/// One slide away from the goal the reading that the slide runs along has no
/// inversions, the other has as many as a line of the grid has pieces to jump
/// over, and the inversion distance is 1.
pub proof fn lemma_inversions_one_slide_from_goal(previous: BoardView, next: BoardView)
    requires
        previous.wf(),
        next.wf(),
        previous.at_goal(),
        next.follows(previous),
    ensures
        ({
            let along_row = next.blank() == previous.blank() + 1 || next.blank()
                == previous.blank() - 1;
            &&& along_row ==> inversion_count(next, false) == 0 && inversion_count(next, true)
                == previous.n() - 1
            &&& !along_row ==> inversion_count(next, false) == previous.n() - 1
                && inversion_count(next, true) == 0
        }),
        inversion_distance(next) == 1,
{
    let n = previous.n();
    let from = previous.blank();
    let to = next.blank();
    lemma_goal_has_no_inversions(previous);
    lemma_slide_gap(previous, next);
    lemma_one_reading_from_goal(previous, next, false);
    lemma_one_reading_from_goal(previous, next, true);
    let along_row = to == from + 1 || to == from - 1;
    let p = transposed_index(from, n);
    let q = transposed_index(to, n);
    if along_row {
        assert(q - p == n || q - p == -n) by (nonlinear_arith)
            requires
                q - p == n * (to - from),
                to - from == 1 || to - from == -1,
        ;
    } else {
        assert(q - p == 1 || q - p == -1) by (nonlinear_arith)
            requires
                n * (q - p) == to - from,
                to - from == n || to - from == -n,
                n >= 2,
        ;
    }
    assert(0int / (n - 1) == 0 && 0int % (n - 1) == 0 && (n - 1) / (n - 1) == 1 && (n - 1) % (n
        - 1) == 0) by (nonlinear_arith)
        requires
            n >= 2,
    ;
}

/// One slide away from the goal a reading has as many inversions as there
/// are cells between the old and the new cell of the blank in that reading.
proof fn lemma_one_reading_from_goal(previous: BoardView, next: BoardView, vertical: bool)
    requires
        previous.wf(),
        next.wf(),
        previous.at_goal(),
        next.follows(previous),
    ensures
        ({
            let p = oriented_index(previous.blank(), previous.n(), vertical);
            let q = oriented_index(next.blank(), previous.n(), vertical);
            inversion_count(next, vertical) == if p < q {
                q - p - 1
            } else {
                p - q - 1
            }
        }),
{
    let n = previous.n();
    let from = previous.blank();
    let to = next.blank();
    let order = oriented(next.config.goal_state, n, vertical);
    let pieces = oriented(next.tiles, n, vertical);
    let before = oriented(previous.tiles, n, vertical);
    let p = oriented_index(from, n, vertical);
    let q = oriented_index(to, n, vertical);
    lemma_goal_has_no_inversions(previous);
    lemma_slide_changes_count(previous, next, vertical);
    lemma_oriented_is_arrangement(previous.config.goal_state, n, vertical);
    let direction = choose|direction: int| #[trigger]
        slide_target(from, n, direction) == Some(to);
    lemma_slide_target_on_grid(from, n, direction);
    lemma_oriented_swapped(previous.tiles, n, from, to, vertical);
    assert(before == order);
    assert(pieces == swapped(order, p, q));
    assert(pieces[p] == order[q]);
    let lo = if p < q {
        p
    } else {
        q
    };
    let hi = if p < q {
        q
    } else {
        p
    };
    assert(order[p] == Tile::Empty);
    assert forall|x: int| lo + 1 <= x < hi implies pieces[x] == order[x] && order[x]
        != Tile::Empty by {
        if x < p {
            assert(order[x] != order[p]);
        } else {
            assert(order[p] != order[x]);
        }
    }
    lemma_disorder_in_goal(order, pieces, n, lo + 1, hi, q);
}

/// On a grid of side 4 at most, the moves that a count asks for change by
/// one at most when a piece jumps over a line of the grid.
pub proof fn lemma_folded_one_apart(count: nat, changed: nat, n: int, below: int)
    requires
        2 <= n <= 4,
        0 <= below <= n - 1,
        changed == count + 2 * below - (n - 1) || changed == count + (n - 1) - 2 * below,
    ensures
        folded(count, n) <= folded(changed, n) + 1,
{
    if n == 2 {
        assert(count as int / 1 == count && count as int % 1 == 0);
        assert(changed as int / 1 == changed && changed as int % 1 == 0);
    } else if n == 3 {
        assert(folded(count, n) == count as int / 2 + count as int % 2);
        assert(folded(changed, n) == changed as int / 2 + changed as int % 2);
    } else {
        assert(folded(count, n) == count as int / 3 + count as int % 3);
        assert(folded(changed, n) == changed as int / 3 + changed as int % 3);
    }
}

/// On a grid of side 4 at most, one slide changes the inversion distance by
/// one at most.
pub proof fn lemma_inversion_distance_one_apart(previous: BoardView, next: BoardView)
    requires
        previous.wf(),
        next.wf(),
        next.follows(previous),
        previous.n() <= 4,
    ensures
        inversion_distance(previous) <= inversion_distance(next) + 1,
{
    let n = previous.n();
    lemma_slide_gap(previous, next);
    lemma_slide_changes_count(previous, next, false);
    lemma_slide_changes_count(previous, next, true);
    let from = previous.blank();
    let to = next.blank();
    let along_row = to == from + 1 || to == from - 1;
    let rows_before = inversion_count(previous, false);
    let rows_after = inversion_count(next, false);
    let columns_before = inversion_count(previous, true);
    let columns_after = inversion_count(next, true);
    if along_row {
        let p = transposed_index(from, n);
        let q = transposed_index(to, n);
        assert(q - p == n || q - p == -n) by (nonlinear_arith)
            requires
                q - p == n * (to - from),
                to - from == 1 || to - from == -1,
        ;
        assert(rows_after == rows_before);
        let lo = if p < q {
            p
        } else {
            q
        };
        let hi = if p < q {
            q
        } else {
            p
        };
        let below = disorder_after(
            oriented(next.config.goal_state, n, true),
            oriented(next.tiles, n, true),
            lo + 1,
            hi,
            oriented(next.tiles, n, true)[p],
        );
        lemma_folded_one_apart(columns_before, columns_after, n, below as int);
    } else {
        let p = transposed_index(from, n);
        let q = transposed_index(to, n);
        assert(q - p == 1 || q - p == -1) by (nonlinear_arith)
            requires
                n * (q - p) == to - from,
                to - from == n || to - from == -n,
                n >= 2,
        ;
        assert(columns_after == columns_before);
        let lo = if from < to {
            from
        } else {
            to
        };
        let hi = if from < to {
            to
        } else {
            from
        };
        let below = disorder_after(
            next.config.goal_state,
            next.tiles,
            lo + 1,
            hi,
            next.tiles[from],
        );
        lemma_folded_one_apart(rows_before, rows_after, n, below as int);
    }
}

/// On a grid of side 4 at most the inversion distance is a consistent
/// estimate: it goes by the cells alone, and over one slide it drops by one
/// at most.
pub proof fn lemma_inversion_distance_consistent(
    guide: Option<Box<dyn HeuristicFn>>,
    initial: BoardView,
)
    requires
        guide is Some,
        forall|board: BoardView| #[trigger]
            guide.unwrap().estimate(board) == inversion_distance(board),
        initial.wf(),
        initial.config.informed(),
        initial.n() <= 4,
    ensures
        consistent(guide, initial),
{
    assert forall|board: BoardView|
        board.wf() && same_puzzle(board, initial) implies #[trigger] guide.unwrap().estimate(board)
        == estimate_of(guide, initial, board.tiles) by {
        assert(guide.unwrap().estimate(board_of(initial, board.tiles)) == inversion_distance(
            board_of(initial, board.tiles),
        ));
    }
    assert forall|from: Seq<Tile>, to: Seq<Tile>|
        is_arrangement(from, initial.n()) && #[trigger] slides_to(
            from,
            to,
            initial.n(),
        ) implies estimate_of(guide, initial, from) <= estimate_of(guide, initial, to) + 1 by {
        lemma_boards_of_slide(initial, from, to);
        lemma_inversion_distance_one_apart(board_of(initial, from), board_of(initial, to));
        assert(guide.unwrap().estimate(board_of(initial, from)) == inversion_distance(
            board_of(initial, from),
        ));
        assert(guide.unwrap().estimate(board_of(initial, to)) == inversion_distance(
            board_of(initial, to),
        ));
    }
}

} // verus!
