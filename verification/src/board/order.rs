use super::board::{Board, BoardManager, BoardView};
use super::cell::Tile;
use super::tile_map::{hash_tiles, tile_hash};
use std::cmp::Ordering;
use vstd::prelude::*;
use vstd::std_specs::cmp::{PartialEqSpecImpl, PartialOrdSpecImpl};

verus! {

/// The place of a cell in the order of cells: the blank first, then the
/// pieces by their numbers.
pub open spec fn tile_rank(tile: Tile) -> int {
    match tile {
        Tile::Empty => 0,
        Tile::Value(value) => value + 1,
    }
}

/// How two rows of cells compare from the cell `from` on, cell by cell: -1
/// where the left row comes first, 1 where the right one does, 0 where they
/// are the same. A row that ends first comes first.
pub open spec fn lexical_code(left: Seq<Tile>, right: Seq<Tile>, from: int) -> int
    decreases left.len() - from,
{
    if from >= left.len() || from >= right.len() {
        if left.len() < right.len() {
            -1
        } else if left.len() == right.len() {
            0
        } else {
            1
        }
    } else if tile_rank(left[from]) < tile_rank(right[from]) {
        -1
    } else if tile_rank(left[from]) > tile_rank(right[from]) {
        1
    } else {
        lexical_code(left, right, from + 1)
    }
}

/// How two boards compare. Two boards with costs compare by depth plus
/// weight, and the one with the lower sum comes last, so that a queue that
/// hands out its greatest entry hands out the cheapest board; where the sums
/// are the same, the cells decide. Any other two boards compare by their
/// cells.
pub open spec fn board_code(left: BoardView, right: BoardView) -> int {
    if left.config.informed() && right.config.informed() {
        if left.config.total_weight() < right.config.total_weight() {
            1
        } else if left.config.total_weight() > right.config.total_weight() {
            -1
        } else {
            lexical_code(left.tiles, right.tiles, 0)
        }
    } else {
        lexical_code(left.tiles, right.tiles, 0)
    }
}

/// Two rows of cells compare one way as they compare the other way, turned
/// round.
pub proof fn lemma_lexical_code_turns(left: Seq<Tile>, right: Seq<Tile>, from: int)
    requires
        0 <= from,
    ensures
        lexical_code(left, right, from) == -lexical_code(right, left, from),
        -1 <= lexical_code(left, right, from) <= 1,
    decreases left.len() - from,
{
    if from < left.len() && from < right.len() && tile_rank(left[from]) == tile_rank(
        right[from],
    ) {
        lemma_lexical_code_turns(left, right, from + 1);
    }
}

/// Two rows of cells compare as the same from `from` on exactly when they are
/// as long as each other and hold the same cells from there on.
pub proof fn lemma_lexical_code_same(left: Seq<Tile>, right: Seq<Tile>, from: int)
    requires
        0 <= from,
    ensures
        lexical_code(left, right, from) == 0 <==> left.len() == right.len() && forall|k: int|
            from <= k < left.len() ==> left[k] == right[k],
    decreases left.len() - from,
{
    if from < left.len() && from < right.len() {
        if tile_rank(left[from]) == tile_rank(right[from]) {
            lemma_lexical_code_same(left, right, from + 1);
            assert(left[from] == right[from]);
            if left.len() == right.len() && (forall|k: int|
                from + 1 <= k < left.len() ==> left[k] == right[k]) {
                assert forall|k: int| from <= k < left.len() implies left[k] == right[k] by {}
            }
        } else {
            assert(left[from] != right[from]);
        }
    }
}

/// Two boards compare one way as they compare the other way, turned round,
/// and they compare as the same only where their cells are the same.
pub proof fn lemma_board_code_turns(left: BoardView, right: BoardView)
    ensures
        board_code(left, right) == -board_code(right, left),
        -1 <= board_code(left, right) <= 1,
        board_code(left, right) == 0 ==> left.tiles == right.tiles,
        left.tiles == right.tiles && left.config.total_weight() == right.config.total_weight()
            ==> board_code(left, right) == 0,
{
    lemma_lexical_code_turns(left.tiles, right.tiles, 0);
    lemma_lexical_code_same(left.tiles, right.tiles, 0);
    if left.tiles.len() == right.tiles.len() && (forall|k: int|
        0 <= k < left.tiles.len() ==> left.tiles[k] == right.tiles[k]) {
        assert(left.tiles =~= right.tiles);
    }
}

/// `tile_rank`, computed.
fn rank_of(tile: &Tile) -> (rank: u16)
    ensures
        rank == tile_rank(*tile),
{
    match tile {
        Tile::Empty => 0,
        Tile::Value(value) => *value as u16 + 1,
    }
}

/// `lexical_code`, computed.
pub fn compare_tiles(left: &[Tile], right: &[Tile]) -> (code: i8)
    ensures
        code == lexical_code(left@, right@, 0),
{
    let mut i: usize = 0;
    while i < left.len() && i < right.len()
        invariant
            i <= left.len(),
            i <= right.len(),
            lexical_code(left@, right@, 0) == lexical_code(left@, right@, i as int),
        decreases left.len() - i,
    {
        let a = rank_of(&left[i]);
        let b = rank_of(&right[i]);
        if a < b {
            return -1;
        }
        if a > b {
            return 1;
        }
        i = i + 1;
    }
    if left.len() < right.len() {
        -1
    } else if left.len() == right.len() {
        0
    } else {
        1
    }
}

/// `board_code`, computed.
pub fn compare_boards(left: &Board, right: &Board) -> (code: i8)
    ensures
        code == board_code(left@, right@),
{
    if BoardManager::is_informed(left) && BoardManager::is_informed(right) {
        let mine = BoardManager::total_weight(left);
        let theirs = BoardManager::total_weight(right);
        if mine < theirs {
            1
        } else if mine > theirs {
            -1
        } else {
            compare_tiles(BoardManager::tiles_of(left), BoardManager::tiles_of(right))
        }
    } else {
        compare_tiles(BoardManager::tiles_of(left), BoardManager::tiles_of(right))
    }
}

/// The order that a code stands for.
pub open spec fn code_order(code: int) -> Ordering {
    if code < 0 {
        Ordering::Less
    } else if code == 0 {
        Ordering::Equal
    } else {
        Ordering::Greater
    }
}

/// The order of two boards one way is the order the other way, turned round.
pub proof fn lemma_board_order_turns(left: BoardView, right: BoardView)
    ensures
        code_order(board_code(left, right)) == Ordering::Less <==> code_order(
            board_code(right, left),
        ) == Ordering::Greater,
        code_order(board_code(left, right)) == Ordering::Equal <==> code_order(
            board_code(right, left),
        ) == Ordering::Equal,
        code_order(board_code(left, right)) == Ordering::Equal ==> left.tiles == right.tiles,
{
    lemma_board_code_turns(left, right);
}

impl Board {
    /// How the board compares with `other`: by depth plus weight where both
    /// carry costs, the lower sum last, and by the cells where the sums are
    /// the same or a board carries no costs. See `board_code`.
    pub fn cmp(&self, other: &Board) -> (order: Ordering)
        ensures
            order == code_order(board_code(self@, other@)),
    {
        let code = compare_boards(self, other);
        if code < 0 {
            Ordering::Less
        } else if code == 0 {
            Ordering::Equal
        } else {
            Ordering::Greater
        }
    }

    /// The number that the board is filed under: that of its cells alone.
    pub fn hash_code(&self) -> (hash: u64)
        ensures
            hash == tile_hash(self@.tiles),
    {
        hash_tiles(BoardManager::tiles_of(self))
    }
}

impl PartialEq for Board {
    /// Two boards are equal when their cells are; goal and costs do not
    /// count.
    fn eq(&self, other: &Self) -> (equal: bool) {
        super::board::same_tiles(BoardManager::tiles_of(self), BoardManager::tiles_of(other))
    }
}

impl PartialEqSpecImpl for Board {
    open spec fn obeys_eq_spec() -> bool {
        true
    }

    open spec fn eq_spec(&self, other: &Self) -> bool {
        self@.tiles == other@.tiles
    }
}

impl Eq for Board {

}

impl PartialOrd for Board {
    /// How the board compares with `other`: see `board_code`.
    fn partial_cmp(&self, other: &Self) -> (order: Option<Ordering>) {
        Some(self.cmp(other))
    }
}

impl PartialOrdSpecImpl for Board {
    open spec fn obeys_partial_cmp_spec() -> bool {
        true
    }

    open spec fn partial_cmp_spec(&self, other: &Self) -> Option<Ordering> {
        Some(code_order(board_code(self@, other@)))
    }
}

} // verus!
