use vstd::prelude::*;

verus! {

/// One cell of the grid: the blank, or a numbered piece.
///
/// The number 0 always stands for the blank, so `Value(0)` is never a
/// legitimate cell; `wf` rules it out.
#[derive(PartialEq, Eq, Structural, Hash, Debug, Clone, Copy, PartialOrd, Ord)]
pub enum Tile {
    Empty,
    Value(u8),
}

impl Tile {
    /// The number a cell carries; the blank carries 0.
    pub open spec fn value(self) -> u8 {
        match self {
            Tile::Empty => 0,
            Tile::Value(v) => v,
        }
    }

    /// A cell is well formed unless it spells the blank as `Value(0)`.
    pub open spec fn wf(self) -> bool {
        self != Tile::Value(0)
    }

    /// The cell that carries `value`.
    pub open spec fn of(value: u8) -> Tile {
        if value == 0 {
            Tile::Empty
        } else {
            Tile::Value(value)
        }
    }

    /// The blank.
    pub fn empty() -> (tile: Self)
        ensures
            tile == Tile::Empty,
    {
        Self::Empty
    }

    /// The cell that carries `value`: the blank for 0.
    pub fn with_value(value: u8) -> (tile: Self)
        ensures
            tile == Tile::of(value),
            tile.wf(),
            tile.value() == value,
    {
        match value {
            0 => Self::Empty,
            _ => Self::Value(value),
        }
    }

    /// The number the cell carries; 0 for the blank.
    pub fn get_value(&self) -> (value: u8)
        ensures
            value == self.value(),
    {
        match self {
            Self::Empty => 0,
            Self::Value(value) => *value,
        }
    }

    /// Whether the cell is well formed.
    pub fn is_wf(&self) -> (ok: bool)
        ensures
            ok == self.wf(),
    {
        match self {
            Self::Empty => true,
            Self::Value(value) => *value != 0,
        }
    }
}

/// Well-formed cells are told apart by their numbers.
pub proof fn lemma_value_determines_tile(a: Tile, b: Tile)
    requires
        a.wf(),
        b.wf(),
        a.value() == b.value(),
    ensures
        a == b,
{
}

} // verus!
