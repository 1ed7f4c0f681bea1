use super::board_config::{check_arrangement, copy_tiles, BoardConfig, ConfigView};
use super::cell::Tile;
use super::layout::{
    is_arrangement, lemma_arrangement_holds, lemma_cell_coordinates, lemma_cell_index,
    lemma_slide_target_on_grid, lemma_swapped_is_arrangement, reachable_in, slide_target, swapped,
    DOWN, LEFT, RIGHT, UP,
};
use super::scramble::lemma_reachable_symmetric;
use vstd::arithmetic::div_mod::lemma_small_mod;
use vstd::prelude::*;

verus! {

/// A state of the puzzle: the cells in row-major order, and the
/// configuration that says where the blank is, what the goal is and, in the
/// informed mode, what the state costs.
#[derive(Clone, Debug)]
pub struct Board {
    tiles: Vec<Tile>,
    config: BoardConfig,
}

/// A board as plain values.
pub struct BoardView {
    pub tiles: Seq<Tile>,
    pub config: ConfigView,
}

impl BoardView {
    /// The side of the grid.
    pub open spec fn n(self) -> int {
        self.config.n as int
    }

    /// Where the blank is.
    pub open spec fn blank(self) -> int {
        self.config.empty_tile_idx as int
    }

    /// Goal and cells are arrangements of the same grid, and the blank is
    /// where the configuration says.
    pub open spec fn wf(self) -> bool {
        &&& self.config.wf()
        &&& is_arrangement(self.tiles, self.n())
        &&& self.blank() < self.tiles.len()
        &&& self.tiles[self.blank()] == Tile::Empty
    }

    /// The cells are those of the goal.
    pub open spec fn at_goal(self) -> bool {
        self.tiles == self.config.goal_state
    }

    /// The board after the blank has slid to `target`: the two cells are
    /// exchanged and, in the informed mode, the path is one move longer.
    pub open spec fn slid_to(self, target: int) -> BoardView {
        BoardView {
            tiles: swapped(self.tiles, self.blank(), target),
            config: ConfigView {
                empty_tile_idx: target as u8,
                depth: self.config.deeper(),
                ..self.config
            },
        }
    }

    /// The board with `weight` as its estimate; a board without costs stays
    /// as it is.
    pub open spec fn with_weight(self, weight: usize) -> BoardView {
        if self.config.weight is Some {
            BoardView { config: ConfigView { weight: Some(weight), ..self.config }, ..self }
        } else {
            self
        }
    }

    /// `self` is what one slide of the blank makes of `previous`: the cells
    /// of the slide are exchanged, and goal and side are the same.
    pub open spec fn follows(self, previous: BoardView) -> bool {
        &&& self.config.n == previous.config.n
        &&& self.config.goal_state == previous.config.goal_state
        &&& self.tiles == swapped(previous.tiles, previous.blank(), self.blank())
        &&& exists|direction: int| #[trigger]
            slide_target(previous.blank(), previous.n(), direction) == Some(self.blank())
    }

    /// `self` follows `previous` and is one move deeper; the weights are
    /// free.
    pub open spec fn succeeds(self, previous: BoardView) -> bool {
        &&& self.follows(previous)
        &&& self.config.depth == previous.config.deeper()
    }

    /// `self` is what a slide that stays on the grid makes of `previous`.
    pub open spec fn slid_from(self, previous: BoardView) -> bool {
        &&& self == previous.slid_to(self.blank())
        &&& exists|direction: int| #[trigger]
            slide_target(previous.blank(), previous.n(), direction) == Some(self.blank())
    }

    /// The board with costs: its own, or depth 0 and weight 0 where it
    /// carries none.
    pub open spec fn with_costs(self) -> BoardView {
        BoardView { config: self.config.with_costs(), ..self }
    }

    /// The board without costs.
    pub open spec fn without_costs(self) -> BoardView {
        BoardView { config: self.config.without_costs(), ..self }
    }

    /// The successor in `direction`, if the slide stays on the grid.
    pub open spec fn step(self, direction: int) -> Seq<BoardView> {
        match slide_target(self.blank(), self.n(), direction) {
            Some(target) => seq![self.slid_to(target)],
            None => seq![],
        }
    }

    /// The successors, in the order left, right, up, down.
    pub open spec fn successors(self) -> Seq<BoardView> {
        self.step(0) + self.step(1) + self.step(2) + self.step(3)
    }

    /// The numbers of the cells of one row.
    pub open spec fn row(self, row: int) -> Seq<u8> {
        Seq::new(self.n() as nat, |col: int| self.tiles[row * self.n() + col].value())
    }

    /// The blank is in the first or the last row.
    pub open spec fn blank_in_border_row(self) -> bool {
        self.blank() / self.n() == 0 || self.blank() / self.n() == self.n() - 1
    }

    /// The blank is in the first or the last column.
    pub open spec fn blank_in_border_column(self) -> bool {
        self.blank() % self.n() == 0 || self.blank() % self.n() == self.n() - 1
    }
}

/// A blank in a corner has two successors, one elsewhere on the border has
/// three, and one inside has four.
pub proof fn lemma_neighbor_count(board: BoardView)
    requires
        board.wf(),
    ensures
        board.blank_in_border_row() && board.blank_in_border_column() ==> board.successors().len()
            == 2,
        board.blank_in_border_row() != board.blank_in_border_column() ==> board.successors().len()
            == 3,
        !board.blank_in_border_row() && !board.blank_in_border_column()
            ==> board.successors().len() == 4,
{
    let n = board.n();
    let idx = board.blank();
    lemma_cell_coordinates(idx, n);
    let row = idx / n;
    let col = idx % n;
    assert(n * (n - 1) == n * n - n) by (nonlinear_arith);
    assert(idx < n <==> row == 0) by (nonlinear_arith)
        requires
            idx == row * n + col,
            0 <= col < n,
            0 <= row,
    ;
    assert(idx >= n * n - n <==> row == n - 1) by (nonlinear_arith)
        requires
            idx == row * n + col,
            0 <= col < n,
            0 <= row < n,
    ;
    assert(board.step(0).len() == if col == 0 {
        0nat
    } else {
        1nat
    });
    assert(board.step(1).len() == if col == n - 1 {
        0nat
    } else {
        1nat
    });
    assert(board.step(2).len() == if row == 0 {
        0nat
    } else {
        1nat
    });
    assert(board.step(3).len() == if row == n - 1 {
        0nat
    } else {
        1nat
    });
}

impl View for Board {
    type V = BoardView;

    closed spec fn view(&self) -> BoardView {
        BoardView { tiles: self.tiles@, config: self.config@ }
    }
}

/// The views of a list of boards.
pub open spec fn board_views(boards: Seq<Board>) -> Seq<BoardView> {
    boards.map_values(|board: Board| board@)
}

/// Whether two rows of cells are the same.
pub fn same_tiles(left: &[Tile], right: &[Tile]) -> (same: bool)
    ensures
        same == (left@ == right@),
{
    if left.len() != right.len() {
        return false;
    }
    let mut i: usize = 0;
    while i < left.len()
        invariant
            i <= left.len(),
            left.len() == right.len(),
            forall|k: int| 0 <= k < i ==> left@[k] == right@[k],
        decreases left.len() - i,
    {
        if left[i] != right[i] {
            return false;
        }
        i = i + 1;
    }
    assert(left@ =~= right@);
    true
}

/// The first cell of `goal` that holds `tile`.
pub fn find_tile(goal: &[Tile], tile: Tile) -> (found: Option<usize>)
    ensures
        match found {
            Some(i) => i < goal.len() && goal@[i as int] == tile && forall|k: int|
                0 <= k < i ==> goal@[k] != tile,
            None => forall|i: int| 0 <= i < goal.len() ==> goal@[i] != tile,
        },
{
    let mut i: usize = 0;
    while i < goal.len()
        invariant
            i <= goal.len(),
            forall|k: int| 0 <= k < i ==> goal@[k] != tile,
        decreases goal.len() - i,
    {
        if goal[i] == tile {
            return Some(i);
        }
        i = i + 1;
    }
    None
}

/// How much a board is scrambled, in thousandths: the number of slides of
/// the walk that scrambles it. 1000 is the hottest.
pub struct Temperature(pub u16);

/// What is wrong with a temperature that is no number of thousandths from 1
/// to 1000.
pub const BAD_TEMPERATURE: &'static str =
    "Temperature: temperature must be within 1 and 1000 thousandths (inclusive)";

/// What was missing when a board was asked for too early.
pub const MISSING_CONFIG: &'static str = "BoardBuilder: config must be provided";

/// What is wrong with a configuration whose goal is no arrangement of its
/// grid.
pub const BAD_CONFIG: &'static str = "BoardBuilder: config must hold an arrangement of its grid";

/// What is wrong with cells that are no arrangement of the grid.
pub const BAD_TILES: &'static str = "Board: tiles must hold each number below n * n once";

/// The temperature of a board that is built without one.
pub const DEFAULT_TEMPERATURE: u16 = 300;

impl Temperature {
    /// The temperature of `thousandths` thousandths, which lie between 1 and
    /// 1000.
    pub fn from(thousandths: u16) -> (temperature: Result<Self, &'static str>)
        ensures
            match temperature {
                Ok(value) => 1 <= thousandths <= 1000 && value.0 == thousandths,
                Err(message) => !(1 <= thousandths <= 1000) && message == BAD_TEMPERATURE,
            },
    {
        if thousandths == 0 || thousandths > 1000 {
            Err(BAD_TEMPERATURE)
        } else {
            Ok(Self(thousandths))
        }
    }
}

/// Collects what a board is made of.
pub struct BoardBuilder {
    config: Option<BoardConfig>,
    temperature: Option<Temperature>,
}

/// What a builder has collected.
pub struct BoardBuilderView {
    pub config: Option<ConfigView>,
    pub temperature: Option<u16>,
}

impl BoardBuilderView {
    /// The slides of the walk: the temperature given, or the default.
    pub open spec fn slides(self) -> nat {
        match self.temperature {
            Some(thousandths) => thousandths as nat,
            None => DEFAULT_TEMPERATURE as nat,
        }
    }
}

impl View for BoardBuilder {
    type V = BoardBuilderView;

    closed spec fn view(&self) -> BoardBuilderView {
        BoardBuilderView {
            config: match self.config {
                Some(config) => Some(config@),
                None => None,
            },
            temperature: match self.temperature {
                Some(temperature) => Some(temperature.0),
                None => None,
            },
        }
    }
}

impl BoardBuilder {
    /// A builder that has collected nothing.
    pub fn builder() -> (builder: Self)
        ensures
            builder@ == (BoardBuilderView { config: None, temperature: None }),
    {
        Self { config: None, temperature: None }
    }

    /// The builder with `config` as its configuration.
    pub fn config(self, config: BoardConfig) -> (builder: Self)
        ensures
            builder@ == (BoardBuilderView { config: Some(config@), ..self@ }),
    {
        let mut builder = self;
        builder.config = Some(config);
        builder
    }

    /// The builder with `temperature` as its temperature.
    pub fn temperature(self, temperature: Temperature) -> (builder: Self)
        ensures
            builder@ == (BoardBuilderView { temperature: Some(temperature.0), ..self@ }),
    {
        let mut builder = self;
        builder.temperature = Some(temperature);
        builder
    }

    /// The board that a walk from the goal of the configuration ends at, or
    /// what is wrong: no configuration, or one that is not well formed.
    pub fn build(self) -> (built: Result<Board, &'static str>)
        ensures
            match built {
                Ok(board) => {
                    &&& self@.config matches Some(config)
                    &&& config.wf()
                    &&& board@.scrambled_from(config, self@.slides())
                },
                Err(message) => match self@.config {
                    None => message == MISSING_CONFIG,
                    Some(config) => !config.wf() && message == BAD_CONFIG,
                },
            },
    {
        let mut builder = self;
        match builder.config.take() {
            None => Err(MISSING_CONFIG),
            Some(config) => {
                if !config.is_valid() {
                    return Err(BAD_CONFIG);
                }
                let temperature = match builder.temperature.take() {
                    Some(temperature) => temperature,
                    None => Temperature(DEFAULT_TEMPERATURE),
                };
                Ok(Board::from(config, temperature))
            },
        }
    }
}

impl BoardView {
    /// The board is what a walk of `slides` slides makes of the goal of
    /// `config`: a well-formed board of that configuration, with the blank
    /// where the walk left it, from which the goal can be reached again.
    pub open spec fn scrambled_from(self, config: ConfigView, slides: nat) -> bool {
        &&& self.wf()
        &&& self.config == (ConfigView { empty_tile_idx: self.config.empty_tile_idx, ..config })
        &&& reachable_in(config.goal_state, self.tiles, config.n as int, slides)
        &&& reachable_in(self.tiles, config.goal_state, config.n as int, slides)
    }
}

impl Board {
    /// The board that a walk from the goal of `config` ends at, as many
    /// slides long as `temperature` has thousandths.
    pub fn from(config: BoardConfig, temperature: Temperature) -> (board: Self)
        requires
            config@.wf(),
        ensures
            board@.scrambled_from(config@, temperature.0 as nat),
    {
        let mut config = config;
        let (tiles, empty_tile_idx) = BoardManager::generate_random_board(
            config.n(),
            config.goal_state(),
            temperature.0,
        );
        proof {
            lemma_reachable_symmetric(
                config@.goal_state,
                tiles@,
                config@.n as int,
                temperature.0 as nat,
            );
        }
        config.set_empty_tile_idx(empty_tile_idx);
        Self { tiles, config }
    }

    /// The board with the cells numbered as `tiles` says, row by row, or what
    /// is wrong: a configuration that is not well formed, or cells that are
    /// no arrangement of its grid.
    pub fn with_tiles(config: BoardConfig, tiles: Vec<u8>) -> (built: Result<Self, &'static str>)
        ensures
            match built {
                Ok(board) => {
                    &&& config@.wf()
                    &&& board@.wf()
                    &&& board@.tiles == tiles@.map_values(|value: u8| Tile::of(value))
                    &&& board@.config == (ConfigView {
                        empty_tile_idx: board@.config.empty_tile_idx,
                        ..config@
                    })
                },
                Err(message) => if !config@.wf() {
                    message == BAD_CONFIG
                } else {
                    message == BAD_TILES && !is_arrangement(
                        tiles@.map_values(|value: u8| Tile::of(value)),
                        config@.n as int,
                    )
                },
            },
    {
        if !config.is_valid() {
            return Err(BAD_CONFIG);
        }
        let mut cells: Vec<Tile> = Vec::with_capacity(tiles.len());
        let mut i: usize = 0;
        while i < tiles.len()
            invariant
                i <= tiles.len(),
                cells.len() == i,
                forall|k: int| 0 <= k < i ==> cells@[k] == Tile::of(tiles@[k]),
            decreases tiles.len() - i,
        {
            cells.push(Tile::with_value(tiles[i]));
            i = i + 1;
        }
        assert(cells@ =~= tiles@.map_values(|value: u8| Tile::of(value)));
        if !check_arrangement(cells.as_slice(), config.n()) {
            return Err(BAD_TILES);
        }
        match find_tile(cells.as_slice(), Tile::Empty) {
            Some(blank) => {
                proof {
                    assert(cells@.len() <= 256) by (nonlinear_arith)
                        requires
                            cells@.len() == config@.n as int * config@.n as int,
                            2 <= config@.n <= 16,
                    ;
                }
                let mut config = config;
                config.set_empty_tile_idx(blank as u8);
                Ok(Self { tiles: cells, config })
            },
            None => {
                proof {
                    assert(0 < config@.n as int * config@.n as int) by (nonlinear_arith)
                        requires
                            2 <= config@.n,
                    ;
                    lemma_arrangement_holds(cells@, config@.n as int, 0);
                    let k = choose|k: int| 0 <= k < cells@.len() && (#[trigger] cells@[k]).value() == 0;
                    assert(cells@[k].wf());
                    assert(false);
                }
                Err(BAD_TILES)
            },
        }
    }

    /// Whether the cells are those of the goal.
    pub fn match_goal(&self) -> (matched: bool)
        ensures
            matched == self@.at_goal(),
    {
        same_tiles(self.config.goal_state(), self.tiles.as_slice())
    }

    /// The numbers of the cells, row by row.
    pub fn rows(&self) -> (rows: Vec<Vec<u8>>)
        requires
            self@.wf(),
        ensures
            rows.len() == self@.n(),
            forall|row: int| 0 <= row < self@.n() ==> (#[trigger] rows[row])@ == self@.row(row),
    {
        let n = self.config.n() as usize;
        let mut rows: Vec<Vec<u8>> = Vec::with_capacity(n);
        let mut row: usize = 0;
        while row < n
            invariant
                row <= n,
                n == self@.n(),
                self@.wf(),
                rows.len() == row,
                forall|r: int| 0 <= r < row ==> (#[trigger] rows[r])@ == self@.row(r),
            decreases n - row,
        {
            let mut cells: Vec<u8> = Vec::with_capacity(n);
            let mut col: usize = 0;
            while col < n
                invariant
                    col <= n,
                    row < n,
                    n == self@.n(),
                    self@.wf(),
                    cells.len() == col,
                    forall|c: int|
                        0 <= c < col ==> cells[c] == self@.tiles[row * n + c].value(),
                decreases n - col,
            {
                proof {
                    lemma_cell_index(row as int, col as int, n as int);
                    assert(row * n <= 256) by (nonlinear_arith)
                        requires
                            row < n <= 16,
                    ;
                }
                cells.push(self.tiles[row * n + col].get_value());
                col = col + 1;
            }
            assert(cells@ =~= self@.row(row as int));
            rows.push(cells);
            row = row + 1;
        }
        rows
    }

    /// A board that says what `self` says.
    pub fn duplicate(&self) -> (copy: Board)
        ensures
            copy@ == self@,
    {
        Board { tiles: copy_tiles(self.tiles.as_slice()), config: self.config.duplicate() }
    }
}

/// What can be asked of a board, and the moves of the blank.
pub struct BoardManager;

impl BoardManager {
    /// Whether the board carries costs.
    pub fn is_informed(board: &Board) -> (informed: bool)
        ensures
            informed == board@.config.informed(),
    {
        board.config.get_depth().is_some()
    }

    /// The board with costs: its own, or depth 0 and weight 0 where it
    /// carried none.
    pub fn with_costs(board: Board) -> (costed: Board)
        ensures
            costed@ == board@.with_costs(),
    {
        let Board { tiles, config } = board;
        Board { tiles, config: config.with_costs() }
    }

    /// The board without costs.
    pub fn without_costs(board: Board) -> (plain: Board)
        ensures
            plain@ == board@.without_costs(),
    {
        let Board { tiles, config } = board;
        Board { tiles, config: config.without_costs() }
    }

    /// The cells, row by row.
    pub fn tiles_of(board: &Board) -> (tiles: &[Tile])
        ensures
            tiles@ == board@.tiles,
    {
        board.tiles.as_slice()
    }

    /// The cells of the goal, row by row.
    pub fn goal_of(board: &Board) -> (goal: &[Tile])
        ensures
            goal@ == board@.config.goal_state,
    {
        board.config.goal_state()
    }

    /// The side of the grid.
    pub fn size_of(board: &Board) -> (n: u8)
        ensures
            n == board@.config.n,
    {
        board.config.n()
    }

    /// Where the blank is.
    pub fn empty_tile_idx(board: &Board) -> (idx: u8)
        ensures
            idx == board@.config.empty_tile_idx,
    {
        board.config.empty_tile_idx()
    }

    /// The board with `weight` as its estimate; a board without costs is handed
    /// back as it is.
    pub fn assign_weight(board: Board, weight: usize) -> (weighted: Board)
        ensures
            weighted@ == board@.with_weight(weight),
    {
        let mut board = board;
        if let Some(value) = board.config.get_mut_weight() {
            *value = weight;
        }
        board
    }

    /// Depth plus weight, held at the largest number where the sum does not
    /// fit; 0 for a board without costs.
    pub fn total_weight(board: &Board) -> (total: usize)
        ensures
            total == board@.config.total_weight(),
    {
        match (board.config.get_depth(), board.config.get_weight()) {
            (Some(depth), Some(weight)) => {
                if *weight <= usize::MAX - *depth {
                    *depth + *weight
                } else {
                    usize::MAX
                }
            },
            _ => 0,
        }
    }

    /// The weight; 0 for a board without costs.
    pub fn heuristic_value_of(board: &Board) -> (weight: usize)
        ensures
            weight == board@.config.heuristic_value(),
    {
        match (board.config.get_depth(), board.config.get_weight()) {
            (Some(_), Some(weight)) => *weight,
            _ => 0,
        }
    }

    /// The boards that one slide leads to, in the order left, right, up, down.
    /// In the informed mode each is one move deeper than `board` and carries
    /// the weight of `board` until it is weighed itself.
    pub fn neigbors_of(board: &Board) -> (neighbors: Vec<Board>)
        requires
            board@.wf(),
        ensures
            board_views(neighbors@) == board@.successors(),
            forall|i: int|
                0 <= i < neighbors.len() ==> (#[trigger] neighbors[i])@.wf()
                    && neighbors[i]@.slid_from(board@),
    {
        let mut neighbors: Vec<Board> = Vec::with_capacity(4);
        let idx = board.config.empty_tile_idx() as usize;
        let n = board.config.n() as usize;
        proof {
            assert(n * n <= 256) by (nonlinear_arith)
                requires
                    2 <= n <= 16,
            ;
        }
        let mut direction: u8 = 0;
        while direction < 4
            invariant
                direction <= 4,
                board@.wf(),
                idx == board@.blank(),
                n == board@.n(),
                n * n <= 256,
                forall|i: int|
                    0 <= i < neighbors.len() ==> (#[trigger] neighbors[i])@.wf()
                        && neighbors[i]@.slid_from(board@),
                board_views(neighbors@) == if direction == 0 {
                    Seq::<BoardView>::empty()
                } else if direction == 1 {
                    board@.step(0)
                } else if direction == 2 {
                    board@.step(0) + board@.step(1)
                } else if direction == 3 {
                    board@.step(0) + board@.step(1) + board@.step(2)
                } else {
                    board@.successors()
                },
            decreases 4 - direction,
        {
            let ghost before = neighbors@;
            if let Some(target) = Self::slide(idx, n, direction) {
                let next = Self::swap_empty_tile_with(target, board);
                assert(slide_target(board@.blank(), board@.n(), direction as int) == Some(
                    target as int,
                ));
                neighbors.push(next);
                assert(board_views(neighbors@) =~= board_views(before) + board@.step(
                    direction as int,
                ));
            } else {
                assert(board_views(neighbors@) =~= board_views(before) + board@.step(
                    direction as int,
                ));
            }
            direction = direction + 1;
        }
        neighbors
    }

    /// The board after the blank has slid to `idx`.
    pub fn swap_empty_tile_with(idx: usize, board: &Board) -> (next: Board)
        requires
            board@.wf(),
            idx < board@.tiles.len(),
        ensures
            next@ == board@.slid_to(idx as int),
            next@.wf(),
            (exists|direction: int| #[trigger]
                slide_target(board@.blank(), board@.n(), direction) == Some(idx as int))
                ==> next@.slid_from(board@),
    {
        let blank = board.config.empty_tile_idx() as usize;
        let mut tiles = copy_tiles(board.tiles.as_slice());
        let moved = tiles[idx];
        tiles.set(idx, Tile::Empty);
        tiles.set(blank, moved);
        let mut config = board.config.duplicate();
        proof {
            assert(board@.tiles.len() <= 256) by (nonlinear_arith)
                requires
                    board@.tiles.len() == board@.n() * board@.n(),
                    2 <= board@.n() <= 16,
            ;
        }
        config.set_empty_tile_idx(idx as u8);
        if let Some(depth) = config.get_mut_depth() {
            if *depth < usize::MAX {
                *depth += 1;
            }
        }
        proof {
            lemma_swapped_is_arrangement(board@.tiles, board@.n(), blank as int, idx as int);
            assert(tiles@ =~= swapped(board@.tiles, blank as int, idx as int));
        }
        Board { tiles, config }
    }

    /// Where the blank lands when it slides from `idx` in `direction`: 0 is
    /// left, 1 right, 2 up, 3 down.
    pub fn slide(idx: usize, n: usize, direction: u8) -> (target: Option<usize>)
        requires
            0 < n,
            idx < n * n <= usize::MAX,
        ensures
            match target {
                Some(t) => slide_target(idx as int, n as int, direction as int) == Some(t as int)
                    && t < n * n,
                None => slide_target(idx as int, n as int, direction as int) is None,
            },
    {
        if direction == LEFT {
            Self::move_left(idx, n)
        } else if direction == RIGHT {
            Self::move_right(idx, n)
        } else if direction == UP {
            Self::move_up(idx, n)
        } else if direction == DOWN {
            Self::move_down(idx, n)
        } else {
            None
        }
    }

    /// The cell to the left of `idx`, unless `idx` is in the first column.
    pub fn move_left(idx: usize, n: usize) -> (target: Option<usize>)
        requires
            0 < n,
            idx < n * n <= usize::MAX,
        ensures
            match target {
                Some(t) => slide_target(idx as int, n as int, 0) == Some(t as int) && t < n * n,
                None => slide_target(idx as int, n as int, 0) is None,
            },
    {
        if idx % n == 0 {
            return None;
        }
        proof {
            if idx == 0 {
                lemma_small_mod(0, n as nat);
            }
        }
        Some(idx - 1)
    }

    /// The cell to the right of `idx`, unless `idx` is in the last column.
    pub fn move_right(idx: usize, n: usize) -> (target: Option<usize>)
        requires
            0 < n,
            idx < n * n <= usize::MAX,
        ensures
            match target {
                Some(t) => slide_target(idx as int, n as int, 1) == Some(t as int) && t < n * n,
                None => slide_target(idx as int, n as int, 1) is None,
            },
    {
        if idx % n == n - 1 {
            return None;
        }
        proof {
            lemma_slide_target_on_grid(idx as int, n as int, 1);
        }
        Some(idx + 1)
    }

    /// The cell above `idx`, unless `idx` is in the first row.
    pub fn move_up(idx: usize, n: usize) -> (target: Option<usize>)
        requires
            0 < n,
            idx < n * n <= usize::MAX,
        ensures
            match target {
                Some(t) => slide_target(idx as int, n as int, 2) == Some(t as int) && t < n * n,
                None => slide_target(idx as int, n as int, 2) is None,
            },
    {
        if idx < n {
            return None;
        }
        Some(idx - n)
    }

    /// The cell below `idx`, unless `idx` is in the last row.
    pub fn move_down(idx: usize, n: usize) -> (target: Option<usize>)
        requires
            0 < n,
            idx < n * n <= usize::MAX,
        ensures
            match target {
                Some(t) => slide_target(idx as int, n as int, 3) == Some(t as int) && t < n * n,
                None => slide_target(idx as int, n as int, 3) is None,
            },
    {
        proof {
            assert(n * (n - 1) == n * n - n) by (nonlinear_arith);
        }
        if idx >= n * (n - 1) {
            return None;
        }
        Some(idx + n)
    }
}

} // verus!
