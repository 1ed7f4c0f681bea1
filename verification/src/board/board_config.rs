use super::cell::Tile;
use super::layout::{is_arrangement, MAX_DIMENSION, MIN_DIMENSION};
use vstd::prelude::*;

verus! {

/// What a board needs to know besides its cells, for a search that keeps no
/// costs.
#[derive(Debug, PartialEq, PartialOrd, Eq, Ord, Hash, Clone)]
pub struct UninformedConfig {
    pub n: u8,
    pub empty_tile_idx: u8,
    pub goal_state: Vec<Tile>,
}

/// The same, with the cost of the path walked so far (`depth`) and the
/// estimate of what is left (`weight`).
#[derive(Debug, PartialEq, PartialOrd, Eq, Ord, Hash, Clone)]
pub struct InformedConfig {
    pub n: u8,
    pub empty_tile_idx: u8,
    pub goal_state: Vec<Tile>,
    pub weight: usize,
    pub depth: usize,
}

/// The configuration of a board, in one of the two modes.
#[derive(Debug, PartialEq, PartialOrd, Eq, Ord, Hash, Clone)]
pub enum BoardConfig {
    Uninformed(UninformedConfig),
    Informed(InformedConfig),
}

/// A configuration as plain values. `weight` and `depth` are present exactly
/// in the informed mode.
pub struct ConfigView {
    pub n: u8,
    pub empty_tile_idx: u8,
    pub goal_state: Seq<Tile>,
    pub weight: Option<usize>,
    pub depth: Option<usize>,
}

impl ConfigView {
    /// The configuration carries costs.
    pub open spec fn informed(self) -> bool {
        self.depth is Some
    }

    /// The goal is an arrangement of an `n`×`n` grid, and both costs are
    /// there or neither is.
    pub open spec fn wf(self) -> bool {
        &&& is_arrangement(self.goal_state, self.n as int)
        &&& self.weight is Some <==> self.depth is Some
    }

    /// Depth plus weight, held at the largest number where the sum does not
    /// fit; 0 without costs.
    pub open spec fn total_weight(self) -> usize {
        if self.depth is Some && self.weight is Some {
            if self.depth.unwrap() + self.weight.unwrap() <= usize::MAX {
                (self.depth.unwrap() + self.weight.unwrap()) as usize
            } else {
                usize::MAX
            }
        } else {
            0
        }
    }

    /// The weight; 0 without costs.
    pub open spec fn heuristic_value(self) -> usize {
        if self.depth is Some && self.weight is Some {
            self.weight.unwrap()
        } else {
            0
        }
    }

    /// The configuration with costs: its own, or depth 0 and weight 0 where
    /// it carries none.
    pub open spec fn with_costs(self) -> ConfigView {
        if self.depth is Some {
            self
        } else {
            ConfigView { weight: Some(0), depth: Some(0), ..self }
        }
    }

    /// The configuration without costs.
    pub open spec fn without_costs(self) -> ConfigView {
        ConfigView { weight: None, depth: None, ..self }
    }

    /// The depth after one more move, held at the largest number.
    pub open spec fn deeper(self) -> Option<usize> {
        match self.depth {
            Some(depth) => Some(
                if depth < usize::MAX {
                    (depth + 1) as usize
                } else {
                    depth
                },
            ),
            None => None,
        }
    }
}

impl View for BoardConfig {
    type V = ConfigView;

    open spec fn view(&self) -> ConfigView {
        match self {
            BoardConfig::Uninformed(config) => ConfigView {
                n: config.n,
                empty_tile_idx: config.empty_tile_idx,
                goal_state: config.goal_state@,
                weight: None,
                depth: None,
            },
            BoardConfig::Informed(config) => ConfigView {
                n: config.n,
                empty_tile_idx: config.empty_tile_idx,
                goal_state: config.goal_state@,
                weight: Some(config.weight),
                depth: Some(config.depth),
            },
        }
    }
}

/// A copy of `tiles`.
pub fn copy_tiles(tiles: &[Tile]) -> (copy: Vec<Tile>)
    ensures
        copy@ == tiles@,
{
    let mut copy: Vec<Tile> = Vec::with_capacity(tiles.len());
    let mut i: usize = 0;
    while i < tiles.len()
        invariant
            i <= tiles.len(),
            copy@ == tiles@.take(i as int),
        decreases tiles.len() - i,
    {
        copy.push(tiles[i]);
        i = i + 1;
    }
    assert(tiles@.take(tiles.len() as int) == tiles@);
    copy
}

impl BoardConfig {
    /// The side of the grid.
    pub fn n(&self) -> (n: u8)
        ensures
            n == self@.n,
    {
        match self {
            Self::Uninformed(config) => config.n,
            Self::Informed(config) => config.n,
        }
    }

    /// The cells of the goal, row by row.
    pub fn goal_state(&self) -> (goal: &[Tile])
        ensures
            goal@ == self@.goal_state,
    {
        match self {
            Self::Uninformed(config) => config.goal_state.as_slice(),
            Self::Informed(config) => config.goal_state.as_slice(),
        }
    }

    /// Where the blank is.
    pub fn empty_tile_idx(&self) -> (idx: u8)
        ensures
            idx == self@.empty_tile_idx,
    {
        match self {
            Self::Uninformed(config) => config.empty_tile_idx,
            Self::Informed(config) => config.empty_tile_idx,
        }
    }

    /// Says where the blank is.
    pub fn set_empty_tile_idx(&mut self, empty_tile_idx: u8)
        ensures
            final(self)@ == (ConfigView { empty_tile_idx, ..old(self)@ }),
    {
        match self {
            Self::Uninformed(config) => config.empty_tile_idx = empty_tile_idx,
            Self::Informed(config) => config.empty_tile_idx = empty_tile_idx,
        }
    }

    /// The depth, to be changed in place, if the configuration carries costs.
    pub fn get_mut_depth(&mut self) -> (depth: Option<&mut usize>)
        ensures
            match depth {
                Some(slot) => old(self)@.depth == Some(*slot) && final(self)@ == (ConfigView {
                    depth: Some(*final(slot)),
                    ..old(self)@
                }),
                None => old(self)@.depth is None && final(self)@ == old(self)@,
            },
    {
        match self {
            Self::Informed(config) => Some(&mut config.depth),
            Self::Uninformed(_) => None,
        }
    }

    /// The weight, to be changed in place, if the configuration carries costs.
    pub fn get_mut_weight(&mut self) -> (weight: Option<&mut usize>)
        ensures
            match weight {
                Some(slot) => old(self)@.weight == Some(*slot) && final(self)@ == (ConfigView {
                    weight: Some(*final(slot)),
                    ..old(self)@
                }),
                None => old(self)@.weight is None && final(self)@ == old(self)@,
            },
    {
        match self {
            Self::Informed(config) => Some(&mut config.weight),
            Self::Uninformed(_) => None,
        }
    }

    /// The depth, if the configuration carries costs.
    pub fn get_depth(&self) -> (depth: Option<&usize>)
        ensures
            match depth {
                Some(value) => self@.depth == Some(*value),
                None => self@.depth is None,
            },
    {
        match self {
            Self::Informed(config) => Some(&config.depth),
            Self::Uninformed(_) => None,
        }
    }

    /// The weight, if the configuration carries costs.
    pub fn get_weight(&self) -> (weight: Option<&usize>)
        ensures
            match weight {
                Some(value) => self@.weight == Some(*value),
                None => self@.weight is None,
            },
    {
        match self {
            Self::Informed(config) => Some(&config.weight),
            Self::Uninformed(_) => None,
        }
    }

    /// The configuration with costs: its own, or depth 0 and weight 0 where
    /// it carried none.
    pub fn with_costs(self) -> (config: BoardConfig)
        ensures
            config@ == self@.with_costs(),
    {
        match self {
            Self::Uninformed(config) => Self::Informed(
                InformedConfig {
                    n: config.n,
                    empty_tile_idx: config.empty_tile_idx,
                    goal_state: config.goal_state,
                    weight: 0,
                    depth: 0,
                },
            ),
            Self::Informed(config) => Self::Informed(config),
        }
    }

    /// The configuration without costs.
    pub fn without_costs(self) -> (config: BoardConfig)
        ensures
            config@ == self@.without_costs(),
    {
        match self {
            Self::Uninformed(config) => Self::Uninformed(config),
            Self::Informed(config) => Self::Uninformed(
                UninformedConfig {
                    n: config.n,
                    empty_tile_idx: config.empty_tile_idx,
                    goal_state: config.goal_state,
                },
            ),
        }
    }

    /// A configuration that says what `self` says.
    pub fn duplicate(&self) -> (copy: BoardConfig)
        ensures
            copy@ == self@,
    {
        match self {
            Self::Uninformed(config) => Self::Uninformed(
                UninformedConfig {
                    n: config.n,
                    empty_tile_idx: config.empty_tile_idx,
                    goal_state: copy_tiles(config.goal_state.as_slice()),
                },
            ),
            Self::Informed(config) => Self::Informed(
                InformedConfig {
                    n: config.n,
                    empty_tile_idx: config.empty_tile_idx,
                    goal_state: copy_tiles(config.goal_state.as_slice()),
                    weight: config.weight,
                    depth: config.depth,
                },
            ),
        }
    }
}

/// Whether `tiles` is an arrangement of an `n`×`n` grid.
pub fn check_arrangement(tiles: &[Tile], n: u8) -> (ok: bool)
    ensures
        ok == is_arrangement(tiles@, n as int),
{
    if n < MIN_DIMENSION || n > MAX_DIMENSION {
        return false;
    }
    proof {
        assert(n as int * n as int <= 256) by (nonlinear_arith)
            requires
                2 <= n <= 16,
        ;
    }
    let size = (n as usize) * (n as usize);
    if tiles.len() != size {
        return false;
    }
    let mut seen: Vec<bool> = Vec::with_capacity(size);
    let mut k: usize = 0;
    while k < size
        invariant
            k <= size,
            seen.len() == k,
            forall|v: int| 0 <= v < k ==> !seen[v],
        decreases size - k,
    {
        seen.push(false);
        k = k + 1;
    }
    let mut i: usize = 0;
    while i < tiles.len()
        invariant
            i <= tiles.len(),
            tiles.len() == size,
            seen.len() == size,
            size == n as int * n as int,
            forall|k: int| 0 <= k < i ==> (#[trigger] tiles@[k]).wf() && tiles@[k].value() < size,
            forall|j: int, k: int|
                #![trigger tiles@[j], tiles@[k]]
                0 <= j < k < i ==> tiles@[j] != tiles@[k],
            forall|v: int|
                0 <= v < size ==> (#[trigger] seen[v] <==> exists|k: int|
                    0 <= k < i && (#[trigger] tiles@[k]).value() == v),
        decreases tiles.len() - i,
    {
        let tile = tiles[i];
        if !tile.is_wf() {
            return false;
        }
        let value = tile.get_value() as usize;
        if value >= size {
            return false;
        }
        if seen[value] {
            proof {
                let k = choose|k: int| 0 <= k < i && (#[trigger] tiles@[k]).value() == value;
                assert(tiles@[k] == tiles@[i as int]);
            }
            return false;
        }
        proof {
            assert forall|j: int| 0 <= j < i implies tiles@[j] != tiles@[i as int] by {
                if tiles@[j] == tiles@[i as int] {
                    assert(tiles@[j].value() == value);
                }
            }
        }
        let ghost before = seen@;
        seen.set(value, true);
        proof {
            assert forall|v: int| 0 <= v < size implies (#[trigger] seen[v] <==> exists|k: int|
                0 <= k < i + 1 && (#[trigger] tiles@[k]).value() == v) by {
                if v == value {
                    assert(tiles@[i as int].value() == v);
                } else {
                    if before[v] {
                        let k = choose|k: int| 0 <= k < i && (#[trigger] tiles@[k]).value() == v;
                        assert(0 <= k < i + 1 && tiles@[k].value() == v);
                    }
                    if exists|k: int| 0 <= k < i + 1 && (#[trigger] tiles@[k]).value() == v {
                        let k = choose|k: int|
                            0 <= k < i + 1 && (#[trigger] tiles@[k]).value() == v;
                        assert(k < i);
                    }
                }
            }
        }
        i = i + 1;
    }
    true
}

/// What was missing when a configuration was asked for too early.
pub const MISSING_ESSENTIAL: &'static str = "BoardConfigBuilder: must call self.essential()";

/// What is wrong with a grid too small to move on, or too large to number.
pub const BAD_DIMENSION: &'static str = "BoardConfigBuilder: n must be within 2 and 16 (inclusive)";

/// What is wrong with a goal that is no arrangement of the grid.
pub const BAD_GOAL: &'static str =
    "BoardConfigBuilder: goal_state must hold each number below n * n once";

/// Collects what a configuration is made of.
pub struct BoardConfigBuilder {
    n: Option<u8>,
    goal_state: Option<Vec<Tile>>,
    weight: Option<usize>,
    depth: Option<usize>,
    informed: Option<bool>,
}

/// What a builder has collected.
pub struct BuilderView {
    pub n: Option<u8>,
    pub goal_state: Option<Seq<Tile>>,
    pub weight: Option<usize>,
    pub depth: Option<usize>,
    pub informed: bool,
}

impl BuilderView {
    /// The configuration that the collected parts make, once side and goal
    /// are there: the blank at 0 until a board says where it is, and in the
    /// informed mode the costs given, or 0.
    pub open spec fn config(self) -> ConfigView {
        ConfigView {
            n: self.n.unwrap(),
            empty_tile_idx: 0,
            goal_state: self.goal_state.unwrap(),
            weight: if self.informed {
                Some(
                    match self.weight {
                        Some(weight) => weight,
                        None => 0,
                    },
                )
            } else {
                None
            },
            depth: if self.informed {
                Some(
                    match self.depth {
                        Some(depth) => depth,
                        None => 0,
                    },
                )
            } else {
                None
            },
        }
    }

    /// What `build` answers.
    pub open spec fn outcome(self) -> Result<ConfigView, &'static str> {
        if self.n is None || self.goal_state is None {
            Err(MISSING_ESSENTIAL)
        } else if self.n.unwrap() < 2 || self.n.unwrap() > 16 {
            Err(BAD_DIMENSION)
        } else if !is_arrangement(self.goal_state.unwrap(), self.n.unwrap() as int) {
            Err(BAD_GOAL)
        } else {
            Ok(self.config())
        }
    }
}

impl View for BoardConfigBuilder {
    type V = BuilderView;

    closed spec fn view(&self) -> BuilderView {
        BuilderView {
            n: self.n,
            goal_state: match self.goal_state {
                Some(goal_state) => Some(goal_state@),
                None => None,
            },
            weight: self.weight,
            depth: self.depth,
            informed: self.informed is Some,
        }
    }
}

impl BoardConfigBuilder {
    /// A builder that has collected nothing.
    pub fn builder() -> (builder: Self)
        ensures
            builder@ == (BuilderView {
                n: None,
                goal_state: None,
                weight: None,
                depth: None,
                informed: false,
            }),
    {
        Self { n: None, goal_state: None, weight: None, depth: None, informed: None }
    }

    /// The builder with the side `n` and the goal numbered as `goal_state`
    /// says, row by row, 0 for the blank.
    pub fn essential(self, n: u8, goal_state: Vec<u8>) -> (builder: Self)
        ensures
            builder@ == (BuilderView {
                n: Some(n),
                goal_state: Some(goal_state@.map_values(|value: u8| Tile::of(value))),
                ..self@
            }),
    {
        let mut tiles: Vec<Tile> = Vec::with_capacity(goal_state.len());
        let mut i: usize = 0;
        while i < goal_state.len()
            invariant
                i <= goal_state.len(),
                tiles.len() == i,
                forall|k: int| 0 <= k < i ==> tiles@[k] == Tile::of(goal_state@[k]),
            decreases goal_state.len() - i,
        {
            tiles.push(Tile::with_value(goal_state[i]));
            i = i + 1;
        }
        assert(tiles@ =~= goal_state@.map_values(|value: u8| Tile::of(value)));
        let mut builder = self;
        builder.goal_state = Some(tiles);
        builder.n = Some(n);
        builder
    }

    /// The builder with `depth` as the depth of the informed mode.
    pub fn with_depth(self, depth: usize) -> (builder: Self)
        ensures
            builder@ == (BuilderView { depth: Some(depth), ..self@ }),
    {
        let mut builder = self;
        builder.depth = Some(depth);
        builder
    }

    /// The builder with `weight` as the weight of the informed mode.
    pub fn with_weight(self, weight: usize) -> (builder: Self)
        ensures
            builder@ == (BuilderView { weight: Some(weight), ..self@ }),
    {
        let mut builder = self;
        builder.weight = Some(weight);
        builder
    }

    /// The builder in the informed mode.
    pub fn with_informed(self) -> (builder: Self)
        ensures
            builder@ == (BuilderView { informed: true, ..self@ }),
    {
        let mut builder = self;
        builder.informed = Some(true);
        builder
    }

    /// The configuration, or what is wrong: side or goal missing, a side
    /// outside 2 to 16, or a goal that is no arrangement of the grid.
    pub fn build(self) -> (built: Result<BoardConfig, &'static str>)
        ensures
            match built {
                Ok(config) => self@.outcome() == Ok::<ConfigView, &'static str>(config@)
                    && config@.wf(),
                Err(message) => self@.outcome() == Err::<ConfigView, &'static str>(message),
            },
    {
        let mut builder = self;
        if builder.n.is_none() || builder.goal_state.is_none() {
            return Err(MISSING_ESSENTIAL);
        }
        let n = builder.n.take().unwrap();
        let goal_state = builder.goal_state.take().unwrap();
        if n < MIN_DIMENSION || n > MAX_DIMENSION {
            return Err(BAD_DIMENSION);
        }
        if !check_arrangement(goal_state.as_slice(), n) {
            return Err(BAD_GOAL);
        }
        if builder.informed.is_none() {
            Ok(BoardConfig::Uninformed(UninformedConfig { n, empty_tile_idx: 0, goal_state }))
        } else {
            Ok(
                BoardConfig::Informed(
                    InformedConfig {
                        n,
                        empty_tile_idx: 0,
                        goal_state,
                        weight: builder.weight.take().unwrap_or(0),
                        depth: builder.depth.take().unwrap_or(0),
                    },
                ),
            )
        }
    }
}

impl BoardConfig {
    /// Whether the configuration is well formed.
    pub fn is_valid(&self) -> (ok: bool)
        ensures
            ok == self@.wf(),
    {
        check_arrangement(self.goal_state(), self.n())
    }
}


} // verus!
