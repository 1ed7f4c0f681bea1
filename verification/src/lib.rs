//! Sliding-tile puzzles on an n×n grid: the board and its moves, two distance
//! estimates that can be updated move by move, and the searches that solve a
//! board.

pub mod algorithms;
pub mod board;

pub use algorithms::informed_search::heuristic::inversion_distance::InversionDistance;
pub use algorithms::informed_search::heuristic::mahattan_distance::{
    mahattan_distance, MahattanDistance,
};
pub use algorithms::informed_search::heuristic::{HeuristicError, HeuristicFn};
pub use algorithms::informed_search::AStarAlgorithms;
pub use algorithms::uninformed_search::dfs::DfsAlgorithms;
pub use algorithms::uninformed_search::ucs::{NoEstimate, UcsAlgorithms};
pub use algorithms::Algorithms;
pub use board::board::{Board, BoardBuilder, BoardManager, Temperature};
pub use board::board_config::{BoardConfig, BoardConfigBuilder, InformedConfig, UninformedConfig};
pub use board::cell::Tile;
