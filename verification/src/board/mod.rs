//! The grid: its cells, its configuration and the moves of the blank.

pub mod board;
pub mod board_config;
pub mod cell;
pub mod layout;
pub mod order;
pub mod scramble;
pub mod tile_map;
