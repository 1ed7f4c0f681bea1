//! Searches that go by the order in which boards were found alone.

pub mod dfs;
pub mod ucs;
