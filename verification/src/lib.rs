//! Sentinel: the game's graph, state and inspector logic, verified.
pub mod text;
pub mod sorted;
pub mod graph;
pub mod progression;
pub mod inspector;
pub mod state;
pub mod player;
pub mod labels;
pub mod testing;
pub mod plugins;
pub mod dirs;
pub mod input;
