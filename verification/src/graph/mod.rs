//! A graph of nodes joined by edges, kept as components of world entities.
pub mod model;
pub mod components;
pub mod lemmas;
pub mod cascade;
pub mod nonempty;
pub mod util;
pub mod commands;
pub mod ops;
pub mod debug;
