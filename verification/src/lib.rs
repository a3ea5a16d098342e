//! Simulation core of a turn-based, grid-movement dungeon crawler.
//!
//! The crate builds a traversable level out of rooms, corridors and areas,
//! finds shortest routes over the resulting tile grid, models the closed set
//! of actions an actor may take, and drives a per-turn state machine that
//! selects an actor, trims its candidate actions, and resolves the chosen
//! action together with any cascaded effects.

pub mod actions;
pub mod board;
pub mod dungeon;
pub mod generator;
pub mod pathfind;
pub mod posmap;
pub mod rng;
pub mod states;
pub mod vectors;
