//! Planning core for a grid-based robot skirmish: the board model with its
//! harvest-cycle simulation, multi-source distance labelling, derived economic
//! layers, a greedy integer allocation engine, and the policy that turns those
//! into per-turn actions.

pub mod action;
pub mod agent;
pub mod allocation;
pub mod board;
pub mod boardbuilder;
pub mod distance_board;
pub mod field;
pub mod mine_board;
pub mod movement;
pub mod owner;
pub mod parse;
pub mod recycler_range_board;
pub mod sorting;
pub mod yield_board;
