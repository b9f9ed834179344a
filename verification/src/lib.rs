//! Game rules of akiuS, a physics merge puzzle: scoring, dispensing, orders,
//! merge resolution, loss tracking, launcher control and replay bookkeeping.
//! Positions, velocities and rendering live with the game engine; this crate
//! holds the integer logic that decides what happens.

pub mod core_math;
pub mod rng;
pub mod timer;
pub mod game_state;
pub mod physics_rules;
pub mod nearest;
pub mod replay;
pub mod launcher;
pub mod hud;
pub mod visuals;
pub mod train;
