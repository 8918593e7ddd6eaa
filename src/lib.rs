//! A fixed-point physics core for a sixteen-ball billiards table.
//!
//! Lengths are integer position units (a ball's radius is `ball::RADIUS`);
//! velocities are integer velocity units: a ball moving at `v` travels
//! `v * dt / ball::TIME_SCALE` position units in `dt` milliseconds.
//!
//! - `arith`: plane vectors, truncating division, integer square root.
//! - `ball`: a ball's state, its energy, and its motion over one step.
//! - `table`: the playing rectangle, its cushions and pockets.
//! - `collision`: ball-cushion and ball-ball contact resolution.
//! - `store`: the total energy of a set of balls.
//! - `simulation`: the ball store and the frame driver.
pub mod arith;
pub mod ball;
pub mod table;
pub mod collision;
pub mod store;
pub mod simulation;
