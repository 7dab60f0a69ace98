//! A grid-world crowd simulation: agents walk a procedurally generated
//! obstacle grid toward randomly assigned destinations, replanning a
//! shortest path every tick as the occupancy around them changes.

use vstd::prelude::*;

pub mod board;
pub mod person;
pub mod render;
pub mod rng;
pub mod search;
pub mod sim;
pub mod tile;

verus! {

/// Side length of the default arena.
pub const ARENA_W: usize = 100;

/// Pixel size of one grid cell when the arena is drawn.
pub const ARENA_SCALE: usize = 10;

/// Number of wall seeds placed before the growth phase.
pub const NUM_WALLS: usize = 100;

/// Growth-phase conversion chance per adjacent wall, in percent points
/// (the coefficient k = 0.48 scaled by 100).
pub const WALL_NEARBY_PERCENT: usize = 48;

/// Number of agents the default simulation spawns.
pub const NUM_PEOPLE: usize = 300;

/// Consecutive failed walks an agent tolerates before it retargets.
pub const PATH_RETRIES: i32 = 10;

/// Rejected samples after which the search for an empty cell gives up.
pub const EMPTY_SAMPLE_ATTEMPTS: usize = 10000;

} // verus!
