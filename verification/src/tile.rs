//! The state of a single grid cell, and the color an agent carries.

use vstd::prelude::*;

verus! {

/// An RGBA color with 8-bit channels.
///
/// The renderer maps each channel to a unit float; the simulation itself
/// only ever stores and compares colors, so integer channels suffice.
#[derive(Copy, Clone, PartialEq, Eq, Structural, Debug)]
pub struct Color {
    pub r: u8,
    pub g: u8,
    pub b: u8,
    pub a: u8,
}

/// The state of one grid cell.
///
/// A cell is always in exactly one of these four states: the enum itself
/// enforces tile exclusivity (no coordinate is, say, both a wall and
/// occupied).
#[derive(Copy, Clone, PartialEq, Eq, Structural, Debug)]
pub enum Tile {
    /// Impassable, and permanent once set.
    Wall,
    /// Currently holds exactly one agent; passable to no one.
    Occupied,
    /// Target cell of exactly one agent, carrying that agent's color;
    /// passable only to the agent whose destination it is.
    Destination(Color),
    /// Passable to any agent.
    Empty,
}

/// How many of the four tile states hold of a tile at once.
pub open spec fn variants_held(t: Tile) -> int {
    (if t is Wall {
        1int
    } else {
        0int
    }) + (if t is Occupied {
        1int
    } else {
        0int
    }) + (if t is Destination {
        1int
    } else {
        0int
    }) + (if t is Empty {
        1int
    } else {
        0int
    })
}

/// Tile exclusivity: a cell's tile is exactly one of the four variants —
/// never none of them, never two at once (a wall is not also occupied).
///
/// This holds by construction of the `Tile` enum; it is stated here so the
/// guarantee is explicit in the library's interface.
pub proof fn lemma_tile_exclusive(t: Tile)
    ensures
        variants_held(t) == 1,
{
}

} // verus!
