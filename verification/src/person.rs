//! An agent: its cell, its destination, its look, and how it claims,
//! releases and walks cells of the board.

use vstd::prelude::*;
use crate::board::Board;
use crate::rng::rand_below;
use crate::search::{a_star, adjacent, connected, passable};
use crate::tile::{Color, Tile};

verus! {

/// One agent of the simulation.
///
/// The grid holds no back-reference to its agents: which agent owns an
/// `Occupied` or `Destination` cell is recoverable only by comparing
/// coordinates with the agents' own fields, which is why `wf` ties the
/// two together.
#[derive(Copy, Clone)]
pub struct Person {
    pub destination: (usize, usize),
    pub location: (usize, usize),
    pub color: Color,
    pub failed_walks: i32,
}

/// The failure counter sticks at its ceiling instead of wrapping.
pub open spec fn bump(n: i32) -> i32 {
    if n < i32::MAX {
        (n + 1) as i32
    } else {
        n
    }
}

/// Both grids hold the same tile at every coordinate.
pub open spec fn grids_equal(b0: Board, b1: Board) -> bool {
    forall|c: (usize, usize)| b0.in_bounds(c) ==> #[trigger] b1.tile(c) == b0.tile(c)
}

impl Person {
    /// The agent and the board agree: the agent stands on an `Occupied`
    /// cell inside the grid, and its destination cell carries its marker
    /// unless the agent has arrived and stands on it.
    pub open spec fn wf(self, b: Board) -> bool {
        &&& b.in_bounds(self.location)
        &&& b.in_bounds(self.destination)
        &&& b.tile(self.location) is Occupied
        &&& (self.location == self.destination || b.tile(self.destination) == Tile::Destination(
            self.color,
        ))
        &&& self.failed_walks >= 0
    }
}

/// A successful walk: the agent stepped one cell, onto a cell that was
/// open to it, freeing its old cell, claiming the new one, touching
/// nothing else, and resetting its failure counter.
pub open spec fn walk_moved(p0: Person, p1: Person, b0: Board, b1: Board) -> bool {
    &&& p1.failed_walks == 0
    &&& p1.destination == p0.destination
    &&& p1.color == p0.color
    &&& adjacent(p0.location, p1.location)
    &&& passable(b0, p1.location, p0.destination)
    &&& b1.tile(p0.location) is Empty
    &&& b1.tile(p1.location) is Occupied
    &&& forall|c: (usize, usize)|
        b0.in_bounds(c) && c != p0.location && c != p1.location ==> #[trigger] b1.tile(c)
            == b0.tile(c)
}

/// What a retarget left behind: either nothing changed (no empty cell
/// turned up), or the agent carries a fresh destination whose cell now
/// bears its marker, the new cell was empty when it was drawn, the old
/// marker cell reverted to empty (when the agent was not standing on it),
/// and no other cell was touched.
pub open spec fn retarget_outcome(p0: Person, p1: Person, b0: Board, b1: Board) -> bool {
    ||| (p1.destination == p0.destination && grids_equal(b0, b1))
    ||| {
    &&& b1.tile(p1.destination) == Tile::Destination(p0.color)
    &&& p1.destination != p0.location
    &&& (p1.destination == p0.destination || b0.tile(p1.destination) is Empty)
    &&& (p0.location == p0.destination || p1.destination == p0.destination || b1.tile(
        p0.destination,
    ) is Empty)
    &&& forall|c: (usize, usize)|
        b0.in_bounds(c) && c != p0.destination && c != p1.destination ==> #[trigger] b1.tile(c)
            == b0.tile(c)
    }
}

/// A failed walk: the agent stayed put, its failure counter rose by one
/// (saturating), and only past the retry limit may its destination and
/// the two marker cells have changed, as `retarget_outcome` says.
pub open spec fn walk_stalled(p0: Person, p1: Person, b0: Board, b1: Board) -> bool {
    &&& p1.location == p0.location
    &&& p1.color == p0.color
    &&& p1.failed_walks == bump(p0.failed_walks)
    &&& (p0.failed_walks <= crate::PATH_RETRIES ==> p1.destination == p0.destination
        && grids_equal(b0, b1))
    &&& (p0.failed_walks > crate::PATH_RETRIES ==> retarget_outcome(p0, p1, b0, b1))
}

impl Person {
    /// Create an agent at the given empty cells, claiming both: the
    /// location becomes `Occupied` and the destination gets the agent's
    /// marker, drawn in a freshly sampled color.
    pub fn new(board: &mut Board, location: (usize, usize), destination: (usize, usize)) -> (p:
        Person)
        requires
            old(board).wf(),
            old(board).in_bounds(location),
            old(board).in_bounds(destination),
            location != destination,
            old(board).tile(location) is Empty,
            old(board).tile(destination) is Empty,
        ensures
            final(board).wf(),
            final(board).side_spec() == old(board).side_spec(),
            p.wf(*final(board)),
            p.location == location,
            p.destination == destination,
            p.failed_walks == 0,
            final(board).tile(location) is Occupied,
            final(board).tile(destination) == Tile::Destination(p.color),
            forall|c: (usize, usize)|
                old(board).in_bounds(c) && c != location && c != destination
                    ==> #[trigger] final(board).tile(c) == old(board).tile(c),
            final(board).occ_count() == old(board).occ_count() + 1,
    {
        board.set(location, Tile::Occupied);
        let color = Color {
            r: rand_color_channel(),
            g: rand_color_channel(),
            b: rand_color_channel(),
            a: 230,
        };
        board.set(destination, Tile::Destination(color));
        Person { location, destination, color, failed_walks: 0 }
    }

    /// Create an agent at a random empty location with a random empty
    /// destination, or `None` if the board yields no room for both.
    ///
    /// The destination is drawn with the location already claimed, so
    /// the two cells never coincide. When sampling fails, the board is
    /// left exactly as it was.
    pub fn new_rand(board: &mut Board) -> (r: Option<Person>)
        requires
            old(board).wf(),
        ensures
            final(board).wf(),
            final(board).side_spec() == old(board).side_spec(),
            r matches Some(p) ==> {
                &&& p.wf(*final(board))
                &&& p.failed_walks == 0
                &&& old(board).tile(p.location) is Empty
                &&& old(board).tile(p.destination) is Empty
                &&& final(board).tile(p.location) is Occupied
                &&& final(board).tile(p.destination) == Tile::Destination(p.color)
                &&& forall|c: (usize, usize)|
                    old(board).in_bounds(c) && c != p.location && c != p.destination
                        ==> #[trigger] final(board).tile(c) == old(board).tile(c)
                &&& final(board).occ_count() == old(board).occ_count() + 1
            },
            r is None ==> grids_equal(*old(board), *final(board)) && final(board).occ_count()
                == old(board).occ_count(),
    {
        let location = match board.find_empty(crate::EMPTY_SAMPLE_ATTEMPTS) {
            Some(c) => c,
            None => {
                return None;
            },
        };
        board.set(location, Tile::Occupied);
        let destination = match board.find_empty(crate::EMPTY_SAMPLE_ATTEMPTS) {
            Some(c) => c,
            None => {
                board.set(location, Tile::Empty);
                return None;
            },
        };
        board.set(location, Tile::Empty);
        Some(Person::new(board, location, destination))
    }

    /// Retarget: release the current destination marker (unless the
    /// agent stands on that cell), draw a fresh empty cell, and mark it.
    /// Returns whether a new destination was found; if not, the old
    /// marker is restored and nothing changes.
    pub fn new_dest(&mut self, board: &mut Board) -> (retargeted: bool)
        requires
            old(board).wf(),
            old(self).wf(*old(board)),
        ensures
            final(board).wf(),
            final(board).side_spec() == old(board).side_spec(),
            final(self).wf(*final(board)),
            final(self).location == old(self).location,
            final(self).color == old(self).color,
            final(self).failed_walks == old(self).failed_walks,
            final(board).occ_count() == old(board).occ_count(),
            retargeted ==> retarget_outcome(*old(self), *final(self), *old(board), *final(board)),
            !retargeted ==> final(self).destination == old(self).destination && grids_equal(
                *old(board),
                *final(board),
            ),
    {
        let arrived = self.destination.0 == self.location.0 && self.destination.1
            == self.location.1;
        if !arrived {
            board.set(self.destination, Tile::Empty);
        }
        match board.find_empty(crate::EMPTY_SAMPLE_ATTEMPTS) {
            Some(nd) => {
                board.set(nd, Tile::Destination(self.color));
                self.destination = nd;
                true
            },
            None => {
                if !arrived {
                    board.set(self.destination, Tile::Destination(self.color));
                }
                false
            },
        }
    }

    /// One tick of this agent: search for a path to its destination and
    /// take the first step, or count the failure and, past the retry
    /// limit, pick a new destination.
    ///
    /// The board's occupied-cell count never changes: the agent's claim
    /// moves with it, one cell per tick at most. And the agent is never
    /// falsely stuck: whenever an admissible chain of cells leads from
    /// its location to its destination, it moves.
    pub fn walk(&mut self, board: &mut Board)
        requires
            old(board).wf(),
            old(self).wf(*old(board)),
        ensures
            final(board).wf(),
            final(board).side_spec() == old(board).side_spec(),
            final(self).wf(*final(board)),
            final(board).occ_count() == old(board).occ_count(),
            walk_moved(*old(self), *final(self), *old(board), *final(board)) || walk_stalled(
                *old(self),
                *final(self),
                *old(board),
                *final(board),
            ),
            old(self).location != old(self).destination && connected(
                *old(board),
                old(self).location,
                old(self).destination,
            ) ==> walk_moved(*old(self), *final(self), *old(board), *final(board)),
    {
        let astar = a_star(self.location, self.destination, board);
        match astar {
            Some(new_loc) => {
                self.failed_walks = 0;
                board.set(self.location, Tile::Empty);
                self.location = new_loc;
                board.set(self.location, Tile::Occupied);
            },
            None => {
                if self.failed_walks > crate::PATH_RETRIES {
                    self.new_dest(board);
                }
                if self.failed_walks < i32::MAX {
                    self.failed_walks = self.failed_walks + 1;
                }
            },
        }
    }
}

/// One 8-bit color channel, drawn at random.
fn rand_color_channel() -> (r: u8) {
    let v = rand_below(256);
    v as u8
}

} // verus!
