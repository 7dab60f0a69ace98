//! The obstacle grid: a fixed-size square matrix of tiles, with wall
//! generation and occupancy queries.

use vstd::prelude::*;
use crate::rng::rand_below;
use crate::tile::Tile;

verus! {

/// Largest side length a board accepts; keeps every flat index and the
/// generation arithmetic comfortably inside `usize`.
pub const MAX_SIDE: usize = 46340;

/// An N-by-N matrix of tiles, stored row-major in a flat vector.
///
/// Created with every cell `Empty`; walls are generated once at startup;
/// afterwards cells change only through agent creation, movement and
/// retargeting.
pub struct Board {
    pub side: usize,
    pub tiles: Vec<Tile>,
}

/// 1 if the tile holds an agent, else 0.
pub open spec fn occ_tile(t: Tile) -> int {
    if t is Occupied {
        1
    } else {
        0
    }
}

/// The number of `Occupied` tiles in a sequence.
pub open spec fn occ_count_seq(s: Seq<Tile>) -> int
    decreases s.len(),
{
    if s.len() == 0 {
        0
    } else {
        occ_count_seq(s.drop_last()) + occ_tile(s.last())
    }
}

/// Replacing one element changes the occupied count by exactly the
/// difference of the two elements' contributions.
pub proof fn lemma_occ_count_update(s: Seq<Tile>, i: int, t: Tile)
    requires
        0 <= i < s.len(),
    ensures
        occ_count_seq(s.update(i, t)) == occ_count_seq(s) - occ_tile(s[i]) + occ_tile(t),
    decreases s.len(),
{
    let su = s.update(i, t);
    if i == s.len() - 1 {
        assert(su.drop_last() =~= s.drop_last());
    } else {
        lemma_occ_count_update(s.drop_last(), i, t);
        assert(su.drop_last() =~= s.drop_last().update(i, t));
        assert(su.last() == s.last());
    }
}

/// 1 if the tile is a wall, else 0.
pub open spec fn wall_tile(t: Tile) -> int {
    if t is Wall {
        1
    } else {
        0
    }
}

/// The number of `Wall` tiles in a sequence.
pub open spec fn wall_count_seq(s: Seq<Tile>) -> int
    decreases s.len(),
{
    if s.len() == 0 {
        0
    } else {
        wall_count_seq(s.drop_last()) + wall_tile(s.last())
    }
}

/// Replacing one element changes the wall count by exactly the
/// difference of the two elements' contributions.
pub proof fn lemma_wall_count_update(s: Seq<Tile>, i: int, t: Tile)
    requires
        0 <= i < s.len(),
    ensures
        wall_count_seq(s.update(i, t)) == wall_count_seq(s) - wall_tile(s[i]) + wall_tile(t),
    decreases s.len(),
{
    let su = s.update(i, t);
    if i == s.len() - 1 {
        assert(su.drop_last() =~= s.drop_last());
    } else {
        lemma_wall_count_update(s.drop_last(), i, t);
        assert(su.drop_last() =~= s.drop_last().update(i, t));
        assert(su.last() == s.last());
    }
}

/// How many of a cell's four orthogonal neighbors are walls (meant for
/// interior cells, whose four neighbors all exist).
pub open spec fn wall_neighbors(b: Board, c: (usize, usize)) -> int {
    wall_tile(b.tile(((c.0 - 1) as usize, c.1))) + wall_tile(b.tile(((c.0 + 1) as usize, c.1)))
        + wall_tile(b.tile((c.0, (c.1 - 1) as usize))) + wall_tile(
        b.tile((c.0, (c.1 + 1) as usize)),
    )
}

/// Flat row-major indexing stays inside the matrix.
pub(crate) proof fn lemma_flat_index(side: int, x: int, y: int)
    by (nonlinear_arith)
    requires
        0 <= x < side,
        0 <= y < side,
    ensures
        0 <= x * side + y < side * side,
{
}

/// A board's full area stays below every relevant integer limit.
pub(crate) proof fn lemma_side_sq_bound(side: int)
    by (nonlinear_arith)
    requires
        0 <= side <= 46340,
    ensures
        side * side <= 2147395600,
{
}

/// Distinct coordinates map to distinct flat indices.
pub(crate) proof fn lemma_flat_index_injective(side: int, x1: int, y1: int, x2: int, y2: int)
    by (nonlinear_arith)
    requires
        0 <= x1 < side,
        0 <= y1 < side,
        0 <= x2 < side,
        0 <= y2 < side,
        x1 * side + y1 == x2 * side + y2,
    ensures
        x1 == x2 && y1 == y2,
{
}

impl Board {
    /// The side length N of the matrix.
    pub open spec fn side_spec(self) -> int {
        self.side as int
    }

    /// Structural well-formedness: a sensible side length and a fully
    /// allocated tile matrix.
    pub open spec fn wf(self) -> bool {
        &&& 1 <= self.side <= MAX_SIDE
        &&& self.tiles@.len() == self.side * self.side
    }

    /// Whether a coordinate lies inside the matrix.
    pub open spec fn in_bounds(self, c: (usize, usize)) -> bool {
        c.0 < self.side && c.1 < self.side
    }

    /// The tile at a coordinate.
    pub open spec fn tile(self, c: (usize, usize)) -> Tile {
        self.tiles@[c.0 as int * self.side as int + c.1 as int]
    }

    /// The number of cells currently holding an agent.
    pub open spec fn occ_count(self) -> int {
        occ_count_seq(self.tiles@)
    }

    /// The number of wall cells.
    pub open spec fn wall_count(self) -> int {
        wall_count_seq(self.tiles@)
    }

    /// Every cell is a wall or empty: the shape of a freshly generated
    /// board, before any agent exists.
    pub open spec fn walls_and_empty_only(self) -> bool {
        forall|c: (usize, usize)|
            self.in_bounds(c) ==> (#[trigger] self.tile(c)) is Wall || self.tile(c) is Empty
    }

    /// A new board of the given side length, every cell `Empty`.
    pub fn new(side: usize) -> (b: Board)
        requires
            1 <= side <= MAX_SIDE,
        ensures
            b.wf(),
            b.side_spec() == side,
            forall|c: (usize, usize)| b.in_bounds(c) ==> (#[trigger] b.tile(c)) is Empty,
            b.occ_count() == 0,
    {
        proof {
            assert(side * side <= MAX_SIDE * MAX_SIDE) by (nonlinear_arith)
                requires 1 <= side <= MAX_SIDE;
        }
        let total: usize = side * side;
        let mut tiles: Vec<Tile> = Vec::new();
        let mut i: usize = 0;
        while i < total
            invariant
                i <= total,
                tiles@.len() == i,
                forall|k: int| 0 <= k < i ==> (#[trigger] tiles@[k]) is Empty,
                occ_count_seq(tiles@) == 0,
            decreases total - i,
        {
            let ghost prev = tiles@;
            tiles.push(Tile::Empty);
            proof {
                assert(tiles@.drop_last() =~= prev);
            }
            i = i + 1;
        }
        let b = Board { side, tiles };
        proof {
            assert forall|c: (usize, usize)| b.in_bounds(c) implies (#[trigger] b.tile(c)) is Empty by {
                lemma_flat_index(side as int, c.0 as int, c.1 as int);
            }
        }
        b
    }

    /// The side length of the board.
    pub fn side(&self) -> (s: usize)
        ensures
            s == self.side_spec(),
    {
        self.side
    }

    /// The current tile at an in-bounds coordinate.
    pub fn tile_at(&self, c: (usize, usize)) -> (t: Tile)
        requires
            self.wf(),
            self.in_bounds(c),
        ensures
            t == self.tile(c),
    {
        proof {
            lemma_flat_index(self.side as int, c.0 as int, c.1 as int);
            lemma_side_sq_bound(self.side as int);
        }
        self.tiles[c.0 * self.side + c.1]
    }

    /// Overwrite the tile at an in-bounds coordinate.
    ///
    /// Every other cell keeps its tile, and the occupied count moves by
    /// exactly the contribution of the overwritten and written tiles.
    pub fn set(&mut self, c: (usize, usize), t: Tile)
        requires
            old(self).wf(),
            old(self).in_bounds(c),
        ensures
            final(self).wf(),
            final(self).side_spec() == old(self).side_spec(),
            final(self).tile(c) == t,
            forall|c2: (usize, usize)|
                old(self).in_bounds(c2) && c2 != c ==> final(self).tile(c2) == old(self).tile(c2),
            final(self).occ_count() == old(self).occ_count() - occ_tile(old(self).tile(c)) + occ_tile(t),
            final(self).wall_count() == old(self).wall_count() - wall_tile(old(self).tile(c)) + wall_tile(t),
    {
        proof {
            lemma_flat_index(self.side as int, c.0 as int, c.1 as int);
            lemma_side_sq_bound(self.side as int);
        }
        let i: usize = c.0 * self.side + c.1;
        self.tiles[i] = t;
        proof {
            lemma_occ_count_update(old(self).tiles@, i as int, t);
            lemma_wall_count_update(old(self).tiles@, i as int, t);
            assert forall|c2: (usize, usize)|
                old(self).in_bounds(c2) && c2 != c implies final(self).tile(c2) == old(self).tile(
                c2,
            ) by {
                lemma_flat_index(self.side as int, c2.0 as int, c2.1 as int);
                if c2.0 as int * self.side as int + c2.1 as int == i as int {
                    lemma_flat_index_injective(
                        self.side as int,
                        c2.0 as int,
                        c2.1 as int,
                        c.0 as int,
                        c.1 as int,
                    );
                }
            }
        }
    }

    /// Seed phase of wall generation: place up to `count` walls, each at
    /// a freshly sampled empty cell, and say how many were placed.
    ///
    /// Cells change only by turning an `Empty` cell into a `Wall`, the
    /// wall count grows by exactly the number placed, and the phase stops
    /// early only if no empty cell turns up within `attempts` samples —
    /// which, on a board whose every cell starts empty, cannot happen to
    /// the very first draw.
    pub fn seed_walls(&mut self, count: usize, attempts: usize) -> (placed: usize)
        requires
            old(self).wf(),
        ensures
            final(self).wf(),
            final(self).side_spec() == old(self).side_spec(),
            placed <= count,
            forall|c: (usize, usize)|
                old(self).in_bounds(c) ==> #[trigger] final(self).tile(c) == old(self).tile(c)
                    || (final(self).tile(c) is Wall && old(self).tile(c) is Empty),
            final(self).occ_count() == old(self).occ_count(),
            final(self).wall_count() == old(self).wall_count() + placed,
            placed >= 1 ==> exists|c: (usize, usize)|
                final(self).in_bounds(c) && (#[trigger] final(self).tile(c)) is Wall,
            attempts >= 1 && count >= 1 && (forall|c: (usize, usize)|
                old(self).in_bounds(c) ==> (#[trigger] old(self).tile(c)) is Empty) ==> placed
                >= 1,
    {
        let mut placed: usize = 0;
        let mut i: usize = 0;
        while i < count
            invariant
                self.wf(),
                self.side_spec() == old(self).side_spec(),
                placed == i <= count,
                i == 0 ==> self.tiles@ == old(self).tiles@,
                forall|c: (usize, usize)|
                    old(self).in_bounds(c) ==> #[trigger] self.tile(c) == old(self).tile(c) || (
                    self.tile(c) is Wall && old(self).tile(c) is Empty),
                self.occ_count() == old(self).occ_count(),
                self.wall_count() == old(self).wall_count() + placed,
                placed >= 1 ==> exists|c: (usize, usize)|
                    self.in_bounds(c) && (#[trigger] self.tile(c)) is Wall,
            decreases count - i,
        {
            match self.find_empty(attempts) {
                Some(c) => {
                    self.set(c, Tile::Wall);
                    placed = placed + 1;
                    proof {
                        assert(self.tile(c) is Wall);
                    }
                },
                None => {
                    proof {
                        // a first draw on an all-empty board cannot miss
                        if attempts >= 1 && i == 0 && (forall|c: (usize, usize)|
                            old(self).in_bounds(c) ==> (#[trigger] old(self).tile(c)) is Empty) {
                            assert forall|c: (usize, usize)|
                                self.in_bounds(c) implies (#[trigger] self.tile(c)) is Empty by {
                                assert(old(self).tile(c) is Empty);
                            }
                            assert(false);
                        }
                    }
                    return placed;
                },
            }
            i = i + 1;
        }
        placed
    }

    /// Growth phase of wall generation.
    ///
    /// Sweeps the interior cells once, top to bottom and left to right,
    /// converting a cell to `Wall` with probability `count * percent` in
    /// a hundred, where `count` is the number of orthogonally adjacent
    /// walls in the partially updated grid (so a wall created earlier in
    /// the same sweep can grow further walls: this clustering is the
    /// point of the phase).
    ///
    /// Walls only ever grow: every wall of the input survives, no other
    /// kind of cell appears, border cells are untouched, and a board with
    /// no wall at all comes back unchanged (a cell with no adjacent wall
    /// converts with probability zero). Conversely, growth is forced
    /// where chance cannot miss: an interior cell with enough walls
    /// around it in the input (`count * percent` above every possible
    /// draw) is a wall afterwards, since neighbors only gain walls during
    /// the sweep.
    pub fn grow_walls(&mut self, percent: usize)
        requires
            old(self).wf(),
            percent <= 50,
            old(self).walls_and_empty_only(),
        ensures
            final(self).wf(),
            final(self).side_spec() == old(self).side_spec(),
            final(self).walls_and_empty_only(),
            forall|c: (usize, usize)|
                old(self).in_bounds(c) ==> #[trigger] final(self).tile(c) == old(self).tile(c)
                    || (final(self).tile(c) is Wall && old(self).tile(c) is Empty),
            forall|c: (usize, usize)|
                old(self).in_bounds(c) && (c.0 == 0 || c.0 + 1 == old(self).side_spec() || c.1 == 0
                    || c.1 + 1 == old(self).side_spec()) ==> #[trigger] final(self).tile(c) == old(
                    self,
                ).tile(c),
            (forall|c: (usize, usize)| old(self).in_bounds(c) ==> !(#[trigger] old(self).tile(c) is Wall))
                ==> forall|c: (usize, usize)|
                old(self).in_bounds(c) ==> #[trigger] final(self).tile(c) == old(self).tile(c),
            forall|c: (usize, usize)|
                1 <= c.0 && c.0 + 1 < old(self).side_spec() && 1 <= c.1 && c.1 + 1 < old(
                    self,
                ).side_spec() && wall_neighbors(*old(self), c) * percent > 99 ==> (
            #[trigger] final(self).tile(c)) is Wall,
            final(self).occ_count() == old(self).occ_count(),
    {
        let side = self.side;
        let mut x: usize = 1;
        while x + 1 < side
            invariant
                self.wf(),
                self.side_spec() == old(self).side_spec(),
                side == self.side,
                percent <= 50,
                1 <= x <= side,
                self.walls_and_empty_only(),
                forall|c: (usize, usize)|
                    old(self).in_bounds(c) ==> #[trigger] self.tile(c) == old(self).tile(c) || (
                    self.tile(c) is Wall && old(self).tile(c) is Empty),
                forall|c: (usize, usize)|
                    old(self).in_bounds(c) && (c.0 == 0 || c.0 + 1 == side || c.1 == 0 || c.1 + 1
                        == side) ==> #[trigger] self.tile(c) == old(self).tile(c),
                (forall|c: (usize, usize)|
                    old(self).in_bounds(c) ==> !(#[trigger] old(self).tile(c) is Wall)) ==> forall|
                    c: (usize, usize),
                |
                    old(self).in_bounds(c) ==> #[trigger] self.tile(c) == old(self).tile(c),
                forall|c: (usize, usize)|
                    1 <= c.0 && c.0 + 1 < side && 1 <= c.1 && c.1 + 1 < side && c.0 < x
                        && wall_neighbors(*old(self), c) * percent > 99 ==> (
                #[trigger] self.tile(c)) is Wall,
                self.occ_count() == old(self).occ_count(),
            decreases side - x,
        {
            let mut y: usize = 1;
            while y + 1 < side
                invariant
                    self.wf(),
                    self.side_spec() == old(self).side_spec(),
                    side == self.side,
                    percent <= 50,
                    1 <= x,
                    x + 1 < side,
                    1 <= y <= side,
                    self.walls_and_empty_only(),
                    forall|c: (usize, usize)|
                        old(self).in_bounds(c) ==> #[trigger] self.tile(c) == old(self).tile(c) || (
                        self.tile(c) is Wall && old(self).tile(c) is Empty),
                    forall|c: (usize, usize)|
                        old(self).in_bounds(c) && (c.0 == 0 || c.0 + 1 == side || c.1 == 0 || c.1
                            + 1 == side) ==> #[trigger] self.tile(c) == old(self).tile(c),
                    (forall|c: (usize, usize)|
                        old(self).in_bounds(c) ==> !(#[trigger] old(self).tile(c) is Wall))
                        ==> forall|c: (usize, usize)|
                        old(self).in_bounds(c) ==> #[trigger] self.tile(c) == old(self).tile(c),
                    forall|c: (usize, usize)|
                        1 <= c.0 && c.0 + 1 < side && 1 <= c.1 && c.1 + 1 < side && (c.0 < x || (
                        c.0 == x && c.1 < y)) && wall_neighbors(*old(self), c) * percent > 99
                            ==> (#[trigger] self.tile(c)) is Wall,
                    self.occ_count() == old(self).occ_count(),
                decreases side - y,
            {
                let mut count: usize = 0;
                if let Tile::Wall = self.tile_at((x - 1, y)) {
                    count = count + 1;
                }
                if let Tile::Wall = self.tile_at((x + 1, y)) {
                    count = count + 1;
                }
                if let Tile::Wall = self.tile_at((x, y - 1)) {
                    count = count + 1;
                }
                if let Tile::Wall = self.tile_at((x, y + 1)) {
                    count = count + 1;
                }
                assert(count * percent <= 200) by (nonlinear_arith)
                    requires
                        count <= 4,
                        percent <= 50,
                ;
                let num = rand_below(100);
                if count * percent > num {
                    proof {
                        if forall|c: (usize, usize)|
                            old(self).in_bounds(c) ==> !(#[trigger] old(self).tile(c) is Wall) {
                            assert(old(self).in_bounds(((x - 1) as usize, y)));
                            assert(old(self).in_bounds(((x + 1) as usize, y)));
                            assert(old(self).in_bounds((x, (y - 1) as usize)));
                            assert(old(self).in_bounds((x, (y + 1) as usize)));
                            assert(self.tile(((x - 1) as usize, y)) == old(self).tile(((x - 1) as usize, y)));
                            assert(self.tile(((x + 1) as usize, y)) == old(self).tile(((x + 1) as usize, y)));
                            assert(self.tile((x, (y - 1) as usize)) == old(self).tile((x, (y - 1) as usize)));
                            assert(self.tile((x, (y + 1) as usize)) == old(self).tile((x, (y + 1) as usize)));
                            assert(count == 0);
                            assert(count * percent == 0) by (nonlinear_arith)
                                requires
                                    count == 0,
                            ;
                            assert(false);
                        }
                    }
                    self.set((x, y), Tile::Wall);
                } else {
                    proof {
                        // a cell whose input neighborhood forces conversion
                        // cannot reach this branch: walls only grow, so the
                        // visit-time count dominates the input count
                        if wall_neighbors(*old(self), (x, y)) * percent > 99 {
                            assert(old(self).in_bounds(((x - 1) as usize, y)));
                            assert(old(self).in_bounds(((x + 1) as usize, y)));
                            assert(old(self).in_bounds((x, (y - 1) as usize)));
                            assert(old(self).in_bounds((x, (y + 1) as usize)));
                            assert(old(self).tile(((x - 1) as usize, y)) is Wall ==> self.tile(
                                ((x - 1) as usize, y),
                            ) is Wall);
                            assert(old(self).tile(((x + 1) as usize, y)) is Wall ==> self.tile(
                                ((x + 1) as usize, y),
                            ) is Wall);
                            assert(old(self).tile((x, (y - 1) as usize)) is Wall ==> self.tile(
                                (x, (y - 1) as usize),
                            ) is Wall);
                            assert(old(self).tile((x, (y + 1) as usize)) is Wall ==> self.tile(
                                (x, (y + 1) as usize),
                            ) is Wall);
                            assert(count >= wall_neighbors(*old(self), (x, y)));
                            let w = wall_neighbors(*old(self), (x, y));
                            assert(count * percent >= w * percent) by (nonlinear_arith)
                                requires
                                    count >= w,
                                    percent >= 0,
                            ;
                            assert(false);
                        }
                    }
                }
                y = y + 1;
            }
            x = x + 1;
        }
    }

    /// Generate the obstacle field: seed `NUM_WALLS` walls at random
    /// empty cells, then run the growth sweep with the configured
    /// coefficient.
    ///
    /// Cells change only by turning empty cells into walls, so every
    /// wall of the input (in particular every seed) is still a wall when
    /// the call returns; and a board that starts with every cell empty
    /// ends up with at least one wall.
    pub fn gen_walls(&mut self)
        requires
            old(self).wf(),
            old(self).walls_and_empty_only(),
        ensures
            final(self).wf(),
            final(self).side_spec() == old(self).side_spec(),
            final(self).walls_and_empty_only(),
            forall|c: (usize, usize)|
                old(self).in_bounds(c) ==> #[trigger] final(self).tile(c) == old(self).tile(c)
                    || (final(self).tile(c) is Wall && old(self).tile(c) is Empty),
            final(self).occ_count() == old(self).occ_count(),
            (forall|c: (usize, usize)|
                old(self).in_bounds(c) ==> (#[trigger] old(self).tile(c)) is Empty) ==> exists|
                c: (usize, usize),
            |
                final(self).in_bounds(c) && (#[trigger] final(self).tile(c)) is Wall,
    {
        let ghost before = *self;
        let placed = self.seed_walls(crate::NUM_WALLS, crate::EMPTY_SAMPLE_ATTEMPTS);
        let ghost seeded = *self;
        proof {
            assert forall|c: (usize, usize)|
                seeded.in_bounds(c) implies (#[trigger] seeded.tile(c)) is Wall || seeded.tile(
                c,
            ) is Empty by {
                assert(before.in_bounds(c));
            }
        }
        self.grow_walls(crate::WALL_NEARBY_PERCENT);
        proof {
            assert forall|c: (usize, usize)|
                old(self).in_bounds(c) implies #[trigger] final(self).tile(c) == old(self).tile(c)
                || (final(self).tile(c) is Wall && old(self).tile(c) is Empty) by {
                assert(seeded.in_bounds(c));
                assert(before.in_bounds(c));
            }
            // a wall seeded on an all-empty board survives the growth sweep
            if forall|c: (usize, usize)|
                before.in_bounds(c) ==> (#[trigger] before.tile(c)) is Empty {
                assert(placed >= 1);
                let cw = choose|c: (usize, usize)|
                    seeded.in_bounds(c) && (#[trigger] seeded.tile(c)) is Wall;
                assert(final(self).tile(cw) is Wall);
            }
        }
    }

    /// Draw random coordinates until an `Empty` cell turns up, giving up
    /// after `attempts` rejected samples.
    ///
    /// A returned coordinate always names an `Empty` cell; `None` means
    /// every sample hit a non-empty cell (in particular, a board with no
    /// empty cell left always answers `None`). On a board whose every
    /// cell is empty no sample can miss, so one attempt suffices.
    pub fn find_empty(&self, attempts: usize) -> (r: Option<(usize, usize)>)
        requires
            self.wf(),
        ensures
            r matches Some(c) ==> self.in_bounds(c) && self.tile(c) is Empty,
            attempts >= 1 && (forall|c: (usize, usize)|
                self.in_bounds(c) ==> (#[trigger] self.tile(c)) is Empty) ==> r is Some,
    {
        let mut k: usize = 0;
        while k < attempts
            invariant
                self.wf(),
                k > 0 ==> exists|c: (usize, usize)|
                    self.in_bounds(c) && !((#[trigger] self.tile(c)) is Empty),
            decreases attempts - k,
        {
            let x = rand_below(self.side);
            let y = rand_below(self.side);
            if let Tile::Empty = self.tile_at((x, y)) {
                return Some((x, y));
            }
            proof {
                assert(self.in_bounds((x, y)) && !(self.tile((x, y)) is Empty));
            }
            k = k + 1;
        }
        None
    }
}

} // verus!
