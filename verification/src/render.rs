//! The render feed: what the (external) presentation layer should draw,
//! computed from the grid and the agents as plain values.

use vstd::prelude::*;
use crate::board::Board;
use crate::tile::{Color, Tile};

verus! {

/// How one grid cell should be drawn.
#[derive(Copy, Clone, PartialEq, Eq, Structural, Debug)]
pub enum SpriteKind {
    /// A wall whose upper neighbor is also a wall: drawn opaque.
    WallSolid,
    /// Any other wall: drawn semi-transparent.
    WallFaded,
    /// A destination marker, in its owner's color.
    Marker(Color),
}

/// One drawable unit: the cell it sits on and how to paint it.
#[derive(Copy, Clone, PartialEq, Eq, Structural, Debug)]
pub struct Sprite {
    pub x: usize,
    pub y: usize,
    pub kind: SpriteKind,
}

/// What the sprite at cell `(x, y)` must look like, given the board.
pub open spec fn sprite_matches(b: Board, s: Sprite) -> bool {
    &&& b.in_bounds((s.x, s.y))
    &&& match s.kind {
        SpriteKind::WallSolid => b.tile((s.x, s.y)) is Wall && s.y + 1 < b.side_spec() && b.tile(
            (s.x, (s.y + 1) as usize),
        ) is Wall,
        SpriteKind::WallFaded => b.tile((s.x, s.y)) is Wall && (s.y + 1 == b.side_spec() || !(
        b.tile((s.x, (s.y + 1) as usize)) is Wall)),
        SpriteKind::Marker(col) => b.tile((s.x, s.y)) == Tile::Destination(col),
    }
}

/// Whether a cell produces a sprite at all: walls and markers do, empty
/// and occupied cells do not (agents are drawn from the agent list).
pub open spec fn renderable(b: Board, c: (usize, usize)) -> bool {
    b.tile(c) is Wall || b.tile(c) is Destination
}

/// The drawable units of the grid: exactly one sprite for every wall and
/// every destination marker (no cell is drawn twice), each telling the
/// presentation layer where it sits and how to paint it. A wall is solid
/// only when the cell above it is also a wall; empty and occupied cells
/// yield nothing.
pub fn render_feed(board: &Board) -> (sprites: Vec<Sprite>)
    requires
        board.wf(),
    ensures
        forall|k: int| 0 <= k < sprites@.len() ==> sprite_matches(*board, #[trigger] sprites@[k]),
        forall|c: (usize, usize)|
            board.in_bounds(c) && renderable(*board, c) ==> exists|k: int|
                0 <= k < sprites@.len() && (#[trigger] sprites@[k]).x == c.0 && sprites@[k].y
                    == c.1,
        forall|k1: int, k2: int|
            0 <= k1 < k2 < sprites@.len() ==> !((#[trigger] sprites@[k1]).x == (
            #[trigger] sprites@[k2]).x && sprites@[k1].y == sprites@[k2].y),
{
    let side = board.side();
    let mut sprites: Vec<Sprite> = Vec::new();
    let mut y: usize = 0;
    while y < side
        invariant
            board.wf(),
            side == board.side_spec(),
            y <= side,
            forall|k: int|
                0 <= k < sprites@.len() ==> sprite_matches(*board, #[trigger] sprites@[k]),
            forall|c: (usize, usize)|
                board.in_bounds(c) && c.1 < y && renderable(*board, c) ==> exists|k: int|
                    0 <= k < sprites@.len() && (#[trigger] sprites@[k]).x == c.0 && sprites@[k].y
                        == c.1,
            forall|k: int| 0 <= k < sprites@.len() ==> (#[trigger] sprites@[k]).y < y,
            forall|k1: int, k2: int|
                0 <= k1 < k2 < sprites@.len() ==> !((#[trigger] sprites@[k1]).x == (
                #[trigger] sprites@[k2]).x && sprites@[k1].y == sprites@[k2].y),
        decreases side - y,
    {
        let mut x: usize = 0;
        while x < side
            invariant
                board.wf(),
                side == board.side_spec(),
                y < side,
                x <= side,
                forall|k: int|
                    0 <= k < sprites@.len() ==> sprite_matches(*board, #[trigger] sprites@[k]),
                forall|c: (usize, usize)|
                    board.in_bounds(c) && (c.1 < y || (c.1 == y && c.0 < x)) && renderable(
                        *board,
                        c,
                    ) ==> exists|k: int|
                        0 <= k < sprites@.len() && (#[trigger] sprites@[k]).x == c.0
                            && sprites@[k].y == c.1,
                forall|k: int|
                    0 <= k < sprites@.len() ==> (#[trigger] sprites@[k]).y < y || (sprites@[k].y
                        == y && sprites@[k].x < x),
                forall|k1: int, k2: int|
                    0 <= k1 < k2 < sprites@.len() ==> !((#[trigger] sprites@[k1]).x == (
                    #[trigger] sprites@[k2]).x && sprites@[k1].y == sprites@[k2].y),
            decreases side - x,
        {
            let kind: Option<SpriteKind> = match board.tile_at((x, y)) {
                Tile::Empty => None,
                Tile::Occupied => None,
                Tile::Wall => {
                    if y + 1 < side {
                        match board.tile_at((x, y + 1)) {
                            Tile::Wall => Some(SpriteKind::WallSolid),
                            _ => Some(SpriteKind::WallFaded),
                        }
                    } else {
                        Some(SpriteKind::WallFaded)
                    }
                },
                Tile::Destination(col) => Some(SpriteKind::Marker(col)),
            };
            let ghost before = sprites@;
            if let Some(k) = kind {
                sprites.push(Sprite { x, y, kind: k });
            }
            proof {
                assert forall|c: (usize, usize)|
                    board.in_bounds(c) && (c.1 < y || (c.1 == y && c.0 < x + 1)) && renderable(
                        *board,
                        c,
                    ) implies exists|k2: int|
                    0 <= k2 < sprites@.len() && (#[trigger] sprites@[k2]).x == c.0 && sprites@[k2].y
                        == c.1 by {
                    if c.1 < y || (c.1 == y && c.0 < x) {
                        let k2 = choose|k2: int|
                            0 <= k2 < before.len() && (#[trigger] before[k2]).x == c.0
                                && before[k2].y == c.1;
                        assert(sprites@[k2].x == c.0 && sprites@[k2].y == c.1);
                    } else {
                        assert(c == (x, y));
                        assert(sprites@[sprites@.len() - 1].x == c.0 && sprites@[sprites@.len()
                            - 1].y == c.1);
                    }
                }
            }
            x = x + 1;
        }
        y = y + 1;
    }
    sprites
}

/// Pixel center of a grid cell along one axis, at the given cell scale:
/// where a sprite or an agent standing on that cell is drawn.
pub fn cell_center(c: usize, scale: usize) -> (r: usize)
    requires
        c * scale + scale <= usize::MAX,
    ensures
        r == c * scale + scale / 2,
{
    c * scale + scale / 2
}

} // verus!
