//! Behavior of the render feed: which cells are drawn and how.

use dungeon::board::Board;
use dungeon::render::{cell_center, render_feed, Sprite, SpriteKind};
use dungeon::tile::{Color, Tile};

fn sprite_at(sprites: &[Sprite], c: (usize, usize)) -> Option<Sprite> {
    sprites.iter().find(|s| s.x == c.0 && s.y == c.1).copied()
}

#[test]
fn empty_board_draws_nothing() {
    let b = Board::new(8);
    assert!(render_feed(&b).is_empty());
}

#[test]
fn occupied_cells_are_not_in_the_feed() {
    let mut b = Board::new(4);
    b.set((1, 1), Tile::Occupied);
    assert!(render_feed(&b).is_empty());
}

#[test]
fn lone_wall_is_faded_stacked_walls_are_solid() {
    let mut b = Board::new(6);
    b.set((1, 1), Tile::Wall);
    b.set((3, 2), Tile::Wall);
    b.set((3, 3), Tile::Wall);
    let feed = render_feed(&b);
    assert_eq!(feed.len(), 3);
    // a wall with no wall above it fades
    assert_eq!(sprite_at(&feed, (1, 1)).unwrap().kind, SpriteKind::WallFaded);
    // a wall with a wall on the cell above is drawn solid
    assert_eq!(sprite_at(&feed, (3, 2)).unwrap().kind, SpriteKind::WallSolid);
    assert_eq!(sprite_at(&feed, (3, 3)).unwrap().kind, SpriteKind::WallFaded);
}

#[test]
fn wall_on_the_top_row_is_faded() {
    let mut b = Board::new(4);
    b.set((2, 3), Tile::Wall);
    let feed = render_feed(&b);
    assert_eq!(feed.len(), 1);
    assert_eq!(feed[0].kind, SpriteKind::WallFaded);
}

#[test]
fn marker_carries_the_owner_color() {
    let mut b = Board::new(4);
    let col = Color { r: 10, g: 20, b: 30, a: 40 };
    b.set((0, 2), Tile::Destination(col));
    let feed = render_feed(&b);
    assert_eq!(feed.len(), 1);
    assert_eq!(feed[0].kind, SpriteKind::Marker(col));
    assert_eq!((feed[0].x, feed[0].y), (0, 2));
}

#[test]
fn cell_center_is_the_middle_of_the_cell() {
    assert_eq!(cell_center(0, 10), 5);
    assert_eq!(cell_center(7, 10), 75);
    assert_eq!(cell_center(3, 9), 31);
}
