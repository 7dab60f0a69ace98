//! Behavior of the path finder: soundness of the returned step, failure
//! on disconnection, and the Manhattan metric.

use dungeon::board::Board;
use dungeon::search::{a_star, dist};
use dungeon::tile::{Color, Tile};

#[test]
fn dist_is_the_manhattan_metric() {
    assert_eq!(dist((0, 0), (4, 4)), 8);
    assert_eq!(dist((4, 4), (0, 0)), 8);
    assert_eq!(dist((3, 7), (3, 7)), 0);
    assert_eq!(dist((10, 2), (7, 9)), 10);
}

#[test]
fn open_grid_first_step_is_adjacent_and_clear() {
    let b = Board::new(5);
    let step = a_star((0, 0), (4, 4), &b).expect("a clear corridor exists");
    assert_eq!(dist((0, 0), step), 1);
    assert!(matches!(b.tile_at(step), Tile::Empty));
}

#[test]
fn step_onto_own_destination_marker() {
    let mut b = Board::new(5);
    let col = Color { r: 9, g: 9, b: 9, a: 9 };
    b.set((0, 1), Tile::Destination(col));
    // the goal cell itself carries the marker; everything else is empty
    let step = a_star((0, 0), (0, 1), &b).expect("goal is adjacent");
    assert_eq!(step, (0, 1));
}

#[test]
fn walls_block_the_direct_route() {
    let mut b = Board::new(3);
    // a vertical wall with one gap at the bottom
    b.set((1, 1), Tile::Wall);
    b.set((1, 2), Tile::Wall);
    let step = a_star((0, 0), (2, 0), &b).expect("the gap is open");
    assert_eq!(dist((0, 0), step), 1);
    assert!(matches!(b.tile_at(step), Tile::Empty));
}

#[test]
fn enclosed_goal_yields_none() {
    let mut b = Board::new(5);
    // wall in the goal at (3, 3) completely
    b.set((2, 3), Tile::Wall);
    b.set((4, 3), Tile::Wall);
    b.set((3, 2), Tile::Wall);
    b.set((3, 4), Tile::Wall);
    assert_eq!(a_star((0, 0), (3, 3), &b), None);
}

#[test]
fn occupied_cells_are_not_walkable() {
    let mut b = Board::new(3);
    // a diagonal of occupied cells separates the corners
    b.set((0, 1), Tile::Occupied);
    b.set((1, 1), Tile::Occupied);
    b.set((2, 1), Tile::Occupied);
    assert_eq!(a_star((0, 0), (2, 2), &b), None);
}

#[test]
fn foreign_destination_markers_are_not_walkable() {
    let mut b = Board::new(3);
    let col = Color { r: 1, g: 1, b: 1, a: 1 };
    b.set((0, 1), Tile::Destination(col));
    b.set((1, 1), Tile::Destination(col));
    b.set((2, 1), Tile::Destination(col));
    // those markers belong to someone else: they block like walls
    assert_eq!(a_star((0, 0), (2, 2), &b), None);
}

#[test]
fn start_equals_goal_yields_none() {
    let b = Board::new(4);
    assert_eq!(a_star((2, 2), (2, 2), &b), None);
}

#[test]
fn first_step_shortens_the_distance_on_an_open_grid() {
    let b = Board::new(7);
    let mut at = (0, 0);
    let goal = (6, 2);
    let mut steps = 0;
    while at != goal {
        let step = a_star(at, goal, &b).expect("open grid");
        assert_eq!(dist(at, step), 1);
        assert_eq!(dist(step, goal) + 1, dist(at, goal));
        at = step;
        steps += 1;
        assert!(steps <= 8);
    }
    assert_eq!(steps, 8);
}
