//! Behavior of the board: construction, sampling, and wall generation.

use dungeon::board::Board;
use dungeon::tile::{Color, Tile};

fn count_occupied(b: &Board) -> usize {
    let side = b.side();
    let mut n = 0;
    for x in 0..side {
        for y in 0..side {
            if matches!(b.tile_at((x, y)), Tile::Occupied) {
                n += 1;
            }
        }
    }
    n
}

#[test]
fn new_board_is_all_empty() {
    let b = Board::new(10);
    assert_eq!(b.side(), 10);
    for x in 0..10 {
        for y in 0..10 {
            assert!(matches!(b.tile_at((x, y)), Tile::Empty));
        }
    }
    assert_eq!(count_occupied(&b), 0);
}

#[test]
fn tile_exclusivity_one_variant_per_cell() {
    let mut b = Board::new(4);
    b.set((1, 2), Tile::Wall);
    let t = b.tile_at((1, 2));
    let mut variants = 0;
    if matches!(t, Tile::Wall) {
        variants += 1;
    }
    if matches!(t, Tile::Occupied) {
        variants += 1;
    }
    if matches!(t, Tile::Destination(_)) {
        variants += 1;
    }
    if matches!(t, Tile::Empty) {
        variants += 1;
    }
    assert_eq!(variants, 1);
}

#[test]
fn find_empty_returns_only_empty_cells() {
    let mut b = Board::new(5);
    // pepper the board so most cells are not empty
    for x in 0..5 {
        for y in 0..5 {
            if (x + y) % 2 == 0 {
                b.set((x, y), Tile::Wall);
            }
        }
    }
    for _ in 0..100 {
        let c = b.find_empty(1000).expect("empty cells exist");
        assert!(matches!(b.tile_at(c), Tile::Empty));
    }
}

#[test]
fn find_empty_on_full_board_is_none() {
    let mut b = Board::new(3);
    for x in 0..3 {
        for y in 0..3 {
            b.set((x, y), Tile::Wall);
        }
    }
    assert_eq!(b.find_empty(500), None);
}

#[test]
fn find_empty_on_single_cell_board() {
    let b = Board::new(1);
    assert_eq!(b.find_empty(10), Some((0, 0)));
}

#[test]
fn find_empty_on_all_empty_board_needs_one_attempt() {
    let b = Board::new(3);
    assert!(b.find_empty(1).is_some());
}

#[test]
fn growth_is_forced_by_enough_wall_neighbors() {
    let mut b = Board::new(5);
    // three of (2, 2)'s four neighbors are walls: 3 * 48 beats any
    // percent draw, so the sweep must convert it
    b.set((1, 2), Tile::Wall);
    b.set((3, 2), Tile::Wall);
    b.set((2, 1), Tile::Wall);
    b.grow_walls(48);
    assert!(matches!(b.tile_at((2, 2)), Tile::Wall));
}

#[test]
fn seed_walls_places_walls_on_empty_cells() {
    let mut b = Board::new(10);
    let placed = b.seed_walls(8, 1000);
    assert_eq!(placed, 8);
    let mut walls = 0;
    for x in 0..10 {
        for y in 0..10 {
            if matches!(b.tile_at((x, y)), Tile::Wall) {
                walls += 1;
            }
        }
    }
    assert_eq!(walls, 8);
}

#[test]
fn growth_keeps_every_seed_wall() {
    let mut b = Board::new(12);
    b.seed_walls(10, 1000);
    let mut seeds = Vec::new();
    for x in 0..12 {
        for y in 0..12 {
            if matches!(b.tile_at((x, y)), Tile::Wall) {
                seeds.push((x, y));
            }
        }
    }
    b.grow_walls(48);
    for c in seeds {
        assert!(matches!(b.tile_at(c), Tile::Wall));
    }
}

#[test]
fn growth_changes_nothing_without_seeds() {
    let mut b = Board::new(8);
    b.grow_walls(50);
    for x in 0..8 {
        for y in 0..8 {
            assert!(matches!(b.tile_at((x, y)), Tile::Empty));
        }
    }
}

#[test]
fn growth_with_zero_coefficient_changes_nothing() {
    let mut b = Board::new(8);
    b.seed_walls(6, 1000);
    let mut before = Vec::new();
    for x in 0..8 {
        for y in 0..8 {
            before.push(matches!(b.tile_at((x, y)), Tile::Wall));
        }
    }
    b.grow_walls(0);
    let mut i = 0;
    for x in 0..8 {
        for y in 0..8 {
            assert_eq!(matches!(b.tile_at((x, y)), Tile::Wall), before[i]);
            i += 1;
        }
    }
}

#[test]
fn growth_never_touches_the_border() {
    let mut b = Board::new(10);
    // a dense interior seed bed right next to the border
    for x in 1..9 {
        for y in 1..9 {
            b.set((x, y), Tile::Wall);
        }
    }
    b.grow_walls(50);
    for i in 0..10 {
        assert!(matches!(b.tile_at((i, 0)), Tile::Empty));
        assert!(matches!(b.tile_at((i, 9)), Tile::Empty));
        assert!(matches!(b.tile_at((0, i)), Tile::Empty));
        assert!(matches!(b.tile_at((9, i)), Tile::Empty));
    }
}

#[test]
fn gen_walls_yields_only_walls_and_empty() {
    let mut b = Board::new(dungeon::ARENA_W);
    b.gen_walls();
    let mut walls = 0;
    for x in 0..dungeon::ARENA_W {
        for y in 0..dungeon::ARENA_W {
            let t = b.tile_at((x, y));
            assert!(matches!(t, Tile::Wall) || matches!(t, Tile::Empty));
            if matches!(t, Tile::Wall) {
                walls += 1;
            }
        }
    }
    assert!(walls >= 1, "an all-empty board must gain at least one wall");
}

#[test]
fn set_overwrites_and_reads_back() {
    let mut b = Board::new(4);
    let col = Color { r: 1, g: 2, b: 3, a: 4 };
    b.set((2, 3), Tile::Destination(col));
    assert_eq!(b.tile_at((2, 3)), Tile::Destination(col));
    assert_eq!(b.tile_at((3, 2)), Tile::Empty);
    b.set((2, 3), Tile::Occupied);
    assert!(matches!(b.tile_at((2, 3)), Tile::Occupied));
}
