//! Behavior of agents: spawning, movement bookkeeping, stalling and
//! retargeting, and the tick driver.

use dungeon::board::Board;
use dungeon::person::Person;
use dungeon::sim::{populate, tick};
use dungeon::tile::Tile;
use dungeon::PATH_RETRIES;

fn count_occupied(b: &Board) -> usize {
    let side = b.side();
    let mut n = 0;
    for x in 0..side {
        for y in 0..side {
            if matches!(b.tile_at((x, y)), Tile::Occupied) {
                n += 1;
            }
        }
    }
    n
}

#[test]
fn new_person_claims_both_cells() {
    let mut b = Board::new(6);
    let p = Person::new(&mut b, (1, 1), (4, 4));
    assert_eq!(p.location, (1, 1));
    assert_eq!(p.destination, (4, 4));
    assert_eq!(p.failed_walks, 0);
    assert!(matches!(b.tile_at((1, 1)), Tile::Occupied));
    assert_eq!(b.tile_at((4, 4)), Tile::Destination(p.color));
    assert_eq!(count_occupied(&b), 1);
}

#[test]
fn new_rand_lands_on_empty_cells() {
    let mut b = Board::new(6);
    let p = Person::new_rand(&mut b).expect("an almost empty board has room");
    assert_ne!(p.location, p.destination);
    assert!(matches!(b.tile_at(p.location), Tile::Occupied));
    assert_eq!(b.tile_at(p.destination), Tile::Destination(p.color));
}

#[test]
fn new_rand_on_full_board_is_none() {
    let mut b = Board::new(2);
    for x in 0..2 {
        for y in 0..2 {
            b.set((x, y), Tile::Wall);
        }
    }
    assert!(Person::new_rand(&mut b).is_none());
}

#[test]
fn successful_walk_moves_the_claim() {
    let mut b = Board::new(6);
    let mut p = Person::new(&mut b, (0, 0), (5, 5));
    let old_loc = p.location;
    p.walk(&mut b);
    assert_eq!(p.failed_walks, 0);
    assert_ne!(p.location, old_loc);
    assert!(matches!(b.tile_at(old_loc), Tile::Empty));
    assert!(matches!(b.tile_at(p.location), Tile::Occupied));
    assert_eq!(count_occupied(&b), 1);
}

#[test]
fn blocked_agent_stalls_in_place() {
    let mut b = Board::new(6);
    // the goal at (3, 3) is walled in
    b.set((2, 3), Tile::Wall);
    b.set((4, 3), Tile::Wall);
    b.set((3, 2), Tile::Wall);
    b.set((3, 4), Tile::Wall);
    let mut p = Person::new(&mut b, (0, 0), (3, 3));
    p.walk(&mut b);
    assert_eq!(p.location, (0, 0));
    assert_eq!(p.failed_walks, 1);
    assert!(matches!(b.tile_at((0, 0)), Tile::Occupied));
}

#[test]
fn stalling_past_the_limit_retargets() {
    let mut b = Board::new(6);
    b.set((2, 3), Tile::Wall);
    b.set((4, 3), Tile::Wall);
    b.set((3, 2), Tile::Wall);
    b.set((3, 4), Tile::Wall);
    let mut p = Person::new(&mut b, (0, 0), (3, 3));
    let old_dest = p.destination;
    // the counter must first pass the limit, then the next failure
    // triggers the retarget
    for _ in 0..(PATH_RETRIES + 2) {
        p.walk(&mut b);
        assert_eq!(p.location, (0, 0));
    }
    // the new destination was empty when drawn and carries the marker
    // again; the old cell reverts to empty unless it was re-drawn
    assert_eq!(b.tile_at(p.destination), Tile::Destination(p.color));
    if p.destination != old_dest {
        assert!(matches!(b.tile_at(old_dest), Tile::Empty));
    }
    assert_eq!(p.failed_walks, PATH_RETRIES + 2);
}

#[test]
fn retarget_below_the_limit_does_not_happen() {
    let mut b = Board::new(6);
    b.set((2, 3), Tile::Wall);
    b.set((4, 3), Tile::Wall);
    b.set((3, 2), Tile::Wall);
    b.set((3, 4), Tile::Wall);
    let mut p = Person::new(&mut b, (0, 0), (3, 3));
    for _ in 0..PATH_RETRIES {
        p.walk(&mut b);
    }
    assert_eq!(p.destination, (3, 3));
    assert_eq!(p.failed_walks, PATH_RETRIES);
}

#[test]
fn populate_spawns_distinct_agents() {
    let mut b = Board::new(10);
    let people = populate(&mut b, 12);
    assert_eq!(people.len(), 12);
    assert_eq!(count_occupied(&b), 12);
    for i in 0..people.len() {
        for j in 0..people.len() {
            if i != j {
                assert_ne!(people[i].location, people[j].location);
                assert_ne!(people[i].destination, people[j].destination);
            }
        }
    }
}

#[test]
fn tick_conserves_the_occupied_count() {
    let mut b = Board::new(12);
    b.seed_walls(10, 1000);
    let mut people = populate(&mut b, 20);
    let n = people.len();
    assert_eq!(count_occupied(&b), n);
    for _ in 0..5 {
        let before: Vec<_> = people.iter().map(|p| (p.location, p.color)).collect();
        tick(&mut b, &mut people);
        assert_eq!(people.len(), n);
        assert_eq!(count_occupied(&b), n);
        for (p, (old_loc, old_color)) in people.iter().zip(before) {
            assert!(matches!(b.tile_at(p.location), Tile::Occupied));
            // one cell per tick at most, and the look never changes
            let dx = p.location.0.abs_diff(old_loc.0);
            let dy = p.location.1.abs_diff(old_loc.1);
            assert!(dx + dy <= 1);
            assert_eq!(p.color, old_color);
        }
    }
}

#[test]
fn agent_crosses_the_open_grid_within_manhattan_time() {
    // a 10-by-10 arena without walls, one agent from corner to corner:
    // eighteen ticks (the Manhattan distance) must be enough, with no
    // stall along the way
    let mut b = Board::new(10);
    let mut p = Person::new(&mut b, (0, 0), (9, 9));
    let mut people = vec![p];
    for _ in 0..18 {
        tick(&mut b, &mut people);
        assert_eq!(people[0].failed_walks, 0);
    }
    p = people[0];
    assert_eq!(p.location, (9, 9));
    assert!(matches!(b.tile_at((9, 9)), Tile::Occupied));
}
