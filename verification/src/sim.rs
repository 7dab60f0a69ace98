//! The tick driver: the whole-simulation invariant, one simulation step
//! over every agent, and the spawning of the population.

use vstd::prelude::*;
use crate::board::Board;
use crate::person::{bump, Person, walk_moved, walk_stalled};
use crate::search::{adjacent, passable, spec_dist};

verus! {

/// The whole-simulation invariant: every agent agrees with the board,
/// no two agents share a location or a destination, and the board holds
/// exactly one `Occupied` cell per live agent.
pub open spec fn sim_inv(b: Board, people: Seq<Person>) -> bool {
    &&& b.wf()
    &&& forall|i: int| 0 <= i < people.len() ==> (#[trigger] people[i]).wf(b)
    &&& forall|i: int, j: int|
        0 <= i < people.len() && 0 <= j < people.len() && i != j ==> (#[trigger] people[i]).location
            != (#[trigger] people[j]).location && people[i].destination != people[j].destination
    &&& b.occ_count() == people.len()
}

/// Occupancy conservation: under the simulation invariant, the number of
/// `Occupied` cells on the board equals the number of live agents; the
/// `ensures` of `tick` carry the invariant from each tick to the next.
pub proof fn lemma_occupancy_conservation(b: Board, people: Seq<Person>)
    requires
        sim_inv(b, people),
    ensures
        b.occ_count() == people.len(),
{
}

/// One agent's walk leaves every other agent intact: a bystander keeps
/// its claimed cells (so its well-formedness), and its location and
/// destination stay distinct from the walker's.
pub proof fn lemma_walk_preserves_others(p0: Person, p1: Person, b0: Board, b1: Board, q: Person)
    requires
        b0.wf(),
        b1.wf(),
        b1.side_spec() == b0.side_spec(),
        p0.wf(b0),
        p1.wf(b1),
        q.wf(b0),
        q.location != p0.location,
        q.destination != p0.destination,
        walk_moved(p0, p1, b0, b1) || walk_stalled(p0, p1, b0, b1),
    ensures
        q.wf(b1),
        q.location != p1.location,
        q.destination != p1.destination,
{
    // the bystander's cells are never the walker's: their tiles do not fit
    assert(b0.tile(q.location) is Occupied);
    if q.destination == p0.location {
        // an occupied cell bears no marker, so q must stand on it itself
        assert(q.location == q.destination);
        assert(false);
    }
    if walk_moved(p0, p1, b0, b1) {
        if q.location == p1.location {
            // the stepped-onto cell was open, an occupied cell is not
            assert(false);
        }
        if q.destination == p1.location {
            // open to the walker means empty or the walker's own marker
            if b0.tile(q.destination) is Empty {
                assert(q.location == q.destination);
                assert(false);
            } else {
                assert(p1.location == p0.destination);
                assert(false);
            }
        }
        assert(b1.tile(q.location) == b0.tile(q.location));
        assert(b1.tile(q.destination) == b0.tile(q.destination));
    } else {
        assert(walk_stalled(p0, p1, b0, b1));
        if p0.failed_walks <= crate::PATH_RETRIES {
            assert(b1.tile(q.location) == b0.tile(q.location));
            assert(b1.tile(q.destination) == b0.tile(q.destination));
        } else {
            if p1.destination == p0.destination {
                assert(b1.tile(q.location) == b0.tile(q.location));
                assert(b1.tile(q.destination) == b0.tile(q.destination));
            } else {
                // a fresh destination was drawn on a then-empty cell
                assert(b0.tile(p1.destination) is Empty);
                if q.location == p1.destination {
                    assert(false);
                }
                if q.destination == p1.destination {
                    assert(q.location == q.destination);
                    assert(false);
                }
                if q.location == p0.destination {
                    assert(p0.location == p0.destination);
                    assert(false);
                }
                assert(b1.tile(q.location) == b0.tile(q.location));
                assert(b1.tile(q.destination) == b0.tile(q.destination));
            }
        }
    }
}

/// The agent-side outcome of one walk against the board `b0` it ran on:
/// either the agent took one step onto a cell that was open to it in
/// `b0` and reset its counter, or it stayed put, counted the failure,
/// kept its destination below the retry limit, and retargeted at most
/// onto a cell that was empty in `b0`.
pub open spec fn person_step(p0: Person, p1: Person, b0: Board) -> bool {
    ||| {
        &&& p1.failed_walks == 0
        &&& p1.destination == p0.destination
        &&& p1.color == p0.color
        &&& adjacent(p0.location, p1.location)
        &&& passable(b0, p1.location, p0.destination)
    }
    ||| {
        &&& p1.location == p0.location
        &&& p1.color == p0.color
        &&& p1.failed_walks == bump(p0.failed_walks)
        &&& (p0.failed_walks <= crate::PATH_RETRIES ==> p1.destination == p0.destination)
        &&& (p1.destination == p0.destination || b0.tile(p1.destination) is Empty)
    }
}

/// One simulation tick: advance every agent once, in spawn order, each
/// against the grid as the agents before it left it.
///
/// The simulation invariant survives the tick, no agent appears or
/// disappears, the board's occupied-cell count is unchanged, and every
/// agent keeps its color and moves at most one cell. The first agent in
/// the order walks against exactly the incoming grid, so its outcome is
/// pinned against it: one admissible step, or a counted stall.
pub fn tick(board: &mut Board, people: &mut Vec<Person>)
    requires
        sim_inv(*old(board), old(people)@),
    ensures
        sim_inv(*final(board), final(people)@),
        final(people)@.len() == old(people)@.len(),
        final(board).side_spec() == old(board).side_spec(),
        final(board).occ_count() == old(board).occ_count(),
        forall|i: int|
            0 <= i < old(people)@.len() ==> #[trigger] final(people)@[i].color == old(
                people,
            )@[i].color && spec_dist(old(people)@[i].location, final(people)@[i].location) <= 1,
        old(people)@.len() > 0 ==> person_step(old(people)@[0], final(people)@[0], *old(board)),
{
    let n = people.len();
    let mut idx: usize = 0;
    while idx < n
        invariant
            n == people@.len(),
            idx <= n,
            sim_inv(*board, people@),
            board.side_spec() == old(board).side_spec(),
            board.occ_count() == old(board).occ_count(),
            idx == 0 ==> *board == *old(board),
            forall|i: int| idx <= i < n ==> #[trigger] people@[i] == old(people)@[i],
            forall|i: int|
                0 <= i < idx ==> #[trigger] people@[i].color == old(people)@[i].color && spec_dist(
                    old(people)@[i].location,
                    people@[i].location,
                ) <= 1,
            idx > 0 && n > 0 ==> person_step(old(people)@[0], people@[0], *old(board)),
        decreases n - idx,
    {
        let ghost b0 = *board;
        let ghost ppl0 = people@;
        let mut p = people[idx];
        p.walk(board);
        people[idx] = p;
        proof {
            assert forall|j: int| 0 <= j < people@.len() && j != idx implies (
            #[trigger] people@[j]).wf(*board) && people@[j].location != p.location
                && people@[j].destination != p.destination by {
                assert(people@[j] == ppl0[j]);
                lemma_walk_preserves_others(ppl0[idx as int], p, b0, *board, ppl0[j]);
            }
            // the walked agent kept its color and moved at most one cell
            assert(people@[idx as int] == p);
            if walk_moved(ppl0[idx as int], p, b0, *board) {
                assert(spec_dist(ppl0[idx as int].location, p.location) == 1);
            } else {
                assert(p.location == ppl0[idx as int].location);
                assert(spec_dist(ppl0[idx as int].location, p.location) == 0);
            }
        }
        idx = idx + 1;
    }
}

/// Spawn up to `count` agents, each at a random empty location with a
/// random empty destination, stopping early if the board runs out of
/// room. The result satisfies the simulation invariant, ready for the
/// tick loop.
pub fn populate(board: &mut Board, count: usize) -> (people: Vec<Person>)
    requires
        old(board).wf(),
        old(board).occ_count() == 0,
    ensures
        sim_inv(*final(board), people@),
        people@.len() <= count,
        final(board).side_spec() == old(board).side_spec(),
{
    let mut people: Vec<Person> = Vec::new();
    let mut i: usize = 0;
    while i < count
        invariant
            sim_inv(*board, people@),
            people@.len() <= i <= count,
            board.side_spec() == old(board).side_spec(),
        decreases count - i,
    {
        let ghost b0 = *board;
        let ghost ppl0 = people@;
        match Person::new_rand(board) {
            Some(p) => {
                proof {
                    // the newcomer's cells were empty, the residents'
                    // cells are not: everyone stays distinct and intact
                    assert forall|j: int| 0 <= j < ppl0.len() implies (#[trigger] ppl0[j]).wf(
                        *board,
                    ) && ppl0[j].location != p.location && ppl0[j].destination != p.destination
                        && ppl0[j].location != p.destination && ppl0[j].destination
                        != p.location by {
                        let q = ppl0[j];
                        assert(b0.tile(q.location) is Occupied);
                        if q.location == p.location || q.location == p.destination {
                            assert(false);
                        }
                        if q.destination == p.location || q.destination == p.destination {
                            assert(q.location == q.destination);
                            assert(false);
                        }
                        assert(board.tile(q.location) == b0.tile(q.location));
                        assert(board.tile(q.destination) == b0.tile(q.destination));
                    }
                }
                people.push(p);
            },
            None => {
                return people;
            },
        }
        i = i + 1;
    }
    people
}

} // verus!
