//! Shortest-path search over the grid: the Manhattan metric used as the
//! heuristic, and the per-tick path finder.
//!
//! The search is stateless: it is re-run from scratch every tick, against
//! the grid as it stands at that moment, and returns only the first step
//! of a shortest path (a longer prefix would be stale by the next tick).

use vstd::prelude::*;
use crate::board::{Board, lemma_flat_index, lemma_flat_index_injective, lemma_side_sq_bound};
use crate::tile::Tile;

verus! {

/// Cost standing for "not reached": no real path ever accumulates it.
pub const INFINITY: usize = usize::MAX;

/// Manhattan distance between two coordinates, as a spec-level integer.
pub open spec fn spec_dist(a: (usize, usize), b: (usize, usize)) -> int {
    abs_diff(a.0 as int, b.0 as int) + abs_diff(a.1 as int, b.1 as int)
}

/// Absolute difference of two mathematical integers.
pub open spec fn abs_diff(x: int, y: int) -> int {
    if x >= y {
        x - y
    } else {
        y - x
    }
}

/// Whether two cells are orthogonally adjacent (Manhattan distance one).
pub open spec fn adjacent(a: (usize, usize), b: (usize, usize)) -> bool {
    spec_dist(a, b) == 1
}

/// Whether a searcher heading for `goal` may step onto cell `c`: the cell
/// is empty, or it carries the searcher's own destination marker.
pub open spec fn passable(b: Board, c: (usize, usize), goal: (usize, usize)) -> bool {
    b.tile(c) is Empty || (b.tile(c) is Destination && c == goal)
}

/// Every in-bounds orthogonal neighbor of `c` is a wall.
pub open spec fn enclosed(b: Board, c: (usize, usize)) -> bool {
    forall|d: (usize, usize)|
        b.in_bounds(d) && adjacent(d, c) ==> (#[trigger] b.tile(d)) is Wall
}

/// The hypothesis under which the search owes a `None` answer: the goal
/// is somewhere else, walled in on every side, and the start does not
/// touch it.
pub open spec fn blocked(b: Board, start: (usize, usize), goal: (usize, usize)) -> bool {
    start != goal && !adjacent(start, goal) && enclosed(b, goal)
}

/// A walkable chain toward `goal`: after the first cell, every cell is
/// in bounds, orthogonally adjacent to its predecessor, and open to a
/// searcher heading for `goal`.
pub open spec fn admissible_path(b: Board, goal: (usize, usize), p: Seq<(usize, usize)>) -> bool {
    forall|i: int|
        0 < i < p.len() ==> adjacent(p[i - 1], #[trigger] p[i]) && b.in_bounds(p[i]) && passable(
            b,
            p[i],
            goal,
        )
}

/// Some admissible chain leads from `start` to `goal`.
pub open spec fn connected(b: Board, start: (usize, usize), goal: (usize, usize)) -> bool {
    exists|p: Seq<(usize, usize)>|
        p.len() >= 1 && p[0] == start && p.last() == goal && admissible_path(b, goal, p)
}

/// Flat row-major index of a coordinate.
pub open spec fn fidx(side: int, c: (usize, usize)) -> int {
    c.0 as int * side + c.1 as int
}

/// Number of entries of a cost table that hold a real cost.
pub open spec fn reached_count(s: Seq<usize>) -> int
    decreases s.len(),
{
    if s.len() == 0 {
        0
    } else {
        reached_count(s.drop_last()) + if s.last() < INFINITY {
            1int
        } else {
            0int
        }
    }
}

/// Replacing one element moves the reached count by the difference of
/// the two elements' contributions.
proof fn lemma_reached_update(s: Seq<usize>, i: int, v: usize)
    requires
        0 <= i < s.len(),
    ensures
        reached_count(s.update(i, v)) == reached_count(s) - (if s[i] < INFINITY {
            1int
        } else {
            0int
        }) + (if v < INFINITY {
            1int
        } else {
            0int
        }),
    decreases s.len(),
{
    let su = s.update(i, v);
    if i == s.len() - 1 {
        assert(su.drop_last() =~= s.drop_last());
    } else {
        lemma_reached_update(s.drop_last(), i, v);
        assert(su.drop_last() =~= s.drop_last().update(i, v));
        assert(su.last() == s.last());
    }
}

/// The reached count never exceeds the table's length.
proof fn lemma_reached_le_len(s: Seq<usize>)
    ensures
        0 <= reached_count(s) <= s.len(),
    decreases s.len(),
{
    if s.len() > 0 {
        lemma_reached_le_len(s.drop_last());
    }
}

/// A table with no real cost has a reached count of zero.
proof fn lemma_reached_zero(s: Seq<usize>)
    requires
        forall|i: int| 0 <= i < s.len() ==> #[trigger] s[i] == INFINITY,
    ensures
        reached_count(s) == 0,
    decreases s.len(),
{
    if s.len() > 0 {
        lemma_reached_zero(s.drop_last());
    }
}

/// Sum of a sequence of scores.
spec fn sum_seq(s: Seq<usize>) -> int
    decreases s.len(),
{
    if s.len() == 0 {
        0
    } else {
        sum_seq(s.drop_last()) + s.last()
    }
}

/// Replacing one element changes the sum by the difference of the two
/// elements.
proof fn lemma_sum_update(s: Seq<usize>, i: int, v: usize)
    requires
        0 <= i < s.len(),
    ensures
        sum_seq(s.update(i, v)) == sum_seq(s) - s[i] + v,
    decreases s.len(),
{
    let su = s.update(i, v);
    if i == s.len() - 1 {
        assert(su.drop_last() =~= s.drop_last());
    } else {
        lemma_sum_update(s.drop_last(), i, v);
        assert(su.drop_last() =~= s.drop_last().update(i, v));
        assert(su.last() == s.last());
    }
}

/// A sum of machine integers is never negative.
proof fn lemma_sum_nonneg(s: Seq<usize>)
    ensures
        sum_seq(s) >= 0,
    decreases s.len(),
{
    if s.len() > 0 {
        lemma_sum_nonneg(s.drop_last());
    }
}

/// Off the frontier, cost has spread: every cell with a real cost that
/// is not on the frontier has given each of its admissible neighbors a
/// real cost too — except, possibly, the one cell named `ex` (the cell
/// whose neighbors are being relaxed right now).
pub open spec fn closed_off_frontier_except(
    b: Board,
    goal: (usize, usize),
    g: Seq<usize>,
    open: Seq<(usize, usize)>,
    ex: (usize, usize),
) -> bool {
    forall|c: (usize, usize), d: (usize, usize)|
        #![trigger g[fidx(b.side_spec(), c)], g[fidx(b.side_spec(), d)]]
        b.in_bounds(c) && g[fidx(b.side_spec(), c)] < INFINITY && !open.contains(c) && c != ex
            && b.in_bounds(d) && adjacent(c, d) && passable(b, d, goal) ==> g[fidx(
            b.side_spec(),
            d,
        )] < INFINITY
}

/// `closed_off_frontier_except` with no cell excepted.
pub open spec fn closed_off_frontier(
    b: Board,
    goal: (usize, usize),
    g: Seq<usize>,
    open: Seq<(usize, usize)>,
) -> bool {
    forall|c: (usize, usize), d: (usize, usize)|
        #![trigger g[fidx(b.side_spec(), c)], g[fidx(b.side_spec(), d)]]
        b.in_bounds(c) && g[fidx(b.side_spec(), c)] < INFINITY && !open.contains(c) && b.in_bounds(
            d,
        ) && adjacent(c, d) && passable(b, d, goal) ==> g[fidx(b.side_spec(), d)] < INFINITY
}

/// With the frontier empty and cost fully spread, every cell of an
/// admissible chain whose head has a real cost has one too.
proof fn lemma_path_reached(
    b: Board,
    goal: (usize, usize),
    g: Seq<usize>,
    open: Seq<(usize, usize)>,
    p: Seq<(usize, usize)>,
    i: int,
)
    requires
        b.wf(),
        open.len() == 0,
        closed_off_frontier(b, goal, g, open),
        admissible_path(b, goal, p),
        p.len() >= 1,
        b.in_bounds(p[0]),
        g[fidx(b.side_spec(), p[0])] < INFINITY,
        0 <= i < p.len(),
    ensures
        g[fidx(b.side_spec(), p[i])] < INFINITY,
    decreases i,
{
    if i > 0 {
        lemma_path_reached(b, goal, g, open, p, i - 1);
        assert(!open.contains(p[i - 1]));
        assert(b.in_bounds(p[i - 1]));
        assert(g[fidx(b.side_spec(), p[i - 1])] < INFINITY && g[fidx(b.side_spec(), p[i])]
            < INFINITY) by {
            assert(adjacent(p[i - 1], p[i]) && b.in_bounds(p[i]) && passable(b, p[i], goal));
        }
    }
}

/// Everything the path finder maintains about its working state: the
/// boundedness of the score and parent tables, that the start has cost
/// zero and no parent, that every open coordinate is in bounds, reached,
/// and either the start or a cell the searcher may stand on, and that
/// every parent link points one orthogonal step back along a strictly
/// cheaper, admissible chain.
pub open spec fn search_inv(
    b: Board,
    start: (usize, usize),
    goal: (usize, usize),
    g: Seq<usize>,
    cf: Seq<Option<(usize, usize)>>,
    open: Seq<(usize, usize)>,
) -> bool {
    let side = b.side_spec();
    &&& b.wf()
    &&& b.in_bounds(start)
    &&& b.in_bounds(goal)
    &&& g.len() == side * side
    &&& cf.len() == side * side
    &&& forall|i: int| 0 <= i < g.len() ==> #[trigger] g[i] <= INFINITY
    &&& forall|i: int| 0 <= i < g.len() && #[trigger] g[i] < INFINITY ==> g[i] < reached_count(g)
    &&& (g[fidx(side, goal)] < INFINITY ==> open.contains(goal))
    &&& g[fidx(side, start)] == 0
    &&& cf[fidx(side, start)] is None
    &&& forall|k: int|
        0 <= k < open.len() ==> b.in_bounds(#[trigger] open[k]) && g[fidx(side, open[k])]
            < INFINITY && (open[k] == start || passable(b, open[k], goal))
    &&& forall|c: (usize, usize)|
        b.in_bounds(c) && g[fidx(side, c)] < INFINITY && c != start ==> (#[trigger] cf[fidx(
            side,
            c,
        )]) is Some
    &&& forall|c: (usize, usize)|
        b.in_bounds(c) && (#[trigger] cf[fidx(side, c)]) is Some ==> {
            let p = cf[fidx(side, c)]->Some_0;
            b.in_bounds(p) && adjacent(p, c) && passable(b, c, goal) && g[fidx(side, c)]
                < INFINITY && g[fidx(side, p)] < g[fidx(side, c)]
        }
}

/// Manhattan distance: the sum of the absolute coordinate differences on
/// the two axes.
pub fn dist(a: (usize, usize), b: (usize, usize)) -> (r: usize)
    requires
        spec_dist(a, b) <= usize::MAX,
    ensures
        r == spec_dist(a, b),
{
    let dx: usize = if a.0 >= b.0 {
        a.0 - b.0
    } else {
        b.0 - a.0
    };
    let dy: usize = if a.1 >= b.1 {
        a.1 - b.1
    } else {
        b.1 - a.1
    };
    dx + dy
}

/// A vector of `n` copies of `v`.
fn filled_usize(n: usize, v: usize) -> (r: Vec<usize>)
    ensures
        r@.len() == n,
        forall|i: int| 0 <= i < n ==> r@[i] == v,
{
    let mut r: Vec<usize> = Vec::new();
    let mut i: usize = 0;
    while i < n
        invariant
            i <= n,
            r@.len() == i,
            forall|k: int| 0 <= k < i ==> r@[k] == v,
        decreases n - i,
    {
        r.push(v);
        i = i + 1;
    }
    r
}

/// A parent table of `n` unset entries.
fn filled_parent(n: usize) -> (r: Vec<Option<(usize, usize)>>)
    ensures
        r@.len() == n,
        forall|i: int| 0 <= i < n ==> (#[trigger] r@[i]) is None,
    {
    let mut r: Vec<Option<(usize, usize)>> = Vec::new();
    let mut i: usize = 0;
    while i < n
        invariant
            i <= n,
            r@.len() == i,
            forall|k: int| 0 <= k < i ==> (#[trigger] r@[k]) is None,
        decreases n - i,
    {
        r.push(None);
        i = i + 1;
    }
    r
}

/// One relaxation step: if stepping from `cur` onto its neighbor `loc`
/// improves `loc`'s best known cost, record the new cost, the heuristic
/// score, and the parent link, and put `loc` on the frontier.
///
/// Either nothing changes, or the total of the cost table strictly
/// drops (the measure the search loop terminates by). A cell open to
/// the searcher always holds a real cost afterwards, costs never rise,
/// and under the `blocked` hypothesis a goal that was off the frontier
/// stays off it.
fn relax_neighbor(
    board: &Board,
    start: (usize, usize),
    goal: (usize, usize),
    cur: (usize, usize),
    loc: (usize, usize),
    g_score: &mut Vec<usize>,
    f_score: &mut Vec<usize>,
    came_from: &mut Vec<Option<(usize, usize)>>,
    open_set: &mut Vec<(usize, usize)>,
)
    requires
        search_inv(*board, start, goal, old(g_score)@, old(came_from)@, old(open_set)@),
        closed_off_frontier_except(*board, goal, old(g_score)@, old(open_set)@, cur),
        old(f_score)@.len() == board.side_spec() * board.side_spec(),
        board.in_bounds(cur),
        board.in_bounds(loc),
        adjacent(cur, loc),
        cur == start || passable(*board, cur, goal),
        old(g_score)@[fidx(board.side_spec(), cur)] < INFINITY,
    ensures
        search_inv(*board, start, goal, final(g_score)@, final(came_from)@, final(open_set)@),
        closed_off_frontier_except(*board, goal, final(g_score)@, final(open_set)@, cur),
        final(f_score)@.len() == old(f_score)@.len(),
        (final(g_score)@ == old(g_score)@ && final(came_from)@ == old(came_from)@
            && final(open_set)@ == old(open_set)@) || sum_seq(final(g_score)@) < sum_seq(
            old(g_score)@,
        ),
        forall|i: int|
            0 <= i < old(g_score)@.len() ==> #[trigger] final(g_score)@[i] <= old(g_score)@[i],
        passable(*board, loc, goal) ==> final(g_score)@[fidx(board.side_spec(), loc)] < INFINITY,
        blocked(*board, start, goal) && !old(open_set)@.contains(goal)
            ==> !final(open_set)@.contains(goal),
{
    let ghost side = board.side_spec();
    match board.tile_at(loc) {
        Tile::Empty => {},
        Tile::Destination(_) => {
            if !(loc.0 == goal.0 && loc.1 == goal.1) {
                return ;
            }
        },
        _ => {
            return ;
        },
    }
    assert(passable(*board, loc, goal));
    proof {
        if blocked(*board, start, goal) && loc == goal {
            assert(adjacent(cur, goal));
            assert(board.tile(cur) is Wall);
            assert(cur != start);
            assert(false);
        }
        lemma_flat_index(side, cur.0 as int, cur.1 as int);
        lemma_flat_index(side, loc.0 as int, loc.1 as int);
        lemma_side_sq_bound(side);
        lemma_reached_le_len(old(g_score)@);
    }
    let sidex = board.side();
    let i_cur: usize = cur.0 * sidex + cur.1;
    let i_loc: usize = loc.0 * sidex + loc.1;
    let tentative: usize = g_score[i_cur] + 1;
    proof {
        // a real cost is below the count of reached cells, so below the
        // table's length: the new cost and score stay far from overflow
        assert(old(g_score)@[i_cur as int] < reached_count(old(g_score)@));
        assert(tentative <= old(g_score)@.len());
    }
    if tentative < g_score[i_loc] {
        proof {
            // the start is never improved: its cost is already zero
            if i_loc as int == fidx(side, start) {
                lemma_flat_index(side, start.0 as int, start.1 as int);
                assert(old(g_score)@[fidx(side, start)] == 0);
                assert(false);
            }
        }
        came_from[i_loc] = Some(cur);
        g_score[i_loc] = tentative;
        proof {
            lemma_sum_update(old(g_score)@, i_loc as int, tentative);
            lemma_sum_nonneg(old(g_score)@);
            lemma_reached_update(old(g_score)@, i_loc as int, tentative);
        }
        let d = dist(loc, goal);
        f_score[i_loc] = tentative + d;
        let mut present = false;
        let mut k: usize = 0;
        let n = open_set.len();
        while k < n
            invariant
                n == open_set@.len(),
                k <= n,
                present ==> open_set@.contains(loc),
                !present ==> forall|j: int| 0 <= j < k ==> open_set@[j] != loc,
            decreases n - k,
        {
            let e = open_set[k];
            if e.0 == loc.0 && e.1 == loc.1 {
                present = true;
            }
            k = k + 1;
        }
        if !present {
            open_set.push(loc);
        }
        proof {
            lemma_flat_index(side, start.0 as int, start.1 as int);
            let gs = g_score@;
            let cfs = came_from@;
            assert(gs == old(g_score)@.update(i_loc as int, tentative));
            assert(cfs == old(came_from)@.update(i_loc as int, Some(cur)));
            assert(cur != loc);
            assert(fidx(side, cur) != fidx(side, loc)) by {
                if fidx(side, cur) == fidx(side, loc) {
                    lemma_flat_index_injective(
                        side,
                        cur.0 as int,
                        cur.1 as int,
                        loc.0 as int,
                        loc.1 as int,
                    );
                }
            }
            // the relaxed cell ends up on the frontier either way
            if !present {
                assert(open_set@[open_set@.len() - 1] == loc);
            }
            assert(open_set@.contains(loc));
            // old frontier members are still there
            assert forall|c: (usize, usize)|
                old(open_set)@.contains(c) implies open_set@.contains(c) by {
                let k2 = choose|k2: int|
                    0 <= k2 < old(open_set)@.len() && old(open_set)@[k2] == c;
                assert(open_set@[k2] == c);
            }
            // a real cost stays below the count of reached cells
            assert forall|i: int|
                0 <= i < gs.len() && #[trigger] gs[i] < INFINITY implies gs[i] < reached_count(
                gs,
            ) by {
                if i != i_loc as int {
                    assert(gs[i] == old(g_score)@[i]);
                }
            }
            // a reached goal is on the frontier
            if gs[fidx(side, goal)] < INFINITY {
                lemma_flat_index(side, goal.0 as int, goal.1 as int);
                if fidx(side, goal) == i_loc as int {
                    lemma_flat_index_injective(
                        side,
                        goal.0 as int,
                        goal.1 as int,
                        loc.0 as int,
                        loc.1 as int,
                    );
                    assert(open_set@.contains(goal));
                } else {
                    assert(old(g_score)@[fidx(side, goal)] < INFINITY);
                    assert(open_set@.contains(goal));
                }
            }
            // reached non-start cells keep a parent
            assert forall|c: (usize, usize)|
                board.in_bounds(c) && gs[fidx(side, c)] < INFINITY && c != start implies (
            #[trigger] cfs[fidx(side, c)]) is Some by {
                lemma_flat_index(side, c.0 as int, c.1 as int);
                if fidx(side, c) != i_loc as int {
                    assert(gs[fidx(side, c)] == old(g_score)@[fidx(side, c)]);
                }
            }
            // parent links still step one cheaper cell back
            assert forall|c: (usize, usize)|
                board.in_bounds(c) && (#[trigger] cfs[fidx(side, c)]) is Some implies {
                let p = cfs[fidx(side, c)]->Some_0;
                board.in_bounds(p) && adjacent(p, c) && passable(*board, c, goal) && gs[fidx(
                    side,
                    c,
                )] < INFINITY && gs[fidx(side, p)] < gs[fidx(side, c)]
            } by {
                lemma_flat_index(side, c.0 as int, c.1 as int);
                if fidx(side, c) == i_loc as int {
                    lemma_flat_index_injective(
                        side,
                        c.0 as int,
                        c.1 as int,
                        loc.0 as int,
                        loc.1 as int,
                    );
                    assert(c == loc);
                } else {
                    assert(cfs[fidx(side, c)] == old(came_from)@[fidx(side, c)]);
                    let p = old(came_from)@[fidx(side, c)]->Some_0;
                    lemma_flat_index(side, p.0 as int, p.1 as int);
                }
            }
            // frontier cells are still in bounds, reached, and admissible
            assert forall|k2: int| 0 <= k2 < open_set@.len() implies board.in_bounds(
                #[trigger] open_set@[k2],
            ) && gs[fidx(side, open_set@[k2])] < INFINITY && (open_set@[k2] == start
                || passable(*board, open_set@[k2], goal)) by {
                if k2 < old(open_set)@.len() {
                    let e = old(open_set)@[k2];
                    lemma_flat_index(side, e.0 as int, e.1 as int);
                } else {
                    assert(open_set@[k2] == loc);
                }
            }
            // cost spreading still holds away from `cur`
            assert forall|c: (usize, usize), d2: (usize, usize)|
                board.in_bounds(c) && gs[fidx(side, c)] < INFINITY && !open_set@.contains(c) && c
                    != cur && board.in_bounds(d2) && adjacent(c, d2) && passable(*board, d2, goal)
                implies gs[fidx(side, d2)] < INFINITY by {
                lemma_flat_index(side, c.0 as int, c.1 as int);
                lemma_flat_index(side, d2.0 as int, d2.1 as int);
                if fidx(side, c) == i_loc as int {
                    lemma_flat_index_injective(
                        side,
                        c.0 as int,
                        c.1 as int,
                        loc.0 as int,
                        loc.1 as int,
                    );
                    assert(open_set@.contains(c));
                    assert(false);
                } else {
                    assert(gs[fidx(side, c)] == old(g_score)@[fidx(side, c)]);
                    if old(open_set)@.contains(c) {
                        assert(open_set@.contains(c));
                        assert(false);
                    }
                    assert(old(g_score)@[fidx(side, d2)] < INFINITY);
                    if fidx(side, d2) != i_loc as int {
                        assert(gs[fidx(side, d2)] == old(g_score)@[fidx(side, d2)]);
                    }
                }
            }
            if blocked(*board, start, goal) && !old(open_set)@.contains(goal) {
                assert(loc != goal);
                if open_set@.contains(goal) {
                    let k3 = choose|k3: int|
                        0 <= k3 < open_set@.len() && open_set@[k3] == goal;
                    assert(k3 < old(open_set)@.len() ==> old(open_set)@[k3] == goal);
                    assert(false);
                }
            }
        }
    }
}

/// One step of a shortest path from `start` toward `goal`, given the
/// grid as it stands right now.
///
/// Runs the standard A* search with the Manhattan heuristic over the
/// four-neighborhood, expanding empty cells and the searcher's own
/// destination cell only, breaking frontier ties toward the lowest
/// coordinate. `Some(step)` is the cell adjacent to `start` on a path
/// found to `goal`, and the search is complete: whenever an admissible
/// chain of cells connects `start` to a `goal` it does not stand on, a
/// step comes back. `None` means no path exists at the moment (in
/// particular, when the searcher already stands on its goal, or when
/// the goal is walled in away from the start).
#[verifier::rlimit(100)]
pub fn a_star(start: (usize, usize), goal: (usize, usize), board: &Board) -> (r: Option<
    (usize, usize),
>)
    requires
        board.wf(),
        board.in_bounds(start),
        board.in_bounds(goal),
    ensures
        r matches Some(step) ==> board.in_bounds(step) && adjacent(start, step) && passable(
            *board,
            step,
            goal,
        ) && start != goal && connected(*board, start, goal),
        start == goal ==> r is None,
        blocked(*board, start, goal) ==> r is None,
        start != goal && connected(*board, start, goal) ==> r is Some,
{
    let side = board.side();
    proof {
        lemma_side_sq_bound(side as int);
        lemma_flat_index(side as int, start.0 as int, start.1 as int);
    }
    let total: usize = side * side;
    let mut g_score = filled_usize(total, INFINITY);
    let mut f_score = filled_usize(total, INFINITY);
    let mut came_from = filled_parent(total);
    let mut open_set: Vec<(usize, usize)> = Vec::new();
    let i_start: usize = start.0 * side + start.1;
    g_score[i_start] = 0;
    f_score[i_start] = dist(start, goal);
    open_set.push(start);
    proof {
        assert forall|c: (usize, usize)|
            board.in_bounds(c) && g_score@[fidx(side as int, c)] < INFINITY && c != start implies (
        #[trigger] came_from@[fidx(side as int, c)]) is Some by {
            lemma_flat_index(side as int, c.0 as int, c.1 as int);
            if fidx(side as int, c) != i_start as int {
                assert(g_score@[fidx(side as int, c)] == INFINITY);
            } else {
                lemma_flat_index_injective(
                    side as int,
                    c.0 as int,
                    c.1 as int,
                    start.0 as int,
                    start.1 as int,
                );
            }
        }
        // no parent link exists yet, so the parent clause holds vacuously
        assert forall|c: (usize, usize)|
            board.in_bounds(c) && (#[trigger] came_from@[fidx(side as int, c)]) matches Some(
                p,
            ) implies false by {
            lemma_flat_index(side as int, c.0 as int, c.1 as int);
        }
        // exactly one cell is reached, and its cost is zero
        lemma_reached_zero(Seq::new((side * side) as nat, |i: int| INFINITY));
        assert(Seq::new((side * side) as nat, |i: int| INFINITY) =~= g_score@.update(
            i_start as int,
            INFINITY,
        ));
        lemma_reached_update(g_score@.update(i_start as int, INFINITY), i_start as int, 0);
        assert(g_score@.update(i_start as int, INFINITY).update(i_start as int, 0) =~= g_score@);
        assert(reached_count(g_score@) == 1);
        assert forall|i: int|
            0 <= i < g_score@.len() && #[trigger] g_score@[i] < INFINITY implies g_score@[i]
            < reached_count(g_score@) by {
            if i != i_start as int {
                assert(g_score@[i] == INFINITY);
            }
        }
        // only the start is reached, and it sits on the frontier
        if g_score@[fidx(side as int, goal)] < INFINITY {
            lemma_flat_index(side as int, goal.0 as int, goal.1 as int);
            if fidx(side as int, goal) != i_start as int {
                assert(g_score@[fidx(side as int, goal)] == INFINITY);
            } else {
                lemma_flat_index_injective(
                    side as int,
                    goal.0 as int,
                    goal.1 as int,
                    start.0 as int,
                    start.1 as int,
                );
                assert(open_set@[0] == goal);
            }
        }
        assert(search_inv(*board, start, goal, g_score@, came_from@, open_set@));
        // nothing is off the frontier yet, so cost spreading is vacuous
        assert forall|c: (usize, usize), d: (usize, usize)|
            #![trigger g_score@[fidx(side as int, c)], g_score@[fidx(side as int, d)]]
            board.in_bounds(c) && g_score@[fidx(side as int, c)] < INFINITY
                && !open_set@.contains(c) && board.in_bounds(d) && adjacent(c, d) && passable(
                *board,
                d,
                goal,
            ) implies g_score@[fidx(side as int, d)] < INFINITY by {
            lemma_flat_index(side as int, c.0 as int, c.1 as int);
            if fidx(side as int, c) != i_start as int {
                assert(g_score@[fidx(side as int, c)] == INFINITY);
            } else {
                lemma_flat_index_injective(
                    side as int,
                    c.0 as int,
                    c.1 as int,
                    start.0 as int,
                    start.1 as int,
                );
                assert(open_set@[0] == start);
                assert(open_set@.contains(c));
            }
        }
        if blocked(*board, start, goal) && open_set@.contains(goal) {
            assert(open_set@[0] == start);
            assert(false);
        }
    }
    while open_set.len() > 0
        invariant
            search_inv(*board, start, goal, g_score@, came_from@, open_set@),
            closed_off_frontier(*board, goal, g_score@, open_set@),
            f_score@.len() == side as int * side as int,
            side == board.side_spec(),
            blocked(*board, start, goal) ==> !open_set@.contains(goal),
        decreases sum_seq(g_score@), open_set@.len(),
    {
        proof {
            lemma_sum_nonneg(g_score@);
        }
        let ghost sum0 = sum_seq(g_score@);
        // pick the open cell with the lowest f, ties toward the lowest
        // coordinate
        let mut best: usize = 0;
        let mut k: usize = 1;
        let n = open_set.len();
        while k < n
            invariant
                n == open_set@.len(),
                k <= n,
                best < n,
                search_inv(*board, start, goal, g_score@, came_from@, open_set@),
                f_score@.len() == side as int * side as int,
                side == board.side_spec(),
            decreases n - k,
        {
            let e = open_set[k];
            let b = open_set[best];
            proof {
                lemma_flat_index(side as int, e.0 as int, e.1 as int);
                lemma_flat_index(side as int, b.0 as int, b.1 as int);
                lemma_side_sq_bound(side as int);
            }
            let fe = f_score[e.0 * side + e.1];
            let fb = f_score[b.0 * side + b.1];
            if fe < fb || (fe == fb && (e.0 < b.0 || (e.0 == b.0 && e.1 < b.1))) {
                best = k;
            }
            k = k + 1;
        }
        let current = open_set[best];
        assert(current == start || passable(*board, current, goal));
        if current.0 == goal.0 && current.1 == goal.1 {
            // the goal was reached: walk the parent links back to the
            // start and hand out the step adjacent to it
            proof {
                if blocked(*board, start, goal) {
                    assert(open_set@[best as int] == goal);
                    assert(open_set@.contains(goal));
                    assert(false);
                }
                lemma_flat_index(side as int, current.0 as int, current.1 as int);
            }
            let mut path: Vec<(usize, usize)> = Vec::new();
            let mut cur = current;
            path.push(cur);
            loop
                invariant
                    search_inv(*board, start, goal, g_score@, came_from@, open_set@),
                    side == board.side_spec(),
                    board.in_bounds(cur),
                    g_score@[fidx(side as int, cur)] < INFINITY,
                    path@.len() >= 1,
                    path@[0] == goal,
                    path@.last() == cur,
                    forall|i: int| 0 <= i < path@.len() ==> board.in_bounds(#[trigger] path@[i]),
                    forall|i: int|
                        0 <= i < path@.len() - 1 ==> came_from@[fidx(side as int, #[trigger] path@[i])]
                            == Some(path@[i + 1]),
                    start == goal ==> path@.len() == 1 && cur == start,
                ensures
                    path@.len() >= 1,
                    path@[0] == goal,
                    path@.last() == start,
                    forall|i: int| 0 <= i < path@.len() ==> board.in_bounds(#[trigger] path@[i]),
                    forall|i: int|
                        0 <= i < path@.len() - 1 ==> came_from@[fidx(side as int, #[trigger] path@[i])]
                            == Some(path@[i + 1]),
                    start == goal ==> path@.len() == 1,
                decreases g_score@[fidx(side as int, cur)],
            {
                proof {
                    lemma_flat_index(side as int, cur.0 as int, cur.1 as int);
                    lemma_side_sq_bound(side as int);
                }
                let i_cur: usize = cur.0 * side + cur.1;
                match came_from[i_cur] {
                    Some(p) => {
                        path.push(p);
                        cur = p;
                    },
                    None => {
                        proof {
                            assert(came_from@[fidx(side as int, cur)] is None);
                            assert(cur == start);
                        }
                        break ;
                    },
                }
            }
            let ghost p0 = path@;
            let _ = path.pop();
            let r = path.pop();
            proof {
                if p0.len() >= 2 {
                    let step = p0[p0.len() - 2];
                    assert(r == Some(step));
                    assert(came_from@[fidx(side as int, step)] == Some(start));
                    lemma_flat_index(side as int, step.0 as int, step.1 as int);
                    assert(board.in_bounds(step) && adjacent(start, step) && passable(
                        *board,
                        step,
                        goal,
                    ));
                    assert(start != goal);
                    // the parent chain, read backward, is an admissible
                    // path from the start to the goal
                    let rev = Seq::new(p0.len(), |j: int| p0[p0.len() - 1 - j]);
                    assert(rev[0] == start);
                    assert(rev.last() == goal);
                    assert forall|j: int|
                        0 < j < rev.len() implies adjacent(rev[j - 1], #[trigger] rev[j])
                        && board.in_bounds(rev[j]) && passable(*board, rev[j], goal) by {
                        let i = p0.len() - 1 - j;
                        assert(rev[j] == p0[i]);
                        assert(rev[j - 1] == p0[i + 1]);
                        assert(came_from@[fidx(side as int, p0[i])] == Some(p0[i + 1]));
                        lemma_flat_index(side as int, p0[i].0 as int, p0[i].1 as int);
                    }
                    assert(admissible_path(*board, goal, rev));
                    assert(rev.len() >= 1);
                    assert(connected(*board, start, goal));
                } else {
                    assert(r is None);
                }
            }
            return r;
        }
        proof {
            assert(board.in_bounds(current));
            assert(g_score@[fidx(side as int, current)] < INFINITY);
        }
        let ghost old_open = open_set@;
        let removed = open_set.remove(best);
        proof {
            assert(removed == current);
            assert forall|k2: int| 0 <= k2 < open_set@.len() implies board.in_bounds(
                #[trigger] open_set@[k2],
            ) && g_score@[fidx(side as int, open_set@[k2])] < INFINITY && (open_set@[k2] == start
                || passable(*board, open_set@[k2], goal)) by {
                if k2 < best as int {
                    assert(open_set@[k2] == old_open[k2]);
                } else {
                    assert(open_set@[k2] == old_open[k2 + 1]);
                }
            }
            if blocked(*board, start, goal) && open_set@.contains(goal) {
                let k3 = choose|k3: int|
                    0 <= k3 < open_set@.len() && open_set@[k3] == goal;
                if k3 < best as int {
                    assert(old_open[k3] == goal);
                } else {
                    assert(old_open[k3 + 1] == goal);
                }
                assert(old_open.contains(goal));
                assert(false);
            }
            lemma_flat_index(side as int, current.0 as int, current.1 as int);
            // a reached goal is still on the frontier: the popped cell
            // is not the goal in this branch
            if g_score@[fidx(side as int, goal)] < INFINITY {
                let k4 = choose|k4: int| 0 <= k4 < old_open.len() && old_open[k4] == goal;
                if k4 < best as int {
                    assert(open_set@[k4] == goal);
                } else {
                    assert(k4 != best as int);
                    assert(open_set@[k4 - 1] == goal);
                }
                assert(open_set@.contains(goal));
            }
            // cost spreading may now miss the popped cell alone
            assert forall|c: (usize, usize), d2: (usize, usize)|
                board.in_bounds(c) && g_score@[fidx(side as int, c)] < INFINITY
                    && !open_set@.contains(c) && c != current && board.in_bounds(d2) && adjacent(
                    c,
                    d2,
                ) && passable(*board, d2, goal) implies g_score@[fidx(side as int, d2)]
                < INFINITY by {
                lemma_flat_index(side as int, c.0 as int, c.1 as int);
                lemma_flat_index(side as int, d2.0 as int, d2.1 as int);
                if old_open.contains(c) {
                    let k5 = choose|k5: int| 0 <= k5 < old_open.len() && old_open[k5] == c;
                    assert(k5 != best as int);
                    if k5 < best as int {
                        assert(open_set@[k5] == c);
                    } else {
                        assert(open_set@[k5 - 1] == c);
                    }
                    assert(open_set@.contains(c));
                    assert(false);
                }
            }
        }
        let ghost g1 = g_score@;
        let ghost cf1 = came_from@;
        let ghost o1 = open_set@;
        if current.0 >= 1 {
            relax_neighbor(
                board,
                start,
                goal,
                current,
                (current.0 - 1, current.1),
                &mut g_score,
                &mut f_score,
                &mut came_from,
                &mut open_set,
            );
        }
        let ghost ga = g_score@;
        if current.0 + 1 < side {
            relax_neighbor(
                board,
                start,
                goal,
                current,
                (current.0 + 1, current.1),
                &mut g_score,
                &mut f_score,
                &mut came_from,
                &mut open_set,
            );
        }
        let ghost gb = g_score@;
        if current.1 >= 1 {
            relax_neighbor(
                board,
                start,
                goal,
                current,
                (current.0, current.1 - 1),
                &mut g_score,
                &mut f_score,
                &mut came_from,
                &mut open_set,
            );
        }
        let ghost gc = g_score@;
        if current.1 + 1 < side {
            relax_neighbor(
                board,
                start,
                goal,
                current,
                (current.0, current.1 + 1),
                &mut g_score,
                &mut f_score,
                &mut came_from,
                &mut open_set,
            );
        }
        proof {
            lemma_sum_nonneg(g_score@);
            // each relaxation left the tables alone or shrank the cost
            // sum, so the loop measure drops
            if g_score@ == g1 && came_from@ == cf1 && open_set@ == o1 {
                assert(open_set@.len() < n as int);
            } else {
                assert(sum_seq(g_score@) < sum0);
            }
            // the popped cell has spread its cost to all four neighbors,
            // so cost spreading holds everywhere again
            assert forall|c: (usize, usize), d2: (usize, usize)|
                board.in_bounds(c) && g_score@[fidx(side as int, c)] < INFINITY
                    && !open_set@.contains(c) && board.in_bounds(d2) && adjacent(c, d2)
                    && passable(*board, d2, goal) implies g_score@[fidx(side as int, d2)]
                < INFINITY by {
                lemma_flat_index(side as int, c.0 as int, c.1 as int);
                lemma_flat_index(side as int, d2.0 as int, d2.1 as int);
                if c == current {
                    if d2.0 as int + 1 == current.0 as int && d2.1 == current.1 {
                        assert(d2 == (((current.0 - 1) as usize), current.1));
                        assert(ga[fidx(side as int, d2)] < INFINITY);
                        assert(gb[fidx(side as int, d2)] <= ga[fidx(side as int, d2)]);
                        assert(gc[fidx(side as int, d2)] <= gb[fidx(side as int, d2)]);
                        assert(g_score@[fidx(side as int, d2)] <= gc[fidx(side as int, d2)]);
                    } else if d2.0 as int == current.0 as int + 1 && d2.1 == current.1 {
                        assert(d2 == (((current.0 + 1) as usize), current.1));
                        assert(gb[fidx(side as int, d2)] < INFINITY);
                        assert(gc[fidx(side as int, d2)] <= gb[fidx(side as int, d2)]);
                        assert(g_score@[fidx(side as int, d2)] <= gc[fidx(side as int, d2)]);
                    } else if d2.1 as int + 1 == current.1 as int && d2.0 == current.0 {
                        assert(d2 == (current.0, ((current.1 - 1) as usize)));
                        assert(gc[fidx(side as int, d2)] < INFINITY);
                        assert(g_score@[fidx(side as int, d2)] <= gc[fidx(side as int, d2)]);
                    } else {
                        assert(d2.1 as int == current.1 as int + 1 && d2.0 == current.0);
                        assert(d2 == (current.0, ((current.1 + 1) as usize)));
                        assert(g_score@[fidx(side as int, d2)] < INFINITY);
                    }
                }
            }
        }
    }
    proof {
        // completeness: the frontier is exhausted, so cost has spread
        // along every admissible chain from the start, and a reached
        // goal would still be on the frontier
        if start != goal && connected(*board, start, goal) {
            let p = choose|p: Seq<(usize, usize)>|
                p.len() >= 1 && p[0] == start && p.last() == goal && admissible_path(
                    *board,
                    goal,
                    p,
                );
            lemma_path_reached(*board, goal, g_score@, open_set@, p, p.len() - 1);
            assert(p[p.len() - 1] == p.last());
            assert(g_score@[fidx(side as int, goal)] < INFINITY);
            assert(open_set@.contains(goal));
            assert(false);
        }
    }
    None
}

} // verus!
