//! The watching solver: a label-blind depth-first search that rediscovers a
//! route to the exit from connectivity alone, backtracking out of dead ends.
//!
//! The search is driven for animation: it returns the sequence of player
//! positions, one per move, forward moves and backtracking moves alike, so a
//! driver can replay them one step at a time. Its contract promises success
//! on every maze a session produces: whenever a simple walk to the exit
//! exists within the fuel bound, the search finds it.

use vstd::prelude::*;
use crate::maze::{
    Maze, Coordinates, MoveDirection, edges_ok, parents_ok, edge_ok_at, neighbor_in,
    lemma_area_fits,
};
use crate::paths::{is_path, linked, lemma_path_to_root};

verus! {

/// A simple walk from `curr` to `end` along passages that does not begin by
/// stepping back onto `prev`: what a depth-first explorer entering `curr`
/// from `prev` can still follow.
pub open spec fn escape_path(
    m: Maze,
    prev: Coordinates,
    curr: Coordinates,
    end: Coordinates,
    p: Seq<Coordinates>,
) -> bool {
    &&& is_path(m, p)
    &&& p.len() >= 1
    &&& p[0] == curr
    &&& p[p.len() - 1] == end
    &&& (p.len() >= 2 ==> p[1] != prev)
    &&& forall|i: int, j: int| 0 <= i < j < p.len() ==> p[i] != p[j]
}

/// Every escape from `curr` for `end` avoiding `prev` holds more than
/// `bound` cells: the branch is exhausted up to that bound.
pub open spec fn branch_blocked(
    m: Maze,
    prev: Coordinates,
    curr: Coordinates,
    end: Coordinates,
    bound: int,
) -> bool {
    forall|p: Seq<Coordinates>|
        #[trigger] escape_path(m, prev, curr, end, p) ==> p.len() > bound
}

/// What a play session guarantees of the maze it hands the watcher: fully
/// carved, passages stepping the labels by one, a unique parent passage per
/// cell, labels rooted at the unique zero-labelled exit and bounded by the
/// cell count.
pub open spec fn solver_ready(m: Maze, end: Coordinates) -> bool {
    &&& m.wf()
    &&& edges_ok(m)
    &&& parents_ok(m)
    &&& forall|c: Coordinates| m.in_bounds(c) ==> #[trigger] m.visited(c)
    &&& m.in_bounds(end)
    &&& m.steps_at(end) == 0
    &&& forall|c: Coordinates| m.in_bounds(c) && #[trigger] m.steps_at(c) == 0 ==> c == end
    &&& forall|c: Coordinates|
            m.in_bounds(c) ==> ((#[trigger] m.steps_at(c)) as int) < m.height * m.width
}

/// A live session's maze is ready for the watcher.
pub proof fn lemma_session_solver_ready(g: crate::game::Game)
    requires
        g.wf(),
    ensures
        solver_ready(g.maze, g.end_coordinates),
{
}

/// Dropping an escape's first cell leaves an escape from its second cell,
/// now avoiding the first.
proof fn lemma_escape_tail(
    m: Maze,
    prev: Coordinates,
    curr: Coordinates,
    end: Coordinates,
    p: Seq<Coordinates>,
)
    requires
        escape_path(m, prev, curr, end, p),
        p.len() >= 2,
    ensures
        escape_path(m, curr, p[1], end, p.subrange(1, p.len() as int)),
        p.subrange(1, p.len() as int).len() == p.len() - 1,
{
    let q = p.subrange(1, p.len() as int);
    assert forall|i: int| 0 <= i < q.len() implies m.in_bounds(#[trigger] q[i])
        && m.visited(q[i]) by {
        assert(q[i] == p[i + 1]);
    }
    assert forall|i: int| 0 <= i < q.len() - 1 implies linked(m, #[trigger] q[i], q[i + 1]) by {
        assert(q[i] == p[i + 1] && q[i + 1] == p[i + 2]);
        assert(linked(m, p[i + 1], p[i + 2]));
    }
    assert(q[0] == p[1] && q[q.len() - 1] == p[p.len() - 1]);
    if q.len() >= 2 {
        assert(q[1] == p[2] && p[0] != p[2]);
    }
    assert forall|i: int, j: int| 0 <= i < j < q.len() implies q[i] != q[j] by {
        assert(q[i] == p[i + 1] && q[j] == p[j + 1]);
    }
}

/// Gluing one more branch region onto a frame's trace: the cell before the
/// region is the frame's own, which the region's first move leaves, so every
/// pair across the joint stays one passage apart.
proof fn lemma_join_frame(
    m: Maze,
    before: Seq<Coordinates>,
    now: Seq<Coordinates>,
    len_in: int,
    curr: Coordinates,
)
    requires
        0 <= len_in < before.len() <= now.len(),
        forall|i: int| 0 <= i < before.len() ==> #[trigger] now[i] == before[i],
        before[before.len() - 1] == curr,
        now.len() > before.len() ==> linked(m, curr, now[before.len() as int]),
        forall|i: int| len_in <= i < before.len() - 1
            ==> linked(m, #[trigger] before[i], before[i + 1])
                || linked(m, before[i + 1], before[i]),
        forall|i: int| before.len() <= i < now.len() - 1
            ==> linked(m, #[trigger] now[i], now[i + 1]) || linked(m, now[i + 1], now[i]),
    ensures
        forall|i: int| len_in <= i < now.len() - 1
            ==> linked(m, #[trigger] now[i], now[i + 1]) || linked(m, now[i + 1], now[i]),
{
    assert forall|i: int| len_in <= i < now.len() - 1
        implies linked(m, #[trigger] now[i], now[i + 1]) || linked(m, now[i + 1], now[i]) by {
        if i < before.len() - 1 {
            assert(now[i] == before[i] && now[i + 1] == before[i + 1]);
        } else if i == before.len() - 1 {
            assert(now[i] == curr);
        }
    }
}

/// One branch of a frame standing on `curr`: follow the passage in slot `d`,
/// unless it is missing, a boundary marker, or the way back to `prev`; on
/// failure move back onto `curr`. A failed branch is exhausted: no escape of
/// at most `fuel` cells runs through it.
fn try_branch(
    maze: &Maze,
    prev: Coordinates,
    curr: Coordinates,
    end: Coordinates,
    d: MoveDirection,
    trace: &mut Vec<Coordinates>,
    fuel: usize,
) -> (found: bool)
    requires
        maze.wf(),
        edges_ok(*maze),
        maze.in_bounds(curr),
        fuel >= 1,
    ensures
        final(trace)@.len() >= old(trace)@.len(),
        forall|i: int| 0 <= i < old(trace)@.len() ==> final(trace)@[i] == old(trace)@[i],
        forall|i: int| old(trace)@.len() <= i < final(trace)@.len()
            ==> maze.in_bounds(#[trigger] final(trace)@[i]),
        final(trace)@.len() > old(trace)@.len()
            ==> linked(*maze, curr, final(trace)@[old(trace)@.len() as int]),
        forall|i: int| old(trace)@.len() <= i < final(trace)@.len() - 1
            ==> linked(*maze, #[trigger] final(trace)@[i], final(trace)@[i + 1])
                || linked(*maze, final(trace)@[i + 1], final(trace)@[i]),
        found ==> final(trace)@.len() > old(trace)@.len()
            && final(trace)@[final(trace)@.len() - 1] == end,
        !found ==> final(trace)@.len() == old(trace)@.len()
            || final(trace)@[final(trace)@.len() - 1] == curr,
        !found ==> match maze.edge_at(curr, d) {
            Some(t) => t == prev || t == curr
                || branch_blocked(*maze, curr, t, end, fuel as int),
            None => true,
        },
    decreases fuel, 0int,
{
    let node = *maze.get_node(&curr).unwrap();
    if let Some(t) = node.edge(d) {
        if t != prev && t != curr {
            proof {
                assert(edge_ok_at(*maze, curr, d));
                assert(linked(*maze, curr, t));
            }
            let ghost len0 = trace@.len();
            if dfs(maze, curr, t, end, trace, fuel - 1) {
                return true;
            }
            let ghost len1 = trace@.len();
            trace.push(curr);
            proof {
                assert(trace@[len1 - 1] == t);
                assert(trace@[len1 as int] == curr);
                assert forall|i: int| len0 <= i < trace@.len() - 1
                    implies linked(*maze, #[trigger] trace@[i], trace@[i + 1])
                        || linked(*maze, trace@[i + 1], trace@[i]) by {
                    if i == len1 - 1 {
                        assert(linked(*maze, trace@[i + 1], trace@[i]));
                    }
                }
            }
            return false;
        }
    }
    false
}

/// One exploration frame: the player has just moved onto `curr`, arriving
/// from `prev`. Appends every further move to `trace`, each one cell along a
/// passage, trying the passages of `curr` in the fixed order left, down,
/// right, up and skipping only the way back and boundary markers. Reports
/// whether the exit was reached; on failure the last recorded move is back
/// onto `curr`, and no simple walk of at most `fuel + 1` cells reaches the
/// exit from here while avoiding `prev`.
fn dfs(
    maze: &Maze,
    prev: Coordinates,
    curr: Coordinates,
    end: Coordinates,
    trace: &mut Vec<Coordinates>,
    fuel: usize,
) -> (found: bool)
    requires
        maze.wf(),
        edges_ok(*maze),
        maze.in_bounds(curr),
    ensures
        final(trace)@.len() > old(trace)@.len(),
        forall|i: int| 0 <= i < old(trace)@.len() ==> final(trace)@[i] == old(trace)@[i],
        forall|i: int| old(trace)@.len() <= i < final(trace)@.len()
            ==> maze.in_bounds(#[trigger] final(trace)@[i]),
        final(trace)@[old(trace)@.len() as int] == curr,
        forall|i: int| old(trace)@.len() <= i < final(trace)@.len() - 1
            ==> linked(*maze, #[trigger] final(trace)@[i], final(trace)@[i + 1])
                || linked(*maze, final(trace)@[i + 1], final(trace)@[i]),
        found ==> final(trace)@[final(trace)@.len() - 1] == end,
        !found ==> final(trace)@[final(trace)@.len() - 1] == curr,
        !found ==> branch_blocked(*maze, prev, curr, end, fuel as int + 1),
    decreases fuel, 1int,
{
    let ghost len_in = trace@.len();
    trace.push(curr);
    if curr == end {
        return true;
    }
    if fuel == 0 {
        proof {
            assert forall|p: Seq<Coordinates>|
                #[trigger] escape_path(*maze, prev, curr, end, p) implies p.len() > 1 by {
                if p.len() == 1 {
                    assert(p[0] == curr && p[0] == end);
                }
            }
        }
        return false;
    }

    let ghost g0 = trace@;
    let f1 = try_branch(maze, prev, curr, end, MoveDirection::Left, trace, fuel);
    proof {
        lemma_join_frame(*maze, g0, trace@, len_in as int, curr);
    }
    if f1 {
        return true;
    }
    let ghost g1 = trace@;
    let f2 = try_branch(maze, prev, curr, end, MoveDirection::Down, trace, fuel);
    proof {
        lemma_join_frame(*maze, g1, trace@, len_in as int, curr);
    }
    if f2 {
        return true;
    }
    let ghost g2 = trace@;
    let f3 = try_branch(maze, prev, curr, end, MoveDirection::Right, trace, fuel);
    proof {
        lemma_join_frame(*maze, g2, trace@, len_in as int, curr);
    }
    if f3 {
        return true;
    }
    let ghost g3 = trace@;
    let f4 = try_branch(maze, prev, curr, end, MoveDirection::Up, trace, fuel);
    proof {
        lemma_join_frame(*maze, g3, trace@, len_in as int, curr);
    }
    if f4 {
        return true;
    }
    proof {
        // every direction is exhausted: no short escape exists at all
        assert forall|p: Seq<Coordinates>|
            #[trigger] escape_path(*maze, prev, curr, end, p) implies p.len() > fuel + 1 by {
            if p.len() <= fuel + 1 {
                if p.len() == 1 {
                    assert(p[0] == curr && p[0] == end);
                }
                let t = p[1];
                assert(linked(*maze, p[0], p[1]));
                let d = choose|d: MoveDirection|
                    #[trigger] maze.edge_at(curr, d) == Some(t) && t != curr;
                assert(t != prev);
                assert(branch_blocked(*maze, curr, t, end, fuel as int));
                lemma_escape_tail(*maze, prev, curr, end, p);
                assert(p.subrange(1, p.len() as int).len() > fuel as int);
                assert(false);
            }
        }
    }
    false
}

/// One opening branch out of the start. Unlike a frame's branch, a failure
/// records no move back: the next opening resumes directly at another
/// neighbour of the start, as the watcher animates it.
fn try_opening(
    maze: &Maze,
    start: Coordinates,
    end: Coordinates,
    d: MoveDirection,
    trace: &mut Vec<Coordinates>,
    fuel: usize,
) -> (found: bool)
    requires
        maze.wf(),
        edges_ok(*maze),
        maze.in_bounds(start),
    ensures
        final(trace)@.len() >= old(trace)@.len(),
        forall|i: int| 0 <= i < old(trace)@.len() ==> final(trace)@[i] == old(trace)@[i],
        forall|i: int| old(trace)@.len() <= i < final(trace)@.len()
            ==> maze.in_bounds(#[trigger] final(trace)@[i]),
        final(trace)@.len() > old(trace)@.len()
            ==> linked(*maze, start, final(trace)@[old(trace)@.len() as int]),
        forall|i: int| old(trace)@.len() <= i < final(trace)@.len() - 1
            ==> linked(*maze, #[trigger] final(trace)@[i], final(trace)@[i + 1])
                || linked(*maze, final(trace)@[i + 1], final(trace)@[i]),
        found ==> final(trace)@.len() > old(trace)@.len()
            && final(trace)@[final(trace)@.len() - 1] == end,
        !found ==> final(trace)@.len() == old(trace)@.len()
            || linked(*maze, start, final(trace)@[final(trace)@.len() - 1]),
        !found ==> match maze.edge_at(start, d) {
            Some(t) => t == start
                || branch_blocked(*maze, start, t, end, fuel as int + 1),
            None => true,
        },
    decreases fuel, 2int,
{
    let node = *maze.get_node(&start).unwrap();
    if let Some(t) = node.edge(d) {
        if t != start {
            proof {
                assert(edge_ok_at(*maze, start, d));
                assert(linked(*maze, start, t));
            }
            let found = dfs(maze, start, t, end, trace, fuel);
            proof {
                if !found {
                    assert(trace@[trace@.len() - 1] == t);
                }
            }
            return found;
        }
    }
    false
}

/// Gluing one more opening region onto the watcher's trace: both sides of
/// the joint are neighbours of the start, so the walk either moves one cell
/// along a passage or resumes at another neighbour of the start.
proof fn lemma_join_openings(
    m: Maze,
    start: Coordinates,
    before: Seq<Coordinates>,
    now: Seq<Coordinates>,
)
    requires
        before.len() <= now.len(),
        forall|i: int| 0 <= i < before.len() ==> #[trigger] now[i] == before[i],
        before.len() > 0 ==> linked(m, start, before[before.len() - 1]),
        now.len() > before.len() ==> linked(m, start, now[before.len() as int]),
        forall|i: int| 0 <= i < before.len() - 1
            ==> linked(m, #[trigger] before[i], before[i + 1])
                || linked(m, before[i + 1], before[i])
                || (linked(m, start, before[i]) && linked(m, start, before[i + 1])),
        forall|i: int| before.len() <= i < now.len() - 1
            ==> linked(m, #[trigger] now[i], now[i + 1]) || linked(m, now[i + 1], now[i]),
    ensures
        forall|i: int| 0 <= i < now.len() - 1
            ==> linked(m, #[trigger] now[i], now[i + 1])
                || linked(m, now[i + 1], now[i])
                || (linked(m, start, now[i]) && linked(m, start, now[i + 1])),
{
    assert forall|i: int| 0 <= i < now.len() - 1
        implies linked(m, #[trigger] now[i], now[i + 1]) || linked(m, now[i + 1], now[i])
            || (linked(m, start, now[i]) && linked(m, start, now[i + 1])) by {
        if i < before.len() - 1 {
            assert(now[i] == before[i] && now[i + 1] == before[i + 1]);
        } else if i == before.len() - 1 {
            assert(now[i] == before[i]);
            assert(linked(m, start, before[before.len() - 1]));
        }
    }
}

/// Explores from `start` toward `end` using passages alone, ignoring the
/// distance labels, and returns the full animation trace: every position
/// the player passes through, dead-end backtracking included. Each recorded
/// step moves one cell along a passage, except that after an exhausted
/// opening branch the walk resumes at another neighbour of the start.
///
/// An empty trace under `Some` means the player already stood on the exit;
/// otherwise a `Some` trace ends exactly on the exit. On every maze a
/// session produces (`solver_ready`, with the start on the entrance row)
/// the search is promised to succeed; a `None` can only arise elsewhere,
/// and a driver must treat it as an internal-consistency failure.
pub fn solve_trace(maze: &Maze, start: Coordinates, end: Coordinates) -> (r: Option<
    Vec<Coordinates>,
>)
    requires
        maze.wf(),
        edges_ok(*maze),
        maze.in_bounds(start),
    ensures
        match r {
            Some(trace) => {
                &&& (trace@.len() == 0 ==> start == end)
                &&& (trace@.len() > 0 ==> trace@[trace@.len() - 1] == end)
                &&& (trace@.len() > 0 ==> linked(*maze, start, trace@[0]))
                &&& forall|i: int| 0 <= i < trace@.len()
                        ==> maze.in_bounds(#[trigger] trace@[i])
                &&& forall|i: int| 0 <= i < trace@.len() - 1
                        ==> linked(*maze, #[trigger] trace@[i], trace@[i + 1])
                            || linked(*maze, trace@[i + 1], trace@[i])
                            || (linked(*maze, start, trace@[i])
                                && linked(*maze, start, trace@[i + 1]))
            },
            None => start != end,
        },
        solver_ready(*maze, end) && start.y == 0 ==> r is Some,
{
    let mut trace: Vec<Coordinates> = Vec::new();
    if start == end {
        return Some(trace);
    }
    proof {
        lemma_area_fits(maze.height, maze.width);
    }
    let fuel = maze.height() * maze.width();

    // the start's upward slot is the entrance marker, never a passage:
    // explore left, down, right only, as a walker standing on the start
    let ghost h0 = trace@;
    let f1 = try_opening(maze, start, end, MoveDirection::Left, &mut trace, fuel);
    proof {
        lemma_join_openings(*maze, start, h0, trace@);
    }
    if f1 {
        return Some(trace);
    }
    let ghost h1 = trace@;
    let f2 = try_opening(maze, start, end, MoveDirection::Down, &mut trace, fuel);
    proof {
        lemma_join_openings(*maze, start, h1, trace@);
    }
    if f2 {
        return Some(trace);
    }
    let ghost h2 = trace@;
    let f3 = try_opening(maze, start, end, MoveDirection::Right, &mut trace, fuel);
    proof {
        lemma_join_openings(*maze, start, h2, trace@);
    }
    if f3 {
        return Some(trace);
    }
    proof {
        if solver_ready(*maze, end) && start.y == 0 {
            // a session's maze always offers the label-descent walk, which
            // leaves the start sideways or down; all three were exhausted
            let p = lemma_path_to_root(*maze, start);
            assert(maze.steps_at(p[p.len() - 1]) == 0);
            assert(maze.in_bounds(p[p.len() - 1]));
            assert(p[p.len() - 1] == end);
            assert forall|i: int, j: int| 0 <= i < j < p.len() implies p[i] != p[j] by {
                assert(maze.steps_at(p[i]) + i == maze.steps_at(start));
                assert(maze.steps_at(p[j]) + j == maze.steps_at(start));
            }
            assert(maze.steps_at(start) != 0);
            assert(p.len() >= 2);
            let t = p[1];
            assert(linked(*maze, p[0], p[1]));
            let d = choose|d: MoveDirection|
                #[trigger] maze.edge_at(start, d) == Some(t) && t != start;
            assert(edge_ok_at(*maze, start, d));
            if d == MoveDirection::Up {
                assert(neighbor_in(start, d, t));
                assert(!maze.in_bounds(t));
                assert(false);
            }
            assert(escape_path(*maze, start, start, end, p));
            lemma_escape_tail(*maze, start, start, end, p);
            assert(escape_path(*maze, start, t, end, p.subrange(1, p.len() as int)));
            assert(p.subrange(1, p.len() as int).len() == maze.steps_at(start));
            assert((maze.steps_at(start) as int) < maze.height * maze.width);
            assert(branch_blocked(*maze, start, t, end, fuel as int + 1));
            assert(false);
        }
    }
    None
}

} // verus!
