//! Graph facts about carved mazes: the carved region is the whole grid, and
//! the distance labels are exact graph distances to the zero-labelled root.

use vstd::prelude::*;
use crate::maze::{
    Maze, Coordinates, MoveDirection, step_of, edges_ok, parents_ok, recip_ok, is_parent_edge,
    edge_ok_at,
};

verus! {

/// The closure property the generator leaves behind: every in-bounds
/// neighbour of a visited cell is visited.
pub open spec fn neighbors_visited(m: Maze) -> bool {
    forall|c: Coordinates, d: MoveDirection|
        #![trigger m.visited(c), step_of(c, d)]
        m.in_bounds(c) && m.visited(c) && m.in_bounds(step_of(c, d)) ==> m.visited(step_of(c, d))
}

proof fn lemma_walk_column(m: Maze, c0: Coordinates, y: int)
    requires
        m.wf(),
        neighbors_visited(m),
        m.in_bounds(c0),
        m.visited(c0),
        0 <= y < m.height as int,
    ensures
        m.visited(Coordinates { x: c0.x, y: y as i32 }),
    decreases (if c0.y <= y { y - c0.y } else { c0.y - y }),
{
    if y == c0.y as int {
        assert(Coordinates { x: c0.x, y: y as i32 } == c0);
    } else if y > c0.y as int {
        lemma_walk_column(m, c0, y - 1);
        let p = Coordinates { x: c0.x, y: (y - 1) as i32 };
        assert(m.visited(p));
        assert(step_of(p, MoveDirection::Down) == Coordinates { x: c0.x, y: y as i32 });
        assert(m.in_bounds(step_of(p, MoveDirection::Down)));
    } else {
        lemma_walk_column(m, c0, y + 1);
        let p = Coordinates { x: c0.x, y: (y + 1) as i32 };
        assert(m.visited(p));
        assert(step_of(p, MoveDirection::Up) == Coordinates { x: c0.x, y: y as i32 });
        assert(m.in_bounds(step_of(p, MoveDirection::Up)));
    }
}

proof fn lemma_walk_row(m: Maze, c0: Coordinates, x: int)
    requires
        m.wf(),
        neighbors_visited(m),
        m.in_bounds(c0),
        m.visited(c0),
        0 <= x < m.width as int,
    ensures
        m.visited(Coordinates { x: x as i32, y: c0.y }),
    decreases (if c0.x <= x { x - c0.x } else { c0.x - x }),
{
    if x == c0.x as int {
        assert(Coordinates { x: x as i32, y: c0.y } == c0);
    } else if x > c0.x as int {
        lemma_walk_row(m, c0, x - 1);
        let p = Coordinates { x: (x - 1) as i32, y: c0.y };
        assert(m.visited(p));
        assert(step_of(p, MoveDirection::Right) == Coordinates { x: x as i32, y: c0.y });
        assert(m.in_bounds(step_of(p, MoveDirection::Right)));
    } else {
        lemma_walk_row(m, c0, x + 1);
        let p = Coordinates { x: (x + 1) as i32, y: c0.y };
        assert(m.visited(p));
        assert(step_of(p, MoveDirection::Left) == Coordinates { x: x as i32, y: c0.y });
        assert(m.in_bounds(step_of(p, MoveDirection::Left)));
    }
}

/// A visited set that contains one cell and is closed under grid adjacency
/// covers the whole rectangular grid: the carved maze is connected.
pub proof fn lemma_grid_connected(m: Maze, c0: Coordinates)
    requires
        m.wf(),
        neighbors_visited(m),
        m.in_bounds(c0),
        m.visited(c0),
    ensures
        forall|c: Coordinates| m.in_bounds(c) ==> #[trigger] m.visited(c),
{
    assert forall|c: Coordinates| m.in_bounds(c) implies #[trigger] m.visited(c) by {
        lemma_walk_column(m, c0, c.y as int);
        let mid = Coordinates { x: c0.x, y: c.y };
        assert(m.visited(mid));
        lemma_walk_row(m, mid, c.x as int);
        assert(Coordinates { x: c.x as int as i32, y: mid.y } == c);
    }
}

/// `a` and `b` are joined by a real passage (not a boundary marker).
pub open spec fn linked(m: Maze, a: Coordinates, b: Coordinates) -> bool {
    exists|d: MoveDirection| #[trigger] m.edge_at(a, d) == Some(b) && b != a
}

/// A walk along passages through visited, in-bounds cells.
pub open spec fn is_path(m: Maze, p: Seq<Coordinates>) -> bool {
    &&& forall|i: int| 0 <= i < p.len() ==> m.in_bounds(#[trigger] p[i]) && m.visited(p[i])
    &&& forall|i: int| 0 <= i < p.len() - 1 ==> linked(m, #[trigger] p[i], p[i + 1])
}

/// Following parent passages from any visited cell reaches a zero-labelled
/// cell in exactly `steps` moves: the distance label is attained by a path.
pub proof fn lemma_path_to_root(m: Maze, c: Coordinates) -> (p: Seq<Coordinates>)
    requires
        m.wf(),
        edges_ok(m),
        parents_ok(m),
        m.in_bounds(c),
        m.visited(c),
    ensures
        is_path(m, p),
        p.len() == m.steps_at(c) + 1,
        p[0] == c,
        m.steps_at(p[p.len() - 1]) == 0,
        forall|i: int| 0 <= i < p.len() ==> m.steps_at(#[trigger] p[i]) + i == m.steps_at(c),
    decreases m.steps_at(c),
{
    if m.steps_at(c) == 0 {
        let p = seq![c];
        assert(p[0] == c);
        p
    } else {
        assert(m.steps_at(c) > 0);
        let d = choose|d: MoveDirection| #[trigger] is_parent_edge(m, c, d);
        let n = m.edge_at(c, d).unwrap();
        assert(m.edge_at(c, d) == Some(n) && n != c);
        assert(m.visited(n));
        assert(m.steps_at(n) + 1 == m.steps_at(c));
        let rest = lemma_path_to_root(m, n);
        let p = seq![c] + rest;
        assert forall|i: int| 0 <= i < p.len() implies m.in_bounds(#[trigger] p[i])
            && m.visited(p[i]) by {
            if i > 0 {
                assert(p[i] == rest[i - 1]);
            }
        }
        assert forall|i: int| 0 <= i < p.len() - 1 implies linked(m, #[trigger] p[i], p[i + 1]) by {
            if i == 0 {
                assert(p[0] == c && p[1] == rest[0]);
                assert(rest[0] == n);
                assert(m.edge_at(c, d) == Some(n) && n != c);
            } else {
                assert(p[i] == rest[i - 1] && p[i + 1] == rest[i]);
                assert(linked(m, rest[i - 1], rest[i]));
            }
        }
        assert(p[p.len() - 1] == rest[rest.len() - 1]);
        assert forall|i: int| 0 <= i < p.len()
            implies m.steps_at(#[trigger] p[i]) + i == m.steps_at(c) by {
            if i > 0 {
                assert(p[i] == rest[i - 1]);
                assert(m.steps_at(rest[i - 1]) + (i - 1) == m.steps_at(n));
            }
        }
        p
    }
}

/// Labels change by exactly one along every passage, so a walk of `k` moves
/// can lower the label by at most `k`: no path beats the distance label.
pub proof fn lemma_path_steps_bound(m: Maze, p: Seq<Coordinates>)
    requires
        m.wf(),
        edges_ok(m),
        is_path(m, p),
        p.len() >= 1,
    ensures
        m.steps_at(p[0]) <= m.steps_at(p[p.len() - 1]) + p.len() - 1,
    decreases p.len(),
{
    if p.len() > 1 {
        let q = p.subrange(1, p.len() as int);
        assert forall|i: int| 0 <= i < q.len() implies m.in_bounds(#[trigger] q[i])
            && m.visited(q[i]) by {
            assert(q[i] == p[i + 1]);
        }
        assert forall|i: int| 0 <= i < q.len() - 1 implies linked(m, #[trigger] q[i], q[i + 1]) by {
            assert(q[i] == p[i + 1] && q[i + 1] == p[i + 2]);
            assert(linked(m, p[i + 1], p[i + 2]));
        }
        lemma_path_steps_bound(m, q);
        assert(linked(m, p[0], p[1]));
        let d = choose|d: MoveDirection| #[trigger] m.edge_at(p[0], d) == Some(p[1]) && p[1] != p[0];
        assert(m.edge_at(p[0], d) == Some(p[1]));
        assert(m.steps_at(p[0]) <= m.steps_at(p[1]) + 1);
        assert(q[0] == p[1] && q[q.len() - 1] == p[p.len() - 1]);
    }
}

/// With reciprocal passages every walk can be retraced backwards, so being
/// joined to the root is the same seen from either end.
pub proof fn lemma_path_reverse(m: Maze, p: Seq<Coordinates>)
    requires
        m.wf(),
        recip_ok(m),
        is_path(m, p),
    ensures
        is_path(m, p.reverse()),
{
    let r = p.reverse();
    assert forall|i: int| 0 <= i < r.len() implies m.in_bounds(#[trigger] r[i])
        && m.visited(r[i]) by {
        assert(r[i] == p[p.len() - 1 - i]);
    }
    assert forall|i: int| 0 <= i < r.len() - 1 implies linked(m, #[trigger] r[i], r[i + 1]) by {
        let j = p.len() - 2 - i;
        assert(r[i] == p[j + 1] && r[i + 1] == p[j]);
        assert(linked(m, p[j], p[j + 1]));
        let d = choose|d: MoveDirection| #[trigger] m.edge_at(p[j], d) == Some(p[j + 1])
            && p[j + 1] != p[j];
        assert(m.edge_at(p[j], d) == Some(p[j + 1]));
        assert(m.edge_at(p[j + 1], crate::maze::opposite_of(d)) == Some(p[j]));
    }
}

/// The distance label of every cell equals its graph distance to the root:
/// some path of exactly `steps` passages reaches a zero-labelled cell, and
/// every path to a zero-labelled cell uses at least that many passages.
pub proof fn lemma_distance_is_graph_distance(m: Maze, c: Coordinates) -> (p: Seq<Coordinates>)
    requires
        m.wf(),
        edges_ok(m),
        parents_ok(m),
        m.in_bounds(c),
        m.visited(c),
    ensures
        is_path(m, p),
        p[0] == c,
        p.len() == m.steps_at(c) + 1,
        m.steps_at(p[p.len() - 1]) == 0,
        forall|q: Seq<Coordinates>|
            is_path(m, q) && q.len() >= 1 && q[0] == c && m.steps_at(#[trigger] q[q.len() - 1]) == 0
                ==> q.len() >= m.steps_at(c) + 1,
{
    let p = lemma_path_to_root(m, c);
    assert forall|q: Seq<Coordinates>|
        is_path(m, q) && q.len() >= 1 && q[0] == c && m.steps_at(#[trigger] q[q.len() - 1]) == 0
        implies q.len() >= m.steps_at(c) + 1 by {
        lemma_path_steps_bound(m, q);
    }
    p
}

} // verus!
