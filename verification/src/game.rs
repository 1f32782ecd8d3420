//! The game state around a carved maze: the live player position, the fixed
//! exit, and a breadcrumb trail of the walked path, with manual movement and
//! label-guided automatic movement.

use vstd::prelude::*;
use rand::rngs::StdRng;
use crate::maze::{
    Maze, Coordinates, Direction, step_of, edges_ok, parents_ok, recip_ok,
    coords_ok, is_parent_edge, lemma_unvisited_count_full, lemma_area_fits, opposite_of,
    neighbor_in, real_edge_count, node_real_deg, dir_contrib,
    lemma_real_edge_count_blank, lemma_unvisited_count_exact,
};
pub use crate::maze::MoveDirection;
use crate::paths::lemma_grid_connected;
use crate::rng::rng_range;

verus! {

/// Which way a play session runs: interactive moves, or an automated solve
/// that the session merely watches.
#[derive(Clone, Copy, PartialEq, Eq, Structural, Debug)]
pub enum GameMode {
    Play,
    Watch,
}

/// Why a move request was refused.
#[derive(Clone, Copy, PartialEq, Eq, Structural, Debug)]
pub enum GameError {
    /// The player coordinate has no cell: an internal-consistency failure.
    PlayerOutsideMaze,
    /// The requested direction has no passage; nothing changed.
    NoPassage,
}

pub struct Game {
    pub maze: Maze,
    pub player_coordinates: Coordinates,
    pub end_coordinates: Coordinates,
    pub breadcrumbs: Vec<Coordinates>,
    pub enable_breadcrumbs: bool,
}

/// How one successful move rewrites the breadcrumb trail: stepping onto the
/// most recent breadcrumb retraces it (pop), anything else extends the walked
/// path with the cell just left (push).
pub open spec fn crumbs_after(
    t: Seq<Coordinates>,
    player: Coordinates,
    target: Coordinates,
) -> Seq<Coordinates> {
    if t.len() > 0 && t[t.len() - 1] == target {
        t.drop_last()
    } else {
        t.push(player)
    }
}

/// One pass of the label scan: a candidate passage beats the best found so
/// far only with a strictly smaller distance label.
pub open spec fn scan_step(
    m: Maze,
    e: Option<Coordinates>,
    best: Option<Coordinates>,
    best_steps: usize,
) -> (Option<Coordinates>, usize) {
    match e {
        Some(t) => if m.steps_at(t) < best_steps {
            (Some(t), m.steps_at(t))
        } else {
            (best, best_steps)
        },
        None => (best, best_steps),
    }
}

/// Where a manual move in direction `d` goes from `c`: along the passage
/// in that slot, if there is one and it is a real passage — a boundary
/// self marker opens no way out of the cell.
pub open spec fn move_target(m: Maze, c: Coordinates, d: MoveDirection) -> Option<Coordinates> {
    match m.edge_at(c, d) {
        Some(t) => if t == c {
            None
        } else {
            Some(t)
        },
        None => None,
    }
}

/// Where the label-guided automatic move goes from `c`: the first passage
/// found, scanning up, down, left, right, whose cell's label strictly
/// undercuts every label seen before (starting from `c`'s own label); absent
/// any strictly smaller label, nowhere.
pub open spec fn auto_move_target(m: Maze, c: Coordinates) -> Option<Coordinates> {
    let s0 = m.steps_at(c);
    let r1 = scan_step(m, m.edge_at(c, MoveDirection::Up), None, s0);
    let r2 = scan_step(m, m.edge_at(c, MoveDirection::Down), r1.0, r1.1);
    let r3 = scan_step(m, m.edge_at(c, MoveDirection::Left), r2.0, r2.1);
    let r4 = scan_step(m, m.edge_at(c, MoveDirection::Right), r3.0, r3.1);
    r4.0
}

impl Game {
    /// A well-formed play session: the maze is fully carved, its passages
    /// keep the spanning-tree shape, the player and the exit lie on the
    /// grid, and the exit is the unique cell labelled zero.
    pub open spec fn wf(self) -> bool {
        &&& self.maze.wf()
        &&& self.maze.height >= 1
        &&& self.maze.width >= 1
        &&& self.maze.in_bounds(self.player_coordinates)
        &&& self.maze.in_bounds(self.end_coordinates)
        &&& forall|c: Coordinates| self.maze.in_bounds(c) ==> #[trigger] self.maze.visited(c)
        &&& edges_ok(self.maze)
        &&& parents_ok(self.maze)
        &&& recip_ok(self.maze)
        &&& coords_ok(self.maze)
        &&& self.maze.steps_at(self.end_coordinates) == 0
        &&& forall|c: Coordinates|
                self.maze.in_bounds(c) && #[trigger] self.maze.steps_at(c) == 0
                    ==> c == self.end_coordinates
        &&& forall|c: Coordinates|
                self.maze.in_bounds(c)
                    ==> ((#[trigger] self.maze.steps_at(c)) as int)
                        < self.maze.height * self.maze.width
    }

    /// Builds a session around a blank maze: carves it from a random exit on
    /// the bottom row, opens an entrance above a random start on the top row,
    /// and puts the player on the start.
    pub fn new(maze: Maze, enable_breadcrumbs: bool, rng: &mut StdRng) -> (g: Game)
        requires
            maze.wf(),
            maze.height >= 1,
            maze.width >= 1,
            forall|c: Coordinates| maze.in_bounds(c) ==> !(#[trigger] maze.visited(c)),
        ensures
            g.wf(),
            g.maze.height == maze.height,
            g.maze.width == maze.width,
            g.enable_breadcrumbs == enable_breadcrumbs,
            g.breadcrumbs@.len() == 0,
            g.player_coordinates.y == 0,
            0 <= g.player_coordinates.x < maze.width as int,
            g.end_coordinates.y as int == maze.height - 1,
            0 <= g.end_coordinates.x < maze.width as int,
            // a spanning tree: counted from both ends, one passage fewer
            // than the maze has cells
            real_edge_count(g.maze) as int == 2 * (maze.height as int * maze.width as int) - 2,
            // the entrance: an open boundary marker above the start cell
            g.maze.edge_at(g.player_coordinates, MoveDirection::Up)
                == Some(g.player_coordinates),
            // and no boundary marker sits anywhere else
            forall|c: Coordinates, d: MoveDirection|
                g.maze.in_bounds(c) && #[trigger] g.maze.edge_at(c, d) == Some(c)
                    ==> (c == g.player_coordinates && d == MoveDirection::Up)
                        || (c == g.end_coordinates && d == MoveDirection::Down),
    {
        let width = maze.width();
        let height = maze.height();

        let sx = rng_range(rng, 0, width);
        let ex = rng_range(rng, 0, width);
        let start = Coordinates::new(sx as i32, 0);
        let end = Coordinates::new(ex as i32, (height - 1) as i32);

        let mut maze = maze;
        let ghost m_blank = maze;
        proof {
            lemma_unvisited_count_full(m_blank);
        }
        let carved = maze.generate(Direction::Down(end), end, 0, rng);
        proof {
            assert(m_blank.in_bounds(end));
            assert(carved is Some);
            assert forall|c: Coordinates, d: MoveDirection|
                #![trigger maze.visited(c), step_of(c, d)]
                maze.in_bounds(c) && maze.visited(c) && maze.in_bounds(step_of(c, d))
                implies maze.visited(step_of(c, d)) by {
                assert(!m_blank.visited(c));
            }
            lemma_grid_connected(maze, end);
            // passages are reciprocal: the root's entry slot is a self marker
            // or was replaced by a reciprocated passage to a child
            assert forall|c: Coordinates, d: MoveDirection|
                #![trigger maze.edge_at(c, d)]
                maze.in_bounds(c) && maze.visited(c) implies match maze.edge_at(c, d) {
                    Some(n) => n == c || maze.edge_at(n, opposite_of(d)) == Some(c),
                    None => true,
                } by {
                assert(!m_blank.visited(c));
                if c == end && d == MoveDirection::Down {
                    assert(maze.edge_at(end, MoveDirection::Down) == Some(end)
                        || match maze.edge_at(end, MoveDirection::Down) {
                            Some(n) => n != end
                                && maze.edge_at(n, MoveDirection::Up) == Some(end),
                            None => false,
                        });
                }
            }
            assert(recip_ok(maze));
            // count the carved passages: none before, a full tree after
            lemma_real_edge_count_blank(m_blank);
            lemma_unvisited_count_exact(m_blank, false);
            lemma_unvisited_count_exact(maze, true);
            assert(real_edge_count(maze) as int
                == 2 * (m_blank.height as int * m_blank.width as int) - 2);
            // only the root is labelled zero
            assert forall|c: Coordinates|
                #![trigger maze.steps_at(c)]
                maze.in_bounds(c) && maze.steps_at(c) == 0 implies c == end by {
                assert(maze.visited(c));
                assert(!m_blank.visited(c));
            }
        }

        // open the entrance above the start cell
        let snode = *maze.get_node(&start).unwrap();
        let ghost m_carved = maze;
        let mut snode2 = snode;
        snode2.add_edge(Direction::Up(start));
        maze.set_node(start, snode2);
        proof {
            assert(maze.node_at(start) == snode2);
            assert(forall|d: MoveDirection| d != MoveDirection::Up
                ==> maze.edge_at(start, d) == m_carved.edge_at(start, d));
            assert(maze.edge_at(start, MoveDirection::Up) == Some(start));
            assert forall|c: Coordinates| maze.in_bounds(c) && c != start
                implies maze.node_at(c) == m_carved.node_at(c) by {}
            assert forall|c: Coordinates| maze.in_bounds(c)
                implies #[trigger] maze.visited(c) && maze.steps_at(c) == m_carved.steps_at(c)
                    && maze.node_at(c).coordinates == c by {
                if c != start {
                    assert(maze.node_at(c) == m_carved.node_at(c));
                }
                assert(m_carved.visited(c));
            }
            // passages still step one label and stay in bounds
            assert forall|c: Coordinates, d: MoveDirection|
                #![trigger maze.edge_at(c, d)]
                maze.in_bounds(c) && maze.visited(c)
                implies crate::maze::edge_ok_at(maze, c, d) by {
                let e = maze.edge_at(c, d);
                if c == start && d == MoveDirection::Up {
                } else {
                    assert(e == m_carved.edge_at(c, d));
                    assert(crate::maze::edge_ok_at(m_carved, c, d));
                    match e {
                        Some(n) => {
                            if n != c {
                                assert(m_carved.visited(n));
                            }
                        },
                        None => {},
                    }
                }
            }
            assert(edges_ok(maze));
            // the entrance marker is no parent passage, so unique parents stay
            assert forall|c: Coordinates|
                #![trigger maze.steps_at(c)]
                maze.in_bounds(c) && maze.visited(c) && maze.steps_at(c) > 0
                implies (exists|d: MoveDirection| #[trigger] is_parent_edge(maze, c, d))
                    && (forall|d1: MoveDirection, d2: MoveDirection|
                        is_parent_edge(maze, c, d1) && is_parent_edge(maze, c, d2)
                            ==> d1 == d2) by {
                assert(m_carved.visited(c) && m_carved.steps_at(c) == maze.steps_at(c));
                assert forall|d: MoveDirection|
                    is_parent_edge(m_carved, c, d) == #[trigger] is_parent_edge(maze, c, d) by {
                    let e0 = m_carved.edge_at(c, d);
                    let e1 = maze.edge_at(c, d);
                    if c == start && d == MoveDirection::Up {
                        // in either maze this slot is no parent: its target is
                        // the start itself or out of bounds above the top row
                        assert(crate::maze::edge_ok_at(m_carved, c, d));
                        assert(!is_parent_edge(maze, c, d));
                        assert(!is_parent_edge(m_carved, c, d));
                    } else {
                        assert(e0 == e1);
                    }
                }
                let d0 = choose|d: MoveDirection| #[trigger] is_parent_edge(m_carved, c, d);
                assert(is_parent_edge(maze, c, d0));
            }
            assert(parents_ok(maze));
            // the entrance marker is a self-loop, so reciprocity stays
            assert forall|c: Coordinates, d: MoveDirection|
                #![trigger maze.edge_at(c, d)]
                maze.in_bounds(c) && maze.visited(c) implies match maze.edge_at(c, d) {
                    Some(n) => n == c || maze.edge_at(n, opposite_of(d)) == Some(c),
                    None => true,
                } by {
                let e = maze.edge_at(c, d);
                if !(c == start && d == MoveDirection::Up) {
                    assert(e == m_carved.edge_at(c, d));
                    match e {
                        Some(n) => {
                            if n != c {
                                assert(m_carved.edge_at(n, opposite_of(d)) == Some(c));
                                if n == start && opposite_of(d) == MoveDirection::Up {
                                    // then c would sit above the top row
                                    assert(crate::maze::edge_ok_at(m_carved, n, opposite_of(d)));
                                    assert(neighbor_in(n, opposite_of(d), c));
                                    assert(c.y == n.y - 1);
                                    assert(false);
                                } else if n == start {
                                    assert(maze.edge_at(n, opposite_of(d))
                                        == m_carved.edge_at(n, opposite_of(d)));
                                }
                            }
                        },
                        None => {},
                    }
                }
            }
        }

        proof {
            assert(recip_ok(maze));
            assert(coords_ok(maze));
            // the entrance marker is not a real passage: the count stands
            assert(snode == m_carved.node_at(start));
            assert(snode.coordinates == start);
            assert(snode2.coordinates == start);
            assert(dir_contrib(snode2, MoveDirection::Up) == 0);
            match m_carved.edge_at(start, MoveDirection::Up) {
                Some(x) => {
                    if x != start {
                        assert(crate::maze::edge_ok_at(m_carved, start, MoveDirection::Up));
                        assert(neighbor_in(start, MoveDirection::Up, x));
                        assert(!m_carved.in_bounds(x));
                        assert(false);
                    }
                },
                None => {},
            }
            assert(dir_contrib(snode, MoveDirection::Up) == 0);
            assert(forall|d: MoveDirection| d != MoveDirection::Up
                ==> snode2.edge_spec(d) == snode.edge_spec(d));
            assert(node_real_deg(snode2) == node_real_deg(snode));
            crate::maze::lemma_real_edge_count_update(m_carved, maze, start);
            assert(real_edge_count(maze) == real_edge_count(m_carved));
            // the exit keeps its zero label and stays the only zero
            assert(maze.steps_at(end) == m_carved.steps_at(end));
            assert forall|c: Coordinates|
                #![trigger maze.steps_at(c)]
                maze.in_bounds(c) && maze.steps_at(c) == 0 implies c == end by {
                assert(maze.steps_at(c) == m_carved.steps_at(c));
            }
            // labels stay below the cell count
            assert forall|c: Coordinates|
                #![trigger maze.steps_at(c)]
                maze.in_bounds(c)
                implies (maze.steps_at(c) as int) < maze.height * maze.width by {
                assert(m_carved.visited(c) && !m_blank.visited(c));
                assert(maze.steps_at(c) == m_carved.steps_at(c));
            }
            // boundary markers stand only above the start and below the exit
            assert forall|c: Coordinates, d: MoveDirection|
                maze.in_bounds(c) && #[trigger] maze.edge_at(c, d) == Some(c)
                implies (c == start && d == MoveDirection::Up)
                    || (c == end && d == MoveDirection::Down) by {
                if !(c == start && d == MoveDirection::Up) {
                    assert(maze.edge_at(c, d) == m_carved.edge_at(c, d));
                    assert(m_carved.visited(c) && !m_blank.visited(c));
                }
            }
            lemma_area_fits(maze.height, maze.width);
        }
        let breadcrumbs: Vec<Coordinates> = Vec::with_capacity(width * height);
        Game {
            maze,
            player_coordinates: start,
            end_coordinates: end,
            breadcrumbs,
            enable_breadcrumbs,
        }
    }

    pub fn maze(&self) -> (r: &Maze)
        ensures
            r == &self.maze,
    {
        &self.maze
    }

    pub fn player(&self) -> (r: &Coordinates)
        ensures
            r == &self.player_coordinates,
    {
        &self.player_coordinates
    }

    pub fn end(&self) -> (r: &Coordinates)
        ensures
            r == &self.end_coordinates,
    {
        &self.end_coordinates
    }

    /// The trail, when its display is enabled; its maintenance never stops.
    pub fn breadcrumbs(&self) -> (r: Option<&Vec<Coordinates>>)
        ensures
            match r {
                Some(v) => self.enable_breadcrumbs && v == &self.breadcrumbs,
                None => !self.enable_breadcrumbs,
            },
    {
        if self.enable_breadcrumbs {
            return Some(&self.breadcrumbs);
        }
        None
    }

    /// Moves the player along the passage in `direction`, if there is one;
    /// with no passage that way — a wall, or a mere boundary marker —
    /// nothing at all changes and the caller is told there is no passage.
    /// A player coordinate off the grid (an invariant violation no session
    /// produces) is answered, not trusted: nothing changes and the caller is
    /// told the player stands outside the maze.
    pub fn move_player(&mut self, direction: MoveDirection) -> (r: Result<(), GameError>)
        requires
            old(self).maze.wf(),
        ensures
            final(self).maze == old(self).maze,
            final(self).end_coordinates == old(self).end_coordinates,
            final(self).enable_breadcrumbs == old(self).enable_breadcrumbs,
            old(self).wf() ==> final(self).wf(),
            !old(self).maze.in_bounds(old(self).player_coordinates)
                ==> r == Err::<(), GameError>(GameError::PlayerOutsideMaze)
                    && *final(self) == *old(self),
            old(self).maze.in_bounds(old(self).player_coordinates)
                ==> match move_target(old(self).maze, old(self).player_coordinates, direction) {
                    Some(t) => {
                        &&& r is Ok
                        &&& final(self).player_coordinates == t
                        &&& final(self).breadcrumbs@ == crumbs_after(
                            old(self).breadcrumbs@,
                            old(self).player_coordinates,
                            t,
                        )
                    },
                    None => r == Err::<(), GameError>(GameError::NoPassage)
                        && *final(self) == *old(self),
                },
    {
        let curr_node = match self.maze.get_node(&self.player_coordinates) {
            Some(n) => *n,
            None => {
                return Err(GameError::PlayerOutsideMaze);
            },
        };
        let next_coordinates = match curr_node.edge(direction) {
            Some(t) => t,
            None => {
                return Err(GameError::NoPassage);
            },
        };
        if next_coordinates == self.player_coordinates {
            return Err(GameError::NoPassage);
        }
        proof {
            if old(self).wf() {
                // the passage leads to a real neighbour, which is on the grid
                assert(crate::maze::edge_ok_at(self.maze, self.player_coordinates, direction));
            }
        }
        self.update_player(next_coordinates);
        Ok(())
    }

    /// Teleports the player to an arbitrary in-bounds cell, keeping the
    /// trail's backtracking discipline; the watching solver drives this.
    pub fn move_player_coordinates(&mut self, coordinates: Coordinates)
        requires
            old(self).wf(),
            old(self).maze.in_bounds(coordinates),
        ensures
            final(self).wf(),
            final(self).maze == old(self).maze,
            final(self).end_coordinates == old(self).end_coordinates,
            final(self).enable_breadcrumbs == old(self).enable_breadcrumbs,
            final(self).player_coordinates == coordinates,
            final(self).breadcrumbs@ == crumbs_after(
                old(self).breadcrumbs@,
                old(self).player_coordinates,
                coordinates,
            ),
    {
        self.update_player(coordinates);
    }

    /// One step of greedy descent along the distance labels: moves to the
    /// neighbouring cell with the strictly smallest label, which under the
    /// spanning-tree shape is the unique cell one label down; at the exit
    /// (label zero) nothing changes. Repeating this therefore reaches the
    /// exit in exactly as many calls as the starting cell's label.
    /// As with a manual move, a player coordinate off the grid is answered
    /// with an error and no state change rather than trusted.
    pub fn auto_move(&mut self) -> (r: Result<(), GameError>)
        requires
            old(self).maze.wf(),
            old(self).wf() || !old(self).maze.in_bounds(old(self).player_coordinates),
        ensures
            final(self).maze == old(self).maze,
            final(self).end_coordinates == old(self).end_coordinates,
            final(self).enable_breadcrumbs == old(self).enable_breadcrumbs,
            old(self).wf() ==> final(self).wf(),
            !old(self).maze.in_bounds(old(self).player_coordinates)
                ==> r == Err::<(), GameError>(GameError::PlayerOutsideMaze)
                    && *final(self) == *old(self),
            old(self).wf() ==> r is Ok,
            old(self).wf() ==> match auto_move_target(
                old(self).maze,
                old(self).player_coordinates,
            ) {
                Some(t) => {
                    &&& final(self).player_coordinates == t
                    &&& final(self).breadcrumbs@ == crumbs_after(
                        old(self).breadcrumbs@,
                        old(self).player_coordinates,
                        t,
                    )
                },
                None => *final(self) == *old(self),
            },
            old(self).wf() && old(self).maze.steps_at(old(self).player_coordinates) > 0
                ==> final(self).maze.steps_at(final(self).player_coordinates) + 1
                    == old(self).maze.steps_at(old(self).player_coordinates),
            old(self).wf() && old(self).maze.steps_at(old(self).player_coordinates) == 0
                ==> *final(self) == *old(self),
    {
        let ghost m = self.maze;
        let ghost c = self.player_coordinates;
        let curr_node = match self.maze.get_node(&self.player_coordinates) {
            Some(n) => *n,
            None => {
                return Err(GameError::PlayerOutsideMaze);
            },
        };
        let s0 = curr_node.get_steps();
        let mut best: Option<Coordinates> = None;
        let mut best_steps: usize = s0;

        let e_up = curr_node.edge(MoveDirection::Up);
        proof { assert(crate::maze::edge_ok_at(m, c, MoveDirection::Up)); }
        if let Some(t) = e_up {
            let steps = self.maze.get_node(&t).unwrap().get_steps();
            if steps < best_steps {
                best = Some(t);
                best_steps = steps;
            }
        }
        let e_down = curr_node.edge(MoveDirection::Down);
        proof { assert(crate::maze::edge_ok_at(m, c, MoveDirection::Down)); }
        if let Some(t) = e_down {
            let steps = self.maze.get_node(&t).unwrap().get_steps();
            if steps < best_steps {
                best = Some(t);
                best_steps = steps;
            }
        }
        let e_left = curr_node.edge(MoveDirection::Left);
        proof { assert(crate::maze::edge_ok_at(m, c, MoveDirection::Left)); }
        if let Some(t) = e_left {
            let steps = self.maze.get_node(&t).unwrap().get_steps();
            if steps < best_steps {
                best = Some(t);
                best_steps = steps;
            }
        }
        let e_right = curr_node.edge(MoveDirection::Right);
        proof { assert(crate::maze::edge_ok_at(m, c, MoveDirection::Right)); }
        if let Some(t) = e_right {
            let steps = self.maze.get_node(&t).unwrap().get_steps();
            if steps < best_steps {
                best = Some(t);
                best_steps = steps;
            }
        }

        proof {
            assert(best == auto_move_target(m, c));
            if m.steps_at(c) > 0 {
                // the unique parent passage is scanned, and nothing beats it
                let d0 = choose|d: MoveDirection| #[trigger] is_parent_edge(m, c, d);
                assert(crate::maze::edge_ok_at(m, c, d0));
                assert(match best {
                    Some(t) => m.steps_at(t) + 1 == m.steps_at(c),
                    None => false,
                });
            }
        }
        match best {
            Some(t) => {
                self.update_player(t);
            },
            None => {},
        }
        Ok(())
    }

    /// Records a successful move: retracing the newest breadcrumb pops it,
    /// any other move pushes the cell being left; then the player moves.
    fn update_player(&mut self, coordinates: Coordinates)
        ensures
            old(self).wf() && old(self).maze.in_bounds(coordinates) ==> final(self).wf(),
            final(self).maze == old(self).maze,
            final(self).end_coordinates == old(self).end_coordinates,
            final(self).enable_breadcrumbs == old(self).enable_breadcrumbs,
            final(self).player_coordinates == coordinates,
            final(self).breadcrumbs@ == crumbs_after(
                old(self).breadcrumbs@,
                old(self).player_coordinates,
                coordinates,
            ),
    {
        let len = self.breadcrumbs.len();
        if len > 0 && self.breadcrumbs[len - 1] == coordinates {
            self.breadcrumbs.pop();
        } else {
            self.breadcrumbs.push(self.player_coordinates);
        }
        self.player_coordinates = coordinates;
    }

    /// Flips whether the trail is shown; its contents are untouched.
    pub fn toggle_breadcrumbs(&mut self)
        ensures
            final(self).enable_breadcrumbs == !old(self).enable_breadcrumbs,
            final(self).maze == old(self).maze,
            final(self).player_coordinates == old(self).player_coordinates,
            final(self).end_coordinates == old(self).end_coordinates,
            final(self).breadcrumbs == old(self).breadcrumbs,
    {
        self.enable_breadcrumbs = !self.enable_breadcrumbs;
    }
}

/// Every cell of a live session's maze is joined to the exit by a walk along
/// carved passages of exactly its distance label's length: the maze is
/// connected, and the exit is where every label-descent ends.
pub proof fn lemma_every_cell_reaches_exit(g: Game, c: Coordinates) -> (p: Seq<Coordinates>)
    requires
        g.wf(),
        g.maze.in_bounds(c),
    ensures
        crate::paths::is_path(g.maze, p),
        p[0] == c,
        p[p.len() - 1] == g.end_coordinates,
        p.len() == g.maze.steps_at(c) + 1,
{
    assert(g.maze.visited(c));
    let p = crate::paths::lemma_path_to_root(g.maze, c);
    assert(g.maze.steps_at(p[p.len() - 1]) == 0);
    assert(g.maze.in_bounds(p[p.len() - 1]));
    p
}

/// Moving from `a` onto `b` and immediately back restores the trail exactly,
/// whatever it held, provided the trail could not already show `a` two
/// entries from its end — true of any simply-walked trail, since `a` is
/// where the player stands.
pub proof fn lemma_backtrack_restores_trail(t: Seq<Coordinates>, a: Coordinates, b: Coordinates)
    requires
        a != b,
        t.len() >= 2 && t[t.len() - 1] == b ==> t[t.len() - 2] != a,
    ensures
        crumbs_after(crumbs_after(t, a, b), b, a) == t,
{
    if t.len() > 0 && t[t.len() - 1] == b {
        let t1 = t.drop_last();
        if t1.len() > 0 && t1[t1.len() - 1] == a {
            assert(false);
        } else {
            assert(t1.push(b) =~= t);
        }
    } else {
        let t1 = t.push(a);
        assert(t1[t1.len() - 1] == a);
        assert(t1.drop_last() =~= t);
    }
}

} // verus!
