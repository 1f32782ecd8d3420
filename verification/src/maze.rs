//! The maze: a rectangular grid of nodes, each holding up to four optional
//! passages to orthogonal neighbours and a distance label, together with the
//! randomized depth-first generator that carves a spanning tree into it.

use vstd::prelude::*;
use rand::rngs::StdRng;
use crate::rng::rng_range;

verus! {

/// The largest side length a maze may have: coordinates stay far inside
/// `i32`, and the cell count fits `usize` on any machine.
pub const MAX_DIM: usize = 65535;

/// A plain compass direction. The game's movement API takes one of these,
/// and the maze's specification functions quantify over them.
#[derive(Clone, Copy, PartialEq, Eq, Structural, Debug)]
pub enum MoveDirection {
    Up,
    Down,
    Left,
    Right,
}

pub open spec fn opposite_of(d: MoveDirection) -> MoveDirection {
    match d {
        MoveDirection::Up => MoveDirection::Down,
        MoveDirection::Down => MoveDirection::Up,
        MoveDirection::Left => MoveDirection::Right,
        MoveDirection::Right => MoveDirection::Left,
    }
}

/// A 2-D integer grid position. `x` grows rightward, `y` grows downward.
#[derive(Clone, Copy, PartialEq, Eq, Structural, Debug)]
pub struct Coordinates {
    pub x: i32,
    pub y: i32,
}

impl Default for Coordinates {
    fn default() -> (r: Self)
        ensures
            r.x == 0 && r.y == 0,
    {
        Coordinates { x: 0, y: 0 }
    }
}

/// `n` is the grid cell one step in direction `d` from `c`.
pub open spec fn neighbor_in(c: Coordinates, d: MoveDirection, n: Coordinates) -> bool {
    match d {
        MoveDirection::Up => n.x == c.x && n.y == c.y - 1,
        MoveDirection::Down => n.x == c.x && n.y == c.y + 1,
        MoveDirection::Left => n.x == c.x - 1 && n.y == c.y,
        MoveDirection::Right => n.x == c.x + 1 && n.y == c.y,
    }
}

/// A directed step out of a cell: the slot it occupies in the cell's edge
/// record, and the coordinate it leads to.
#[derive(Clone, Copy, PartialEq, Eq, Structural, Debug)]
pub enum Direction {
    Up(Coordinates),
    Down(Coordinates),
    Left(Coordinates),
    Right(Coordinates),
}

impl Direction {
    /// The coordinate this step leads to.
    pub open spec fn target(self) -> Coordinates {
        match self {
            Direction::Up(c) => c,
            Direction::Down(c) => c,
            Direction::Left(c) => c,
            Direction::Right(c) => c,
        }
    }

    /// The edge slot this step occupies.
    pub open spec fn slot(self) -> MoveDirection {
        match self {
            Direction::Up(_) => MoveDirection::Up,
            Direction::Down(_) => MoveDirection::Down,
            Direction::Left(_) => MoveDirection::Left,
            Direction::Right(_) => MoveDirection::Right,
        }
    }

    pub fn get_coordinates(&self) -> (r: Coordinates)
        ensures
            r == self.target(),
    {
        match self {
            Direction::Up(c) => *c,
            Direction::Down(c) => *c,
            Direction::Left(c) => *c,
            Direction::Right(c) => *c,
        }
    }

    /// The same undirected passage seen from the cell this step leads to.
    pub fn opposite(&self) -> (r: Direction)
        requires
            i32::MIN < self.target().x < i32::MAX,
            i32::MIN < self.target().y < i32::MAX,
        ensures
            r.slot() == opposite_of(self.slot()),
            neighbor_in(self.target(), opposite_of(self.slot()), r.target()),
    {
        match self {
            Direction::Up(c) => Direction::Down(Coordinates { x: c.x, y: c.y + 1 }),
            Direction::Down(c) => Direction::Up(Coordinates { x: c.x, y: c.y - 1 }),
            Direction::Left(c) => Direction::Right(Coordinates { x: c.x + 1, y: c.y }),
            Direction::Right(c) => Direction::Left(Coordinates { x: c.x - 1, y: c.y }),
        }
    }
}

impl Coordinates {
    pub fn new(x: i32, y: i32) -> (r: Self)
        ensures
            r.x == x && r.y == y,
    {
        Self { x, y }
    }

    pub open spec fn up_spec(self) -> Direction {
        Direction::Up(Coordinates { x: self.x, y: (self.y - 1) as i32 })
    }

    pub open spec fn down_spec(self) -> Direction {
        Direction::Down(Coordinates { x: self.x, y: (self.y + 1) as i32 })
    }

    pub open spec fn left_spec(self) -> Direction {
        Direction::Left(Coordinates { x: (self.x - 1) as i32, y: self.y })
    }

    pub open spec fn right_spec(self) -> Direction {
        Direction::Right(Coordinates { x: (self.x + 1) as i32, y: self.y })
    }

    fn up(&self) -> (r: Direction)
        requires
            self.y > i32::MIN,
        ensures
            r == self.up_spec(),
    {
        Direction::Up(Coordinates { x: self.x, y: self.y - 1 })
    }

    fn down(&self) -> (r: Direction)
        requires
            self.y < i32::MAX,
        ensures
            r == self.down_spec(),
    {
        Direction::Down(Coordinates { x: self.x, y: self.y + 1 })
    }

    fn left(&self) -> (r: Direction)
        requires
            self.x > i32::MIN,
        ensures
            r == self.left_spec(),
    {
        Direction::Left(Coordinates { x: self.x - 1, y: self.y })
    }

    fn right(&self) -> (r: Direction)
        requires
            self.x < i32::MAX,
        ensures
            r == self.right_spec(),
    {
        Direction::Right(Coordinates { x: self.x + 1, y: self.y })
    }

    /// The four steps out of this cell, in a uniformly random order.
    fn get_random_directions(&self, rng: &mut StdRng) -> (r: Vec<Direction>)
        requires
            i32::MIN < self.x < i32::MAX,
            i32::MIN < self.y < i32::MAX,
        ensures
            r@.len() == 4,
            forall|k: int| 0 <= k < 4 ==> dir_of(*self, #[trigger] r@[k]),
            exists|k: int| 0 <= k < 4 && r@[k] == self.up_spec(),
            exists|k: int| 0 <= k < 4 && r@[k] == self.down_spec(),
            exists|k: int| 0 <= k < 4 && r@[k] == self.left_spec(),
            exists|k: int| 0 <= k < 4 && r@[k] == self.right_spec(),
    {
        let mut directions: Vec<Direction> = Vec::new();
        directions.push(self.up());
        directions.push(self.down());
        directions.push(self.left());
        directions.push(self.right());
        assert(directions@[0] == self.up_spec());
        assert(directions@[1] == self.down_spec());
        assert(directions@[2] == self.left_spec());
        assert(directions@[3] == self.right_spec());
        let mut i: usize = 0;
        while i < 3
            invariant
                i <= 3,
                directions@.len() == 4,
                forall|k: int| 0 <= k < 4 ==> dir_of(*self, #[trigger] directions@[k]),
                exists|k: int| 0 <= k < 4 && directions@[k] == self.up_spec(),
                exists|k: int| 0 <= k < 4 && directions@[k] == self.down_spec(),
                exists|k: int| 0 <= k < 4 && directions@[k] == self.left_spec(),
                exists|k: int| 0 <= k < 4 && directions@[k] == self.right_spec(),
            decreases 3 - i,
        {
            let ghost pre = directions@;
            let j = rng_range(rng, i + 1, 4);
            let a = directions[i];
            let b = directions[j];
            directions[i] = b;
            directions[j] = a;
            proof {
                assert(directions@ == pre.update(i as int, pre[j as int]).update(
                    j as int, pre[i as int]));
                lemma_swap_keeps_member(pre, directions@, i as int, j as int, self.up_spec());
                lemma_swap_keeps_member(pre, directions@, i as int, j as int, self.down_spec());
                lemma_swap_keeps_member(pre, directions@, i as int, j as int, self.left_spec());
                lemma_swap_keeps_member(pre, directions@, i as int, j as int, self.right_spec());
            }
            i = i + 1;
        }
        directions
    }
}

proof fn lemma_swap_keeps_member(s1: Seq<Direction>, s2: Seq<Direction>, i: int, j: int, v: Direction)
    requires
        0 <= i < s1.len(),
        0 <= j < s1.len(),
        s2 == s1.update(i, s1[j]).update(j, s1[i]),
        exists|k: int| 0 <= k < s1.len() && s1[k] == v,
    ensures
        exists|k: int| 0 <= k < s2.len() && s2[k] == v,
{
    let k = choose|k: int| 0 <= k < s1.len() && s1[k] == v;
    if k == j {
        assert(s2[i] == v);
    } else if k == i {
        assert(s2[j] == v);
    } else {
        assert(s2[k] == v);
    }
}

/// `dir` is one of the four single steps out of `c`.
pub open spec fn dir_of(c: Coordinates, dir: Direction) -> bool {
    ||| dir == c.up_spec()
    ||| dir == c.down_spec()
    ||| dir == c.left_spec()
    ||| dir == c.right_spec()
}

/// One grid cell: its own position, a distance label (`steps`), and up to one
/// passage per direction. An absent passage is a wall.
#[derive(Clone, Copy, Debug)]
pub struct Node {
    pub steps: usize,
    pub coordinates: Coordinates,
    pub up: Option<Coordinates>,
    pub down: Option<Coordinates>,
    pub left: Option<Coordinates>,
    pub right: Option<Coordinates>,
}

impl Default for Node {
    fn default() -> (r: Self)
        ensures
            r.steps == 0,
            r.coordinates == (Coordinates { x: 0, y: 0 }),
            r.up is None && r.down is None && r.left is None && r.right is None,
    {
        Node {
            steps: 0,
            coordinates: Coordinates { x: 0, y: 0 },
            up: None,
            down: None,
            left: None,
            right: None,
        }
    }
}

impl Node {
    /// The passage recorded in slot `d`.
    pub open spec fn edge_spec(self, d: MoveDirection) -> Option<Coordinates> {
        match d {
            MoveDirection::Up => self.up,
            MoveDirection::Down => self.down,
            MoveDirection::Left => self.left,
            MoveDirection::Right => self.right,
        }
    }

    /// A cell counts as visited by the generator once any passage is set.
    pub open spec fn is_visited(self) -> bool {
        self.up is Some || self.down is Some || self.left is Some || self.right is Some
    }

    pub fn add_edge(&mut self, direction: Direction)
        ensures
            final(self).edge_spec(direction.slot()) == Some(direction.target()),
            forall|d: MoveDirection| d != direction.slot()
                ==> final(self).edge_spec(d) == old(self).edge_spec(d),
            final(self).steps == old(self).steps,
            final(self).coordinates == old(self).coordinates,
    {
        match direction {
            Direction::Up(c) => self.up = Some(c),
            Direction::Down(c) => self.down = Some(c),
            Direction::Left(c) => self.left = Some(c),
            Direction::Right(c) => self.right = Some(c),
        }
    }

    fn set_coordinates(&mut self, coordinates: Coordinates)
        ensures
            *final(self) == (Node { coordinates, ..*old(self) }),
    {
        self.coordinates = coordinates;
    }

    fn has_edges(&self) -> (r: bool)
        ensures
            r == self.is_visited(),
    {
        self.up.is_some() || self.down.is_some() || self.left.is_some() || self.right.is_some()
    }

    fn set_steps(&mut self, steps: usize)
        ensures
            *final(self) == (Node { steps, ..*old(self) }),
    {
        self.steps = steps;
    }

    /// The passage in slot `d`, as a value.
    pub fn edge(&self, d: MoveDirection) -> (r: Option<Coordinates>)
        ensures
            r == self.edge_spec(d),
    {
        match d {
            MoveDirection::Up => self.up,
            MoveDirection::Down => self.down,
            MoveDirection::Left => self.left,
            MoveDirection::Right => self.right,
        }
    }

    pub fn get_steps(&self) -> (r: usize)
        ensures
            r == self.steps,
    {
        self.steps
    }
}

/// A height x width grid of cells, owned as a dense 2-D vector addressed by
/// coordinate: row `y`, column `x`.
pub struct Maze {
    pub height: usize,
    pub width: usize,
    pub nodes: Vec<Vec<Node>>,
}

impl Maze {
    /// The grid really is height rows of width cells, and both dimensions fit
    /// comfortably in the coordinate type.
    pub open spec fn wf(self) -> bool {
        &&& self.nodes@.len() == self.height
        &&& forall|i: int| 0 <= i < self.height ==> (#[trigger] self.nodes@[i])@.len() == self.width
        &&& self.height <= MAX_DIM
        &&& self.width <= MAX_DIM
    }

    pub open spec fn in_bounds(self, c: Coordinates) -> bool {
        0 <= c.y < self.height as int && 0 <= c.x < self.width as int
    }

    pub open spec fn node_at(self, c: Coordinates) -> Node {
        self.nodes@[c.y as int]@[c.x as int]
    }

    pub open spec fn visited(self, c: Coordinates) -> bool {
        self.node_at(c).is_visited()
    }

    pub open spec fn steps_at(self, c: Coordinates) -> usize {
        self.node_at(c).steps
    }

    pub open spec fn edge_at(self, c: Coordinates, d: MoveDirection) -> Option<Coordinates> {
        self.node_at(c).edge_spec(d)
    }

    pub fn new(height: usize, width: usize) -> (r: Self)
        requires
            height <= MAX_DIM,
            width <= MAX_DIM,
        ensures
            r.wf(),
            r.height == height,
            r.width == width,
            forall|c: Coordinates| r.in_bounds(c) ==> !(#[trigger] r.visited(c)),
            forall|c: Coordinates| r.in_bounds(c) ==> #[trigger] r.steps_at(c) == 0,
            forall|c: Coordinates| r.in_bounds(c)
                ==> (#[trigger] r.node_at(c)).coordinates == (Coordinates { x: 0, y: 0 }),
    {
        let mut nodes: Vec<Vec<Node>> = Vec::new();
        let mut y: usize = 0;
        while y < height
            invariant
                y <= height,
                nodes@.len() == y,
                forall|i: int| 0 <= i < y ==> (#[trigger] nodes@[i])@.len() == width,
                forall|i: int, j: int| 0 <= i < y && 0 <= j < width
                    ==> !(#[trigger] nodes@[i]@[j]).is_visited() && nodes@[i]@[j].steps == 0
                        && nodes@[i]@[j].coordinates == (Coordinates { x: 0, y: 0 }),
            decreases height - y,
        {
            let mut row: Vec<Node> = Vec::new();
            let mut x: usize = 0;
            while x < width
                invariant
                    x <= width,
                    row@.len() == x,
                    forall|j: int| 0 <= j < x
                        ==> !(#[trigger] row@[j]).is_visited() && row@[j].steps == 0
                            && row@[j].coordinates == (Coordinates { x: 0, y: 0 }),
                decreases width - x,
            {
                row.push(Node::default());
                x = x + 1;
            }
            nodes.push(row);
            y = y + 1;
        }
        Self { height, width, nodes }
    }

    pub fn nodes(&self) -> (r: &Vec<Vec<Node>>)
        ensures
            r == &self.nodes,
    {
        &self.nodes
    }

    pub fn height(&self) -> (r: usize)
        ensures
            r == self.height,
    {
        self.height
    }

    pub fn width(&self) -> (r: usize)
        ensures
            r == self.width,
    {
        self.width
    }

    pub fn get_node(&self, coordinates: &Coordinates) -> (r: Option<&Node>)
        requires
            self.wf(),
        ensures
            match r {
                Some(n) => self.in_bounds(*coordinates) && *n == self.node_at(*coordinates),
                None => !self.in_bounds(*coordinates),
            },
    {
        if coordinates.y < 0 || coordinates.x < 0 {
            return None;
        }
        let y = coordinates.y as usize;
        let x = coordinates.x as usize;
        if y >= self.height || x >= self.width {
            return None;
        }
        Some(&self.nodes[y][x])
    }

    /// Overwrites the cell at an in-bounds coordinate, leaving every other
    /// cell and both dimensions unchanged.
    pub(crate) fn set_node(&mut self, c: Coordinates, n: Node)
        requires
            old(self).wf(),
            old(self).in_bounds(c),
        ensures
            final(self).wf(),
            final(self).height == old(self).height,
            final(self).width == old(self).width,
            final(self).node_at(c) == n,
            forall|c2: Coordinates| old(self).in_bounds(c2) && c2 != c
                ==> final(self).node_at(c2) == old(self).node_at(c2),
    {
        let y = c.y as usize;
        let x = c.x as usize;
        self.nodes[y][x] = n;
        proof {
            assert forall|c2: Coordinates| old(self).in_bounds(c2) && c2 != c
                implies self.node_at(c2) == old(self).node_at(c2) by {
                if c2.y as int != c.y as int {
                    assert(self.nodes@[c2.y as int] == old(self).nodes@[c2.y as int]);
                }
            }
        }
    }
}

/// The cell one step in direction `d` from `c`.
pub open spec fn step_of(c: Coordinates, d: MoveDirection) -> Coordinates {
    match d {
        MoveDirection::Up => Coordinates { x: c.x, y: (c.y - 1) as i32 },
        MoveDirection::Down => Coordinates { x: c.x, y: (c.y + 1) as i32 },
        MoveDirection::Left => Coordinates { x: (c.x - 1) as i32, y: c.y },
        MoveDirection::Right => Coordinates { x: (c.x + 1) as i32, y: c.y },
    }
}

/// Every passage of a visited cell is either a boundary marker (a self-loop)
/// or leads to the adjacent, visited cell in its direction, whose distance
/// label differs by exactly one.
pub open spec fn edge_ok_at(m: Maze, c: Coordinates, d: MoveDirection) -> bool {
    match m.edge_at(c, d) {
        Some(n) => n == c || {
            &&& neighbor_in(c, d, n)
            &&& m.in_bounds(n)
            &&& m.visited(n)
            &&& (m.steps_at(n) == m.steps_at(c) + 1 || m.steps_at(n) + 1 == m.steps_at(c))
        },
        None => true,
    }
}

pub open spec fn edges_ok(m: Maze) -> bool {
    forall|c: Coordinates, d: MoveDirection|
        #![trigger m.edge_at(c, d)]
        m.in_bounds(c) && m.visited(c) ==> edge_ok_at(m, c, d)
}

/// The passage in slot `d` of `c` leads one step down the distance labels.
pub open spec fn is_parent_edge(m: Maze, c: Coordinates, d: MoveDirection) -> bool {
    match m.edge_at(c, d) {
        Some(n) => {
            &&& n != c
            &&& neighbor_in(c, d, n)
            &&& m.in_bounds(n)
            &&& m.steps_at(n) + 1 == m.steps_at(c)
        },
        None => false,
    }
}

/// Every visited cell with a positive label has exactly one passage toward a
/// cell labelled one less: the spanning tree's unique parent.
pub open spec fn parents_ok(m: Maze) -> bool {
    forall|c: Coordinates|
        #![trigger m.steps_at(c)]
        m.in_bounds(c) && m.visited(c) && m.steps_at(c) > 0 ==> {
            &&& exists|d: MoveDirection| #[trigger] is_parent_edge(m, c, d)
            &&& forall|d1: MoveDirection, d2: MoveDirection|
                    is_parent_edge(m, c, d1) && is_parent_edge(m, c, d2) ==> d1 == d2
        }
}

/// Passages are reciprocal: each one that is not a boundary marker is matched
/// by the opposite passage of the cell it leads to.
pub open spec fn recip_ok(m: Maze) -> bool {
    forall|c: Coordinates, d: MoveDirection|
        #![trigger m.edge_at(c, d)]
        m.in_bounds(c) && m.visited(c) ==> match m.edge_at(c, d) {
            Some(n) => n == c || m.edge_at(n, opposite_of(d)) == Some(c),
            None => true,
        }
}

/// Every visited cell records its own grid position.
pub open spec fn coords_ok(m: Maze) -> bool {
    forall|c: Coordinates|
        #![trigger m.visited(c)]
        m.in_bounds(c) && m.visited(c) ==> m.node_at(c).coordinates == c
}

/// Cells of `row` before column `j` that have no passage yet.
pub open spec fn row_unvisited(row: Seq<Node>, j: nat) -> nat
    decreases j,
{
    if j == 0 {
        0
    } else {
        row_unvisited(row, (j - 1) as nat) + if row[j - 1].is_visited() { 0nat } else { 1nat }
    }
}

/// Unvisited cells in the rows before row `i`.
pub open spec fn grid_unvisited_upto(m: Maze, i: nat) -> nat
    decreases i,
{
    if i == 0 {
        0
    } else {
        grid_unvisited_upto(m, (i - 1) as nat) + row_unvisited(m.nodes@[i - 1]@, m.width as nat)
    }
}

/// How many cells of the whole grid the generator has not visited yet: the
/// generator's termination measure.
pub open spec fn unvisited_count(m: Maze) -> nat {
    grid_unvisited_upto(m, m.height as nat)
}

proof fn lemma_row_unvisited_le(r1: Seq<Node>, r2: Seq<Node>, j: nat)
    requires
        forall|k: int| 0 <= k < j ==> ((#[trigger] r1[k]).is_visited() ==> r2[k].is_visited()),
    ensures
        row_unvisited(r2, j) <= row_unvisited(r1, j),
    decreases j,
{
    if j > 0 {
        lemma_row_unvisited_le(r1, r2, (j - 1) as nat);
    }
}

proof fn lemma_row_unvisited_lt(r1: Seq<Node>, r2: Seq<Node>, j: nat, x: int)
    requires
        forall|k: int| 0 <= k < j ==> ((#[trigger] r1[k]).is_visited() ==> r2[k].is_visited()),
        0 <= x < j,
        !r1[x].is_visited(),
        r2[x].is_visited(),
    ensures
        row_unvisited(r2, j) + 1 <= row_unvisited(r1, j),
    decreases j,
{
    if x == j - 1 {
        lemma_row_unvisited_le(r1, r2, (j - 1) as nat);
    } else {
        lemma_row_unvisited_lt(r1, r2, (j - 1) as nat, x);
    }
}

proof fn lemma_grid_unvisited_le(m1: Maze, m2: Maze, i: nat)
    requires
        m1.wf(),
        m2.wf(),
        m1.height == m2.height,
        m1.width == m2.width,
        i <= m1.height,
        forall|c: Coordinates| m1.in_bounds(c) && #[trigger] m1.visited(c) ==> m2.visited(c),
    ensures
        grid_unvisited_upto(m2, i) <= grid_unvisited_upto(m1, i),
    decreases i,
{
    if i > 0 {
        lemma_grid_unvisited_le(m1, m2, (i - 1) as nat);
        assert forall|k: int| 0 <= k < m1.width as nat
            implies ((#[trigger] m1.nodes@[i - 1]@[k]).is_visited()
                ==> m2.nodes@[i - 1]@[k].is_visited()) by {
            let c = Coordinates { x: k as i32, y: (i - 1) as i32 };
            assert(c.x as int == k && c.y as int == i - 1);
            assert(m1.in_bounds(c));
            assert(m1.node_at(c) == m1.nodes@[i - 1]@[k]);
            assert(m2.node_at(c) == m2.nodes@[i - 1]@[k]);
            assert(m1.visited(c) ==> m2.visited(c));
        }
        lemma_row_unvisited_le(m1.nodes@[i - 1]@, m2.nodes@[i - 1]@, m1.width as nat);
    }
}

proof fn lemma_grid_unvisited_lt_upto(m1: Maze, m2: Maze, c0: Coordinates, i: nat)
    requires
        m1.wf(),
        m2.wf(),
        m1.height == m2.height,
        m1.width == m2.width,
        i <= m1.height,
        forall|c: Coordinates| m1.in_bounds(c) && #[trigger] m1.visited(c) ==> m2.visited(c),
        m1.in_bounds(c0),
        !m1.visited(c0),
        m2.visited(c0),
        c0.y < i,
    ensures
        grid_unvisited_upto(m2, i) + 1 <= grid_unvisited_upto(m1, i),
    decreases i,
{
    assert(i > 0);
    assert forall|k: int| 0 <= k < m1.width as nat
        implies ((#[trigger] m1.nodes@[i - 1]@[k]).is_visited()
            ==> m2.nodes@[i - 1]@[k].is_visited()) by {
        let c = Coordinates { x: k as i32, y: (i - 1) as i32 };
        assert(c.x as int == k && c.y as int == i - 1);
        assert(m1.in_bounds(c));
        assert(m1.node_at(c) == m1.nodes@[i - 1]@[k]);
        assert(m2.node_at(c) == m2.nodes@[i - 1]@[k]);
        assert(m1.visited(c) ==> m2.visited(c));
    }
    if c0.y as int == i - 1 {
        lemma_grid_unvisited_le(m1, m2, (i - 1) as nat);
        assert(m1.node_at(c0) == m1.nodes@[i - 1]@[c0.x as int]);
        assert(m2.node_at(c0) == m2.nodes@[i - 1]@[c0.x as int]);
        lemma_row_unvisited_lt(m1.nodes@[i - 1]@, m2.nodes@[i - 1]@, m1.width as nat, c0.x as int);
    } else {
        lemma_grid_unvisited_lt_upto(m1, m2, c0, (i - 1) as nat);
        lemma_row_unvisited_le(m1.nodes@[i - 1]@, m2.nodes@[i - 1]@, m1.width as nat);
    }
}

/// Visiting one more cell strictly shrinks the unvisited count.
proof fn lemma_unvisited_count_lt(m1: Maze, m2: Maze, c0: Coordinates)
    requires
        m1.wf(),
        m2.wf(),
        m1.height == m2.height,
        m1.width == m2.width,
        forall|c: Coordinates| m1.in_bounds(c) && #[trigger] m1.visited(c) ==> m2.visited(c),
        m1.in_bounds(c0),
        !m1.visited(c0),
        m2.visited(c0),
    ensures
        unvisited_count(m2) + 1 <= unvisited_count(m1),
{
    lemma_grid_unvisited_lt_upto(m1, m2, c0, m1.height as nat);
}

/// The unvisited count never grows as cells get visited.
proof fn lemma_unvisited_count_le(m1: Maze, m2: Maze)
    requires
        m1.wf(),
        m2.wf(),
        m1.height == m2.height,
        m1.width == m2.width,
        forall|c: Coordinates| m1.in_bounds(c) && #[trigger] m1.visited(c) ==> m2.visited(c),
    ensures
        unvisited_count(m2) <= unvisited_count(m1),
{
    lemma_grid_unvisited_le(m1, m2, m1.height as nat);
}

proof fn lemma_row_unvisited_bound(row: Seq<Node>, j: nat)
    ensures
        row_unvisited(row, j) <= j,
    decreases j,
{
    if j > 0 {
        lemma_row_unvisited_bound(row, (j - 1) as nat);
    }
}

proof fn lemma_grid_unvisited_bound(m: Maze, i: nat)
    ensures
        grid_unvisited_upto(m, i) <= i * m.width,
    decreases i,
{
    if i > 0 {
        lemma_grid_unvisited_bound(m, (i - 1) as nat);
        lemma_row_unvisited_bound(m.nodes@[i - 1]@, m.width as nat);
        assert((i - 1) * m.width + m.width == i * m.width) by (nonlinear_arith);
    }
}

#[verifier::rlimit(100)]
#[verifier::spinoff_prover]
proof fn lemma_attach_child(
    m0: Maze,
    mb: Maze,
    m1: Maze,
    m2: Maze,
    prev: Direction,
    curr: Coordinates,
    steps: usize,
    next: Direction,
    target: Coordinates,
)
    requires
        m0.wf(),
        mb.wf(),
        m1.wf(),
        m2.wf(),
        mb.height == m0.height && mb.width == m0.width,
        m1.height == m0.height && m1.width == m0.width,
        m2.height == m0.height && m2.width == m0.width,
        m0.in_bounds(curr),
        !m0.visited(curr),
        (prev.target() == curr && steps == 0) || {
            &&& neighbor_in(curr, prev.slot(), prev.target())
            &&& m0.in_bounds(prev.target())
            &&& m0.visited(prev.target())
            &&& m0.steps_at(prev.target()) + 1 == steps
        },
        edges_ok(mb),
        parents_ok(mb),
        coords_ok(mb),
        forall|c: Coordinates| m0.in_bounds(c) && #[trigger] m0.visited(c)
            ==> mb.node_at(c) == m0.node_at(c),
        mb.visited(curr),
        mb.steps_at(curr) == steps,
        mb.node_at(curr).coordinates == curr,
        unvisited_count(mb) < unvisited_count(m0),
        (mb.edge_at(curr, prev.slot()) == Some(prev.target())
            || (prev.target() == curr && match mb.edge_at(curr, prev.slot()) {
                Some(n) => n != curr && mb.edge_at(n, opposite_of(prev.slot())) == Some(curr),
                None => false,
            })),
        forall|c: Coordinates| mb.in_bounds(c) && #[trigger] mb.visited(c)
            && !m0.visited(c) && c != curr ==> mb.steps_at(c) > steps,
        forall|c: Coordinates| mb.in_bounds(c) && #[trigger] mb.visited(c) && !m0.visited(c)
            ==> (mb.steps_at(c) as int) < m0.height * m0.width,
        forall|c: Coordinates, d: MoveDirection|
            #![trigger mb.edge_at(c, d)]
            mb.in_bounds(c) && mb.visited(c) && !m0.visited(c)
            && mb.edge_at(c, d) == Some(c)
            ==> c == curr && d == prev.slot() && prev.target() == curr,
        forall|c: Coordinates, d: MoveDirection|
            #![trigger mb.visited(c), step_of(c, d)]
            mb.in_bounds(c) && mb.visited(c) && !m0.visited(c) && c != curr
            && mb.in_bounds(step_of(c, d)) ==> mb.visited(step_of(c, d)),
        forall|c: Coordinates, d: MoveDirection|
            #![trigger mb.edge_at(c, d)]
            mb.in_bounds(c) && mb.visited(c) && !m0.visited(c)
            && !(c == curr && d == prev.slot()) ==> match mb.edge_at(c, d) {
                Some(n) => n == c || mb.edge_at(n, opposite_of(d)) == Some(c),
                None => true,
            },
        neighbor_in(curr, next.slot(), target),
        next.target() == target,
        mb.in_bounds(target),
        !mb.visited(target),
        edges_ok(m1),
        parents_ok(m1),
        coords_ok(m1),
        forall|c: Coordinates| mb.in_bounds(c) && #[trigger] mb.visited(c)
            ==> m1.node_at(c) == mb.node_at(c),
        m1.visited(target),
        m1.steps_at(target) == steps + 1,
        unvisited_count(m1) < unvisited_count(mb),
        m1.edge_at(target, opposite_of(next.slot())) == Some(curr),
        forall|c: Coordinates| m1.in_bounds(c) && #[trigger] m1.visited(c)
            && !mb.visited(c) && c != target ==> m1.steps_at(c) > steps + 1,
        forall|c: Coordinates| m1.in_bounds(c) && #[trigger] m1.visited(c) && !mb.visited(c)
            ==> (m1.steps_at(c) as int) < m0.height * m0.width,
        forall|c: Coordinates, d: MoveDirection|
            #![trigger m1.edge_at(c, d)]
            m1.in_bounds(c) && m1.visited(c) && !mb.visited(c)
            && m1.edge_at(c, d) == Some(c)
            ==> c == target && d == opposite_of(next.slot()) && curr == target,
        forall|c: Coordinates, d: MoveDirection|
            #![trigger m1.visited(c), step_of(c, d)]
            m1.in_bounds(c) && m1.visited(c) && !mb.visited(c)
            && m1.in_bounds(step_of(c, d)) ==> m1.visited(step_of(c, d)),
        forall|c: Coordinates, d: MoveDirection|
            #![trigger m1.edge_at(c, d)]
            m1.in_bounds(c) && m1.visited(c) && !mb.visited(c)
            && !(c == target && d == opposite_of(next.slot()))
            ==> match m1.edge_at(c, d) {
                Some(n) => n == c || m1.edge_at(n, opposite_of(d)) == Some(c),
                None => true,
            },
        m2.edge_at(curr, next.slot()) == Some(target),
        forall|d: MoveDirection| d != next.slot()
            ==> m2.edge_at(curr, d) == m1.edge_at(curr, d),
        m2.steps_at(curr) == steps,
        m2.node_at(curr).coordinates == m1.node_at(curr).coordinates,
        forall|c: Coordinates| m1.in_bounds(c) && c != curr
            ==> #[trigger] m2.node_at(c) == m1.node_at(c),
    ensures
        edges_ok(m2),
        parents_ok(m2),
        coords_ok(m2),
        forall|c: Coordinates| m0.in_bounds(c) && #[trigger] m0.visited(c)
            ==> m2.node_at(c) == m0.node_at(c),
        m2.visited(curr),
        m2.steps_at(curr) == steps,
        m2.node_at(curr).coordinates == curr,
        unvisited_count(m2) < unvisited_count(m0),
        (m2.edge_at(curr, prev.slot()) == Some(prev.target())
            || (prev.target() == curr && match m2.edge_at(curr, prev.slot()) {
                Some(n) => n != curr && m2.edge_at(n, opposite_of(prev.slot())) == Some(curr),
                None => false,
            })),
        forall|c: Coordinates| m2.in_bounds(c) && #[trigger] m2.visited(c)
            && !m0.visited(c) && c != curr ==> m2.steps_at(c) > steps,
        forall|c: Coordinates| m2.in_bounds(c) && #[trigger] m2.visited(c) && !m0.visited(c)
            ==> (m2.steps_at(c) as int) < m0.height * m0.width,
        forall|c: Coordinates, d: MoveDirection|
            #![trigger m2.edge_at(c, d)]
            m2.in_bounds(c) && m2.visited(c) && !m0.visited(c)
            && m2.edge_at(c, d) == Some(c)
            ==> c == curr && d == prev.slot() && prev.target() == curr,
        forall|c: Coordinates, d: MoveDirection|
            #![trigger m2.visited(c), step_of(c, d)]
            m2.in_bounds(c) && m2.visited(c) && !m0.visited(c) && c != curr
            && m2.in_bounds(step_of(c, d)) ==> m2.visited(step_of(c, d)),
        forall|c: Coordinates, d: MoveDirection|
            #![trigger m2.edge_at(c, d)]
            m2.in_bounds(c) && m2.visited(c) && !m0.visited(c)
            && !(c == curr && d == prev.slot()) ==> match m2.edge_at(c, d) {
                Some(n) => n == c || m2.edge_at(n, opposite_of(d)) == Some(c),
                None => true,
            },
        forall|c: Coordinates| mb.in_bounds(c) && #[trigger] mb.visited(c) ==> m2.visited(c),
        m2.visited(target),
{
                            // the child's entry passage points back at this cell
        assert(m1.edge_at(target, opposite_of(next.slot())) == Some(curr));
        // what changed between m1 and m2
        assert(m2.edge_at(curr, next.slot()) == Some(target));
        assert(forall|d: MoveDirection| d != next.slot()
            ==> m2.edge_at(curr, d) == m1.edge_at(curr, d));
        assert(m2.steps_at(curr) == steps);
        assert(forall|c: Coordinates| m1.in_bounds(c) && c != curr
            ==> m2.node_at(c) == m1.node_at(c));
        assert forall|c: Coordinates| m1.in_bounds(c)
            implies m1.visited(c) == #[trigger] m2.visited(c) by {
            if c != curr {
                assert(m2.node_at(c) == m1.node_at(c));
            }
        }
        // the attached slot was not this cell's parent passage
        if steps > 0 {
            assert(prev.target() != curr);
            if next.slot() == prev.slot() {
                assert(target == prev.target());
                assert(mb.node_at(target) == m0.node_at(target));
                assert(mb.visited(target));
                assert(false);
            }
        }
        // unvisited count is unchanged by attaching
        lemma_unvisited_count_le(m1, m2);
        lemma_unvisited_count_le(m2, m1);
        // frame over cells visited before this call
        assert forall|c: Coordinates|
            m0.in_bounds(c) && #[trigger] m0.visited(c)
            implies m2.node_at(c) == m0.node_at(c) by {
            assert(mb.node_at(c) == m0.node_at(c));
            assert(mb.visited(c));
            assert(m1.node_at(c) == mb.node_at(c));
            assert(c != curr);
        }
        // every passage still steps one label and stays in bounds
        assert forall|c: Coordinates, d: MoveDirection|
            m2.in_bounds(c) && m2.visited(c) implies edge_ok_at(m2, c, d) by {
            let e = m2.edge_at(c, d);
            assert(m1.visited(c));
            assert(edge_ok_at(m1, c, d));
            if c == curr {
                if d == next.slot() {
                    assert(m2.visited(target) && m2.steps_at(target) == steps + 1);
                } else {
                    match m1.edge_at(curr, d) {
                        Some(n) => {
                            if n != curr {
                                assert(m1.visited(n));
                                assert(m2.node_at(n) == m1.node_at(n));
                            }
                        },
                        None => {},
                    }
                }
            } else {
                assert(m2.node_at(c) == m1.node_at(c));
                match m1.edge_at(c, d) {
                    Some(n) => {
                        if n != c && n != curr {
                            assert(m1.visited(n));
                            assert(m2.node_at(n) == m1.node_at(n));
                        }
                    },
                    None => {},
                }
            }
        }
        // unique parent passages survive the attachment
        assert forall|c: Coordinates|
            m2.in_bounds(c) && m2.visited(c) && m2.steps_at(c) > 0
            implies (exists|d: MoveDirection| #[trigger] is_parent_edge(m2, c, d))
                && (forall|d1: MoveDirection, d2: MoveDirection|
                    is_parent_edge(m2, c, d1) && is_parent_edge(m2, c, d2)
                        ==> d1 == d2) by {
            assert(m1.visited(c) && m1.steps_at(c) == m2.steps_at(c));
            assert forall|d: MoveDirection|
                is_parent_edge(m1, c, d) == #[trigger] is_parent_edge(m2, c, d)
                by {
                let e1 = m1.edge_at(c, d);
                assert(edge_ok_at(m1, c, d));
                if c == curr && d == next.slot() {
                    assert(m2.steps_at(target) == steps + 1);
                    assert(!is_parent_edge(m2, c, d));
                    assert(match e1 { Some(n) => n == c || m1.visited(n), None => true });
                    if e1 is Some && e1.unwrap() != c {
                        assert(m1.steps_at(e1.unwrap()) == steps + 1
                            || m1.steps_at(e1.unwrap()) + 1 == steps);
                    }
                    assert(!is_parent_edge(m1, c, d) || m1.steps_at(c) > 0);
                    if is_parent_edge(m1, c, d) {
                        // the slot held a parent passage only if this
                        // cell had one, and that one is prev's slot
                        assert(steps > 0);
                        assert(false);
                    }
                } else {
                    match m1.edge_at(c, d) {
                        Some(n) => {
                            if n != c && n != curr {
                                assert(m1.visited(n));
                                assert(m2.node_at(n) == m1.node_at(n));
                            }
                        },
                        None => {},
                    }
                    if c != curr {
                        assert(m2.node_at(c) == m1.node_at(c));
                    }
                }
            }
            let d0 = choose|d: MoveDirection| #[trigger] is_parent_edge(m1, c, d);
            assert(is_parent_edge(m2, c, d0));
        }
        // the entry passage of this cell survives or is replaced
        // by a reciprocated passage to the child
        assert(m1.node_at(curr) == mb.node_at(curr));
        if next.slot() != prev.slot() {
            assert(m2.edge_at(curr, prev.slot()) == mb.edge_at(curr, prev.slot()));
            match mb.edge_at(curr, prev.slot()) {
                Some(n) => {
                    if n != curr && mb.edge_at(n, opposite_of(prev.slot()))
                        == Some(curr) {
                        assert(mb.visited(n));
                        assert(m1.node_at(n) == mb.node_at(n));
                        if n != curr {
                            assert(m2.node_at(n) == m1.node_at(n));
                        }
                    }
                },
                None => {},
            }
        } else {
            assert(steps == 0 && prev.target() == curr);
            assert(m2.edge_at(curr, prev.slot()) == Some(target));
            assert(m2.edge_at(target, opposite_of(prev.slot())) == Some(curr));
        }
        // distance labels of newly carved cells exceed this one's
        assert forall|c: Coordinates|
            m2.in_bounds(c) && #[trigger] m2.visited(c)
            && !m0.visited(c) && c != curr
            implies m2.steps_at(c) > steps by {
            assert(m2.node_at(c) == m1.node_at(c));
            if mb.visited(c) {
                assert(mb.node_at(c) == m1.node_at(c));
            } else {
                assert(m1.visited(c) && !mb.visited(c));
                if c != target {
                    assert(m1.steps_at(c) > steps + 1);
                }
            }
        }
        // neighbours of newly carved cells are carved
        assert forall|c: Coordinates, d: MoveDirection|
            #![trigger m2.visited(c), step_of(c, d)]
            m2.in_bounds(c) && m2.visited(c) && !m0.visited(c)
            && c != curr && m2.in_bounds(step_of(c, d))
            implies m2.visited(step_of(c, d)) by {
            let t = step_of(c, d);
            assert(m2.node_at(c) == m1.node_at(c));
            if mb.visited(c) {
                assert(mb.node_at(c) == m1.node_at(c));
                assert(mb.visited(t));
                if t != curr {
                    assert(m1.node_at(t) == mb.node_at(t));
                    assert(m2.node_at(t) == m1.node_at(t));
                }
            } else {
                assert(m1.visited(c) && !mb.visited(c));
                assert(m1.visited(t));
                if t != curr {
                    assert(m2.node_at(t) == m1.node_at(t));
                }
            }
        }
        // this cell keeps its label and position record
        assert(m2.visited(curr));
        assert(m2.node_at(curr).coordinates == curr);
        assert forall|c: Coordinates| m2.in_bounds(c) && #[trigger] m2.visited(c)
            implies m2.node_at(c).coordinates == c by {
            if c != curr {
                assert(m2.node_at(c) == m1.node_at(c));
                assert(m1.visited(c));
            }
        }
        // strictly fewer cells remain unvisited than at entry
        assert(unvisited_count(m2) == unvisited_count(m1));
        assert(unvisited_count(m2) < unvisited_count(m0));
        // new passages stay reciprocated
        assert forall|c: Coordinates, d: MoveDirection|
            m2.in_bounds(c) && m2.visited(c) && !m0.visited(c)
            && !(c == curr && d == prev.slot())
            implies match #[trigger] m2.edge_at(c, d) {
                Some(n) => n == c || m2.edge_at(n, opposite_of(d)) == Some(c),
                None => true,
            } by {
            if c == curr && d == next.slot() {
                assert(m2.edge_at(target, opposite_of(next.slot())) == Some(curr));
            } else if c == curr {
                match m1.edge_at(curr, d) {
                    Some(n) => {
                        if n != curr {
                            assert(edge_ok_at(m1, curr, d));
                            assert(m1.visited(n));
                            assert(m1.edge_at(n, opposite_of(d)) == Some(curr));
                            assert(m2.node_at(n) == m1.node_at(n));
                        }
                    },
                    None => {},
                }
            } else {
                assert(m2.node_at(c) == m1.node_at(c));
                if mb.visited(c) {
                    // cells carved in earlier rounds keep their matches
                    match m1.edge_at(c, d) {
                        Some(n) => {
                            if n != c {
                                assert(mb.node_at(c) == m1.node_at(c));
                                let e0 = mb.edge_at(c, d);
                                assert(e0 == m1.edge_at(c, d));
                                assert(mb.visited(c) && !m0.visited(c));
                                assert(match e0 {
                                    Some(nn) => nn == c
                                        || mb.edge_at(nn, opposite_of(d))
                                            == Some(c),
                                    None => true,
                                });
                                assert(mb.edge_at(n, opposite_of(d)) == Some(c));
                                assert(edge_ok_at(mb, c, d));
                                assert(mb.visited(n));
                                assert(m1.node_at(n) == mb.node_at(n));
                                if n == curr {
                                    assert(opposite_of(d) != next.slot());
                                    assert(m2.edge_at(curr, opposite_of(d))
                                        == m1.edge_at(curr, opposite_of(d)));
                                } else {
                                    assert(m2.node_at(n) == m1.node_at(n));
                                }
                            }
                        },
                        None => {},
                    }
                } else {
                    // cells the child just carved
                    if c == target && d == opposite_of(next.slot()) {
                        assert(m2.edge_at(curr, next.slot()) == Some(target));
                    } else {
                        match m1.edge_at(c, d) {
                            Some(n) => {
                                if n != c {
                                    assert(m1.edge_at(n, opposite_of(d)) == Some(c));
                                    if n == curr {
                                        assert(edge_ok_at(m1, c, d));
                                        assert(neighbor_in(c, d, curr));
                                        assert(opposite_of(d) != next.slot());
                                        assert(m2.edge_at(curr, opposite_of(d))
                                            == m1.edge_at(curr, opposite_of(d)));
                                    } else {
                                        assert(m2.node_at(n) == m1.node_at(n));
                                    }
                                }
                            },
                            None => {},
                        }
                    }
                }
            }
        }
    assert forall|c: Coordinates| mb.in_bounds(c) && #[trigger] mb.visited(c)
        implies m2.visited(c) by {
        if c != curr {
            assert(m1.node_at(c) == mb.node_at(c));
            assert(m2.node_at(c) == m1.node_at(c));
        }
    }
    // labels of newly carved cells stay below the cell count
    assert forall|c: Coordinates| m2.in_bounds(c) && #[trigger] m2.visited(c) && !m0.visited(c)
        implies (m2.steps_at(c) as int) < m0.height * m0.width by {
        if c != curr {
            assert(m2.node_at(c) == m1.node_at(c));
        }
        assert(m2.steps_at(c) == m1.steps_at(c));
        if mb.visited(c) {
            assert(m1.node_at(c) == mb.node_at(c));
        }
    }
    // the attachment writes a real passage, never a boundary marker
    assert forall|c: Coordinates, d: MoveDirection|
        m2.in_bounds(c) && m2.visited(c) && !m0.visited(c)
        && #[trigger] m2.edge_at(c, d) == Some(c)
        implies c == curr && d == prev.slot() && prev.target() == curr by {
        if c == curr && d == next.slot() {
            assert(m2.edge_at(c, d) == Some(target));
            assert(false);
        } else {
            if c != curr {
                assert(m2.node_at(c) == m1.node_at(c));
            }
            assert(m1.edge_at(c, d) == Some(c));
            if mb.visited(c) {
                assert(m1.node_at(c) == mb.node_at(c));
                assert(mb.edge_at(c, d) == Some(c));
            } else {
                assert(curr == target);
                assert(false);
            }
        }
    }
}

impl Maze {
    /// Carves a randomized spanning tree rooted at `curr`, labelling every
    /// cell it visits with its distance to the root.
    ///
    /// `prev` is the passage back toward the caller (for the root call, a
    /// self marker), and `steps` the label for `curr`. A branch into an
    /// out-of-bounds or an already carved cell reports `None` and changes
    /// nothing; a successful branch reports `Some` and leaves every carving
    /// invariant intact: labels step by one along passages, each carved cell
    /// has a unique passage one step down the labels, passages between cells
    /// are reciprocal, and every neighbour of a newly carved cell has been
    /// carved too.
    #[verifier::rlimit(100)]
    #[verifier::spinoff_prover]
    pub fn generate(&mut self, prev: Direction, curr: Coordinates, steps: usize, rng: &mut StdRng)
        -> (r: Option<()>)
        requires
            old(self).wf(),
            edges_ok(*old(self)),
            parents_ok(*old(self)),
            coords_ok(*old(self)),
            steps + unvisited_count(*old(self)) <= old(self).height * old(self).width,
            (prev.target() == curr && steps == 0) || {
                &&& neighbor_in(curr, prev.slot(), prev.target())
                &&& old(self).in_bounds(prev.target())
                &&& old(self).visited(prev.target())
                &&& old(self).steps_at(prev.target()) + 1 == steps
            },
        ensures
            final(self).wf(),
            final(self).height == old(self).height,
            final(self).width == old(self).width,
            r is Some <==> (old(self).in_bounds(curr) && !old(self).visited(curr)),
            r is None ==> *final(self) == *old(self),
            edges_ok(*final(self)),
            parents_ok(*final(self)),
            coords_ok(*final(self)),
            forall|c: Coordinates| old(self).in_bounds(c) && #[trigger] old(self).visited(c)
                ==> final(self).node_at(c) == old(self).node_at(c),
            r is Some ==> {
                &&& final(self).visited(curr)
                &&& final(self).steps_at(curr) == steps
                &&& unvisited_count(*final(self)) < unvisited_count(*old(self))
                &&& real_edge_count(*final(self)) as int == real_edge_count(*old(self)) as int
                    + 2 * (unvisited_count(*old(self)) as int
                        - unvisited_count(*final(self)) as int)
                    - (if prev.target() == curr { 2int } else { 1int })
                &&& (final(self).edge_at(curr, prev.slot()) == Some(prev.target())
                    || (prev.target() == curr && match final(self).edge_at(curr, prev.slot()) {
                        Some(n) => n != curr
                            && final(self).edge_at(n, opposite_of(prev.slot())) == Some(curr),
                        None => false,
                    }))
                &&& forall|c: Coordinates|
                        final(self).in_bounds(c) && #[trigger] final(self).visited(c)
                        && !old(self).visited(c) && c != curr
                        ==> final(self).steps_at(c) > steps
                &&& forall|c: Coordinates|
                        final(self).in_bounds(c) && #[trigger] final(self).visited(c)
                        && !old(self).visited(c)
                        ==> (final(self).steps_at(c) as int)
                            < old(self).height * old(self).width
                &&& forall|c: Coordinates, d: MoveDirection|
                        #![trigger final(self).edge_at(c, d)]
                        final(self).in_bounds(c) && final(self).visited(c)
                        && !old(self).visited(c) && final(self).edge_at(c, d) == Some(c)
                        ==> c == curr && d == prev.slot() && prev.target() == curr
                &&& forall|c: Coordinates, d: MoveDirection|
                        #![trigger final(self).visited(c), step_of(c, d)]
                        final(self).in_bounds(c) && final(self).visited(c)
                        && !old(self).visited(c) && final(self).in_bounds(step_of(c, d))
                        ==> final(self).visited(step_of(c, d))
                &&& forall|c: Coordinates, d: MoveDirection|
                        #![trigger final(self).edge_at(c, d)]
                        final(self).in_bounds(c) && final(self).visited(c)
                        && !old(self).visited(c) && !(c == curr && d == prev.slot())
                        ==> match final(self).edge_at(c, d) {
                            Some(n) => n == c
                                || final(self).edge_at(n, opposite_of(d)) == Some(c),
                            None => true,
                        }
            },
        decreases unvisited_count(*old(self)),
    {
        let node = match self.get_node(&curr) {
            None => { return None; },
            Some(n) => *n,
        };
        if node.has_edges() {
            return None;
        }

        // carve the entry passage and the distance label
        let mut nd = node;
        nd.add_edge(prev);
        nd.set_steps(steps);
        nd.set_coordinates(curr);
        self.set_node(curr, nd);
        proof {
            assert(self.node_at(curr) == nd);
            assert(node.up is None && node.down is None && node.left is None
                && node.right is None);
            assert(nd.steps == steps && nd.coordinates == curr);
            assert(nd.edge_spec(prev.slot()) == Some(prev.target()));
            assert forall|d: MoveDirection| d != prev.slot()
                implies #[trigger] self.edge_at(curr, d) is None by {
                assert(nd.edge_spec(d) == node.edge_spec(d));
            }
            assert forall|c: Coordinates| self.in_bounds(c) && c != curr
                implies #[trigger] self.node_at(c) == old(self).node_at(c) by {}
            assert forall|c: Coordinates|
                self.in_bounds(c) && #[trigger] self.visited(c) && !old(self).visited(c)
                implies c == curr by {
                if c != curr {
                    assert(self.node_at(c) == old(self).node_at(c));
                }
            }
            lemma_unvisited_count_lt(*old(self), *self, curr);
            lemma_unvisited_count_update(*old(self), *self, curr);
            assert(unvisited_contrib(node) == 1 && unvisited_contrib(nd) == 0);
            lemma_real_edge_count_update(*old(self), *self, curr);
            assert(node_real_deg(node) == 0);
            assert(nd.coordinates == curr);
            assert(node_real_deg(nd) == (if prev.target() == curr { 0nat } else { 1nat }));
            assert forall|c: Coordinates, d: MoveDirection|
                self.in_bounds(c) && self.visited(c) implies edge_ok_at(*self, c, d) by {
                let e = self.edge_at(c, d);
                if c == curr {
                    if d != prev.slot() {
                        assert(self.edge_at(c, d) is None);
                    }
                } else {
                    let e0 = old(self).edge_at(c, d);
                    assert(self.node_at(c) == old(self).node_at(c));
                    assert(edge_ok_at(*old(self), c, d));
                    match e0 {
                        Some(n) => {
                            if n != c {
                                assert(old(self).visited(n));
                                assert(n != curr);
                                assert(self.node_at(n) == old(self).node_at(n));
                            }
                        },
                        None => {},
                    }
                }
            }
            assert forall|c: Coordinates|
                self.in_bounds(c) && self.visited(c) && self.steps_at(c) > 0
                implies (exists|d: MoveDirection| #[trigger] is_parent_edge(*self, c, d))
                    && (forall|d1: MoveDirection, d2: MoveDirection|
                        is_parent_edge(*self, c, d1) && is_parent_edge(*self, c, d2)
                            ==> d1 == d2) by {
                if c == curr {
                    assert(steps > 0);
                    assert(is_parent_edge(*self, curr, prev.slot()));
                    assert forall|d1: MoveDirection, d2: MoveDirection|
                        is_parent_edge(*self, c, d1) && is_parent_edge(*self, c, d2)
                        implies d1 == d2 by {
                        assert(forall|d: MoveDirection| d != prev.slot()
                            ==> self.edge_at(curr, d) is None);
                    }
                } else {
                    assert(self.node_at(c) == old(self).node_at(c));
                    assert(old(self).steps_at(c) > 0 && old(self).visited(c));
                    assert forall|d: MoveDirection|
                        is_parent_edge(*old(self), c, d) == #[trigger] is_parent_edge(*self, c, d)
                        by {
                        let e = old(self).edge_at(c, d);
                        assert(edge_ok_at(*old(self), c, d));
                        match e {
                            Some(n) => {
                                if n != c {
                                    assert(old(self).visited(n));
                                    assert(n != curr);
                                    assert(self.node_at(n) == old(self).node_at(n));
                                }
                            },
                            None => {},
                        }
                    }
                    let d0 = choose|d: MoveDirection| #[trigger] is_parent_edge(*old(self), c, d);
                    assert(is_parent_edge(*self, c, d0));
                }
            }
            assert forall|c: Coordinates| self.in_bounds(c) && #[trigger] self.visited(c)
                implies self.node_at(c).coordinates == c by {
                if c != curr {
                    assert(self.node_at(c) == old(self).node_at(c));
                    assert(old(self).visited(c));
                }
            }
            assert forall|c: Coordinates, d: MoveDirection|
                self.in_bounds(c) && self.visited(c) && !old(self).visited(c)
                && !(c == curr && d == prev.slot())
                implies match #[trigger] self.edge_at(c, d) {
                    Some(n) => n == c || self.edge_at(n, opposite_of(d)) == Some(c),
                    None => true,
                } by {
                assert(c == curr);
                assert(self.edge_at(c, d) is None);
            }
            assert forall|c: Coordinates|
                self.in_bounds(c) && #[trigger] self.visited(c) && !old(self).visited(c)
                implies (self.steps_at(c) as int) < old(self).height * old(self).width by {
                lemma_unvisited_count_pos(*old(self), curr);
                assert(c == curr);
            }
            assert forall|c: Coordinates, d: MoveDirection|
                self.in_bounds(c) && self.visited(c) && !old(self).visited(c)
                && #[trigger] self.edge_at(c, d) == Some(c)
                implies c == curr && d == prev.slot() && prev.target() == curr by {
                assert(c == curr);
                if d != prev.slot() {
                    assert(self.edge_at(curr, d) is None);
                }
            }
        }

        let dirs = curr.get_random_directions(rng);
        let mut idx: usize = 0;
        while idx < 4
            invariant
                idx <= 4,
                self.wf(),
                self.height == old(self).height,
                self.width == old(self).width,
                old(self).wf(),
                old(self).in_bounds(curr),
                !old(self).visited(curr),
                steps + unvisited_count(*old(self))
                    <= old(self).height * old(self).width,
                (prev.target() == curr && steps == 0) || {
                    &&& neighbor_in(curr, prev.slot(), prev.target())
                    &&& old(self).in_bounds(prev.target())
                    &&& old(self).visited(prev.target())
                    &&& old(self).steps_at(prev.target()) + 1 == steps
                },
                dirs@.len() == 4,
                forall|k: int| 0 <= k < 4 ==> dir_of(curr, #[trigger] dirs@[k]),
                exists|k: int| 0 <= k < 4 && dirs@[k] == curr.up_spec(),
                exists|k: int| 0 <= k < 4 && dirs@[k] == curr.down_spec(),
                exists|k: int| 0 <= k < 4 && dirs@[k] == curr.left_spec(),
                exists|k: int| 0 <= k < 4 && dirs@[k] == curr.right_spec(),
                edges_ok(*self),
                parents_ok(*self),
                coords_ok(*self),
                forall|c: Coordinates| old(self).in_bounds(c) && #[trigger] old(self).visited(c)
                    ==> self.node_at(c) == old(self).node_at(c),
                self.visited(curr),
                self.steps_at(curr) == steps,
                self.node_at(curr).coordinates == curr,
                unvisited_count(*self) < unvisited_count(*old(self)),
                real_edge_count(*self) as int == real_edge_count(*old(self)) as int
                    + 2 * (unvisited_count(*old(self)) as int - unvisited_count(*self) as int
                        - 1)
                    + (if prev.target() == curr { 0int } else { 1int }),
                (self.edge_at(curr, prev.slot()) == Some(prev.target())
                    || (prev.target() == curr && match self.edge_at(curr, prev.slot()) {
                        Some(n) => n != curr
                            && self.edge_at(n, opposite_of(prev.slot())) == Some(curr),
                        None => false,
                    })),
                forall|c: Coordinates|
                    self.in_bounds(c) && #[trigger] self.visited(c)
                    && !old(self).visited(c) && c != curr
                    ==> self.steps_at(c) > steps,
                forall|c: Coordinates|
                    self.in_bounds(c) && #[trigger] self.visited(c) && !old(self).visited(c)
                    ==> (self.steps_at(c) as int) < old(self).height * old(self).width,
                forall|c: Coordinates, d: MoveDirection|
                    #![trigger self.edge_at(c, d)]
                    self.in_bounds(c) && self.visited(c) && !old(self).visited(c)
                    && self.edge_at(c, d) == Some(c)
                    ==> c == curr && d == prev.slot() && prev.target() == curr,
                forall|c: Coordinates, d: MoveDirection|
                    #![trigger self.visited(c), step_of(c, d)]
                    self.in_bounds(c) && self.visited(c) && !old(self).visited(c)
                    && c != curr && self.in_bounds(step_of(c, d))
                    ==> self.visited(step_of(c, d)),
                forall|k: int| 0 <= k < idx
                    ==> (self.in_bounds((#[trigger] dirs@[k]).target())
                        ==> self.visited(dirs@[k].target())),
                forall|c: Coordinates, d: MoveDirection|
                    #![trigger self.edge_at(c, d)]
                    self.in_bounds(c) && self.visited(c) && !old(self).visited(c)
                    && !(c == curr && d == prev.slot())
                    ==> match self.edge_at(c, d) {
                        Some(n) => n == c || self.edge_at(n, opposite_of(d)) == Some(c),
                        None => true,
                    },
            decreases 4 - idx,
        {
            let next = dirs[idx];
            proof {
                assert(dir_of(curr, next));
                assert(neighbor_in(curr, next.slot(), next.target()));
            }
            let opp = next.opposite();
            let target = next.get_coordinates();
            proof {
                assert(opp.target().x == curr.x && opp.target().y == curr.y);
                assert(opp.target() == curr);
                assert(target != curr);
            }
            let ghost m_before = *self;
            proof {
                lemma_area_fits(old(self).height, old(self).width);
                assert(unvisited_count(*old(self)) >= 1);
                assert(steps + 1 <= old(self).height * old(self).width);
            }
            let res = self.generate(opp, target, steps + 1, rng);
            if res.is_some() {
                let ghost m1 = *self;
                let mut nd2 = *self.get_node(&curr).unwrap();
                nd2.add_edge(next);
                self.set_node(curr, nd2);
                proof {
                    assert(target != curr);
                    assert(m1.edge_at(target, opposite_of(next.slot())) == Some(curr));
                    assert(self.edge_at(curr, next.slot()) == Some(target));
                    assert(forall|d: MoveDirection| d != next.slot()
                        ==> self.edge_at(curr, d) == m1.edge_at(curr, d));
                    assert(self.steps_at(curr) == steps);
                    assert(self.node_at(curr).coordinates == m1.node_at(curr).coordinates);
                    assert(forall|c: Coordinates| m1.in_bounds(c) && c != curr
                        ==> #[trigger] self.node_at(c) == m1.node_at(c));
                    assert(m1.node_at(curr) == m_before.node_at(curr));
                    match m_before.edge_at(curr, next.slot()) {
                        Some(x) => {
                            if x != curr {
                                assert(edge_ok_at(m_before, curr, next.slot()));
                                assert(x == target);
                                assert(m_before.visited(x));
                                assert(false);
                            }
                        },
                        None => {},
                    }
                    assert(dir_contrib(m1.node_at(curr), next.slot()) == 0);
                    assert(m1.node_at(curr).coordinates == curr);
                    assert(nd2.coordinates == curr);
                    assert(dir_contrib(nd2, next.slot()) == 1);
                    assert(forall|d: MoveDirection| d != next.slot()
                        ==> nd2.edge_spec(d) == m1.node_at(curr).edge_spec(d));
                    assert(node_real_deg(nd2) == node_real_deg(m1.node_at(curr)) + 1);
                    lemma_real_edge_count_update(m1, *self, curr);
                    lemma_unvisited_count_update(m1, *self, curr);
                    assert(unvisited_contrib(m1.node_at(curr)) == 0
                        && unvisited_contrib(nd2) == 0);
                    lemma_attach_child(
                        *old(self), m_before, m1, *self, prev, curr, steps, next, target,
                    );
                    assert forall|k: int| 0 <= k < idx + 1
                        && self.in_bounds((#[trigger] dirs@[k]).target())
                        implies self.visited(dirs@[k].target()) by {
                        if k < idx {
                            let t = dirs@[k].target();
                            assert(m_before.visited(t));
                        } else {
                            assert(dirs@[k] == next);
                            assert(self.visited(target));
                        }
                    }
                }
            }
            else {
                proof {
                    assert(*self == m_before);
                    assert(self.in_bounds(target) ==> self.visited(target));
                }
            }
            idx = idx + 1;
        }
        Some(())
    }
}

/// Real passages of one cell: those that lead to another cell rather than
/// back into the cell as a boundary marker.
pub open spec fn dir_contrib(n: Node, d: MoveDirection) -> nat {
    match n.edge_spec(d) {
        Some(t) => if t != n.coordinates {
            1nat
        } else {
            0nat
        },
        None => 0nat,
    }
}

pub open spec fn node_real_deg(n: Node) -> nat {
    dir_contrib(n, MoveDirection::Up) + dir_contrib(n, MoveDirection::Down)
        + dir_contrib(n, MoveDirection::Left) + dir_contrib(n, MoveDirection::Right)
}

pub open spec fn row_deg(row: Seq<Node>, j: nat) -> nat
    decreases j,
{
    if j == 0 {
        0
    } else {
        row_deg(row, (j - 1) as nat) + node_real_deg(row[j - 1])
    }
}

pub open spec fn grid_deg_upto(m: Maze, i: nat) -> nat
    decreases i,
{
    if i == 0 {
        0
    } else {
        grid_deg_upto(m, (i - 1) as nat) + row_deg(m.nodes@[i - 1]@, m.width as nat)
    }
}

/// The number of directed real passages in the whole maze: each undirected
/// passage between two cells is counted once from either end.
pub open spec fn real_edge_count(m: Maze) -> nat {
    grid_deg_upto(m, m.height as nat)
}

proof fn lemma_row_deg_eq(r1: Seq<Node>, r2: Seq<Node>, j: nat)
    requires
        forall|k: int| 0 <= k < j ==> #[trigger] r1[k] == r2[k],
    ensures
        row_deg(r1, j) == row_deg(r2, j),
    decreases j,
{
    if j > 0 {
        lemma_row_deg_eq(r1, r2, (j - 1) as nat);
    }
}

proof fn lemma_row_deg_update(r1: Seq<Node>, r2: Seq<Node>, j: nat, x: int)
    requires
        forall|k: int| 0 <= k < j && k != x ==> #[trigger] r1[k] == r2[k],
        0 <= x < j,
    ensures
        row_deg(r2, j) + node_real_deg(r1[x]) == row_deg(r1, j) + node_real_deg(r2[x]),
    decreases j,
{
    if x == j - 1 {
        lemma_row_deg_eq(r1, r2, (j - 1) as nat);
    } else {
        lemma_row_deg_update(r1, r2, (j - 1) as nat, x);
    }
}

proof fn lemma_grid_deg_update_upto(m1: Maze, m2: Maze, c0: Coordinates, i: nat)
    requires
        m1.wf(),
        m2.wf(),
        m1.height == m2.height,
        m1.width == m2.width,
        i <= m1.height,
        forall|c: Coordinates| m1.in_bounds(c) && c != c0 ==> #[trigger] m1.node_at(c)
            == m2.node_at(c),
        m1.in_bounds(c0),
        c0.y < i,
    ensures
        grid_deg_upto(m2, i) + node_real_deg(m1.node_at(c0))
            == grid_deg_upto(m1, i) + node_real_deg(m2.node_at(c0)),
    decreases i,
{
    assert(i > 0);
    assert forall|k: int| 0 <= k < m1.width as nat
        && !(i - 1 == c0.y as int && k == c0.x as int)
        implies #[trigger] m1.nodes@[i - 1]@[k] == m2.nodes@[i - 1]@[k] by {
        let c = Coordinates { x: k as i32, y: (i - 1) as i32 };
        assert(c.x as int == k && c.y as int == i - 1);
        assert(m1.in_bounds(c) && c != c0);
        assert(m1.node_at(c) == m1.nodes@[i - 1]@[k]);
        assert(m2.node_at(c) == m2.nodes@[i - 1]@[k]);
    }
    if c0.y as int == i - 1 {
        assert forall|k: int| 0 <= k < m1.width as nat && k != c0.x as int
            implies #[trigger] m1.nodes@[i - 1]@[k] == m2.nodes@[i - 1]@[k] by {}
        lemma_row_deg_update(m1.nodes@[i - 1]@, m2.nodes@[i - 1]@, m1.width as nat, c0.x as int);
        if i - 1 > 0 {
            lemma_grid_deg_eq_upto(m1, m2, c0, (i - 1) as nat);
        } else {
            assert(grid_deg_upto(m1, 0) == 0);
            assert(grid_deg_upto(m2, 0) == 0);
        }
        assert(m1.node_at(c0) == m1.nodes@[i - 1]@[c0.x as int]);
        assert(m2.node_at(c0) == m2.nodes@[i - 1]@[c0.x as int]);
    } else {
        lemma_grid_deg_update_upto(m1, m2, c0, (i - 1) as nat);
        lemma_row_deg_eq(m1.nodes@[i - 1]@, m2.nodes@[i - 1]@, m1.width as nat);
    }
}

proof fn lemma_grid_deg_eq_upto(m1: Maze, m2: Maze, c0: Coordinates, i: nat)
    requires
        m1.wf(),
        m2.wf(),
        m1.height == m2.height,
        m1.width == m2.width,
        i <= m1.height,
        forall|c: Coordinates| m1.in_bounds(c) && c != c0 ==> #[trigger] m1.node_at(c)
            == m2.node_at(c),
        c0.y >= i,
    ensures
        grid_deg_upto(m2, i) == grid_deg_upto(m1, i),
    decreases i,
{
    if i > 0 {
        lemma_grid_deg_eq_upto(m1, m2, c0, (i - 1) as nat);
        assert forall|k: int| 0 <= k < m1.width as nat
            implies #[trigger] m1.nodes@[i - 1]@[k] == m2.nodes@[i - 1]@[k] by {
            let c = Coordinates { x: k as i32, y: (i - 1) as i32 };
            assert(c.x as int == k && c.y as int == i - 1);
            assert(m1.in_bounds(c) && c != c0);
            assert(m1.node_at(c) == m1.nodes@[i - 1]@[k]);
            assert(m2.node_at(c) == m2.nodes@[i - 1]@[k]);
        }
        lemma_row_deg_eq(m1.nodes@[i - 1]@, m2.nodes@[i - 1]@, m1.width as nat);
    }
}

/// Rewriting one cell shifts the passage count by that cell's difference.
pub(crate) proof fn lemma_real_edge_count_update(m1: Maze, m2: Maze, c0: Coordinates)
    requires
        m1.wf(),
        m2.wf(),
        m1.height == m2.height,
        m1.width == m2.width,
        forall|c: Coordinates| m1.in_bounds(c) && c != c0 ==> #[trigger] m1.node_at(c)
            == m2.node_at(c),
        m1.in_bounds(c0),
    ensures
        real_edge_count(m2) + node_real_deg(m1.node_at(c0))
            == real_edge_count(m1) + node_real_deg(m2.node_at(c0)),
{
    lemma_grid_deg_update_upto(m1, m2, c0, m1.height as nat);
}

proof fn lemma_row_deg_blank(row: Seq<Node>, j: nat)
    requires
        forall|k: int| 0 <= k < j ==> !(#[trigger] row[k]).is_visited(),
    ensures
        row_deg(row, j) == 0,
    decreases j,
{
    if j > 0 {
        lemma_row_deg_blank(row, (j - 1) as nat);
    }
}

/// A blank maze holds no passages at all.
pub proof fn lemma_real_edge_count_blank(m: Maze)
    requires
        m.wf(),
        forall|c: Coordinates| m.in_bounds(c) ==> !(#[trigger] m.visited(c)),
    ensures
        real_edge_count(m) == 0,
{
    lemma_grid_deg_blank_upto(m, m.height as nat);
}

proof fn lemma_grid_deg_blank_upto(m: Maze, i: nat)
    requires
        m.wf(),
        forall|c: Coordinates| m.in_bounds(c) ==> !(#[trigger] m.visited(c)),
        i <= m.height,
    ensures
        grid_deg_upto(m, i) == 0,
    decreases i,
{
    if i > 0 {
        lemma_grid_deg_blank_upto(m, (i - 1) as nat);
        assert forall|k: int| 0 <= k < m.width as nat
            implies !(#[trigger] m.nodes@[i - 1]@[k]).is_visited() by {
            let c = Coordinates { x: k as i32, y: (i - 1) as i32 };
            assert(c.x as int == k && c.y as int == i - 1);
            assert(m.in_bounds(c));
            assert(!m.visited(c));
            assert(m.node_at(c) == m.nodes@[i - 1]@[k]);
        }
        lemma_row_deg_blank(m.nodes@[i - 1]@, m.width as nat);
    }
}

proof fn lemma_row_unvisited_exact(row: Seq<Node>, j: nat, visited: bool)
    requires
        forall|k: int| 0 <= k < j ==> (#[trigger] row[k]).is_visited() == visited,
    ensures
        row_unvisited(row, j) == if visited { 0nat } else { j },
    decreases j,
{
    if j > 0 {
        lemma_row_unvisited_exact(row, (j - 1) as nat, visited);
    }
}

proof fn lemma_grid_unvisited_exact_upto(m: Maze, i: nat, visited: bool)
    requires
        m.wf(),
        forall|c: Coordinates| m.in_bounds(c) ==> #[trigger] m.visited(c) == visited,
        i <= m.height,
    ensures
        grid_unvisited_upto(m, i) == if visited { 0nat } else { i * m.width as nat },
    decreases i,
{
    if i > 0 {
        lemma_grid_unvisited_exact_upto(m, (i - 1) as nat, visited);
        assert forall|k: int| 0 <= k < m.width as nat
            implies (#[trigger] m.nodes@[i - 1]@[k]).is_visited() == visited by {
            let c = Coordinates { x: k as i32, y: (i - 1) as i32 };
            assert(c.x as int == k && c.y as int == i - 1);
            assert(m.in_bounds(c));
            assert(m.visited(c) == visited);
            assert(m.node_at(c) == m.nodes@[i - 1]@[k]);
        }
        lemma_row_unvisited_exact(m.nodes@[i - 1]@, m.width as nat, visited);
        assert((i - 1) * m.width as nat + m.width as nat == i * m.width as nat)
            by (nonlinear_arith);
    }
}

/// A blank maze has every cell unvisited; a fully carved one has none.
pub proof fn lemma_unvisited_count_exact(m: Maze, visited: bool)
    requires
        m.wf(),
        forall|c: Coordinates| m.in_bounds(c) ==> #[trigger] m.visited(c) == visited,
    ensures
        unvisited_count(m) == if visited { 0nat } else { (m.height * m.width) as nat },
{
    lemma_grid_unvisited_exact_upto(m, m.height as nat, visited);
    assert(m.height as nat * m.width as nat == (m.height * m.width) as nat)
        by (nonlinear_arith);
}

pub open spec fn unvisited_contrib(n: Node) -> nat {
    if n.is_visited() {
        0nat
    } else {
        1nat
    }
}

proof fn lemma_row_unvisited_eq(r1: Seq<Node>, r2: Seq<Node>, j: nat)
    requires
        forall|k: int| 0 <= k < j ==> #[trigger] r1[k] == r2[k],
    ensures
        row_unvisited(r1, j) == row_unvisited(r2, j),
    decreases j,
{
    if j > 0 {
        lemma_row_unvisited_eq(r1, r2, (j - 1) as nat);
    }
}

proof fn lemma_row_unvisited_update(r1: Seq<Node>, r2: Seq<Node>, j: nat, x: int)
    requires
        forall|k: int| 0 <= k < j && k != x ==> #[trigger] r1[k] == r2[k],
        0 <= x < j,
    ensures
        row_unvisited(r2, j) + unvisited_contrib(r1[x])
            == row_unvisited(r1, j) + unvisited_contrib(r2[x]),
    decreases j,
{
    if x == j - 1 {
        lemma_row_unvisited_eq(r1, r2, (j - 1) as nat);
    } else {
        lemma_row_unvisited_update(r1, r2, (j - 1) as nat, x);
    }
}

proof fn lemma_grid_unvisited_eq_upto(m1: Maze, m2: Maze, c0: Coordinates, i: nat)
    requires
        m1.wf(),
        m2.wf(),
        m1.height == m2.height,
        m1.width == m2.width,
        i <= m1.height,
        forall|c: Coordinates| m1.in_bounds(c) && c != c0 ==> #[trigger] m1.node_at(c)
            == m2.node_at(c),
        c0.y >= i,
    ensures
        grid_unvisited_upto(m2, i) == grid_unvisited_upto(m1, i),
    decreases i,
{
    if i > 0 {
        lemma_grid_unvisited_eq_upto(m1, m2, c0, (i - 1) as nat);
        assert forall|k: int| 0 <= k < m1.width as nat
            implies #[trigger] m1.nodes@[i - 1]@[k] == m2.nodes@[i - 1]@[k] by {
            let c = Coordinates { x: k as i32, y: (i - 1) as i32 };
            assert(c.x as int == k && c.y as int == i - 1);
            assert(m1.in_bounds(c) && c != c0);
            assert(m1.node_at(c) == m1.nodes@[i - 1]@[k]);
            assert(m2.node_at(c) == m2.nodes@[i - 1]@[k]);
        }
        lemma_row_unvisited_eq(m1.nodes@[i - 1]@, m2.nodes@[i - 1]@, m1.width as nat);
    }
}

proof fn lemma_grid_unvisited_update_upto(m1: Maze, m2: Maze, c0: Coordinates, i: nat)
    requires
        m1.wf(),
        m2.wf(),
        m1.height == m2.height,
        m1.width == m2.width,
        i <= m1.height,
        forall|c: Coordinates| m1.in_bounds(c) && c != c0 ==> #[trigger] m1.node_at(c)
            == m2.node_at(c),
        m1.in_bounds(c0),
        c0.y < i,
    ensures
        grid_unvisited_upto(m2, i) + unvisited_contrib(m1.node_at(c0))
            == grid_unvisited_upto(m1, i) + unvisited_contrib(m2.node_at(c0)),
    decreases i,
{
    assert(i > 0);
    if c0.y as int == i - 1 {
        assert forall|k: int| 0 <= k < m1.width as nat && k != c0.x as int
            implies #[trigger] m1.nodes@[i - 1]@[k] == m2.nodes@[i - 1]@[k] by {
            let c = Coordinates { x: k as i32, y: (i - 1) as i32 };
            assert(c.x as int == k && c.y as int == i - 1);
            assert(m1.in_bounds(c) && c != c0);
            assert(m1.node_at(c) == m1.nodes@[i - 1]@[k]);
            assert(m2.node_at(c) == m2.nodes@[i - 1]@[k]);
        }
        lemma_row_unvisited_update(m1.nodes@[i - 1]@, m2.nodes@[i - 1]@, m1.width as nat,
            c0.x as int);
        if i - 1 > 0 {
            lemma_grid_unvisited_eq_upto(m1, m2, c0, (i - 1) as nat);
        } else {
            assert(grid_unvisited_upto(m1, 0) == 0);
            assert(grid_unvisited_upto(m2, 0) == 0);
        }
        assert(m1.node_at(c0) == m1.nodes@[i - 1]@[c0.x as int]);
        assert(m2.node_at(c0) == m2.nodes@[i - 1]@[c0.x as int]);
    } else {
        lemma_grid_unvisited_update_upto(m1, m2, c0, (i - 1) as nat);
        assert forall|k: int| 0 <= k < m1.width as nat
            implies #[trigger] m1.nodes@[i - 1]@[k] == m2.nodes@[i - 1]@[k] by {
            let c = Coordinates { x: k as i32, y: (i - 1) as i32 };
            assert(c.x as int == k && c.y as int == i - 1);
            assert(m1.in_bounds(c) && c != c0);
            assert(m1.node_at(c) == m1.nodes@[i - 1]@[k]);
            assert(m2.node_at(c) == m2.nodes@[i - 1]@[k]);
        }
        lemma_row_unvisited_eq(m1.nodes@[i - 1]@, m2.nodes@[i - 1]@, m1.width as nat);
    }
}

/// Rewriting one cell shifts the unvisited count by that cell's difference.
pub(crate) proof fn lemma_unvisited_count_update(m1: Maze, m2: Maze, c0: Coordinates)
    requires
        m1.wf(),
        m2.wf(),
        m1.height == m2.height,
        m1.width == m2.width,
        forall|c: Coordinates| m1.in_bounds(c) && c != c0 ==> #[trigger] m1.node_at(c)
            == m2.node_at(c),
        m1.in_bounds(c0),
    ensures
        unvisited_count(m2) + unvisited_contrib(m1.node_at(c0))
            == unvisited_count(m1) + unvisited_contrib(m2.node_at(c0)),
{
    lemma_grid_unvisited_update_upto(m1, m2, c0, m1.height as nat);
}

proof fn lemma_row_unvisited_pos(row: Seq<Node>, j: nat, x: int)
    requires
        0 <= x < j,
        !row[x].is_visited(),
    ensures
        row_unvisited(row, j) >= 1,
    decreases j,
{
    if x < j - 1 {
        lemma_row_unvisited_pos(row, (j - 1) as nat, x);
    }
}

proof fn lemma_grid_unvisited_pos_upto(m: Maze, c: Coordinates, i: nat)
    requires
        m.wf(),
        m.in_bounds(c),
        !m.visited(c),
        c.y < i,
        i <= m.height,
    ensures
        grid_unvisited_upto(m, i) >= 1,
    decreases i,
{
    assert(i > 0);
    if c.y as int == i - 1 {
        assert(m.node_at(c) == m.nodes@[i - 1]@[c.x as int]);
        lemma_row_unvisited_pos(m.nodes@[i - 1]@, m.width as nat, c.x as int);
    } else {
        lemma_grid_unvisited_pos_upto(m, c, (i - 1) as nat);
    }
}

/// A grid with an unvisited in-bounds cell has a positive unvisited count.
pub(crate) proof fn lemma_unvisited_count_pos(m: Maze, c: Coordinates)
    requires
        m.wf(),
        m.in_bounds(c),
        !m.visited(c),
    ensures
        unvisited_count(m) >= 1,
{
    lemma_grid_unvisited_pos_upto(m, c, m.height as nat);
}

/// No more cells are unvisited than the grid holds.
pub proof fn lemma_unvisited_count_full(m: Maze)
    ensures
        unvisited_count(m) <= m.height * m.width,
{
    lemma_grid_unvisited_bound(m, m.height as nat);
}

/// The whole grid's area fits in `usize`.
pub proof fn lemma_area_fits(h: usize, w: usize)
    requires
        h <= MAX_DIM,
        w <= MAX_DIM,
    ensures
        h * w <= usize::MAX,
{
    assert(h * w <= 65535 * 65535) by (nonlinear_arith)
        requires
            h <= 65535,
            w <= 65535,
    ;
}

} // verus!
