use maze_game::game::Game;
use maze_game::maze::{Coordinates, Maze};
use maze_game::rng::rng_from_seed;
use std::collections::VecDeque;

/// Directed, non-marker edges of the maze as (from x, from y, to x, to y).
fn real_edges(game: &Game) -> Vec<(i32, i32, i32, i32)> {
    let mut edges = Vec::new();
    for row in game.maze().nodes() {
        for node in row.iter() {
            let c = node.coordinates;
            for t in [&node.up, &node.down, &node.left, &node.right]
                .into_iter()
                .flatten()
            {
                if *t != c {
                    edges.push((c.x, c.y, t.x, t.y));
                }
            }
        }
    }
    edges.sort();
    edges
}

/// Breadth-first distances to `end` over the stored passages.
fn bfs_distances(game: &Game) -> Vec<Vec<Option<usize>>> {
    let h = game.maze().height();
    let w = game.maze().width();
    let mut dist: Vec<Vec<Option<usize>>> = vec![vec![None; w]; h];
    let end = game.end().clone();
    dist[end.y as usize][end.x as usize] = Some(0);
    let mut queue = VecDeque::new();
    queue.push_back(end);
    while let Some(c) = queue.pop_front() {
        let d = dist[c.y as usize][c.x as usize].unwrap();
        let node = game.maze().get_node(&c).unwrap();
        for t in [&node.up, &node.down, &node.left, &node.right]
            .into_iter()
            .flatten()
        {
            if *t != c && dist[t.y as usize][t.x as usize].is_none() {
                dist[t.y as usize][t.x as usize] = Some(d + 1);
                queue.push_back(t.clone());
            }
        }
    }
    dist
}

fn make_game(h: usize, w: usize, seed: u64) -> Game {
    let mut rng = rng_from_seed(seed);
    Game::new(Maze::new(h, w), true, &mut rng)
}

#[test]
fn spanning_tree_edge_count_and_connectivity() {
    for &(h, w) in &[(1usize, 1usize), (1, 5), (5, 1), (2, 2), (3, 3), (5, 8), (10, 10)] {
        for seed in 0u64..3 {
            let game = make_game(h, w, seed);
            let edges = real_edges(&game);
            // a spanning tree: exactly h*w - 1 undirected passages
            assert_eq!(edges.len(), 2 * (h * w - 1), "size {}x{} seed {}", h, w, seed);
            // every passage is reciprocal and joins adjacent cells
            for &(ax, ay, bx, by) in &edges {
                assert!(edges.binary_search(&(bx, by, ax, ay)).is_ok());
                assert_eq!((ax - bx).abs() + (ay - by).abs(), 1);
            }
            // every cell is reachable from the exit
            let dist = bfs_distances(&game);
            for row in &dist {
                for d in row {
                    assert!(d.is_some(), "unreachable cell in {}x{} seed {}", h, w, seed);
                }
            }
        }
    }
}

#[test]
fn distance_labels_match_bfs_recomputation() {
    for &(h, w) in &[(1usize, 1usize), (4, 4), (7, 3), (10, 10)] {
        for seed in 10u64..13 {
            let game = make_game(h, w, seed);
            let dist = bfs_distances(&game);
            for row in game.maze().nodes() {
                for node in row.iter() {
                    let c = node.coordinates;
                    assert_eq!(
                        Some(node.get_steps()),
                        dist[c.y as usize][c.x as usize],
                        "label mismatch at ({}, {}) in {}x{} seed {}",
                        c.x, c.y, h, w, seed
                    );
                }
            }
        }
    }
}

#[test]
fn fixed_seed_reproduces_identical_maze() {
    let g1 = make_game(3, 3, 42);
    let g2 = make_game(3, 3, 42);
    assert_eq!(real_edges(&g1), real_edges(&g2));
    assert_eq!(g1.player(), g2.player());
    assert_eq!(g1.end(), g2.end());
    for (r1, r2) in g1.maze().nodes().iter().zip(g2.maze().nodes().iter()) {
        for (n1, n2) in r1.iter().zip(r2.iter()) {
            assert_eq!(n1.get_steps(), n2.get_steps());
        }
    }
}

#[test]
fn golden_three_by_three_seed_42() {
    let game = make_game(3, 3, 42);
    let edges = real_edges(&game);
    let mut labels: Vec<(i32, i32, usize)> = Vec::new();
    for row in game.maze().nodes() {
        for node in row.iter() {
            labels.push((node.coordinates.x, node.coordinates.y, node.get_steps()));
        }
    }
    labels.sort();
    let expected_edges: Vec<(i32, i32, i32, i32)> = vec![
        (0, 0, 0, 1),
        (0, 0, 1, 0),
        (0, 1, 0, 0),
        (0, 1, 0, 2),
        (0, 2, 0, 1),
        (0, 2, 1, 2),
        (1, 0, 0, 0),
        (1, 0, 2, 0),
        (1, 1, 2, 1),
        (1, 2, 0, 2),
        (2, 0, 1, 0),
        (2, 0, 2, 1),
        (2, 1, 1, 1),
        (2, 1, 2, 0),
        (2, 1, 2, 2),
        (2, 2, 2, 1),
    ];
    let expected_labels: Vec<(i32, i32, usize)> = vec![
        (0, 0, 3),
        (0, 1, 2),
        (0, 2, 1),
        (1, 0, 4),
        (1, 1, 7),
        (1, 2, 0),
        (2, 0, 5),
        (2, 1, 6),
        (2, 2, 7),
    ];
    let expected_player: (i32, i32) = (1, 0);
    let expected_end: (i32, i32) = (1, 2);
    let actual = (
        (game.player().x, game.player().y),
        (game.end().x, game.end().y),
        edges,
        labels,
    );
    let expected = (expected_player, expected_end, expected_edges, expected_labels);
    assert_eq!(actual, expected);
}

#[test]
fn new_maze_is_blank() {
    let maze = Maze::new(2, 3);
    assert_eq!(maze.height(), 2);
    assert_eq!(maze.width(), 3);
    for row in maze.nodes() {
        for node in row.iter() {
            assert!(node.up.is_none());
            assert!(node.down.is_none());
            assert!(node.left.is_none());
            assert!(node.right.is_none());
            assert_eq!(node.get_steps(), 0);
        }
    }
}

#[test]
fn generate_carves_a_tree_from_any_root() {
    // drive the generator directly, rooting the tree at a corner
    let mut maze = Maze::new(4, 4);
    let mut rng = rng_from_seed(8);
    let root = Coordinates::new(0, 0);
    let r = maze.generate(maze_game::maze::Direction::Down(root), root, 0, &mut rng);
    assert_eq!(r, Some(()));
    // carving the same cell again is refused and changes nothing
    let before: Vec<(i32, i32, usize)> = maze
        .nodes()
        .iter()
        .flatten()
        .map(|n| (n.coordinates.x, n.coordinates.y, n.get_steps()))
        .collect();
    let r2 = maze.generate(maze_game::maze::Direction::Down(root), root, 0, &mut rng);
    assert_eq!(r2, None);
    let after: Vec<(i32, i32, usize)> = maze
        .nodes()
        .iter()
        .flatten()
        .map(|n| (n.coordinates.x, n.coordinates.y, n.get_steps()))
        .collect();
    assert_eq!(before, after);
    // the root is labelled zero and every label steps by one along an edge
    assert_eq!(maze.get_node(&root).unwrap().get_steps(), 0);
    let mut undirected = 0;
    for row in maze.nodes() {
        for node in row.iter() {
            let c = node.coordinates;
            let s = node.get_steps();
            for t in [&node.up, &node.down, &node.left, &node.right]
                .into_iter()
                .flatten()
            {
                if *t != c {
                    undirected += 1;
                    let st = maze.get_node(t).unwrap().get_steps();
                    assert!(st == s + 1 || st + 1 == s);
                }
            }
        }
    }
    assert_eq!(undirected, 2 * (4 * 4 - 1));
    // carving out of bounds is refused
    let outside = Coordinates::new(-1, 0);
    assert_eq!(
        maze.generate(maze_game::maze::Direction::Right(outside), outside, 1, &mut rng),
        None
    );
}

#[test]
fn add_edge_sets_one_slot() {
    let mut maze = Maze::new(1, 1);
    let target = Coordinates::new(0, 1);
    {
        let rows = maze.nodes();
        assert!(rows[0][0].down.is_none());
    }
    let mut node = *maze.get_node(&Coordinates::new(0, 0)).unwrap();
    node.add_edge(maze_game::maze::Direction::Down(target));
    assert_eq!(node.down, Some(target));
    assert!(node.up.is_none() && node.left.is_none() && node.right.is_none());
}

#[test]
fn coordinates_accessors() {
    let c = Coordinates::new(4, -2);
    assert_eq!(c.x, 4);
    assert_eq!(c.y, -2);
    let d = Coordinates::default();
    assert_eq!(d, Coordinates::new(0, 0));
}
