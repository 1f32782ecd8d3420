use maze_game::game::Game;
use maze_game::maze::Maze;
use maze_game::rng::rng_from_seed;
use maze_game::solver::solve_trace;

fn make_game(h: usize, w: usize, seed: u64) -> Game {
    let mut rng = rng_from_seed(seed);
    Game::new(Maze::new(h, w), true, &mut rng)
}

#[test]
fn solver_reaches_the_exit_on_many_sizes() {
    for &(h, w) in &[
        (1usize, 1usize),
        (1, 2),
        (2, 1),
        (2, 3),
        (5, 5),
        (10, 10),
        (31, 17),
        (51, 51),
    ] {
        for seed in 20u64..23 {
            let mut game = make_game(h, w, seed);
            let trace = solve_trace(game.maze(), *game.player(), *game.end())
                .expect("a carved maze is connected, so the search succeeds");
            if trace.is_empty() {
                assert_eq!(*game.player(), *game.end());
            } else {
                assert_eq!(trace[trace.len() - 1], *game.end());
            }
            // replaying the trace walks the visible player onto the exit
            for c in trace {
                assert!(game.maze().get_node(&c).is_some());
                game.move_player_coordinates(c);
            }
            assert_eq!(*game.player(), *game.end(), "size {}x{} seed {}", h, w, seed);
        }
    }
}

#[test]
fn golden_watch_trace_three_by_three_seed_42() {
    // locks the solver's fixed exploration order (left, down, right, up)
    // and its exact backtracking moves on the golden maze
    let game = make_game(3, 3, 42);
    let trace = solve_trace(game.maze(), *game.player(), *game.end()).unwrap();
    let actual: Vec<(i32, i32)> = trace.iter().map(|c| (c.x, c.y)).collect();
    let expected: Vec<(i32, i32)> = vec![(0, 0), (0, 1), (0, 2), (1, 2)];
    assert_eq!(actual, expected);
}

#[test]
fn solver_trace_moves_one_cell_at_a_time() {
    let game = make_game(8, 8, 33);
    let trace = solve_trace(game.maze(), *game.player(), *game.end()).unwrap();
    let start = *game.player();
    let mut prev = start;
    for c in trace {
        let step = (c.x - prev.x).abs() + (c.y - prev.y).abs();
        // one cell per move; after an exhausted opening branch the walk
        // resumes at another neighbour of the start
        let resumes = (c.x - start.x).abs() + (c.y - start.y).abs() == 1
            && (prev.x - start.x).abs() + (prev.y - start.y).abs() == 1;
        assert!(
            step == 1 || resumes,
            "jump from ({},{}) to ({},{})",
            prev.x, prev.y, c.x, c.y
        );
        prev = c;
    }
}
