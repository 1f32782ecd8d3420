use maze_game::game::{Game, GameError, GameMode};
use maze_game::maze::{Coordinates, Maze, MoveDirection};
use maze_game::rng::rng_from_seed;
use maze_game::solver::solve_trace;

fn make_game(h: usize, w: usize, seed: u64) -> Game {
    let mut rng = rng_from_seed(seed);
    Game::new(Maze::new(h, w), true, &mut rng)
}

fn trail(game: &Game) -> Vec<Coordinates> {
    game.breadcrumbs().expect("trail display enabled").clone()
}

#[test]
fn one_by_one_scenario() {
    let mut game = make_game(1, 1, 5);
    let origin = Coordinates::new(0, 0);
    // a single cell labelled zero; player and exit coincide on it
    assert_eq!(*game.player(), origin);
    assert_eq!(*game.end(), origin);
    assert_eq!(game.maze().get_node(&origin).unwrap().get_steps(), 0);
    // any manual move fails with "no passage" and changes nothing
    for d in [
        MoveDirection::Up,
        MoveDirection::Down,
        MoveDirection::Left,
        MoveDirection::Right,
    ] {
        assert_eq!(game.move_player(d), Err(GameError::NoPassage));
        assert_eq!(*game.player(), origin);
        assert_eq!(trail(&game), Vec::<Coordinates>::new());
    }
    // the automatic move is a no-op at the exit
    assert_eq!(game.auto_move(), Ok(()));
    assert_eq!(*game.player(), origin);
    assert_eq!(trail(&game), Vec::<Coordinates>::new());
    // the watching solver reports immediate success
    let t = solve_trace(game.maze(), *game.player(), *game.end());
    assert_eq!(t, Some(vec![]));
}

#[test]
fn auto_move_reaches_exit_in_exactly_distance_calls() {
    for &(h, w, seed) in &[(10usize, 10usize, 7u64), (5, 9, 1), (2, 1, 3), (1, 8, 4)] {
        let mut game = make_game(h, w, seed);
        let n = game.maze().get_node(game.player()).unwrap().get_steps();
        for k in 0..n {
            assert_ne!(*game.player(), *game.end(), "arrived early after {} of {}", k, n);
            assert_eq!(game.auto_move(), Ok(()));
            let left = game.maze().get_node(game.player()).unwrap().get_steps();
            assert_eq!(left, n - k - 1);
        }
        assert_eq!(*game.player(), *game.end());
        // one more call at the exit is a no-op
        let before_player = *game.player();
        let before_trail = trail(&game);
        assert_eq!(game.auto_move(), Ok(()));
        assert_eq!(*game.player(), before_player);
        assert_eq!(trail(&game), before_trail);
    }
}

#[test]
fn breadcrumb_backtrack_restores_trail() {
    // a 2x1 grid: the only tree joins (0,0) and (0,1)
    let mut game = make_game(2, 1, 11);
    let a = Coordinates::new(0, 0);
    let b = Coordinates::new(0, 1);
    assert_eq!(*game.player(), a);
    let before = trail(&game);
    assert_eq!(game.move_player(MoveDirection::Down), Ok(()));
    assert_eq!(*game.player(), b);
    assert_eq!(trail(&game), vec![a]);
    // moving straight back restores the trail exactly
    assert_eq!(game.move_player(MoveDirection::Up), Ok(()));
    assert_eq!(*game.player(), a);
    assert_eq!(trail(&game), before);
}

#[test]
fn breadcrumb_forward_walk_records_cells_left() {
    // a 3x1 grid: the tree is the column, walked top to bottom
    let mut game = make_game(3, 1, 2);
    let a = Coordinates::new(0, 0);
    let b = Coordinates::new(0, 1);
    let c = Coordinates::new(0, 2);
    assert_eq!(*game.player(), a);
    assert_eq!(game.move_player(MoveDirection::Down), Ok(()));
    assert_eq!(trail(&game), vec![a]);
    assert_eq!(game.move_player(MoveDirection::Down), Ok(()));
    // C was not the previous breadcrumb, so B joins the trail after A
    assert_eq!(trail(&game), vec![a, b]);
    assert_eq!(*game.player(), c);
    // oscillating B -> C -> B twice leaves no residue
    assert_eq!(game.move_player(MoveDirection::Up), Ok(()));
    assert_eq!(trail(&game), vec![a]);
    assert_eq!(game.move_player(MoveDirection::Down), Ok(()));
    assert_eq!(trail(&game), vec![a, b]);
}

#[test]
fn rejected_move_changes_nothing() {
    let mut game = make_game(2, 1, 11);
    let a = *game.player();
    // no cell to the left of a one-column maze
    assert_eq!(game.move_player(MoveDirection::Left), Err(GameError::NoPassage));
    assert_eq!(*game.player(), a);
    assert_eq!(trail(&game), Vec::<Coordinates>::new());
    // the entrance above the start is a boundary marker, not a passage
    assert_eq!(game.maze().get_node(&a).unwrap().up, Some(a));
    assert_eq!(game.move_player(MoveDirection::Up), Err(GameError::NoPassage));
    assert_eq!(*game.player(), a);
    assert_eq!(trail(&game), Vec::<Coordinates>::new());
}

#[test]
fn player_outside_maze_is_reported() {
    // corrupt a session by hand: the defensive lookup must answer, not panic
    let game = make_game(2, 2, 1);
    let mut broken = Game {
        maze: game.maze,
        player_coordinates: Coordinates::new(9, 9),
        end_coordinates: game.end_coordinates,
        breadcrumbs: Vec::new(),
        enable_breadcrumbs: false,
    };
    assert_eq!(
        broken.move_player(MoveDirection::Up),
        Err(GameError::PlayerOutsideMaze)
    );
    assert_eq!(broken.auto_move(), Err(GameError::PlayerOutsideMaze));
    assert_eq!(*broken.player(), Coordinates::new(9, 9));
}

#[test]
fn toggling_the_trail_keeps_its_contents() {
    let mut game = make_game(3, 3, 9);
    let _ = game.move_player(MoveDirection::Down);
    let _ = game.move_player(MoveDirection::Left);
    let shown = game.breadcrumbs().map(|v| v.clone());
    game.toggle_breadcrumbs();
    assert!(game.breadcrumbs().is_none());
    game.toggle_breadcrumbs();
    assert_eq!(game.breadcrumbs().map(|v| v.clone()), shown);
}

#[test]
fn game_mode_values_are_distinct() {
    assert_ne!(GameMode::Play, GameMode::Watch);
    assert_eq!(GameMode::Play, GameMode::Play);
}
