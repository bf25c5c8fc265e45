use nova_luna_solver::backend::rocket;
use nova_luna_solver::nova_luna::{Color, Move, Position, State, Task, Tile};
use nova_luna_solver::solver::{
    playout_best_moves, CycleBehaviour, NovaLunaBoardGameMCTS, StateEvaluator,
};
use nova_luna_solver::SolverParameters;

#[test]
fn a_new_state_is_scored_by_its_solved_tasks() {
    let teal = Tile::new(1, Color::Teal, vec![Task::new(vec![])]);
    let blue = Tile::new(2, Color::Blue, vec![Task::new(vec![Color::Teal]), Task::new(vec![Color::Red])]);
    let mut state = State::with_tiles(vec![teal.clone(), blue.clone(), teal.clone()]);
    let moves = state.available_moves();
    let (player, score) = StateEvaluator.evaluate_new_state(&state, &moves);
    assert_eq!(player.len(), 2);
    assert_eq!(score, 0);

    state.make_move(&Move::new(teal.clone(), Position(0, 0)));
    state.make_move(&Move::new(blue.clone(), Position(0, 1)));
    let moves = state.available_moves();
    let (player, score) = StateEvaluator.evaluate_new_state(&state, &moves);
    assert_eq!(player.len(), 6);
    assert_eq!(score, 2);
}

#[test]
fn a_known_state_keeps_its_score() {
    let state = State::empty();
    assert_eq!(StateEvaluator.evaluate_existing_state(&state, &17), 17);
    assert_eq!(StateEvaluator.evaluate_existing_state(&state, &-3), -3);
    assert_eq!(StateEvaluator.interpret_evaluation_for_player(&42, &()), 42);
    assert_eq!(StateEvaluator.interpret_evaluation_for_player(&i64::MIN, &()), i64::MIN);
}

#[test]
fn a_state_met_again_keeps_the_score_it_has() {
    assert_eq!(
        NovaLunaBoardGameMCTS.cycle_behaviour(),
        CycleBehaviour::UseCurrentEvalWhenCycleDetected
    );
    assert_eq!(
        NovaLunaBoardGameMCTS::default().cycle_behaviour(),
        CycleBehaviour::UseCurrentEvalWhenCycleDetected
    );
}

#[test]
fn a_line_of_play_is_applied_move_by_move() {
    let teal = Tile::new(1, Color::Teal, vec![]);
    let blue = Tile::new(2, Color::Blue, vec![Task::new(vec![Color::Teal])]);
    let state = State::with_tiles(vec![teal.clone(), blue.clone(), teal.clone()]);
    let line = vec![
        Move::new(teal.clone(), Position(0, 0)),
        Move::new(blue.clone(), Position(1, 0)),
    ];
    let game = playout_best_moves(state.clone(), &line).unwrap();
    assert_eq!(game.board().len(), 2);
    assert_eq!(game.tiles(), &vec![teal.clone()]);
    assert_eq!(game.count_solved_tasks(), 1);

    let mut by_hand = state.clone();
    by_hand.make_move(&line[0]);
    by_hand.make_move(&line[1]);
    assert_eq!(game.hash(), by_hand.hash());

    let unchanged = playout_best_moves(state.clone(), &Vec::new()).unwrap();
    assert_eq!(unchanged.hash(), state.hash());
}

#[test]
fn a_line_of_play_with_a_move_that_cannot_be_made_gives_nothing() {
    let teal = Tile::new(1, Color::Teal, vec![]);
    let blue = Tile::new(2, Color::Blue, vec![]);
    let state = State::with_tiles(vec![teal.clone(), blue.clone()]);
    let onto_a_tile = vec![
        Move::new(teal.clone(), Position(0, 0)),
        Move::new(blue.clone(), Position(0, 0)),
    ];
    assert!(playout_best_moves(state.clone(), &onto_a_tile).is_none());
    let tile_used_up = vec![
        Move::new(teal.clone(), Position(0, 0)),
        Move::new(teal.clone(), Position(1, 0)),
    ];
    assert!(playout_best_moves(state.clone(), &tile_used_up).is_none());
    let unknown_tile = vec![Move::new(Tile::new(9, Color::Red, vec![]), Position(0, 0))];
    assert!(playout_best_moves(state.clone(), &unknown_tile).is_none());
}

#[test]
fn the_web_service_is_launched_with_a_short_search() {
    let launch = rocket();
    assert_eq!(launch.mount, "/");
    let SolverParameters {
        tiles,
        output_file,
        output_dir,
        print_statistics,
        print_moves,
        num_playouts,
        num_threads,
        debug,
    } = launch.parameters;
    assert!(tiles.is_empty());
    assert_eq!(output_file, None);
    assert_eq!(output_dir, None);
    assert!(print_statistics);
    assert!(print_moves);
    assert_eq!(num_playouts, 10);
    assert_eq!(num_threads, 1);
    assert!(debug);
}
