use nova_luna_solver::nova_luna::{Color, Move, Position, State, Task, Tile};

#[test]
fn empty_state() {
    let state = State::empty();
    assert!(state.available_moves().is_empty());
}

#[test]
fn single_tile() {
    let tile = Tile::new(1, Color::Yellow, vec![]);
    let state = State::with_tiles(vec![tile.clone()]);
    let moves = state.available_moves();
    assert_eq!(1, moves.len());
    assert_eq!(Move::new(tile, Position(0, 0)), moves[0]);
}

#[test]
fn two_tiles() {
    let tile = Tile::new(1, Color::Yellow, vec![]);
    let mut state = State::with_tiles(vec![tile.clone(), tile.clone()]);

    state.make_move(&Move::new(tile.clone(), Position(0, 0)));

    let moves = state.available_moves();

    assert_eq!(4, moves.len());
    assert!(moves.contains(&Move::new(tile.clone(), Position(1, 0))));
    assert!(moves.contains(&Move::new(tile.clone(), Position(0, 1))));
    assert!(moves.contains(&Move::new(tile.clone(), Position(-1, 0))));
    assert!(moves.contains(&Move::new(tile.clone(), Position(0, -1))));
}

#[test]
fn three_tiles() {
    let tile = Tile::new(1, Color::Yellow, vec![]);
    let mut state = State::with_tiles(vec![tile.clone(), tile.clone(), tile.clone()]);

    state.make_move(&Move::new(tile.clone(), Position(0, 0)));
    state.make_move(&Move::new(tile.clone(), Position(1, 0)));

    let moves = state.available_moves();

    assert_eq!(6, moves.len());

    assert!(moves.contains(&Move::new(tile.clone(), Position(2, 0))));
    assert!(moves.contains(&Move::new(tile.clone(), Position(1, 1))));
    assert!(moves.contains(&Move::new(tile.clone(), Position(1, -1))));
    assert!(moves.contains(&Move::new(tile.clone(), Position(0, 1))));
    assert!(moves.contains(&Move::new(tile.clone(), Position(-1, 0))));
    assert!(moves.contains(&Move::new(tile.clone(), Position(0, -1))));
}

#[test]
fn two_available_tiles() {
    let tile1 = Tile::new(1, Color::Yellow, vec![]);
    let tile2 = Tile::new(2, Color::Blue, vec![Task::new(vec![Color::Teal])]);

    let mut state = State::with_tiles(vec![
        tile1.clone(),
        tile1.clone(),
        tile1.clone(),
        tile2.clone(),
    ]);

    state.make_move(&Move::new(tile1.clone(), Position(0, 0)));
    state.make_move(&Move::new(tile1.clone(), Position(1, 0)));

    let moves = state.available_moves();

    assert_eq!(12, moves.len());

    assert!(moves.contains(&Move::new(tile1.clone(), Position(2, 0))));
    assert!(moves.contains(&Move::new(tile1.clone(), Position(1, 1))));
    assert!(moves.contains(&Move::new(tile2.clone(), Position(2, 0))));
    assert!(moves.contains(&Move::new(tile2.clone(), Position(1, 1))));
}

#[test]
fn four_tiles() {
    let tile1 = Tile::new(1, Color::Yellow, vec![]);
    let tile2 = Tile::new(2, Color::Blue, vec![Task::new(vec![Color::Teal])]);

    let mut state = State::with_tiles(vec![
        tile1.clone(),
        tile1.clone(),
        tile1.clone(),
        tile2.clone(),
    ]);

    state.make_move(&Move::new(tile1.clone(), Position(0, 0)));
    state.make_move(&Move::new(tile1.clone(), Position(1, 0)));
    state.make_move(&Move::new(tile1.clone(), Position(0, -1)));

    let moves = state.available_moves();

    assert_eq!(7, moves.len());

    assert!(moves.contains(&Move::new(tile2.clone(), Position(2, 0))));
    assert!(moves.contains(&Move::new(tile2.clone(), Position(1, 1))));
    assert!(moves.contains(&Move::new(tile2.clone(), Position(1, 1))));
    assert!(moves.contains(&Move::new(tile2.clone(), Position(1, -1))));
    assert!(moves.contains(&Move::new(tile2.clone(), Position(0, 1))));
    assert!(moves.contains(&Move::new(tile2.clone(), Position(-1, -1))));
    assert!(moves.contains(&Move::new(tile2.clone(), Position(0, -2))));
}

#[test]
fn solve_simple_task() {
    let tile1 = Tile::new(1, Color::Teal, vec![]);
    let tile2 = Tile::new(2, Color::Blue, vec![Task::new(vec![Color::Teal])]);

    let mut state = State::with_tiles(vec![tile1.clone(), tile2.clone()]);

    state.make_move(&Move::new(tile1.clone(), Position(0, 0)));
    state.make_move(&Move::new(tile2.clone(), Position(1, 0)));

    let option = state.board().get(&Position(1, 0));
    assert!(option.is_some());
    let tile = option.unwrap();

    let option = tile.tasks().get(0);
    assert!(option.is_some());
    let task = option.unwrap();

    assert!(task.solved());
}

#[test]
fn solve_task_with_tile_group() {
    let tile1 = Tile::new(
        1,
        Color::Teal,
        vec![Task::new(vec![Color::Teal, Color::Teal])],
    );
    let tile2 = Tile::new(
        2,
        Color::Blue,
        vec![Task::new(vec![Color::Teal, Color::Teal])],
    );

    let mut state = State::with_tiles(vec![tile1.clone(), tile1.clone(), tile2.clone()]);

    state.make_move(&Move::new(tile1.clone(), Position(0, 0)));
    state.make_move(&Move::new(tile1.clone(), Position(1, 0)));
    state.make_move(&Move::new(tile2.clone(), Position(2, 0)));

    let tile = state.board().get(&Position(2, 0)).unwrap();
    let task = tile.tasks().get(0).unwrap();
    assert!(task.solved());

    let tile = state.board().get(&Position(0, 0)).unwrap();
    let task = tile.tasks().get(0).unwrap();
    assert!(!task.solved());

    assert_eq!(1, state.count_solved_tasks())
}
