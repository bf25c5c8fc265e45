use nova_luna_solver::nova_luna::{
    Board, Color, Move, Paint, Position, Shape, State, Task, Tile,
};

fn disc(left: i32, top: i32, size: i32, paint: Paint) -> Shape {
    Shape::Disc { left, top, size, paint }
}

fn dot(c: Color, left: i32, top: i32) -> Shape {
    Shape::Disc { left, top, size: 15, paint: Paint::Shade(c) }
}

#[test]
fn nothing_is_shown_of_an_empty_board() {
    let state = State::with_tiles(vec![Tile::new(1, Color::Red, vec![])]);
    assert!(state.can_render_board());
    assert!(state.render_board().is_none());
    assert!(!Board::new().can_be_drawn());
}

#[test]
fn a_single_tile_is_drawn_at_the_rim() {
    let tile = Tile::new(3, Color::Red, vec![Task::new(vec![Color::Blue])]);
    let mut state = State::with_tiles(vec![tile.clone()]);
    state.make_move(&Move::new(tile, Position(0, 0)));
    assert!(state.can_render_board());
    let picture = state.render_board().unwrap();
    assert_eq!(picture.width, 25);
    assert_eq!(picture.height, 25);
    assert_eq!(
        picture.shapes,
        vec![
            Shape::Rect { left: 25, top: 25, width: 150, height: 150, paint: Paint::Shade(Color::Red) },
            Shape::Rect { left: 30, top: 30, width: 35, height: 35, paint: Paint::White },
            Shape::Number { value: 3, left: 40, top: 55, size: 24, paint: Paint::Black },
            disc(105, 30, 65, Paint::White),
            dot(Color::Blue, 130, 55),
        ]
    );
}

#[test]
fn tiles_are_drawn_a_pitch_apart_from_the_leftmost_and_lowest() {
    let mut board = Board::new();
    board.insert(Position(3, 0), Tile::new(1, Color::Teal, vec![]));
    board.insert(Position(2, -1), Tile::new(2, Color::Blue, vec![]));
    board.insert(Position(5, -1), Tile::new(4, Color::Yellow, vec![]));
    assert!(board.can_be_drawn());
    let picture = board.picture();
    assert_eq!(picture.width, 25 + 3 * 175);
    assert_eq!(picture.height, 25 + 175);
    assert_eq!(
        picture.shapes,
        vec![
            Shape::Rect { left: 200, top: 200, width: 150, height: 150, paint: Paint::Shade(Color::Teal) },
            Shape::Rect { left: 205, top: 205, width: 35, height: 35, paint: Paint::White },
            Shape::Number { value: 1, left: 215, top: 230, size: 24, paint: Paint::Black },
            Shape::Rect { left: 25, top: 25, width: 150, height: 150, paint: Paint::Shade(Color::Blue) },
            Shape::Rect { left: 30, top: 30, width: 35, height: 35, paint: Paint::White },
            Shape::Number { value: 2, left: 40, top: 55, size: 24, paint: Paint::Black },
            Shape::Rect { left: 550, top: 25, width: 150, height: 150, paint: Paint::Shade(Color::Yellow) },
            Shape::Rect { left: 555, top: 30, width: 35, height: 35, paint: Paint::White },
            Shape::Number { value: 4, left: 565, top: 55, size: 24, paint: Paint::Black },
        ]
    );
}

#[test]
fn tasks_are_drawn_in_three_quarters_with_their_dots() {
    let tile = Tile::new(
        7,
        Color::Yellow,
        vec![
            Task::new(vec![Color::Red, Color::Blue]),
            Task::new(vec![Color::Red, Color::Blue, Color::Teal]),
            Task::new(vec![Color::Red, Color::Blue, Color::Teal, Color::Yellow]),
        ],
    );
    let mut board = Board::new();
    board.insert(Position(-4, 9), tile);
    let picture = board.picture();
    assert_eq!(
        picture.shapes[3..].to_vec(),
        vec![
            disc(105, 30, 65, Paint::White),
            dot(Color::Red, 130, 71),
            dot(Color::Blue, 130, 39),
            disc(105, 105, 65, Paint::White),
            dot(Color::Red, 130, 146),
            dot(Color::Blue, 117, 117),
            dot(Color::Teal, 143, 117),
            disc(30, 105, 65, Paint::White),
            dot(Color::Red, 71, 146),
            dot(Color::Blue, 71, 114),
            dot(Color::Teal, 39, 146),
            dot(Color::Yellow, 39, 114),
        ]
    );
}

#[test]
fn a_solved_task_is_drawn_light() {
    let teal = Tile::new(1, Color::Teal, vec![]);
    let blue = Tile::new(2, Color::Blue, vec![Task::new(vec![Color::Teal]), Task::new(vec![Color::Red])]);
    let mut state = State::with_tiles(vec![teal.clone(), blue.clone()]);
    state.make_move(&Move::new(blue, Position(0, 0)));
    state.make_move(&Move::new(teal, Position(0, 1)));
    let picture = state.render_board().unwrap();
    assert_eq!(picture.width, 25);
    assert_eq!(picture.height, 200);
    assert_eq!(picture.shapes[3], disc(105, 30, 65, Paint::Light));
    assert_eq!(picture.shapes[4], dot(Color::Teal, 130, 55));
    assert_eq!(picture.shapes[5], disc(105, 105, 65, Paint::White));
    assert_eq!(picture.shapes[6], dot(Color::Red, 130, 130));
    assert_eq!(picture.shapes.len(), 7 + 3);
}

#[test]
fn a_board_that_cannot_be_drawn_is_told_apart() {
    let four_tasks = Tile::new(
        1,
        Color::Red,
        vec![
            Task::new(vec![Color::Red]),
            Task::new(vec![Color::Red]),
            Task::new(vec![Color::Red]),
            Task::new(vec![Color::Red]),
        ],
    );
    let asks_nothing = Tile::new(1, Color::Red, vec![Task::new(vec![])]);
    let asks_much = Tile::new(1, Color::Red, vec![Task::new(vec![Color::Red; 5])]);
    let fine = Tile::new(1, Color::Red, vec![Task::new(vec![Color::Red; 4])]);
    for (tile, can) in [(four_tasks, false), (asks_nothing, false), (asks_much, false), (fine.clone(), true)] {
        let mut board = Board::new();
        board.insert(Position(0, 0), tile);
        assert_eq!(board.can_be_drawn(), can);
    }

    let mut near = Board::new();
    near.insert(Position(-6_000_000, 0), fine.clone());
    near.insert(Position(6_000_000, 12_000_000), fine.clone());
    assert!(near.can_be_drawn());
    assert_eq!(near.picture().width, 2_100_000_025);
    assert_eq!(near.picture().height, 2_100_000_025);

    let mut far = Board::new();
    far.insert(Position(-6_000_000, 0), fine.clone());
    far.insert(Position(6_000_001, 0), fine.clone());
    assert!(!far.can_be_drawn());

    let mut high = Board::new();
    high.insert(Position(0, isize::MIN), fine.clone());
    high.insert(Position(0, isize::MAX), fine.clone());
    assert!(!high.can_be_drawn());

    let mut state = State::with_tiles(vec![fine.clone(), fine.clone()]);
    state.make_move(&Move::new(fine.clone(), Position(0, 0)));
    assert!(state.can_render_board());
    state.make_move(&Move::new(fine.clone(), Position(isize::MAX, 0)));
    assert!(!state.can_render_board());
}
