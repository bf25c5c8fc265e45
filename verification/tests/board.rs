use nova_luna_solver::nova_luna::{Board, Color, Extent, Position, Task, Tile};

fn plain(cost: usize, color: Color) -> Tile {
    Tile::new(cost, color, vec![])
}

#[test]
fn a_new_board_is_empty() {
    let board = Board::new();
    assert!(board.is_empty());
    assert_eq!(board.len(), 0);
    assert!(board.get(&Position(0, 0)).is_none());
    assert!(!board.contains_key(&Position(0, 0)));
    assert_eq!(board.color_at(&Position(0, 0)), None);
    assert_eq!(board.extent(), None);
}

#[test]
fn insert_lays_a_tile_on_a_cell() {
    let mut board = Board::new();
    board.insert(Position(2, 3), plain(4, Color::Red));
    board.insert(Position(-1, 0), plain(5, Color::Teal));
    assert!(!board.is_empty());
    assert_eq!(board.len(), 2);
    assert_eq!(board.get(&Position(2, 3)), Some(&plain(4, Color::Red)));
    assert_eq!(board.get(&Position(-1, 0)), Some(&plain(5, Color::Teal)));
    assert_eq!(board.get(&Position(3, 2)), None);
    assert!(board.contains_key(&Position(-1, 0)));
    assert!(!board.contains_key(&Position(0, -1)));
    assert_eq!(board.color_at(&Position(2, 3)), Some(Color::Red));
    assert_eq!(board.color_at(&Position(-1, 0)), Some(Color::Teal));
}

#[test]
fn tiles_are_kept_in_the_order_of_arrival() {
    let mut board = Board::new();
    board.insert(Position(5, 5), plain(1, Color::Blue));
    board.insert(Position(0, 0), plain(2, Color::Yellow));
    assert_eq!(board.position_at(0), Position(5, 5));
    assert_eq!(board.position_at(1), Position(0, 0));
    assert_eq!(board.tile_at(0), &plain(1, Color::Blue));
    assert_eq!(board.tile_at(1), &plain(2, Color::Yellow));
}

#[test]
fn extent_is_the_smallest_rectangle_around_the_tiles() {
    let mut board = Board::new();
    board.insert(Position(2, -3), plain(1, Color::Blue));
    assert_eq!(
        board.extent(),
        Some(Extent { left: 2, bottom: -3, right: 2, top: -3 })
    );
    board.insert(Position(-4, 1), plain(1, Color::Blue));
    board.insert(Position(0, 7), plain(1, Color::Blue));
    board.insert(Position(1, 0), plain(1, Color::Blue));
    assert_eq!(
        board.extent(),
        Some(Extent { left: -4, bottom: -3, right: 2, top: 7 })
    );
}

#[test]
fn a_copy_of_a_board_has_the_same_tiles() {
    let mut board = Board::new();
    board.insert(Position(0, 0), Tile::new(1, Color::Red, vec![Task::new(vec![Color::Red])]));
    board.insert(Position(0, 1), plain(2, Color::Teal));
    let copy = board.clone();
    assert_eq!(copy.len(), 2);
    assert_eq!(copy.position_at(0), Position(0, 0));
    assert_eq!(copy.position_at(1), Position(0, 1));
    assert_eq!(copy.get(&Position(0, 0)), board.get(&Position(0, 0)));
    assert_eq!(copy.get(&Position(0, 1)), board.get(&Position(0, 1)));
    assert_eq!(copy.duplicate().len(), 2);
}

#[test]
fn search_finds_the_connected_tiles_of_a_color() {
    let mut board = Board::new();
    board.insert(Position(0, 0), plain(1, Color::Teal));
    board.insert(Position(1, 0), plain(1, Color::Teal));
    board.insert(Position(1, 1), plain(1, Color::Teal));
    board.insert(Position(2, 1), plain(1, Color::Red));
    board.insert(Position(3, 1), plain(1, Color::Teal));
    board.insert(Position(-1, -1), plain(1, Color::Teal));

    let mut found =
        Task::search_for_adjacent_tiles_matching_color(Position(1, 1), Color::Teal, &board);
    found.sort_by_key(|p| (p.0, p.1));
    assert_eq!(found, vec![Position(0, 0), Position(1, 0), Position(1, 1)]);

    let found =
        Task::search_for_adjacent_tiles_matching_color(Position(3, 1), Color::Teal, &board);
    assert_eq!(found, vec![Position(3, 1)]);

    let found = Task::search_for_adjacent_tiles_matching_color(Position(2, 1), Color::Red, &board);
    assert_eq!(found, vec![Position(2, 1)]);
}

#[test]
fn search_finds_nothing_from_a_cell_of_another_color_or_without_a_tile() {
    let mut board = Board::new();
    board.insert(Position(0, 0), plain(1, Color::Teal));
    board.insert(Position(1, 0), plain(1, Color::Red));
    assert!(
        Task::search_for_adjacent_tiles_matching_color(Position(1, 0), Color::Teal, &board)
            .is_empty()
    );
    assert!(
        Task::search_for_adjacent_tiles_matching_color(Position(0, 1), Color::Teal, &board)
            .is_empty()
    );
    assert!(
        Task::search_for_adjacent_tiles_matching_color(Position(0, 0), Color::Teal, &Board::new())
            .is_empty()
    );
}

#[test]
fn search_goes_round_a_ring_once() {
    let mut board = Board::new();
    for p in [
        Position(0, 0),
        Position(1, 0),
        Position(2, 0),
        Position(2, 1),
        Position(2, 2),
        Position(1, 2),
        Position(0, 2),
        Position(0, 1),
    ] {
        board.insert(p, plain(1, Color::Yellow));
    }
    let found =
        Task::search_for_adjacent_tiles_matching_color(Position(0, 0), Color::Yellow, &board);
    assert_eq!(found.len(), 8);
    for i in 0..found.len() {
        for j in 0..i {
            assert_ne!(found[i], found[j]);
        }
    }
}

#[test]
fn a_task_counts_the_regions_of_its_neighbours() {
    let mut board = Board::new();
    board.insert(Position(0, 0), plain(1, Color::Blue));
    board.insert(Position(1, 0), plain(1, Color::Teal));
    board.insert(Position(2, 0), plain(1, Color::Teal));
    board.insert(Position(0, 1), plain(1, Color::Red));

    let owner = Position(0, 0);
    assert!(Task::new(vec![]).is_solved(owner, &board));
    assert!(Task::new(vec![Color::Teal]).is_solved(owner, &board));
    assert!(Task::new(vec![Color::Teal, Color::Teal]).is_solved(owner, &board));
    assert!(Task::new(vec![Color::Teal, Color::Red, Color::Teal]).is_solved(owner, &board));
    assert!(!Task::new(vec![Color::Teal, Color::Teal, Color::Teal]).is_solved(owner, &board));
    assert!(!Task::new(vec![Color::Red, Color::Red]).is_solved(owner, &board));
    assert!(!Task::new(vec![Color::Blue]).is_solved(owner, &board));
    assert!(!Task::new(vec![Color::Yellow]).is_solved(owner, &board));
}

#[test]
fn a_region_that_touches_twice_counts_twice() {
    let mut board = Board::new();
    board.insert(Position(0, 0), plain(1, Color::Blue));
    board.insert(Position(1, 0), plain(1, Color::Teal));
    board.insert(Position(1, 1), plain(1, Color::Teal));
    board.insert(Position(0, 1), plain(1, Color::Teal));

    let owner = Position(0, 0);
    let six = vec![Color::Teal; 6];
    let seven = vec![Color::Teal; 7];
    assert!(Task::new(six).is_solved(owner, &board));
    assert!(!Task::new(seven).is_solved(owner, &board));
}

#[test]
fn a_task_does_not_count_its_own_tile() {
    let mut board = Board::new();
    board.insert(Position(0, 0), plain(1, Color::Teal));
    board.insert(Position(1, 0), plain(1, Color::Teal));
    board.insert(Position(-1, 0), plain(1, Color::Teal));

    // The region of three holds the owner; each of the two neighbours gives
    // the two other tiles.
    let owner = Position(0, 0);
    assert!(Task::new(vec![Color::Teal; 4]).is_solved(owner, &board));
    assert!(!Task::new(vec![Color::Teal; 5]).is_solved(owner, &board));
}

#[test]
fn a_task_on_an_empty_cell_can_be_asked_about() {
    let mut board = Board::new();
    board.insert(Position(1, 0), plain(1, Color::Red));
    assert!(Task::new(vec![Color::Red]).is_solved(Position(0, 0), &board));
    assert!(!Task::new(vec![Color::Red]).is_solved(Position(5, 5), &board));
}

#[test]
fn a_task_at_the_edge_of_the_grid_can_be_asked_about() {
    let mut board = Board::new();
    board.insert(Position(isize::MAX, 0), plain(1, Color::Red));
    board.insert(Position(isize::MAX - 1, 0), plain(1, Color::Teal));
    assert!(Task::new(vec![Color::Teal]).is_solved(Position(isize::MAX, 0), &board));
    assert!(!Task::new(vec![Color::Red]).is_solved(Position(isize::MAX, 0), &board));
}
