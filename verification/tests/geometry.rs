use nova_luna_solver::nova_luna::geometry::holds;
use nova_luna_solver::nova_luna::Position;

#[test]
fn adjacent_lists_the_four_neighbours_in_order() {
    let around = Position(3, -2).adjacent();
    assert_eq!(around[0], Position(4, -2));
    assert_eq!(around[1], Position(3, -1));
    assert_eq!(around[2], Position(2, -2));
    assert_eq!(around[3], Position(3, -3));
}

#[test]
fn adjacent_of_the_origin() {
    let around = Position(0, 0).adjacent();
    assert_eq!(
        around,
        [Position(1, 0), Position(0, 1), Position(-1, 0), Position(0, -1)]
    );
}

#[test]
fn offset_moves_by_columns_and_rows() {
    assert_eq!(Position(2, 5).offset(-3, 4), Position(-1, 9));
    assert_eq!(Position(2, 5).offset(0, 0), Position(2, 5));
}

#[test]
fn adjacent_in_range_agrees_with_adjacent_inside() {
    let p = Position(-7, 12);
    assert_eq!(p.adjacent_in_range(), p.adjacent().to_vec());
}

#[test]
fn adjacent_in_range_stops_at_the_edge() {
    let corner = Position(isize::MAX, isize::MIN);
    assert_eq!(
        corner.adjacent_in_range(),
        vec![
            Position(isize::MAX, isize::MIN + 1),
            Position(isize::MAX - 1, isize::MIN)
        ]
    );
    let side = Position(isize::MIN, 0);
    assert_eq!(
        side.adjacent_in_range(),
        vec![
            Position(isize::MIN + 1, 0),
            Position(isize::MIN, 1),
            Position(isize::MIN, -1)
        ]
    );
}

#[test]
fn holds_finds_a_cell_among_cells() {
    let cells = vec![Position(0, 0), Position(1, 0), Position(1, 1)];
    assert!(holds(&cells, Position(1, 0)));
    assert!(!holds(&cells, Position(0, 1)));
    assert!(!holds(&Vec::new(), Position(0, 0)));
}

#[test]
fn positions_are_equal_by_value() {
    assert_eq!(Position(1, 2), Position(1, 2));
    assert_ne!(Position(1, 2), Position(2, 1));
}
