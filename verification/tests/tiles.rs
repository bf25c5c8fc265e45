use nova_luna_solver::nova_luna::{Color, Move, Position, Task, Tile};

#[test]
fn a_new_task_is_unsolved_and_keeps_its_colors() {
    let task = Task::new(vec![Color::Red, Color::Blue, Color::Red]);
    assert!(!task.solved());
    assert_eq!(task.colors(), &vec![Color::Red, Color::Blue, Color::Red]);
}

#[test]
fn a_new_tile_keeps_what_it_was_given() {
    let tile = Tile::new(7, Color::Teal, vec![Task::new(vec![Color::Blue]), Task::new(vec![])]);
    assert_eq!(tile.cost(), 7);
    assert_eq!(tile.color(), Color::Teal);
    assert_eq!(tile.task_count(), 2);
    assert_eq!(tile.tasks().len(), 2);
    assert_eq!(tile.task(0), &Task::new(vec![Color::Blue]));
    assert_eq!(tile.task(1), &Task::new(vec![]));
}

#[test]
fn tiles_are_equal_by_value() {
    let a = Tile::new(1, Color::Teal, vec![Task::new(vec![Color::Blue, Color::Red])]);
    let b = Tile::new(1, Color::Teal, vec![Task::new(vec![Color::Blue, Color::Red])]);
    assert_eq!(a, b);
    assert_eq!(a, a.clone());
    assert_ne!(a, Tile::new(2, Color::Teal, vec![Task::new(vec![Color::Blue, Color::Red])]));
    assert_ne!(a, Tile::new(1, Color::Red, vec![Task::new(vec![Color::Blue, Color::Red])]));
    assert_ne!(a, Tile::new(1, Color::Teal, vec![Task::new(vec![Color::Red, Color::Blue])]));
    assert_ne!(a, Tile::new(1, Color::Teal, vec![Task::new(vec![Color::Blue])]));
    assert_ne!(a, Tile::new(1, Color::Teal, vec![]));
    assert_ne!(
        a,
        Tile::new(
            1,
            Color::Teal,
            vec![Task::new(vec![Color::Blue, Color::Red]), Task::new(vec![])]
        )
    );
}

#[test]
fn tasks_are_equal_by_value() {
    assert_eq!(Task::new(vec![Color::Yellow]), Task::new(vec![Color::Yellow]));
    assert_ne!(Task::new(vec![Color::Yellow]), Task::new(vec![Color::Teal]));
    assert_ne!(Task::new(vec![Color::Yellow]), Task::new(vec![Color::Yellow, Color::Yellow]));
}

#[test]
fn moves_are_equal_by_tile_and_cell() {
    let tile = Tile::new(1, Color::Yellow, vec![]);
    let other = Tile::new(2, Color::Yellow, vec![]);
    let mov = Move::new(tile.clone(), Position(1, -1));
    assert_eq!(mov, Move::new(tile.clone(), Position(1, -1)));
    assert_eq!(mov, mov.clone());
    assert_ne!(mov, Move::new(tile.clone(), Position(-1, 1)));
    assert_ne!(mov, Move::new(other, Position(1, -1)));
    assert_eq!(mov.tile(), &tile);
    assert_eq!(mov.position(), Position(1, -1));
}

#[test]
fn colors_have_their_shades() {
    assert_eq!(Color::Blue.rgb(), (0, 0, 255));
    assert_eq!(Color::Yellow.rgb(), (255, 255, 0));
    assert_eq!(Color::Teal.rgb(), (0, 128, 128));
    assert_eq!(Color::Red.rgb(), (255, 0, 0));
}
