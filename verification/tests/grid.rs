use maze::grid::{Cell, Direction, Position};
use maze::maze::{translate, Maze};
use maze::position_set::PositionSet;

const FOUR: [Direction; 4] = [Direction::North, Direction::South, Direction::East, Direction::West];

#[test]
fn op_swaps_opposites() {
    assert_eq!(Direction::North.op(), Direction::South);
    assert_eq!(Direction::South.op(), Direction::North);
    assert_eq!(Direction::East.op(), Direction::West);
    assert_eq!(Direction::West.op(), Direction::East);
    for d in FOUR {
        assert_eq!(d.op().op(), d);
        assert_ne!(d.op(), d);
    }
}

#[test]
fn translate_stays_inside_the_grid() {
    let m = Maze::new_with_size_and_start(3, 4, true);
    let corner = Position::new(0, 0);
    assert_eq!(translate(Direction::North, &corner, &m), None);
    assert_eq!(translate(Direction::West, &corner, &m), None);
    assert_eq!(translate(Direction::South, &corner, &m), Some(Position::new(0, 1)));
    assert_eq!(translate(Direction::East, &corner, &m), Some(Position::new(1, 0)));
    let far = Position::new(3, 2);
    assert_eq!(translate(Direction::South, &far, &m), None);
    assert_eq!(translate(Direction::East, &far, &m), None);
    assert_eq!(translate(Direction::North, &far, &m), Some(Position::new(3, 1)));
    assert_eq!(translate(Direction::West, &far, &m), Some(Position::new(2, 2)));
    assert_eq!(Direction::East.translate(&Position::new(2, 1), &m), Some(Position::new(3, 1)));
    assert_eq!(Direction::South.translate(&Position::new(2, 1), &m), Some(Position::new(2, 2)));
}

#[test]
fn translate_there_and_back() {
    let m = Maze::new_with_size_and_start(5, 6, false);
    for y in 0..5 {
        for x in 0..6 {
            let p = Position::new(x, y);
            for d in FOUR {
                if let Some(q) = translate(d, &p, &m) {
                    assert!(q.x < 6 && q.y < 5);
                    assert_ne!(q, p);
                    assert_eq!(translate(d.op(), &q, &m), Some(p));
                }
            }
        }
    }
}

#[test]
fn cell_gains_openings_and_keeps_them() {
    let mut cell = Cell::default();
    for d in FOUR {
        assert!(!cell.has_opening(d));
    }
    cell.carve(Direction::East);
    assert!(cell.has_opening(Direction::East));
    assert!(!cell.has_opening(Direction::West));
    assert!(!cell.has_opening(Direction::North));
    assert!(!cell.has_opening(Direction::South));
    cell.carve(Direction::East);
    cell.carve(Direction::North);
    assert!(cell.has_opening(Direction::East));
    assert!(cell.has_opening(Direction::North));
    assert!(!cell.has_opening(Direction::West));
    assert_ne!(cell, Cell::default());
}

#[test]
fn position_is_its_coordinates() {
    let p = Position::new(7, 11);
    assert_eq!(p.x, 7);
    assert_eq!(p.y, 11);
    assert_eq!(p, Position { x: 7, y: 11 });
    assert_ne!(p, Position { x: 11, y: 7 });
}

#[test]
fn position_set_tells_members_apart() {
    let mut set = PositionSet::with_capacity(4);
    assert!(!set.contains(&Position::new(1, 2)));
    set.insert(Position::new(1, 2));
    assert!(set.contains(&Position::new(1, 2)));
    assert!(!set.contains(&Position::new(2, 1)));
    assert!(!set.contains(&Position::new(0, 0)));
    set.insert(Position::new(1, 2));
    set.insert(Position::new(usize::MAX, 0));
    assert!(set.contains(&Position::new(usize::MAX, 0)));
    assert!(!set.contains(&Position::new(0, usize::MAX)));
    assert!(!PositionSet::new().contains(&Position::new(1, 2)));
}
