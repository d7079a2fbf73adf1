use maze::grid::{Direction, Position};
use maze::maze::{translate, Maze};
use maze::solver::{Action, Solver, Step};

const PLAIN_ORDER: [Direction; 4] =
    [Direction::North, Direction::South, Direction::East, Direction::West];

fn door_between(m: &Maze, from: Position, to: Position) -> bool {
    [Direction::North, Direction::South, Direction::East, Direction::West]
        .iter()
        .any(|d| m.at(from.x, from.y).has_opening(*d) && translate(*d, &from, m) == Some(to))
}

fn follow(m: &Maze, path: &mut Vec<Position>, step: &Step) {
    match step.action {
        Action::VisitCell => {
            if path.is_empty() {
                assert_eq!(step.position, m.start());
                assert_eq!(step.previous, m.start());
            } else {
                assert_eq!(step.previous, *path.last().unwrap());
                assert!(door_between(m, step.previous, step.position));
            }
            assert!(!path.contains(&step.position));
            path.push(step.position);
        }
        Action::UnvisitCell => {
            assert_eq!(step.position, step.previous);
            assert_eq!(path.pop(), Some(step.position));
            assert!(!path.is_empty());
        }
    }
}

#[test]
fn solver_walks_a_simple_path_to_the_finish() {
    for (h, w) in [(2, 2), (3, 7), (9, 9), (12, 5)] {
        for opposite in [true, false] {
            let m = Maze::new_with_size_and_start(h, w, opposite);
            let mut solver = Solver::new_for_maze(&m);
            let mut path = Vec::new();
            let mut moves = 0;
            while let Some(step) = solver.step(&m) {
                moves += 1;
                assert!(moves <= 2 * h * w);
                follow(&m, &mut path, &step);
            }
            assert_eq!(path.first(), Some(&m.start()));
            assert_eq!(path.last(), Some(&m.finish()));
            for _ in 0..5 {
                assert!(solver.step(&m).is_none());
                assert!(solver.step_in_order(&m, &PLAIN_ORDER).is_none());
            }
        }
    }
}

#[test]
fn solver_in_plain_order_on_two_by_two() {
    let m = Maze::new_with_order(2, 2, 0, 1, &PLAIN_ORDER);
    let mut solver = Solver::new_for_maze(&m);
    let expected = [
        (Action::VisitCell, (0, 0), (0, 0)),
        (Action::VisitCell, (0, 1), (0, 0)),
        (Action::UnvisitCell, (0, 1), (0, 1)),
        (Action::VisitCell, (1, 0), (0, 0)),
        (Action::VisitCell, (1, 1), (1, 0)),
    ];
    for (action, position, previous) in expected {
        let step = solver.step_in_order(&m, &PLAIN_ORDER).unwrap();
        assert!(step.action == action);
        assert_eq!(step.position, Position { x: position.0, y: position.1 });
        assert_eq!(step.previous, Position { x: previous.0, y: previous.1 });
    }
    assert!(solver.step_in_order(&m, &PLAIN_ORDER).is_none());
    assert!(solver.step(&m).is_none());
}

#[test]
fn first_step_enters_the_start_from_itself() {
    let m = Maze::new_with_size_and_start(4, 6, false);
    let mut solver = Solver::new_for_maze(&m);
    let step = solver.step(&m).unwrap();
    assert!(step.action == Action::VisitCell);
    assert_eq!(step.position, m.start());
    assert_eq!(step.previous, m.start());
}

#[test]
fn solver_never_takes_a_wall() {
    let m = Maze::new_with_order(5, 5, 2, 2, &PLAIN_ORDER);
    let mut solver = Solver::new_for_maze(&m);
    let mut first = true;
    while let Some(step) = solver.step(&m) {
        if step.action == Action::VisitCell && !first {
            assert!(door_between(&m, step.previous, step.position));
        }
        first = false;
    }
}

#[test]
fn two_solvers_share_one_maze() {
    let m = Maze::new_with_size_and_start(6, 6, true);
    let mut a = Solver::new_for_maze(&m);
    let mut b = Solver::new_for_maze(&m);
    let mut a_done = false;
    let mut b_done = false;
    let mut rounds = 0;
    while !(a_done && b_done) {
        a_done = a.step_in_order(&m, &PLAIN_ORDER).is_none();
        b_done = b.step(&m).is_none();
        rounds += 1;
        assert!(rounds <= 2 * 36 + 1);
    }
}

#[test]
fn step_new_keeps_its_parts() {
    let step = Step::new(Action::UnvisitCell, Position::new(3, 4), Position::new(5, 6));
    assert!(step.action == Action::UnvisitCell);
    assert_eq!(step.position, Position { x: 3, y: 4 });
    assert_eq!(step.previous, Position { x: 5, y: 6 });
}
