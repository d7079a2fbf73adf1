use maze::carver::Carver;
use maze::grid::{Cell, Direction, Position};
use maze::maze::{translate, Maze};

const ALL: [Direction; 4] = [Direction::North, Direction::South, Direction::East, Direction::West];

const PLAIN: [Direction; 4] = [Direction::North, Direction::South, Direction::East, Direction::West];

const ROUND: [Direction; 4] = [Direction::South, Direction::East, Direction::North, Direction::West];

fn passages(m: &Maze) -> usize {
    let mut n = 0;
    for y in 0..m.height() {
        for x in 0..m.width() {
            let p = Position::new(x, y);
            for d in [Direction::South, Direction::East] {
                if m.at(x, y).has_opening(d) && translate(d, &p, m).is_some() {
                    n += 1;
                }
            }
        }
    }
    n
}

fn reached_from_start(m: &Maze) -> usize {
    let mut seen = vec![false; m.height() * m.width()];
    let mut queue = vec![m.start()];
    seen[m.start().y * m.width() + m.start().x] = true;
    let mut count = 1;
    while let Some(p) = queue.pop() {
        for d in ALL {
            if m.at(p.x, p.y).has_opening(d) {
                if let Some(q) = translate(d, &p, m) {
                    if !seen[q.y * m.width() + q.x] {
                        seen[q.y * m.width() + q.x] = true;
                        count += 1;
                        queue.push(q);
                    }
                }
            }
        }
    }
    count
}

fn count_routes(m: &Maze, at: Position, to: Position, path: &mut Vec<Position>) -> usize {
    if at == to {
        return 1;
    }
    let mut n = 0;
    for d in ALL {
        if m.at(at.x, at.y).has_opening(d) {
            if let Some(q) = translate(d, &at, m) {
                if !path.contains(&q) {
                    path.push(q);
                    n += count_routes(m, q, to, path);
                    path.pop();
                }
            }
        }
    }
    n
}

fn simple_routes(m: &Maze, from: Position, to: Position) -> usize {
    count_routes(m, from, to, &mut vec![from])
}

fn assert_sound(m: &Maze) {
    for y in 0..m.height() {
        for x in 0..m.width() {
            let p = Position::new(x, y);
            for d in ALL {
                if m.at(x, y).has_opening(d) {
                    match translate(d, &p, m) {
                        Some(q) => assert!(m.at(q.x, q.y).has_opening(d.op())),
                        None => assert!(
                            (p == m.start() && d == Direction::North)
                                || (p == m.finish() && d == Direction::South)
                        ),
                    }
                }
            }
        }
    }
    assert!(m.at(m.start().x, m.start().y).has_opening(Direction::North));
    assert!(m.at(m.finish().x, m.finish().y).has_opening(Direction::South));
    assert_eq!(m.start().y, 0);
    assert_eq!(m.finish().y, m.height() - 1);
    assert_eq!(reached_from_start(m), m.height() * m.width());
}

#[test]
fn two_by_two_with_opposite_start() {
    let m = Maze::new_with_size_and_start(2, 2, true);
    assert_eq!(m.height(), 2);
    assert_eq!(m.width(), 2);
    assert_eq!(m.start(), Position { x: 0, y: 0 });
    assert_eq!(m.finish(), Position { x: 1, y: 1 });
    assert_sound(&m);
    let n = passages(&m);
    assert!(n == 3 || n == 4);
}

#[test]
fn two_by_two_in_plain_order_is_a_tree() {
    let m = Maze::new_with_order(2, 2, 0, 1, &PLAIN);
    assert_eq!(m.start(), Position { x: 0, y: 0 });
    assert_eq!(m.finish(), Position { x: 1, y: 1 });
    assert_sound(&m);
    assert_eq!(passages(&m), 3);
    assert_eq!(m.as_string(), "█ ███\n█   █\n█ █ █\n█ █ █\n███ █\n");
}

#[test]
fn two_by_two_in_round_order_closes_a_circle() {
    let m = Maze::new_with_order(2, 2, 0, 1, &ROUND);
    assert_sound(&m);
    assert_eq!(passages(&m), 4);
    assert_eq!(m.as_string(), "█ ███\n█   █\n█ █ █\n█   █\n███ █\n");
}

#[test]
fn random_mazes_are_sound_and_spanning() {
    for (h, w) in [(2, 2), (2, 5), (5, 2), (3, 3), (7, 4), (10, 13)] {
        for opposite in [true, false] {
            let m = Maze::new_with_size_and_start(h, w, opposite);
            assert_eq!(m.height(), h);
            assert_eq!(m.width(), w);
            assert_eq!(m.cells().len(), h * w);
            assert!(m.start().x < w);
            assert!(m.finish().x < w);
            if opposite {
                assert_eq!(m.start(), Position { x: 0, y: 0 });
                assert_eq!(m.finish(), Position { x: w - 1, y: h - 1 });
            }
            assert_sound(&m);
            let n = passages(&m);
            assert!(n == h * w - 1 || n == h * w);
        }
    }
}

#[test]
fn default_maze_is_twenty_by_twenty() {
    let m = Maze::new();
    assert_eq!(m.height(), 20);
    assert_eq!(m.width(), 20);
    assert_eq!(m.start(), Position { x: 0, y: 0 });
    assert_eq!(m.finish(), Position { x: 19, y: 19 });
    assert_sound(&m);
}

#[test]
fn same_order_gives_same_maze() {
    for order in [PLAIN, ROUND, [Direction::West, Direction::East, Direction::South, Direction::North]] {
        let a = Maze::new_with_order(6, 9, 4, 2, &order);
        let b = Maze::new_with_order(6, 9, 4, 2, &order);
        assert_eq!(a.cells(), b.cells());
        assert_eq!(a.start(), b.start());
        assert_eq!(a.finish(), b.finish());
        assert_eq!(a.as_string(), b.as_string());
        assert_sound(&a);
    }
}

#[test]
fn random_starts_vary_and_stay_on_their_rows() {
    let mut starts = std::collections::HashSet::new();
    let mut finishes = std::collections::HashSet::new();
    for _ in 0..200 {
        let m = Maze::new_with_size_and_start(2, 16, false);
        assert!(m.start().x < 16 && m.start().y == 0);
        assert!(m.finish().x < 16 && m.finish().y == 1);
        starts.insert(m.start().x);
        finishes.insert(m.finish().x);
    }
    assert!(starts.len() > 1);
    assert!(finishes.len() > 1);
}

#[test]
fn random_orders_give_different_mazes() {
    let first = Maze::new_with_size_and_start(8, 8, true);
    let mut differs = false;
    for _ in 0..50 {
        let next = Maze::new_with_size_and_start(8, 8, true);
        if next.cells() != first.cells() {
            differs = true;
        }
    }
    assert!(differs);
}

#[test]
fn blank_maze_has_every_wall() {
    let m = Maze::blank(3, 4, 1, 2);
    assert_eq!(m.start(), Position { x: 1, y: 0 });
    assert_eq!(m.finish(), Position { x: 2, y: 2 });
    assert_eq!(m.cells().len(), 12);
    for cell in m.cells() {
        assert_eq!(*cell, Cell::default());
    }
}

#[test]
fn a_walk_takes_two_moves_per_cell_and_one() {
    for order in [PLAIN, ROUND] {
        let mut carver = Carver::begin(Maze::blank(4, 5, 0, 4));
        let mut moves = 0;
        while !carver.is_done() {
            carver.step(&order);
            moves += 1;
            assert!(moves <= 2 * 20 + 1);
        }
        assert_eq!(moves, 2 * 20 + 1);
        carver.step(&order);
        assert!(carver.is_done());
        let m = carver.finish();
        assert_eq!(m.cells(), Maze::new_with_order(4, 5, 0, 4, &order).cells());
    }
}

#[test]
fn a_walk_begins_with_the_two_breaches() {
    let m = Carver::begin(Maze::blank(3, 3, 2, 0)).finish();
    for y in 0..3 {
        for x in 0..3 {
            for d in ALL {
                let breach = (x == 2 && y == 0 && d == Direction::North)
                    || (x == 0 && y == 2 && d == Direction::South);
                assert_eq!(m.at(x, y).has_opening(d), breach);
            }
        }
    }
}

#[test]
fn a_tree_has_one_simple_route_between_any_two_cells() {
    let m = Maze::new_with_order(3, 4, 1, 2, &PLAIN);
    assert_eq!(passages(&m), 3 * 4 - 1);
    for ay in 0..3 {
        for ax in 0..4 {
            for by in 0..3 {
                for bx in 0..4 {
                    assert_eq!(simple_routes(&m, Position::new(ax, ay), Position::new(bx, by)), 1);
                }
            }
        }
    }
}

#[test]
fn a_closed_circle_gives_a_second_route() {
    let m = Maze::new_with_order(2, 2, 0, 1, &ROUND);
    assert_eq!(simple_routes(&m, Position::new(0, 0), Position::new(1, 0)), 2);
    assert_eq!(simple_routes(&m, Position::new(0, 0), Position::new(1, 1)), 2);
}

#[test]
fn a_random_maze_is_a_tree_exactly_if_it_has_one_passage_fewer_than_cells() {
    for _ in 0..40 {
        let m = Maze::new_with_size_and_start(3, 3, false);
        let tree = passages(&m) == 8;
        let mut unique = true;
        for a in 0..9 {
            for b in 0..9 {
                let routes =
                    simple_routes(&m, Position::new(a % 3, a / 3), Position::new(b % 3, b / 3));
                assert!(routes >= 1);
                if routes != 1 {
                    unique = false;
                }
            }
        }
        assert_eq!(tree, unique);
    }
}
