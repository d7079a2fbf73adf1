//! Coordinates, the four cardinal directions, and the walls of one cell.

use vstd::prelude::*;

verus! {

/// A grid-relative coordinate pair. `x` grows eastwards, `y` southwards.
#[derive(Clone, Copy, Debug, PartialEq, Eq, Hash, Structural)]
pub struct Position {
    pub x: usize,
    pub y: usize,
}

impl Position {
    /// The position in column `x` of row `y`.
    pub fn new(x: usize, y: usize) -> (p: Position)
        ensures
            p.x == x,
            p.y == y,
    {
        Position { x, y }
    }
}

/// One of the four cardinal moves.
#[derive(Clone, Copy, Debug, PartialEq, Eq, Structural)]
pub enum Direction {
    North,
    South,
    East,
    West,
}

impl Direction {
    /// The opposite move: North and South swap, East and West swap.
    pub open spec fn inverse(self) -> Direction {
        match self {
            Direction::North => Direction::South,
            Direction::South => Direction::North,
            Direction::East => Direction::West,
            Direction::West => Direction::East,
        }
    }

    /// The position one move away from `p` inside a grid of the given size,
    /// or `None` where the move would leave the grid.
    pub open spec fn shift(self, p: Position, height: int, width: int) -> Option<Position> {
        match self {
            Direction::North => if p.y > 0 {
                Some(Position { x: p.x, y: (p.y - 1) as usize })
            } else {
                None
            },
            Direction::South => if p.y < height - 1 {
                Some(Position { x: p.x, y: (p.y + 1) as usize })
            } else {
                None
            },
            Direction::West => if p.x > 0 {
                Some(Position { x: (p.x - 1) as usize, y: p.y })
            } else {
                None
            },
            Direction::East => if p.x < width - 1 {
                Some(Position { x: (p.x + 1) as usize, y: p.y })
            } else {
                None
            },
        }
    }

    /// Whether `order` holds four directions and each of the four among them.
    pub open spec fn complete(order: Seq<Direction>) -> bool {
        &&& order.len() == 4
        &&& order.contains(Direction::North)
        &&& order.contains(Direction::South)
        &&& order.contains(Direction::East)
        &&& order.contains(Direction::West)
    }

    /// The opposite direction.
    pub fn op(self) -> (r: Direction)
        ensures
            r == self.inverse(),
    {
        match self {
            Direction::North => Direction::South,
            Direction::South => Direction::North,
            Direction::East => Direction::West,
            Direction::West => Direction::East,
        }
    }
}

/// The inverse of a direction is a different direction, and inverting twice
/// gives the direction back.
pub proof fn lemma_inverse_involution(d: Direction)
    ensures
        d.inverse().inverse() == d,
        d.inverse() != d,
{
}

/// The wall state of one cell: for each direction, whether a passage leads
/// out of the cell that way.
#[derive(Clone, Copy, Debug, PartialEq, Eq, Structural)]
pub struct Cell {
    north: bool,
    south: bool,
    east: bool,
    west: bool,
}

impl Cell {
    /// Whether the cell is open towards `d`.
    pub closed spec fn has(self, d: Direction) -> bool {
        match d {
            Direction::North => self.north,
            Direction::South => self.south,
            Direction::East => self.east,
            Direction::West => self.west,
        }
    }

    /// The cell with all four walls standing.
    pub closed spec fn walled() -> Cell {
        Cell { north: false, south: false, east: false, west: false }
    }

    /// The cell with the wall towards `d` taken down and the others as they were.
    pub closed spec fn opened(self, d: Direction) -> Cell {
        match d {
            Direction::North => Cell { north: true, ..self },
            Direction::South => Cell { south: true, ..self },
            Direction::East => Cell { east: true, ..self },
            Direction::West => Cell { west: true, ..self },
        }
    }

    /// A cell is determined by its four flags.
    pub proof fn lemma_extensional(a: Cell, b: Cell)
        requires
            forall|d: Direction| a.has(d) == b.has(d),
        ensures
            a == b,
    {
        assert(a.has(Direction::North) == b.has(Direction::North));
        assert(a.has(Direction::South) == b.has(Direction::South));
        assert(a.has(Direction::East) == b.has(Direction::East));
        assert(a.has(Direction::West) == b.has(Direction::West));
    }

    /// Opening a wall opens exactly that wall and never closes another.
    pub broadcast proof fn lemma_opened(self, d: Direction, e: Direction)
        ensures
            #[trigger] self.opened(d).has(e) == (e == d || self.has(e)),
    {
    }

    /// A walled cell has no opening.
    pub broadcast proof fn lemma_walled(d: Direction)
        ensures
            !(#[trigger] Cell::walled().has(d)),
    {
    }

    /// Takes down the wall towards `direction`. A wall that is down stays down.
    pub fn carve(&mut self, direction: Direction)
        ensures
            *final(self) == old(self).opened(direction),
    {
        match direction {
            Direction::North => { self.north = true; },
            Direction::South => { self.south = true; },
            Direction::East => { self.east = true; },
            Direction::West => { self.west = true; },
        }
    }

    /// Whether a passage leads out of the cell towards `direction`.
    pub fn has_opening(&self, direction: Direction) -> (open: bool)
        ensures
            open == self.has(direction),
    {
        match direction {
            Direction::North => self.north,
            Direction::South => self.south,
            Direction::East => self.east,
            Direction::West => self.west,
        }
    }
}

impl Default for Cell {
    /// The cell with all four walls standing.
    fn default() -> (c: Cell)
        ensures
            c == Cell::walled(),
    {
        Cell { north: false, south: false, east: false, west: false }
    }
}

} // verus!
