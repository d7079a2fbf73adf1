//! The maze: how it is built, by a random walk or by one in a given order,
//! and how it is read once it is built.

use vstd::prelude::*;
use crate::carver::{CarveState, Carver};
use crate::grid::{Cell, Direction, Position};
use crate::layout::Layout;
use crate::random::{random_below, shuffled_directions, thread_rng};

verus! {

/// A rectangular maze: its size, its cells in row-major order, and the cells
/// where it is entered and left. Once built it never changes.
pub struct Maze {
    start: Position,
    finish: Position,
    height: usize,
    width: usize,
    cells: Vec<Cell>,
}

impl View for Maze {
    type V = Layout;

    closed spec fn view(&self) -> Layout {
        Layout {
            height: self.height as nat,
            width: self.width as nat,
            start: self.start,
            finish: self.finish,
            cells: self.cells@,
        }
    }
}

impl Maze {
    /// Every maze has at least two rows and two columns, one cell for each
    /// coordinate, its start on the top row and its finish on the bottom row.
    #[verifier::type_invariant]
    pub closed spec fn inv(self) -> bool {
        self@.wf()
    }

    /// What the type invariant says of the model.
    pub proof fn lemma_inv(self)
        requires
            self.inv(),
        ensures
            self@.wf(),
    {
    }

    /// The maze of the given size with every wall standing, entered at column
    /// `start_x` of the top row and left at column `finish_x` of the bottom row.
    pub fn blank(height: usize, width: usize, start_x: usize, finish_x: usize) -> (m: Maze)
        requires
            height >= 2,
            width >= 2,
            height * width <= usize::MAX,
            start_x < width,
            finish_x < width,
        ensures
            m@ == Layout::blank(
                height as nat,
                width as nat,
                Position { x: start_x, y: 0 },
                Position { x: finish_x, y: (height - 1) as usize },
            ),
    {
        let total = height * width;
        let mut cells: Vec<Cell> = Vec::new();
        let mut i: usize = 0;
        while i < total
            invariant
                i <= total,
                cells@.len() == i,
                forall|j: int| 0 <= j < i ==> cells@[j] == Cell::walled(),
            decreases total - i,
        {
            cells.push(Cell::default());
            i += 1;
        }
        let m = Maze {
            start: Position::new(start_x, 0),
            finish: Position::new(finish_x, height - 1),
            height,
            width,
            cells,
        };
        assert(m@.cells =~= Layout::blank(
            height as nat,
            width as nat,
            Position { x: start_x, y: 0 },
            Position { x: finish_x, y: (height - 1) as usize },
        ).cells);
        m
    }

    /// Takes down the wall of the cell at `position` towards `direction`.
    pub(crate) fn carve(&mut self, position: Position, direction: Direction)
        requires
            old(self)@.contains(position),
        ensures
            final(self)@ == old(self)@.opened(position, direction),
    {
        proof {
            use_type_invariant(&*self);
            self@.lemma_index(position);
            assert(0 <= position.y * self.width) by (nonlinear_arith);
        }
        let i = position.y * self.width + position.x;
        let mut cell = self.cells[i];
        cell.carve(direction);
        self.cells[i] = cell;
    }

    /// Whether this maze is what a carving walk leaves behind: a walk that
    /// began on the grid of the same size, start and finish with every wall
    /// standing, made each of its moves in some complete order, and is over.
    pub open spec fn carved(self) -> bool {
        exists|orders: Seq<Seq<Direction>>| self@.carved_in(orders)
    }

    /// The maze of 20 rows and 20 columns that is entered in the top left
    /// corner and left in the bottom right corner, carved at random.
    pub fn new() -> (m: Maze)
        ensures
            m@.height == 20,
            m@.width == 20,
            m@.start == (Position { x: 0, y: 0 }),
            m@.finish == (Position { x: 19, y: 19 }),
            m.carved(),
            m@.well_carved(),
    {
        Self::new_with_size_and_start(20, 20, true)
    }

    /// A maze of the given size, carved at random. With `opposite_start` it
    /// is entered in the top left corner and left in the bottom right corner;
    /// without, the columns of the start on the top row and of the finish on
    /// the bottom row are drawn at random, each on its own.
    pub fn new_with_size_and_start(height: usize, width: usize, opposite_start: bool) -> (m: Maze)
        requires
            height >= 2,
            width >= 2,
            height * width <= usize::MAX,
        ensures
            m@.height == height,
            m@.width == width,
            m@.start.y == 0,
            m@.start.x < width,
            m@.finish.y == height - 1,
            m@.finish.x < width,
            opposite_start ==> m@.start.x == 0 && m@.finish.x == width - 1,
            m.carved(),
            m@.well_carved(),
    {
        let mut rng = thread_rng();
        let start_x = if opposite_start {
            0
        } else {
            random_below(&mut rng, width)
        };
        let finish_x = if opposite_start {
            width - 1
        } else {
            random_below(&mut rng, width)
        };
        Maze::blank(height, width, start_x, finish_x).generate()
    }

    /// A maze of the given size, entered at column `start_x` of the top row
    /// and left at column `finish_x` of the bottom row, carved by a walk that
    /// tries the directions in the given order at every move.
    pub fn new_with_order(
        height: usize,
        width: usize,
        start_x: usize,
        finish_x: usize,
        order: &[Direction; 4],
    ) -> (m: Maze)
        requires
            height >= 2,
            width >= 2,
            height * width <= usize::MAX,
            start_x < width,
            finish_x < width,
            Direction::complete(order@),
        ensures
            m@.height == height,
            m@.width == width,
            m@.start == (Position { x: start_x, y: 0 }),
            m@.finish == (Position { x: finish_x, y: (height - 1) as usize }),
            m@.carved_in_order(order@),
            m@.well_carved(),
    {
        let blank = Maze::blank(height, width, start_x, finish_x);
        let ghost plan = blank@;
        let ghost total = 2 * (plan.height * plan.width) + 1;
        let ghost mut moves: nat = 0;
        proof {
            Layout::lemma_blank_pristine(plan.height, plan.width, plan.start, plan.finish);
            CarveState::lemma_initial_inv(plan);
            CarveState::initial(plan).lemma_fuel_ends(plan);
        }
        let mut carver = Carver::begin(blank);
        while !carver.is_done()
            invariant
                carver.wf(),
                plan.pristine(),
                Direction::complete(order@),
                carver@ == CarveState::initial(plan).run(Seq::new(moves, |i: int| order@)),
                carver@.inv(),
                carver@.fuel() + moves == total,
                total == 2 * (plan.height * plan.width) + 1,
                carver@.layout.height == plan.height,
                carver@.layout.width == plan.width,
                carver@.layout.start == plan.start,
                carver@.layout.finish == plan.finish,
            decreases carver@.fuel(),
        {
            proof {
                carver@.lemma_next_inv(order@);
                carver@.lemma_next_frame(order@);
                CarveState::initial(plan).lemma_run_push(Seq::new(moves, |i: int| order@), order@);
                assert(Seq::new(moves, |i: int| order@).push(order@) =~= Seq::new(
                    moves + 1,
                    |i: int| order@,
                ));
                moves = moves + 1;
            }
            carver.step(order);
            proof {
                carver@.lemma_fuel();
            }
        }
        proof {
            carver@.lemma_fuel_ends(plan);
            carver@.layout.lemma_carved_well(Seq::new(moves, |i: int| order@));
        }
        carver.finish()
    }

    /// Carves this maze, in which every wall stands, by a random walk: from
    /// the cell it stands on the walk moves on to a neighbor it has not
    /// entered, chosen at random, and steps back where there is none, until it
    /// has backed out of the start.
    fn generate(self) -> (m: Maze)
        requires
            self@ == Layout::blank(self@.height, self@.width, self@.start, self@.finish),
        ensures
            m@.height == self@.height,
            m@.width == self@.width,
            m@.start == self@.start,
            m@.finish == self@.finish,
            m.carved(),
            m@.well_carved(),
    {
        let mut rng = thread_rng();
        let ghost blank = self@;
        let ghost mut orders: Seq<Seq<Direction>> = Seq::empty();
        proof {
            use_type_invariant(&self);
            self.lemma_inv();
            Layout::lemma_blank_pristine(blank.height, blank.width, blank.start, blank.finish);
            CarveState::lemma_initial_inv(blank);
        }
        let mut carver = Carver::begin(self);
        while !carver.is_done()
            invariant
                carver.wf(),
                blank.pristine(),
                CarveState::complete(orders),
                carver@ == CarveState::initial(blank).run(orders),
                carver@.inv(),
                carver@.layout.height == blank.height,
                carver@.layout.width == blank.width,
                carver@.layout.start == blank.start,
                carver@.layout.finish == blank.finish,
            decreases carver@.fuel(),
        {
            let order = shuffled_directions(&mut rng);
            proof {
                carver@.lemma_next_inv(order@);
                carver@.lemma_next_frame(order@);
                CarveState::initial(blank).lemma_run_push(orders, order@);
                orders = orders.push(order@);
            }
            carver.step(&order);
            proof {
                carver@.lemma_fuel();
            }
        }
        proof {
            carver@.layout.lemma_carved_well(orders);
        }
        carver.finish()
    }

    /// The cell in column `x` of row `y`.
    pub fn at(&self, x: usize, y: usize) -> (cell: Cell)
        requires
            self@.contains(Position { x, y }),
        ensures
            cell == self@.cell(Position { x, y }),
    {
        proof {
            use_type_invariant(self);
            self@.lemma_index(Position { x, y });
            assert(0 <= y * self.width) by (nonlinear_arith);
        }
        self.cells[y * self.width + x]
    }

    /// The cells in row-major order.
    pub fn cells(&self) -> (cells: &Vec<Cell>)
        ensures
            cells@ == self@.cells,
    {
        &self.cells
    }

    /// The number of rows.
    pub fn height(&self) -> (height: usize)
        ensures
            height == self@.height,
    {
        self.height
    }

    /// The number of columns.
    pub fn width(&self) -> (width: usize)
        ensures
            width == self@.width,
    {
        self.width
    }

    /// The cell on the top row where the maze is entered.
    pub fn start(&self) -> (start: Position)
        ensures
            start == self@.start,
    {
        self.start
    }

    /// The cell on the bottom row where the maze is left.
    pub fn finish(&self) -> (finish: Position)
        ensures
            finish == self@.finish,
    {
        self.finish
    }
}

impl Default for Maze {
    /// The maze of 20 rows and 20 columns, carved at random.
    fn default() -> (m: Maze)
        ensures
            m@.height == 20,
            m@.width == 20,
            m@.start == (Position { x: 0, y: 0 }),
            m@.finish == (Position { x: 19, y: 19 }),
            m.carved(),
            m@.well_carved(),
    {
        Maze::new()
    }
}

impl Direction {
    /// The cell one move in this direction from `position`, or `None` where
    /// the move would leave the maze.
    pub fn translate(&self, position: &Position, maze: &Maze) -> (next: Option<Position>)
        ensures
            next == maze@.neighbor(*position, *self),
    {
        proof {
            use_type_invariant(maze);
        }
        match self {
            Direction::North => if position.y > 0 {
                Some(Position::new(position.x, position.y - 1))
            } else {
                None
            },
            Direction::South => if position.y < maze.height - 1 {
                Some(Position::new(position.x, position.y + 1))
            } else {
                None
            },
            Direction::West => if position.x > 0 {
                Some(Position::new(position.x - 1, position.y))
            } else {
                None
            },
            Direction::East => if position.x < maze.width - 1 {
                Some(Position::new(position.x + 1, position.y))
            } else {
                None
            },
        }
    }
}

/// The cell next to `position` in `direction`, or `None` at the edge of the maze.
pub fn translate(direction: Direction, position: &Position, maze: &Maze) -> (next: Option<Position>)
    ensures
        next == maze@.neighbor(*position, direction),
{
    direction.translate(position, maze)
}

} // verus!
