//! Maze generation as a walk that can be taken one move at a time: the
//! randomized depth-first carving, with the order in which the directions are
//! tried handed in from outside.

use vstd::prelude::*;
use crate::grid::{Direction, Position};
use crate::layout::Layout;
use crate::maze::Maze;
use crate::position_set::PositionSet;

verus! {

/// The state of a carving walk: the maze as far as it is carved, the path
/// from the start to the cell the walk stands on, and the cells it has
/// entered so far.
pub struct CarveState {
    pub layout: Layout,
    pub stack: Seq<Position>,
    pub visited: Set<Position>,
}

impl CarveState {
    /// Where a walk begins: the two breaches are open and nothing else, the
    /// walk stands on the start, and no cell counts as entered yet.
    pub open spec fn initial(blank: Layout) -> CarveState {
        CarveState {
            layout: blank.opened(blank.start, Direction::North).opened(
                blank.finish,
                Direction::South,
            ),
            stack: seq![blank.start],
            visited: Set::empty(),
        }
    }

    /// The walk is over once it has backed out of the start.
    pub open spec fn done(self) -> bool {
        self.stack.len() == 0
    }

    /// The cell the walk stands on.
    pub open spec fn top(self) -> Position {
        self.stack.last()
    }

    /// Whether the walk can move on towards `d`: the grid has a cell there
    /// and the walk has not entered it yet.
    pub open spec fn fresh(self, d: Direction) -> bool {
        match self.layout.neighbor(self.top(), d) {
            Some(q) => !self.visited.contains(q),
            None => false,
        }
    }

    /// The first direction from index `i` of `order` on towards which the
    /// walk can move on.
    pub open spec fn pick_from(self, order: Seq<Direction>, i: int) -> Option<Direction>
        decreases order.len() - i,
    {
        if i < 0 || i >= order.len() {
            None
        } else if self.fresh(order[i]) {
            Some(order[i])
        } else {
            self.pick_from(order, i + 1)
        }
    }

    /// The first direction of `order` towards which the walk can move on.
    pub open spec fn pick(self, order: Seq<Direction>) -> Option<Direction> {
        self.pick_from(order, 0)
    }

    /// The walk after moving on towards `d`: the wall between the two cells
    /// is taken down from both sides and the walk stands on the new cell.
    pub open spec fn advance(self, d: Direction) -> CarveState {
        let q = self.layout.neighbor(self.top(), d).unwrap();
        CarveState {
            layout: self.layout.opened(self.top(), d).opened(q, d.inverse()),
            stack: self.stack.push(q),
            visited: self.visited.insert(q),
        }
    }

    /// The walk after stepping back to the cell it came from.
    pub open spec fn retreat(self) -> CarveState {
        CarveState { stack: self.stack.drop_last(), ..self }
    }

    /// One move of the walk with the directions tried in the given order: on
    /// to the first cell not yet entered, or back where there is none. A walk
    /// that is over stays as it is.
    pub open spec fn next(self, order: Seq<Direction>) -> CarveState {
        if self.done() {
            self
        } else {
            match self.pick(order) {
                Some(d) => self.advance(d),
                None => self.retreat(),
            }
        }
    }

    /// The walk after one move for each entry of `orders`, in turn.
    pub open spec fn run(self, orders: Seq<Seq<Direction>>) -> CarveState
        decreases orders.len(),
    {
        if orders.len() == 0 {
            self
        } else {
            self.run(orders.drop_last()).next(orders.last())
        }
    }
}

/// A carving walk in progress.
pub struct Carver {
    maze: Maze,
    stack: Vec<Position>,
    visited: PositionSet,
}

impl View for Carver {
    type V = CarveState;

    closed spec fn view(&self) -> CarveState {
        CarveState { layout: self.maze@, stack: self.stack@, visited: self.visited@ }
    }
}

impl Carver {
    /// The walk stands inside the grid, and so does every cell on its path.
    pub closed spec fn wf(self) -> bool {
        &&& self.maze@.wf()
        &&& self.visited.wf()
        &&& forall|i: int| 0 <= i < self.stack@.len() ==> self.maze@.contains(#[trigger] self.stack@[i])
    }

    /// Begins a walk on a maze in which every wall stands: opens the two
    /// breaches and puts the walk on the start.
    pub fn begin(maze: Maze) -> (carver: Carver)
        ensures
            carver.wf(),
            carver@ == CarveState::initial(maze@),
    {
        proof {
            use_type_invariant(&maze);
            maze.lemma_inv();
        }
        let mut maze = maze;
        let start = maze.start();
        let finish = maze.finish();
        proof {
            maze@.lemma_opened_wf(start, Direction::North);
            maze@.opened(start, Direction::North).lemma_opened_wf(finish, Direction::South);
        }
        maze.carve(start, Direction::North);
        maze.carve(finish, Direction::South);
        let mut stack: Vec<Position> = Vec::new();
        stack.push(start);
        assert(stack@ =~= seq![start]);
        Carver { maze, stack, visited: PositionSet::new() }
    }

    /// Whether the walk is over.
    pub fn is_done(&self) -> (done: bool)
        ensures
            done == self@.done(),
    {
        self.stack.len() == 0
    }

    /// The first direction of `order` towards which the walk can move on,
    /// with the cell that lies there.
    fn scan(&self, order: &[Direction; 4]) -> (found: Option<(Direction, Position)>)
        requires
            self.wf(),
            !self@.done(),
        ensures
            match found {
                Some((d, q)) => self@.pick(order@) == Some(d) && self@.layout.neighbor(
                    self@.top(),
                    d,
                ) == Some(q),
                None => self@.pick(order@).is_none(),
            },
    {
        let peek = self.stack[self.stack.len() - 1];
        let mut i: usize = 0;
        while i < 4
            invariant
                i <= 4,
                self.wf(),
                !self@.done(),
                peek == self@.top(),
                self@.pick(order@) == self@.pick_from(order@, i as int),
            decreases 4 - i,
        {
            let dir = order[i];
            if let Some(pos) = dir.translate(&peek, &self.maze) {
                if !self.visited.contains(&pos) {
                    return Some((dir, pos));
                }
            }
            i += 1;
        }
        None
    }

    /// Makes one move of the walk, trying the directions in the given order.
    pub fn step(&mut self, order: &[Direction; 4])
        requires
            old(self).wf(),
        ensures
            final(self).wf(),
            final(self)@ == old(self)@.next(order@),
    {
        if self.stack.len() == 0 {
            return ;
        }
        let peek = self.stack[self.stack.len() - 1];
        match self.scan(order) {
            Some((dir, pos)) => {
                proof {
                    self.maze@.lemma_neighbor(peek, dir);
                    self.maze@.lemma_opened_wf(peek, dir);
                    self.maze@.opened(peek, dir).lemma_opened_wf(pos, dir.inverse());
                }
                self.maze.carve(peek, dir);
                self.maze.carve(pos, dir.op());
                self.visited.insert(pos);
                self.stack.push(pos);
            },
            None => {
                self.stack.pop();
            },
        }
    }

    /// Ends the walk and hands out the maze as far as it is carved.
    pub fn finish(self) -> (maze: Maze)
        ensures
            maze@ == self@.layout,
    {
        self.maze
    }
}

} // verus!
