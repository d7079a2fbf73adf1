//! A depth-first search through a maze that is taken one move at a time, so
//! that whoever drives it can watch every visit and every step back.

use vstd::prelude::*;
use crate::grid::{Direction, Position};
use crate::layout::Layout;
use crate::maze::Maze;
use crate::position_set::PositionSet;
use crate::random::{shuffled_directions, thread_rng};

verus! {

/// What a move of the solver did.
#[derive(Clone, Copy, PartialEq, Eq, Structural)]
pub enum Action {
    /// The search moved on to a cell it had not seen.
    VisitCell,
    /// The search gave a cell up and stepped back from it.
    UnvisitCell,
}

/// One move of the solver. For a visit, `position` is the cell entered and
/// `previous` the cell it was entered from; the very first visit enters the
/// start from itself. For a step back both name the cell given up.
pub struct Step {
    pub action: Action,
    pub position: Position,
    pub previous: Position,
}

impl Step {
    /// The step made of the given parts.
    pub fn new(action: Action, position: Position, previous: Position) -> (step: Step)
        ensures
            step == (Step { action, position, previous }),
    {
        Step { action, position, previous }
    }
}

/// The state of a search: the path from the start to the cell the search
/// stands on, and every cell it has ever entered.
pub struct SolverState {
    pub stack: Seq<Position>,
    pub visited: Set<Position>,
}

impl SolverState {
    /// A search that has not begun.
    pub open spec fn fresh() -> SolverState {
        SolverState { stack: Seq::empty(), visited: Set::empty() }
    }

    /// The search is over once it has entered the finish.
    pub open spec fn solved(self, layout: Layout) -> bool {
        self.visited.contains(layout.finish)
    }

    /// The cell the search stands on.
    pub open spec fn top(self) -> Position {
        self.stack.last()
    }

    /// Whether the search can move on towards `d`: the grid has a cell
    /// there, the cell it stands on is open that way, and it has not entered
    /// the cell beyond.
    pub open spec fn passable(self, layout: Layout, d: Direction) -> bool {
        match layout.neighbor(self.top(), d) {
            Some(q) => layout.open(self.top(), d) && !self.visited.contains(q),
            None => false,
        }
    }

    /// The first direction from index `i` of `order` on towards which the
    /// search can move on.
    pub open spec fn pick_from(self, layout: Layout, order: Seq<Direction>, i: int) -> Option<
        Direction,
    >
        decreases order.len() - i,
    {
        if i < 0 || i >= order.len() {
            None
        } else if self.passable(layout, order[i]) {
            Some(order[i])
        } else {
            self.pick_from(layout, order, i + 1)
        }
    }

    /// The first direction of `order` towards which the search can move on.
    pub open spec fn pick(self, layout: Layout, order: Seq<Direction>) -> Option<Direction> {
        self.pick_from(layout, order, 0)
    }

    /// The search after entering `p`.
    pub open spec fn visit(self, p: Position) -> SolverState {
        SolverState { stack: self.stack.push(p), visited: self.visited.insert(p) }
    }

    /// The search after giving up the cell it stands on.
    pub open spec fn retreat(self) -> SolverState {
        SolverState { stack: self.stack.drop_last(), ..self }
    }

    /// The search after one move with the directions tried in the given
    /// order. A search that is over stays as it is; one with an empty path
    /// enters the start; any other moves on through the first passable
    /// opening, or steps back where there is none.
    pub open spec fn next(self, layout: Layout, order: Seq<Direction>) -> SolverState {
        if self.solved(layout) {
            self
        } else if self.stack.len() == 0 {
            self.visit(layout.start)
        } else {
            match self.pick(layout, order) {
                Some(d) => self.visit(layout.neighbor(self.top(), d).unwrap()),
                None => self.retreat(),
            }
        }
    }

    /// What that move reports: nothing once the search is over, else the
    /// visit or the step back that it made.
    pub open spec fn emits(self, layout: Layout, order: Seq<Direction>) -> Option<Step> {
        if self.solved(layout) {
            None
        } else if self.stack.len() == 0 {
            Some(Step { action: Action::VisitCell, position: layout.start, previous: layout.start })
        } else {
            match self.pick(layout, order) {
                Some(d) => Some(
                    Step {
                        action: Action::VisitCell,
                        position: layout.neighbor(self.top(), d).unwrap(),
                        previous: self.top(),
                    },
                ),
                None => Some(
                    Step {
                        action: Action::UnvisitCell,
                        position: self.top(),
                        previous: self.top(),
                    },
                ),
            }
        }
    }

    /// Every cell on the path lies inside the grid.
    pub open spec fn within(self, layout: Layout) -> bool {
        forall|i: int| 0 <= i < self.stack.len() ==> layout.contains(#[trigger] self.stack[i])
    }
}

/// A depth-first search in progress. It holds no maze: the maze is handed to
/// each move, and must be the one the search was begun for.
pub struct Solver {
    stack: Vec<Position>,
    visited: PositionSet,
}

impl View for Solver {
    type V = SolverState;

    closed spec fn view(&self) -> SolverState {
        SolverState { stack: self.stack@, visited: self.visited@ }
    }
}

impl Solver {
    /// The search is sound and its path lies inside the given grid.
    pub closed spec fn wf(self, layout: Layout) -> bool {
        self.visited.wf() && self@.within(layout)
    }

    /// A search through `maze` that has not begun.
    pub fn new_for_maze(maze: &Maze) -> (solver: Solver)
        ensures
            solver.wf(maze@),
            solver@ == SolverState::fresh(),
    {
        proof {
            use_type_invariant(maze);
            maze.lemma_inv();
        }
        Solver {
            stack: Vec::new(),
            visited: PositionSet::with_capacity(maze.height() * maze.width()),
        }
    }

    /// Enters `position`: puts it on the path and counts it as seen.
    fn visit(&mut self, position: Position)
        requires
            old(self).visited.wf(),
        ensures
            final(self).visited.wf(),
            final(self)@ == old(self)@.visit(position),
    {
        self.stack.push(position);
        self.visited.insert(position);
    }

    /// The first direction of `order` towards which the search can move on,
    /// with the cell that lies there.
    fn scan(&self, maze: &Maze, order: &[Direction; 4]) -> (found: Option<(Direction, Position)>)
        requires
            self.wf(maze@),
            self@.stack.len() > 0,
        ensures
            match found {
                Some((d, q)) => self@.pick(maze@, order@) == Some(d) && maze@.neighbor(
                    self@.top(),
                    d,
                ) == Some(q),
                None => self@.pick(maze@, order@).is_none(),
            },
    {
        let position = self.stack[self.stack.len() - 1];
        let mut i: usize = 0;
        while i < 4
            invariant
                i <= 4,
                self.wf(maze@),
                self@.stack.len() > 0,
                position == self@.top(),
                self@.pick(maze@, order@) == self@.pick_from(maze@, order@, i as int),
            decreases 4 - i,
        {
            let direction = order[i];
            if let Some(candidate) = direction.translate(&position, maze) {
                if maze.at(position.x, position.y).has_opening(direction) && !self.visited.contains(
                    &candidate,
                ) {
                    return Some((direction, candidate));
                }
            }
            i += 1;
        }
        None
    }

    /// Makes one move of the search, trying the directions in the given
    /// order, and reports it; reports nothing once the finish has been entered.
    pub fn step_in_order(&mut self, maze: &Maze, order: &[Direction; 4]) -> (step: Option<Step>)
        requires
            old(self).wf(maze@),
        ensures
            final(self).wf(maze@),
            final(self)@ == old(self)@.next(maze@, order@),
            step == old(self)@.emits(maze@, order@),
    {
        proof {
            use_type_invariant(maze);
            maze.lemma_inv();
        }
        let finish = maze.finish();
        if self.visited.contains(&finish) {
            return None;
        }
        if self.stack.len() == 0 {
            let start = maze.start();
            self.visit(start);
            return Some(Step::new(Action::VisitCell, start, start));
        }
        let position = self.stack[self.stack.len() - 1];
        match self.scan(maze, order) {
            Some((_, candidate)) => {
                proof {
                    maze@.lemma_neighbor(position, self@.pick(maze@, order@).unwrap());
                }
                self.visit(candidate);
                Some(Step::new(Action::VisitCell, candidate, position))
            },
            None => {
                self.stack.pop();
                Some(Step::new(Action::UnvisitCell, position, position))
            },
        }
    }

    /// Makes one move of the search, trying the directions in a random
    /// order, and reports it; reports nothing once the finish has been entered.
    pub fn step(&mut self, maze: &Maze) -> (step: Option<Step>)
        requires
            old(self).wf(maze@),
        ensures
            final(self).wf(maze@),
            step.is_none() <==> old(self)@.solved(maze@),
            exists|order: Seq<Direction>|
                Direction::complete(order) && final(self)@ == old(self)@.next(maze@, order)
                    && step == #[trigger] old(self)@.emits(maze@, order),
    {
        let mut rng = thread_rng();
        let order = shuffled_directions(&mut rng);
        let step = self.step_in_order(maze, &order);
        assert(step == old(self)@.emits(maze@, order@));
        step
    }
}

} // verus!
