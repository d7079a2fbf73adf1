//! What holds of every search through a maze whose finish can be reached
//! from its start: the path it walks, and that it comes to an end.

use vstd::prelude::*;
use crate::grid::{Direction, Position};
use crate::layout::Layout;
use crate::solver::{Action, SolverState, Step};

verus! {

impl SolverState {
    /// The search after one move for each entry of `orders`, in turn.
    pub open spec fn run(self, layout: Layout, orders: Seq<Seq<Direction>>) -> SolverState
        decreases orders.len(),
    {
        if orders.len() == 0 {
            self
        } else {
            self.run(layout, orders.drop_last()).next(layout, orders.last())
        }
    }

    /// Whether every entry of `orders` is a complete order.
    pub open spec fn complete(orders: Seq<Seq<Direction>>) -> bool {
        forall|i: int| 0 <= i < orders.len() ==> Direction::complete(#[trigger] orders[i])
    }

    /// The path of the search is a route without a repeated cell that begins
    /// at the start, and every cell on it has been entered.
    pub open spec fn on_track(self, layout: Layout) -> bool {
        &&& forall|i: int| 0 <= i < self.stack.len() ==> self.visited.contains(#[trigger] self.stack[i])
        &&& self.stack.len() > 0 ==> self.stack[0] == layout.start
        &&& forall|i: int|
            0 <= i < self.stack.len() - 1 ==> #[trigger] layout.hop(self.stack, i)
        &&& self.stack.no_duplicates()
    }

    /// Every cell that was entered and has been given up has no door that
    /// leads to a cell never entered.
    pub open spec fn exhausted(self, layout: Layout) -> bool {
        forall|p: Position, d: Direction|
            self.visited.contains(p) && !self.stack.contains(p) && #[trigger] layout.door(p, d)
                ==> self.visited.contains(layout.neighbor(p, d).unwrap())
    }

    /// The invariant of a search.
    pub open spec fn inv(self, layout: Layout) -> bool {
        &&& self.visited.finite()
        &&& forall|p: Position| #[trigger] self.visited.contains(p) ==> layout.contains(p)
        &&& self.on_track(layout)
        &&& self.exhausted(layout)
        &&& self.stack.len() == 0 ==> self.visited =~= Set::empty()
        &&& self.solved(layout) ==> self.stack.len() > 0 && self.top() == layout.finish
    }

    /// The moves that are left at most: two for every cell not yet entered
    /// and one for each cell on the path.
    pub open spec fn fuel(self, layout: Layout) -> int {
        2 * (layout.height * layout.width - self.visited.len()) + self.stack.len()
    }

    /// What the first direction picked from index `i` on is, and what it
    /// means that there is none.
    pub proof fn lemma_pick_from(self, layout: Layout, order: Seq<Direction>, i: int)
        requires
            0 <= i <= order.len(),
        ensures
            match self.pick_from(layout, order, i) {
                Some(d) => self.passable(layout, d),
                None => forall|j: int|
                    i <= j < order.len() ==> !self.passable(layout, #[trigger] order[j]),
            },
        decreases order.len() - i,
    {
        if i < order.len() && !self.passable(layout, order[i]) {
            self.lemma_pick_from(layout, order, i + 1);
        }
    }

    /// The direction picked is passable; where none is picked from a
    /// complete order, no direction is.
    pub proof fn lemma_pick(self, layout: Layout, order: Seq<Direction>)
        ensures
            match self.pick(layout, order) {
                Some(d) => self.passable(layout, d),
                None => Direction::complete(order) ==> forall|d: Direction|
                    !self.passable(layout, d),
            },
    {
        self.lemma_pick_from(layout, order, 0);
        if self.pick(layout, order).is_none() && Direction::complete(order) {
            assert forall|d: Direction| !self.passable(layout, d) by {
                assert(order.contains(d)) by {
                    match d {
                        Direction::North => {},
                        Direction::South => {},
                        Direction::East => {},
                        Direction::West => {},
                    }
                }
                let j = choose|j: int| 0 <= j < order.len() && order[j] == d;
                assert(!self.passable(layout, order[j]));
            }
        }
    }

    /// Where no entered cell has a door to a cell never entered, every cell
    /// on a route that begins at an entered cell has been entered.
    proof fn lemma_flood(self, layout: Layout, path: Seq<Position>, i: int)
        requires
            layout.route(path),
            self.visited.contains(path[0]),
            forall|p: Position, d: Direction|
                self.visited.contains(p) && #[trigger] layout.door(p, d) ==> self.visited.contains(
                    layout.neighbor(p, d).unwrap(),
                ),
            0 <= i < path.len(),
        ensures
            self.visited.contains(path[i]),
        decreases i,
    {
        if i > 0 {
            self.lemma_flood(layout, path, i - 1);
            let a = path[i - 1];
            assert(layout.hop(path, i - 1));
            if layout.leads(a, Direction::North, path[i]) {
                assert(layout.door(a, Direction::North));
            } else if layout.leads(a, Direction::South, path[i]) {
                assert(layout.door(a, Direction::South));
            } else if layout.leads(a, Direction::East, path[i]) {
                assert(layout.door(a, Direction::East));
            } else {
                assert(layout.door(a, Direction::West));
            }
        }
    }

    /// A search that has not begun satisfies the invariant and has two moves
    /// left for every cell.
    pub proof fn lemma_fresh_inv(layout: Layout)
        ensures
            SolverState::fresh().inv(layout),
            SolverState::fresh().fuel(layout) == 2 * (layout.height * layout.width),
    {
    }

    /// The moves that are left are never fewer than none.
    pub proof fn lemma_fuel(self, layout: Layout)
        requires
            layout.wf(),
            self.inv(layout),
        ensures
            self.fuel(layout) >= 0,
    {
        layout.lemma_capacity(self.visited);
    }

    /// A search that is over stays as it is and reports nothing.
    pub proof fn lemma_solved_stays(self, layout: Layout, order: Seq<Direction>)
        requires
            self.solved(layout),
        ensures
            self.next(layout, order) == self,
            self.emits(layout, order).is_none(),
    {
    }

    /// In a maze whose finish can be reached from its start, a move of a
    /// search that is not over keeps the invariant, reports a step, and uses
    /// up one of finitely many moves.
    pub proof fn lemma_next_inv(self, layout: Layout, order: Seq<Direction>)
        requires
            layout.wf(),
            layout.connected(layout.start, layout.finish),
            self.inv(layout),
            Direction::complete(order),
        ensures
            self.next(layout, order).inv(layout),
            self.emits(layout, order).is_none() <==> self.solved(layout),
            !self.solved(layout) ==> self.next(layout, order).fuel(layout) == self.fuel(layout) - 1,
    {
        let next = self.next(layout, order);
        if self.solved(layout) {
        } else if self.stack.len() == 0 {
            assert(next.stack =~= seq![layout.start]);
            assert(next.visited =~= set![layout.start]);
            assert(next.stack[0] == layout.start);
        } else {
            self.lemma_pick(layout, order);
            let top = self.top();
            assert(self.stack[self.stack.len() - 1] == top);
            match self.pick(layout, order) {
                Some(d) => {
                    let q = layout.neighbor(top, d).unwrap();
                    layout.lemma_neighbor(top, d);
                    assert(layout.leads(top, d, q));
                    assert(next.on_track(layout)) by {
                        assert forall|i: int| 0 <= i < next.stack.len() - 1 implies #[trigger] layout.hop(next.stack, i) by {
                            if i < self.stack.len() - 1 {
                                assert(layout.hop(self.stack, i));
                            }
                        }
                        assert forall|i: int, j: int|
                            0 <= i < next.stack.len() && 0 <= j < next.stack.len() && i
                                != j implies next.stack[i] != next.stack[j] by {
                            if i < self.stack.len() {
                                assert(self.visited.contains(self.stack[i]));
                            }
                            if j < self.stack.len() {
                                assert(self.visited.contains(self.stack[j]));
                            }
                        }
                        assert(next.stack[0] == self.stack[0]);
                    }
                    assert(next.exhausted(layout)) by {
                        assert forall|p: Position, e: Direction|
                            next.visited.contains(p) && !next.stack.contains(p)
                                && #[trigger] layout.door(p, e) implies next.visited.contains(
                            layout.neighbor(p, e).unwrap(),
                        ) by {
                            assert(next.stack[self.stack.len() as int] == q);
                            if self.stack.contains(p) {
                                let i = choose|i: int|
                                    0 <= i < self.stack.len() && self.stack[i] == p;
                                assert(next.stack[i] == p);
                            }
                        }
                    }
                },
                None => {
                    if self.stack.len() == 1 {
                        let path = choose|path: Seq<Position>|
                            layout.joins(path, layout.start, layout.finish);
                        assert forall|p: Position, e: Direction|
                            self.visited.contains(p) && #[trigger] layout.door(
                                p,
                                e,
                            ) implies self.visited.contains(layout.neighbor(p, e).unwrap()) by {
                            if self.stack.contains(p) {
                                assert(p == top);
                                assert(!self.passable(layout, e));
                            }
                        }
                        assert(self.visited.contains(self.stack[0]));
                        self.lemma_flood(layout, path, path.len() - 1);
                    }
                    assert(next.on_track(layout)) by {
                        assert forall|i: int| 0 <= i < next.stack.len() - 1 implies #[trigger] layout.hop(next.stack, i) by {
                            assert(layout.hop(self.stack, i));
                        }
                        assert forall|i: int| 0 <= i < next.stack.len() implies next.visited.contains(
                            #[trigger] next.stack[i],
                        ) by {
                            assert(self.visited.contains(self.stack[i]));
                        }
                        assert(next.stack[0] == self.stack[0]);
                    }
                    assert(next.exhausted(layout)) by {
                        assert forall|p: Position, e: Direction|
                            next.visited.contains(p) && !next.stack.contains(p)
                                && #[trigger] layout.door(p, e) implies next.visited.contains(
                            layout.neighbor(p, e).unwrap(),
                        ) by {
                            if self.stack.contains(p) {
                                let i = choose|i: int|
                                    0 <= i < self.stack.len() && self.stack[i] == p;
                                if i < next.stack.len() {
                                    assert(next.stack[i] == p);
                                }
                                assert(p == top);
                                assert(!self.passable(layout, e));
                            }
                        }
                    }
                },
            }
        }
    }
}

/// Whether the finish of the maze can be reached from its start.
pub open spec fn solvable(layout: Layout) -> bool {
    layout.wf() && layout.connected(layout.start, layout.finish)
}

/// Every well carved maze can be solved.
pub proof fn lemma_well_carved_solvable(layout: Layout)
    requires
        layout.well_carved(),
    ensures
        solvable(layout),
{
}

impl SolverState {
    /// What a move reports is what it did to the path: a visit puts the cell
    /// entered on top of it, and but for the first visit, which enters the
    /// start from itself, that cell lies behind a door of the cell left; a
    /// step back takes the cell given up off it.
    pub proof fn lemma_step_reports(self, layout: Layout, order: Seq<Direction>)
        requires
            solvable(layout),
            self.inv(layout),
            Direction::complete(order),
        ensures
            match self.emits(layout, order) {
                Some(step) => match step.action {
                    Action::VisitCell => {
                        &&& self.next(layout, order).stack == self.stack.push(step.position)
                        &&& !self.visited.contains(step.position)
                        &&& if self.stack.len() == 0 {
                            step.position == layout.start && step.previous == layout.start
                        } else {
                            step.previous == self.top() && layout.linked(
                                step.previous,
                                step.position,
                            )
                        }
                    },
                    Action::UnvisitCell => {
                        &&& self.stack.len() > 0
                        &&& step.position == self.top()
                        &&& step.previous == self.top()
                        &&& self.next(layout, order).stack == self.stack.drop_last()
                    },
                },
                None => self.next(layout, order) == self,
            },
    {
        if !self.solved(layout) && self.stack.len() > 0 {
            self.lemma_pick(layout, order);
            if let Some(d) = self.pick(layout, order) {
                assert(self.stack[self.stack.len() - 1] == self.top());
                assert(layout.leads(self.top(), d, layout.neighbor(self.top(), d).unwrap()));
            }
        }
    }

    /// The path of a search is at every moment a route through the maze from
    /// the start that passes no cell twice, and once the search is over the
    /// path ends at the finish.
    pub proof fn lemma_path(self, layout: Layout)
        requires
            solvable(layout),
            self.inv(layout),
        ensures
            self.stack.len() > 0 ==> layout.route(self.stack) && self.stack[0] == layout.start,
            self.stack.no_duplicates(),
            self.solved(layout) ==> layout.joins(self.stack, layout.start, layout.finish),
    {
    }

    /// The invariant holds after any number of moves of a search that began
    /// afresh, and as long as the search is not over each move has used up
    /// one of the two moves per cell that it began with.
    pub proof fn lemma_run_inv(layout: Layout, orders: Seq<Seq<Direction>>)
        requires
            solvable(layout),
            SolverState::complete(orders),
        ensures
            SolverState::fresh().run(layout, orders).inv(layout),
            !SolverState::fresh().run(layout, orders).solved(layout) ==> SolverState::fresh().run(
                layout,
                orders,
            ).fuel(layout) == 2 * (layout.height * layout.width) - orders.len(),
        decreases orders.len(),
    {
        SolverState::lemma_fresh_inv(layout);
        if orders.len() > 0 {
            SolverState::lemma_run_inv(layout, orders.drop_last());
            let before = SolverState::fresh().run(layout, orders.drop_last());
            before.lemma_next_inv(layout, orders.last());
        }
    }

    /// A search through a maze whose finish can be reached from its start is
    /// over after at most two moves for every cell, whatever the orders in
    /// which it tries the directions.
    pub proof fn lemma_search_ends(layout: Layout, orders: Seq<Seq<Direction>>)
        requires
            solvable(layout),
            SolverState::complete(orders),
            orders.len() >= 2 * (layout.height * layout.width),
        ensures
            SolverState::fresh().run(layout, orders).solved(layout),
    {
        let end = SolverState::fresh().run(layout, orders);
        SolverState::lemma_run_inv(layout, orders);
        if !end.solved(layout) {
            let cells = layout.height * layout.width;
            assert(cells >= 4) by (nonlinear_arith)
                requires
                    cells == layout.height * layout.width,
                    layout.height >= 2,
                    layout.width >= 2,
            ;
            layout.lemma_capacity(end.visited);
            assert(end.fuel(layout) == 2 * (cells - end.visited.len()) + end.stack.len());
            assert(end.stack.len() == 0);
            assert(end.visited =~= Set::empty());
            assert(end.visited.len() == 0);
        }
    }

    /// Once a search is over, every further move leaves it as it is and
    /// reports nothing.
    pub proof fn lemma_over_for_good(self, layout: Layout, orders: Seq<Seq<Direction>>)
        requires
            self.solved(layout),
        ensures
            self.run(layout, orders) == self,
            forall|order: Seq<Direction>| #[trigger] self.run(layout, orders).emits(layout, order).is_none(),
        decreases orders.len(),
    {
        if orders.len() > 0 {
            self.lemma_over_for_good(layout, orders.drop_last());
        }
    }
}

} // verus!
