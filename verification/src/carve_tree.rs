//! When a carving walk leaves a perfect maze behind: whenever it never takes
//! down a wall between the cell it stands on and a cell it has been on before.

use vstd::prelude::*;
use crate::carver::CarveState;
use crate::grid::{lemma_inverse_involution, Direction, Position};
use crate::layout::Layout;

verus! {

impl CarveState {
    /// Whether the move made in the given order closes a circle: it takes
    /// down a wall towards the start, where the walk has been before.
    pub open spec fn closes_circle(self, order: Seq<Direction>) -> bool {
        !self.done() && match self.pick(order) {
            Some(d) => self.layout.neighbor(self.top(), d) == Some(self.layout.start)
                && !self.layout.open(self.top(), d),
            None => false,
        }
    }

    /// Whether none of the moves made in the given orders closes a circle.
    pub open spec fn circle_free(self, orders: Seq<Seq<Direction>>) -> bool
        decreases orders.len(),
    {
        orders.len() == 0 || (self.circle_free(orders.drop_last()) && !self.run(
            orders.drop_last(),
        ).closes_circle(orders.last()))
    }

    /// The cells in the order in which the walk first came to them: the
    /// start has height 0 and every cell entered a height of its own, no
    /// greater than the number of cells entered. The maze is graded by these
    /// heights.
    pub open spec fn ranked(self, rank: spec_fn(Position) -> int) -> bool {
        &&& rank(self.layout.start) == 0
        &&& forall|p: Position| #[trigger]
            self.visited.contains(p) && p != self.layout.start ==> 1 <= rank(p)
                <= self.visited.len()
        &&& self.layout.graded(rank)
    }

    /// The doors carved so far form a forest.
    pub open spec fn forest(self) -> bool {
        exists|rank: spec_fn(Position) -> int| self.ranked(rank)
    }

    /// By how many the passages outnumber the cells entered, the start not
    /// counted.
    pub open spec fn surplus(self) -> int {
        self.layout.passages().len() - self.visited.remove(self.layout.start).len()
    }

    /// There are finitely many passages: as many as cells entered, the start
    /// not counted, or one more once the walk has come back to the start.
    pub open spec fn tallied(self) -> bool {
        &&& self.layout.passages().finite()
        &&& self.surplus() == 0 || (self.surplus() == 1 && self.visited.contains(
            self.layout.start,
        ))
    }

    /// Which doors there are after the walk has moved on towards `d`: those
    /// that were, and the two between the cell it left and the cell it entered.
    pub proof fn lemma_advance_door(self, d: Direction, a: Position, e: Direction)
        requires
            self.grounded(),
            !self.done(),
            self.fresh(d),
        ensures
            self.advance(d).layout.neighbor(a, e) == self.layout.neighbor(a, e),
            self.advance(d).layout.contains(a) == self.layout.contains(a),
            self.advance(d).layout.door(a, e) == (self.layout.door(a, e) || (a == self.top() && e
                == d) || (a == self.layout.neighbor(self.top(), d).unwrap() && e == d.inverse())),
    {
        self.lemma_top();
        self.layout.lemma_neighbor(self.top(), d);
        self.lemma_advance_open(d, self.top(), d);
        if self.layout.contains(a) {
            self.lemma_advance_open(d, a, e);
        }
    }

    /// A walk that begins on a pristine grid begins with a forest.
    pub proof fn lemma_initial_forest(blank: Layout)
        requires
            blank.pristine(),
        ensures
            CarveState::initial(blank).forest(),
            CarveState::initial(blank).tallied(),
            CarveState::initial(blank).surplus() == 0,
    {
        let s = CarveState::initial(blank);
        let mid = blank.opened(blank.start, Direction::North);
        blank.lemma_opened_wf(blank.start, Direction::North);
        assert forall|p: Position, d: Direction| !#[trigger] s.layout.door(p, d) by {
            if s.layout.contains(p) {
                blank.lemma_opened(blank.start, Direction::North, p, d);
                mid.lemma_opened(blank.finish, Direction::South, p, d);
                assert(!blank.open(p, d));
            }
        }
        let rank = |p: Position| 0int;
        assert(s.ranked(rank));
        assert(s.layout.passages() =~= Set::empty());
        assert(s.visited.remove(s.layout.start) =~= Set::empty());
    }

    /// Moving on to a cell the walk has never been on keeps the forest.
    proof fn lemma_advance_forest_new(self, d: Direction, rank: spec_fn(Position) -> int)
        requires
            self.inv(),
            self.ranked(rank),
            !self.done(),
            self.fresh(d),
            self.layout.neighbor(self.top(), d) != Some(self.layout.start),
        ensures
            self.advance(d).forest(),
    {
        let next = self.advance(d);
        let top = self.top();
        let q = self.layout.neighbor(top, d).unwrap();
        let height: int = self.visited.len() as int + 1;
        let grown = |p: Position|
            if p == q {
                height
            } else {
                rank(p)
            };
        self.lemma_top();
        self.layout.lemma_neighbor(top, d);
        lemma_inverse_involution(d);
        assert(!self.seen(q));
        assert(rank(top) < height);
        assert forall|a: Position, e: Direction|
            next.layout.neighbor(a, e) == self.layout.neighbor(a, e) && (#[trigger] next.layout.door(
                a,
                e,
            )) == (self.layout.door(a, e) || (a == top && e == d) || (a == q && e
                == d.inverse())) by {
            self.lemma_advance_door(d, a, e);
        }
        // No door that was there before leads to or from the new cell.
        assert forall|a: Position, e: Direction| #[trigger]
            self.layout.door(a, e) implies a != q && self.layout.neighbor(a, e).unwrap() != q
            && self.seen(a) && self.seen(self.layout.neighbor(a, e).unwrap()) by {
            let b = self.layout.neighbor(a, e).unwrap();
            self.layout.lemma_neighbor(a, e);
            assert(self.layout.door(b, e.inverse()));
        }
        assert(next.layout.graded(grown)) by {
            assert forall|p: Position, e: Direction| #[trigger]
                next.layout.door(p, e) implies grown(next.layout.neighbor(p, e).unwrap()) != grown(
                p,
            ) by {
                if self.layout.door(p, e) {
                    assert(rank(self.layout.neighbor(p, e).unwrap()) != rank(p));
                }
            }
            assert forall|p: Position, e: Direction, f: Direction|
                #[trigger] next.layout.door(p, e) && #[trigger] next.layout.door(p, f) && grown(
                    next.layout.neighbor(p, e).unwrap(),
                ) < grown(p) && grown(next.layout.neighbor(p, f).unwrap()) < grown(p) implies e
                == f by {
                if p == q {
                    assert(!self.layout.door(p, e));
                    assert(!self.layout.door(p, f));
                } else {
                    assert(self.layout.door(p, e));
                    assert(self.layout.door(p, f));
                }
            }
        }
        assert(next.ranked(grown)) by {
            assert forall|p: Position| #[trigger]
                next.visited.contains(p) && p != next.layout.start implies 1 <= grown(p)
                <= next.visited.len() by {
                if p != q {
                    assert(self.visited.contains(p));
                }
            }
        }
    }

    /// Moving back on to the start through a door that is there already
    /// changes nothing about the maze.
    proof fn lemma_advance_same(self, d: Direction)
        requires
            self.inv(),
            !self.done(),
            self.fresh(d),
            self.layout.open(self.top(), d),
        ensures
            self.advance(d).layout == self.layout,
    {
        let top = self.top();
        let q = self.layout.neighbor(top, d).unwrap();
        self.lemma_top();
        self.layout.lemma_neighbor(top, d);
        self.layout.lemma_opened_again(top, d);
        assert(self.layout.door(top, d));
        self.layout.lemma_opened_again(q, d.inverse());
    }

    /// A move adds a passage for the cell it enters. Only a move that closes
    /// a circle adds one without entering a cell the walk has not been on.
    pub proof fn lemma_next_tally(self, order: Seq<Direction>)
        requires
            self.inv(),
            self.tallied(),
        ensures
            self.next(order).tallied(),
            self.next(order).surplus() == self.surplus() + if self.closes_circle(order) {
                1int
            } else {
                0int
            },
    {
        let next = self.next(order);
        if !self.done() {
            self.lemma_pick(order);
            if let Some(d) = self.pick(order) {
                let top = self.top();
                let start = self.layout.start;
                let q = self.layout.neighbor(top, d).unwrap();
                self.lemma_top();
                self.layout.lemma_neighbor(top, d);
                lemma_inverse_involution(d);
                if self.layout.open(top, d) {
                    assert(self.layout.door(top, d));
                    assert(self.layout.door(q, d.inverse()));
                    assert(q == start);
                    self.lemma_advance_same(d);
                    assert(next.visited.remove(start) =~= self.visited.remove(start));
                } else {
                    let passage = if d == Direction::South || d == Direction::East {
                        (top, d)
                    } else {
                        (q, d.inverse())
                    };
                    assert(!self.layout.door(q, d.inverse())) by {
                        if self.layout.door(q, d.inverse()) {
                            assert(self.layout.open(top, d.inverse().inverse()));
                        }
                    }
                    assert forall|a: Position, e: Direction|
                        (#[trigger] next.layout.door(a, e)) == (self.layout.door(a, e) || (a == top
                            && e == d) || (a == q && e == d.inverse())) by {
                        self.lemma_advance_door(d, a, e);
                    }
                    assert(next.layout.passages() =~= self.layout.passages().insert(passage));
                    if q == start {
                        assert(next.visited.remove(start) =~= self.visited.remove(start));
                    } else {
                        assert(next.visited.remove(start) =~= self.visited.remove(start).insert(q));
                    }
                }
            }
        }
    }

    /// A move that closes no circle keeps the forest.
    pub proof fn lemma_next_forest(self, order: Seq<Direction>)
        requires
            self.inv(),
            self.forest(),
            !self.closes_circle(order),
        ensures
            self.next(order).forest(),
    {
        let rank = choose|rank: spec_fn(Position) -> int| self.ranked(rank);
        if !self.done() {
            self.lemma_pick(order);
            match self.pick(order) {
                Some(d) => {
                    if self.layout.neighbor(self.top(), d) == Some(self.layout.start) {
                        self.lemma_advance_same(d);
                        let next = self.advance(d);
                        assert(next.ranked(rank)) by {
                            assert forall|p: Position| #[trigger]
                                next.visited.contains(p) && p != next.layout.start implies 1
                                <= rank(p) <= next.visited.len() by {
                                assert(self.visited.contains(p));
                            }
                        }
                    } else {
                        self.lemma_advance_forest_new(d, rank);
                    }
                },
                None => {
                    assert(self.retreat().ranked(rank));
                },
            }
        } else {
            assert(self.next(order).ranked(rank));
        }
    }

    /// A walk that begins on a pristine grid and never closes a circle keeps
    /// the invariant and a forest, whatever complete orders it moves in.
    pub proof fn lemma_run_forest(blank: Layout, orders: Seq<Seq<Direction>>)
        requires
            blank.pristine(),
            CarveState::complete(orders),
            CarveState::initial(blank).circle_free(orders),
        ensures
            CarveState::initial(blank).run(orders).inv(),
            CarveState::initial(blank).run(orders).forest(),
        decreases orders.len(),
    {
        CarveState::lemma_initial_inv(blank);
        CarveState::lemma_initial_forest(blank);
        if orders.len() > 0 {
            CarveState::lemma_run_forest(blank, orders.drop_last());
            let before = CarveState::initial(blank).run(orders.drop_last());
            before.lemma_next_inv(orders.last());
            before.lemma_next_forest(orders.last());
        }
    }

    /// A walk that begins on a pristine grid has carved one passage for each
    /// cell it has entered, the start not counted, and one more if it has
    /// closed a circle, which it does at most once.
    pub proof fn lemma_run_tally(blank: Layout, orders: Seq<Seq<Direction>>)
        requires
            blank.pristine(),
            CarveState::complete(orders),
        ensures
            CarveState::initial(blank).run(orders).inv(),
            CarveState::initial(blank).run(orders).tallied(),
            CarveState::initial(blank).run(orders).surplus() == if CarveState::initial(
                blank,
            ).circle_free(orders) {
                0int
            } else {
                1int
            },
        decreases orders.len(),
    {
        CarveState::lemma_initial_inv(blank);
        CarveState::lemma_initial_forest(blank);
        if orders.len() > 0 {
            CarveState::lemma_run_tally(blank, orders.drop_last());
            let before = CarveState::initial(blank).run(orders.drop_last());
            before.lemma_next_inv(orders.last());
            before.lemma_next_tally(orders.last());
            if before.closes_circle(orders.last()) {
                before.lemma_pick(orders.last());
            }
        }
    }

    /// Once the walk is over, the passages outnumber the cells, less one, by
    /// the surplus.
    pub proof fn lemma_done_tally(self)
        requires
            self.inv(),
            self.done(),
            self.tallied(),
        ensures
            self.layout.passages().len() == self.layout.height * self.layout.width - 1
                + self.surplus(),
    {
        assert forall|p: Position| self.visited.contains(p) <==> self.layout.contains(p) by {
            if self.layout.contains(p) {
                self.lemma_done_visited(p);
            }
        }
        self.layout.lemma_all_cells(self.visited);
        self.lemma_done_visited(self.layout.start);
    }
}

impl Layout {
    /// A maze left behind by a carving walk that never closed a circle is
    /// perfect: its doors come in pairs, every cell can be reached from the
    /// start, exactly one simple route leads from any cell to any other, no
    /// route runs in a circle, and there is one passage fewer than cells.
    pub proof fn lemma_carved_perfect(self, orders: Seq<Seq<Direction>>)
        requires
            self.carved_in(orders),
            CarveState::initial(
                Layout::blank(self.height, self.width, self.start, self.finish),
            ).circle_free(orders),
        ensures
            self.reciprocal(),
            self.spanning(),
            self.perfect(),
            self.acyclic(),
            self.tree_sized(),
    {
        let blank = Layout::blank(self.height, self.width, self.start, self.finish);
        Layout::lemma_blank_pristine(self.height, self.width, self.start, self.finish);
        CarveState::lemma_run_forest(blank, orders);
        let end = CarveState::initial(blank).run(orders);
        end.lemma_done_spanning();
        let rank = choose|rank: spec_fn(Position) -> int| end.ranked(rank);
        self.lemma_graded_perfect(rank);
        self.lemma_perfect_acyclic();
        CarveState::lemma_run_tally(blank, orders);
        end.lemma_done_tally();
    }
}

impl Layout {
    /// Whether two different simple routes lead from one cell to another.
    pub open spec fn twice_joined(self) -> bool {
        exists|p: Seq<Position>, q: Seq<Position>|
            #[trigger] self.simple(p) && #[trigger] self.simple(q) && p[0] == q[0] && p.last()
                == q.last() && p != q
    }
}

impl CarveState {
    /// Until the walk has come back to the start, its path is a simple route.
    pub open spec fn trailing(self) -> bool {
        !self.visited.contains(self.layout.start) && self.stack.len() > 0 ==> self.layout.simple(
            self.stack,
        )
    }

    /// A move keeps the path a simple route until the walk has come back to
    /// the start.
    pub proof fn lemma_next_trailing(self, order: Seq<Direction>)
        requires
            self.inv(),
            self.trailing(),
        ensures
            self.next(order).trailing(),
    {
        let next = self.next(order);
        if !self.done() && !next.visited.contains(next.layout.start) && next.stack.len() > 0 {
            self.lemma_pick(order);
            self.lemma_top();
            match self.pick(order) {
                Some(d) => {
                    let q = self.layout.neighbor(self.top(), d).unwrap();
                    self.layout.lemma_neighbor(self.top(), d);
                    self.lemma_advance_route(d, self.stack);
                    self.lemma_advance_door(d, self.top(), d);
                    assert(next.layout.leads(self.top(), d, q));
                    next.layout.lemma_route_push(self.stack, q);
                    assert forall|i: int, j: int|
                        0 <= i < next.stack.len() && 0 <= j < next.stack.len() && i
                            != j implies next.stack[i] != next.stack[j] by {
                        if 1 <= i < self.stack.len() {
                            assert(self.visited.contains(self.stack[i]));
                        }
                        if 1 <= j < self.stack.len() {
                            assert(self.visited.contains(self.stack[j]));
                        }
                    }
                },
                None => {
                    self.layout.lemma_simple_parts(self.stack);
                },
            }
        }
    }

    /// A move that closes a circle leaves two different simple routes from
    /// the start to the cell the walk stood on: the path it came by, and the
    /// door it has just made.
    pub proof fn lemma_circle_joins_twice(self, order: Seq<Direction>)
        requires
            self.inv(),
            self.trailing(),
            self.closes_circle(order),
        ensures
            self.next(order).layout.twice_joined(),
    {
        let d = self.pick(order).unwrap();
        let next = self.advance(d);
        let top = self.top();
        let start = self.layout.start;
        self.lemma_pick(order);
        self.lemma_top();
        self.layout.lemma_neighbor(top, d);
        lemma_inverse_involution(d);
        self.lemma_advance_route(d, self.stack);
        self.lemma_advance_door(d, start, d.inverse());
        let across = seq![start, top];
        assert(next.layout.simple(across)) by {
            assert forall|i: int| 0 <= i < across.len() - 1 implies #[trigger] next.layout.hop(
                across,
                i,
            ) by {
                assert(next.layout.leads(start, d.inverse(), top));
            }
        }
        if self.stack.len() == 2 {
            assert(self.layout.hop(self.stack, 0));
            let e = self.layout.way(start, top);
            assert(self.layout.door(start, e));
            self.layout.lemma_neighbor(start, e);
        }
        assert(next.layout.simple(self.stack) && self.stack[0] == across[0] && self.stack.last()
            == across.last());
        assert(self.stack.len() != across.len());
    }

    /// A move keeps two different simple routes between the same cells.
    pub proof fn lemma_next_joined_twice(self, order: Seq<Direction>)
        requires
            self.inv(),
            self.layout.twice_joined(),
        ensures
            self.next(order).layout.twice_joined(),
    {
        if !self.done() {
            self.lemma_pick(order);
            if let Some(d) = self.pick(order) {
                let (p, q) = choose|p: Seq<Position>, q: Seq<Position>|
                    #[trigger] self.layout.simple(p) && #[trigger] self.layout.simple(q) && p[0]
                        == q[0] && p.last() == q.last() && p != q;
                self.lemma_advance_route(d, p);
                self.lemma_advance_route(d, q);
                assert(self.advance(d).layout.simple(p) && self.advance(d).layout.simple(q));
            }
        }
    }

    /// A walk that begins on a pristine grid and closes a circle at one of
    /// its moves has left two different simple routes between the same cells.
    pub proof fn lemma_run_circle(blank: Layout, orders: Seq<Seq<Direction>>)
        requires
            blank.pristine(),
            CarveState::complete(orders),
        ensures
            CarveState::initial(blank).run(orders).inv(),
            CarveState::initial(blank).run(orders).trailing(),
            !CarveState::initial(blank).circle_free(orders) ==> CarveState::initial(blank).run(
                orders,
            ).layout.twice_joined(),
        decreases orders.len(),
    {
        CarveState::lemma_initial_inv(blank);
        if orders.len() > 0 {
            CarveState::lemma_run_circle(blank, orders.drop_last());
            let before = CarveState::initial(blank).run(orders.drop_last());
            before.lemma_next_inv(orders.last());
            before.lemma_next_trailing(orders.last());
            if !CarveState::initial(blank).circle_free(orders.drop_last()) {
                before.lemma_next_joined_twice(orders.last());
            } else if before.closes_circle(orders.last()) {
                before.lemma_circle_joins_twice(orders.last());
            }
        } else {
            blank.lemma_opened_wf(blank.start, Direction::North);
        }
    }
}

impl Layout {
    /// A maze left behind by a carving walk that closed a circle at one of
    /// its moves is not perfect: two different simple routes lead from the
    /// start to some cell, and there are as many passages as cells.
    pub proof fn lemma_carved_imperfect(self, orders: Seq<Seq<Direction>>)
        requires
            self.carved_in(orders),
            !CarveState::initial(
                Layout::blank(self.height, self.width, self.start, self.finish),
            ).circle_free(orders),
        ensures
            !self.perfect(),
            self.passages().finite(),
            self.passages().len() == self.height * self.width,
    {
        let blank = Layout::blank(self.height, self.width, self.start, self.finish);
        Layout::lemma_blank_pristine(self.height, self.width, self.start, self.finish);
        CarveState::lemma_run_circle(blank, orders);
        CarveState::lemma_run_tally(blank, orders);
        CarveState::initial(blank).run(orders).lemma_done_tally();
    }

    /// What holds of every maze that a carving walk leaves behind: every
    /// cell can be reached from the start, every door has its counterpart, the
    /// two breaches are the only openings to the outside, there is one passage
    /// fewer than cells or there are as many, and the maze is perfect exactly
    /// if there is one fewer.
    pub open spec fn well_carved(self) -> bool {
        &&& self.wf()
        &&& self.spanning()
        &&& self.reciprocal()
        &&& self.breached()
        &&& self.sealed()
        &&& self.passages().finite()
        &&& self.tree_sized() || self.passages().len() == self.height * self.width
        &&& self.perfect() <==> self.tree_sized()
    }

    /// Whatever the orders in which a carving walk makes its moves, the maze
    /// it leaves behind is well carved.
    pub proof fn lemma_carved_well(self, orders: Seq<Seq<Direction>>)
        requires
            self.carved_in(orders),
        ensures
            self.well_carved(),
    {
        let blank = Layout::blank(self.height, self.width, self.start, self.finish);
        Layout::lemma_blank_pristine(self.height, self.width, self.start, self.finish);
        CarveState::lemma_run_tally(blank, orders);
        CarveState::initial(blank).run(orders).lemma_done_spanning();
        if CarveState::initial(blank).circle_free(orders) {
            self.lemma_carved_perfect(orders);
        } else {
            self.lemma_carved_imperfect(orders);
        }
    }
}

} // verus!
