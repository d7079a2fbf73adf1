//! What holds of every carving walk, whatever the orders in which it tries
//! the directions: the invariant of the walk, and what follows from it once
//! the walk is over.

use vstd::prelude::*;
use crate::carver::CarveState;
use crate::grid::{Direction, Position};
use crate::layout::Layout;

verus! {

impl Layout {
    /// Whether this layout is what a carving walk leaves behind that began
    /// on the grid of the same size, start and finish with every wall standing,
    /// made one move in each of the given orders, each of them complete, and
    /// was over then.
    pub open spec fn carved_in(self, orders: Seq<Seq<Direction>>) -> bool {
        let blank = Layout::blank(self.height, self.width, self.start, self.finish);
        let end = CarveState::initial(blank).run(orders);
        &&& self.wf()
        &&& CarveState::complete(orders)
        &&& end.done()
        &&& end.layout == self
    }

    /// Whether this layout is what a carving walk leaves behind that tried
    /// the directions in the same complete order at every one of its moves,
    /// of which there are two for every cell and one more.
    pub open spec fn carved_in_order(self, order: Seq<Direction>) -> bool {
        self.carved_in(Seq::new((2 * (self.height * self.width) + 1) as nat, |i: int| order))
    }

    /// Two walks on grids of the same size, start and finish that make their
    /// moves in the same orders leave the same maze behind.
    pub proof fn lemma_same_orders_same_maze(self, other: Layout, orders: Seq<Seq<Direction>>)
        requires
            self.carved_in(orders),
            other.carved_in(orders),
            self.height == other.height,
            self.width == other.width,
            self.start == other.start,
            self.finish == other.finish,
        ensures
            self == other,
    {
    }
}

impl CarveState {
    /// What the first direction picked from index `i` on is, and what it
    /// means that there is none.
    pub proof fn lemma_pick_from(self, order: Seq<Direction>, i: int)
        requires
            0 <= i <= order.len(),
        ensures
            match self.pick_from(order, i) {
                Some(d) => self.fresh(d),
                None => forall|j: int| i <= j < order.len() ==> !self.fresh(#[trigger] order[j]),
            },
        decreases order.len() - i,
    {
        if i < order.len() && !self.fresh(order[i]) {
            self.lemma_pick_from(order, i + 1);
        }
    }

    /// The direction picked leads to a cell not yet entered; where none is
    /// picked from a complete order, no direction does.
    pub proof fn lemma_pick(self, order: Seq<Direction>)
        ensures
            match self.pick(order) {
                Some(d) => self.fresh(d),
                None => Direction::complete(order) ==> forall|d: Direction| !self.fresh(d),
            },
    {
        self.lemma_pick_from(order, 0);
        if self.pick(order).is_none() && Direction::complete(order) {
            assert forall|d: Direction| !self.fresh(d) by {
                assert(order.contains(d)) by {
                    match d {
                        Direction::North => {},
                        Direction::South => {},
                        Direction::East => {},
                        Direction::West => {},
                    }
                }
                let j = choose|j: int| 0 <= j < order.len() && order[j] == d;
                assert(!self.fresh(order[j]));
            }
        }
    }

    /// The walk stands inside the grid: so does every cell on its path and
    /// every cell entered. The path begins at the start, and each cell on it
    /// but the first has been entered.
    pub open spec fn grounded(self) -> bool {
        &&& self.layout.wf()
        &&& self.visited.finite()
        &&& forall|p: Position| #[trigger] self.visited.contains(p) ==> self.layout.contains(p)
        &&& forall|i: int| 0 <= i < self.stack.len() ==> self.layout.contains(#[trigger] self.stack[i])
        &&& self.stack.len() > 0 ==> self.stack[0] == self.layout.start
        &&& forall|i: int| 1 <= i < self.stack.len() ==> self.visited.contains(#[trigger] self.stack[i])
    }

    /// Doors come in pairs, and only the two breaches lead outside.
    pub open spec fn sound(self) -> bool {
        &&& self.layout.reciprocal()
        &&& self.layout.breached()
        &&& self.layout.sealed()
    }

    /// Whether the walk has been on `p`: it has entered it, or it began there.
    pub open spec fn seen(self, p: Position) -> bool {
        self.visited.contains(p) || p == self.layout.start
    }

    /// Every cell the walk has been on can be reached from the start.
    pub open spec fn reached(self) -> bool {
        forall|p: Position|
            self.layout.contains(p) && self.seen(p) ==> #[trigger] self.layout.connected(
                self.layout.start,
                p,
            )
    }

    /// Every cell the walk has been on and has left for good has no neighbor
    /// that was never entered.
    pub open spec fn exhausted(self) -> bool {
        forall|p: Position, d: Direction|
            self.layout.contains(p) && self.seen(p) && !self.stack.contains(p) && (
            #[trigger] self.layout.neighbor(p, d)).is_some() ==> self.visited.contains(
                self.layout.neighbor(p, d).unwrap(),
            )
    }

    /// Only cells the walk has been on have doors.
    pub open spec fn settled(self) -> bool {
        forall|p: Position, d: Direction| #[trigger] self.layout.door(p, d) ==> self.seen(p)
    }

    /// The invariant of the walk.
    pub open spec fn inv(self) -> bool {
        &&& self.grounded()
        &&& self.sound()
        &&& self.reached()
        &&& self.exhausted()
        &&& self.settled()
    }

    /// The moves that are left at most: two for every cell not yet entered,
    /// one to enter it and one to leave it, and one to leave each cell on the path.
    pub open spec fn fuel(self) -> int {
        2 * (self.layout.height * self.layout.width - self.visited.len()) + self.stack.len()
    }
}

impl CarveState {
    /// The top of a grounded walk that is not over has been seen and lies
    /// inside the grid.
    pub proof fn lemma_top(self)
        requires
            self.grounded(),
            !self.done(),
        ensures
            self.layout.contains(self.top()),
            self.seen(self.top()),
            self.stack.contains(self.top()),
    {
        let last = self.stack.len() - 1;
        assert(self.stack[last] == self.top());
    }

    /// Which walls are down after the walk has moved on towards `d`: those
    /// that were, and the two between the cell it left and the cell it entered.
    pub proof fn lemma_advance_open(self, d: Direction, a: Position, e: Direction)
        requires
            self.grounded(),
            !self.done(),
            self.fresh(d),
            self.layout.contains(a),
        ensures
            self.advance(d).layout.wf(),
            self.advance(d).layout.height == self.layout.height,
            self.advance(d).layout.width == self.layout.width,
            self.advance(d).layout.start == self.layout.start,
            self.advance(d).layout.finish == self.layout.finish,
            self.advance(d).layout.open(a, e) == (self.layout.open(a, e) || (a == self.top() && e
                == d) || (a == self.layout.neighbor(self.top(), d).unwrap() && e == d.inverse())),
    {
        self.lemma_top();
        let top = self.top();
        let q = self.layout.neighbor(top, d).unwrap();
        self.layout.lemma_neighbor(top, d);
        let mid = self.layout.opened(top, d);
        self.layout.lemma_opened_wf(top, d);
        mid.lemma_opened_wf(q, d.inverse());
        self.layout.lemma_opened(top, d, a, e);
        mid.lemma_opened(q, d.inverse(), a, e);
    }

    /// A walk that begins on a pristine grid satisfies the invariant.
    pub proof fn lemma_initial_inv(blank: Layout)
        requires
            blank.pristine(),
        ensures
            CarveState::initial(blank).inv(),
    {
        let mid = blank.opened(blank.start, Direction::North);
        let s = CarveState::initial(blank);
        blank.lemma_opened_wf(blank.start, Direction::North);
        mid.lemma_opened_wf(blank.finish, Direction::South);
        blank.lemma_sides();
        assert forall|p: Position, d: Direction| s.layout.contains(p) implies (s.layout.open(p, d)
            <==> s.layout.is_breach(p, d)) by {
            blank.lemma_opened(blank.start, Direction::North, p, d);
            mid.lemma_opened(blank.finish, Direction::South, p, d);
            assert(!blank.open(p, d));
        }
        assert(s.layout.open(s.layout.start, Direction::North));
        assert(s.layout.open(s.layout.finish, Direction::South));
        assert(s.grounded());
        assert(s.sound());
        assert(s.reached()) by {
            let path = seq![s.layout.start];
            assert(s.layout.joins(path, s.layout.start, s.layout.start));
        }
        assert(s.exhausted()) by {
            assert(s.stack[0] == s.layout.start);
        }
        assert(s.settled());
    }

    /// Moving on keeps the invariant and uses up one move.
    pub proof fn lemma_advance_inv(self, d: Direction)
        requires
            self.inv(),
            !self.done(),
            self.fresh(d),
        ensures
            self.advance(d).inv(),
            self.advance(d).fuel() == self.fuel() - 1,
    {
        let next = self.advance(d);
        let top = self.top();
        let q = self.layout.neighbor(top, d).unwrap();
        self.lemma_top();
        self.layout.lemma_neighbor(top, d);
        self.lemma_advance_open(d, top, d);
        crate::grid::lemma_inverse_involution(d);
        assert forall|a: Position, e: Direction| self.layout.contains(a) implies (
        #[trigger] next.layout.open(a, e)) == (self.layout.open(a, e) || (a == top && e == d) || (a
            == q && e == d.inverse())) by {
            self.lemma_advance_open(d, a, e);
        }
        assert(next.grounded()) by {
            assert forall|i: int| 0 <= i < next.stack.len() implies next.layout.contains(
                #[trigger] next.stack[i],
            ) by {
                if i < self.stack.len() {
                    assert(self.layout.contains(self.stack[i]));
                }
            }
            assert forall|i: int| 1 <= i < next.stack.len() implies next.visited.contains(
                #[trigger] next.stack[i],
            ) by {
                if i < self.stack.len() {
                    assert(self.visited.contains(self.stack[i]));
                }
            }
            assert(next.stack[0] == self.stack[0]);
        }
        assert(next.sound()) by {
            assert forall|p: Position, e: Direction| #[trigger]
                next.layout.door(p, e) implies next.layout.open(
                next.layout.neighbor(p, e).unwrap(),
                e.inverse(),
            ) by {
                self.layout.lemma_neighbor(p, e);
                crate::grid::lemma_inverse_involution(e);
                if self.layout.open(p, e) {
                    assert(self.layout.door(p, e));
                }
            }
            assert forall|p: Position, e: Direction|
                next.layout.contains(p) && #[trigger] next.layout.open(p, e)
                    && next.layout.neighbor(p, e).is_none() implies next.layout.is_breach(
                p,
                e,
            ) by {
                assert(self.layout.open(p, e));
            }
        }
        assert(next.reached()) by {
            assert forall|p: Position|
                next.layout.contains(p) && next.seen(p) implies #[trigger] next.layout.connected(
                next.layout.start,
                p,
            ) by {
                if p == q && !self.seen(q) {
                    assert(self.layout.connected(self.layout.start, top));
                    let path = choose|path: Seq<Position>|
                        self.layout.joins(path, self.layout.start, top);
                    self.lemma_advance_route(d, path);
                    assert(next.layout.leads(top, d, q));
                    next.layout.lemma_route_push(path, q);
                    assert(next.layout.joins(path.push(q), next.layout.start, q));
                } else {
                    assert(self.layout.connected(self.layout.start, p));
                    let path = choose|path: Seq<Position>|
                        self.layout.joins(path, self.layout.start, p);
                    self.lemma_advance_route(d, path);
                    assert(next.layout.joins(path, next.layout.start, p));
                }
            }
        }
        assert(next.exhausted()) by {
            assert forall|p: Position, e: Direction|
                next.layout.contains(p) && next.seen(p) && !next.stack.contains(p) && (
                #[trigger] next.layout.neighbor(p, e)).is_some() implies next.visited.contains(
                next.layout.neighbor(p, e).unwrap(),
            ) by {
                assert(next.stack[self.stack.len() as int] == q);
                assert(p != q);
                if self.stack.contains(p) {
                    let i = choose|i: int| 0 <= i < self.stack.len() && self.stack[i] == p;
                    assert(next.stack[i] == p);
                }
                assert(self.layout.neighbor(p, e).is_some());
            }
        }
        assert(next.settled()) by {
            assert forall|p: Position, e: Direction| #[trigger]
                next.layout.door(p, e) implies next.seen(p) by {
                if self.layout.open(p, e) {
                    assert(self.layout.door(p, e));
                }
            }
        }
    }

    /// A move leaves the size of the grid, its start and its finish as they were.
    pub proof fn lemma_next_frame(self, order: Seq<Direction>)
        requires
            self.grounded(),
        ensures
            self.next(order).layout.height == self.layout.height,
            self.next(order).layout.width == self.layout.width,
            self.next(order).layout.start == self.layout.start,
            self.next(order).layout.finish == self.layout.finish,
    {
        if !self.done() {
            self.lemma_pick(order);
            if let Some(d) = self.pick(order) {
                self.lemma_top();
                self.lemma_advance_open(d, self.top(), d);
            }
        }
    }

    /// A move never closes an opening: cells only gain openings.
    pub proof fn lemma_next_keeps_openings(
        self,
        order: Seq<Direction>,
        p: Position,
        d: Direction,
    )
        requires
            self.grounded(),
            self.layout.contains(p),
            self.layout.open(p, d),
        ensures
            self.next(order).layout.open(p, d),
    {
        if !self.done() {
            self.lemma_pick(order);
            if let Some(e) = self.pick(order) {
                self.lemma_advance_open(e, p, d);
            }
        }
    }

    /// Moving on keeps every route.
    pub proof fn lemma_advance_route(self, d: Direction, path: Seq<Position>)
        requires
            self.grounded(),
            !self.done(),
            self.fresh(d),
            self.layout.route(path),
        ensures
            self.advance(d).layout.route(path),
    {
        self.lemma_top();
        let top = self.top();
        let q = self.layout.neighbor(top, d).unwrap();
        self.layout.lemma_neighbor(top, d);
        self.layout.lemma_opened_wf(top, d);
        self.layout.lemma_opened_route(top, d, path);
        self.layout.opened(top, d).lemma_opened_route(q, d.inverse(), path);
    }

    /// Stepping back from a cell without a neighbor that was never entered
    /// keeps the invariant and uses up one move.
    pub proof fn lemma_retreat_inv(self)
        requires
            self.inv(),
            !self.done(),
            forall|d: Direction| !self.fresh(d),
        ensures
            self.retreat().inv(),
            self.retreat().fuel() == self.fuel() - 1,
    {
        let next = self.retreat();
        let top = self.top();
        assert(next.grounded()) by {
            assert forall|i: int| 0 <= i < next.stack.len() implies next.layout.contains(
                #[trigger] next.stack[i],
            ) by {
                assert(self.layout.contains(self.stack[i]));
            }
            assert forall|i: int| 1 <= i < next.stack.len() implies next.visited.contains(
                #[trigger] next.stack[i],
            ) by {
                assert(self.visited.contains(self.stack[i]));
            }
            if next.stack.len() > 0 {
                assert(next.stack[0] == self.stack[0]);
            }
        }
        assert(next.exhausted()) by {
            assert forall|p: Position, e: Direction|
                next.layout.contains(p) && next.seen(p) && !next.stack.contains(p) && (
                #[trigger] next.layout.neighbor(p, e)).is_some() implies next.visited.contains(
                next.layout.neighbor(p, e).unwrap(),
            ) by {
                if self.stack.contains(p) {
                    let i = choose|i: int| 0 <= i < self.stack.len() && self.stack[i] == p;
                    if i < next.stack.len() {
                        assert(next.stack[i] == p);
                    }
                    assert(p == top);
                    assert(!self.fresh(e));
                }
            }
        }
    }

    /// The moves that are left are never fewer than none.
    pub proof fn lemma_fuel(self)
        requires
            self.grounded(),
        ensures
            self.fuel() >= 0,
    {
        self.layout.lemma_capacity(self.visited);
    }

    /// A move keeps the invariant, whatever complete order it is made in, and
    /// as long as the walk is not over it uses up one of finitely many moves.
    pub proof fn lemma_next_inv(self, order: Seq<Direction>)
        requires
            self.inv(),
            Direction::complete(order),
        ensures
            self.next(order).inv(),
            !self.done() ==> self.next(order).fuel() == self.fuel() - 1,
    {
        if !self.done() {
            self.lemma_pick(order);
            match self.pick(order) {
                Some(d) => {
                    self.lemma_advance_inv(d);
                },
                None => {
                    self.lemma_retreat_inv();
                },
            }
        }
    }
}

/// How many moves lie between two positions.
pub open spec fn distance(a: Position, b: Position) -> int {
    (if a.x < b.x {
        b.x - a.x
    } else {
        a.x - b.x
    }) + (if a.y < b.y {
        b.y - a.y
    } else {
        a.y - b.y
    })
}

impl CarveState {
    /// Once the walk is over, entered cells have entered neighbors only, so
    /// from one entered cell every cell of the grid is found entered.
    proof fn lemma_flood(self, a: Position, p: Position)
        requires
            self.inv(),
            self.done(),
            self.visited.contains(a),
            self.layout.contains(p),
        ensures
            self.visited.contains(p),
        decreases distance(a, p),
    {
        if a != p {
            let d = if a.x < p.x {
                Direction::East
            } else if a.x > p.x {
                Direction::West
            } else if a.y < p.y {
                Direction::South
            } else {
                Direction::North
            };
            self.layout.lemma_sides();
            assert(self.layout.neighbor(a, d).is_some());
            let b = self.layout.neighbor(a, d).unwrap();
            assert(!self.stack.contains(a));
            assert(self.visited.contains(b));
            self.lemma_flood(b, p);
        }
    }

    /// Once the walk is over it has entered every cell of the grid, the start too.
    pub proof fn lemma_done_visited(self, p: Position)
        requires
            self.inv(),
            self.done(),
            self.layout.contains(p),
        ensures
            self.visited.contains(p),
    {
        let start = self.layout.start;
        let d = if start.x + 1 < self.layout.width {
            Direction::East
        } else {
            Direction::West
        };
        self.layout.lemma_sides();
        assert(self.layout.neighbor(start, d).is_some());
        assert(!self.stack.contains(start));
        let a = self.layout.neighbor(start, d).unwrap();
        assert(self.visited.contains(a));
        self.lemma_flood(a, p);
    }

    /// A walk that is over leaves a maze in which every cell can be reached
    /// from the start, every door has its counterpart, and the two breaches
    /// are the only openings to the outside.
    pub proof fn lemma_done_spanning(self)
        requires
            self.inv(),
            self.done(),
        ensures
            self.layout.wf(),
            self.layout.spanning(),
            self.layout.reciprocal(),
            self.layout.breached(),
            self.layout.sealed(),
    {
        assert forall|p: Position| self.layout.contains(p) implies #[trigger] self.layout.connected(
            self.layout.start,
            p,
        ) by {
            self.lemma_done_visited(p);
        }
    }

    /// Whether every entry of `orders` is a complete order.
    pub open spec fn complete(orders: Seq<Seq<Direction>>) -> bool {
        forall|i: int| 0 <= i < orders.len() ==> Direction::complete(#[trigger] orders[i])
    }

    /// A walk begins with two moves left for every cell and one more, and is
    /// over when none is left: it enters every cell once, the start too, and
    /// leaves every cell once, the start twice.
    pub proof fn lemma_fuel_ends(self, blank: Layout)
        requires
            blank.pristine(),
            self.inv(),
        ensures
            CarveState::initial(blank).fuel() == 2 * (blank.height * blank.width) + 1,
            self.done() ==> self.fuel() == 0,
    {
        blank.lemma_opened_wf(blank.start, Direction::North);
        if self.done() {
            assert forall|p: Position| self.visited.contains(p) <==> self.layout.contains(p) by {
                if self.layout.contains(p) {
                    self.lemma_done_visited(p);
                }
            }
            self.layout.lemma_all_cells(self.visited);
        }
    }

    /// The invariant holds after any number of moves.
    pub proof fn lemma_run_inv(self, orders: Seq<Seq<Direction>>)
        requires
            self.inv(),
            CarveState::complete(orders),
        ensures
            self.run(orders).inv(),
        decreases orders.len(),
    {
        if orders.len() > 0 {
            self.lemma_run_inv(orders.drop_last());
            self.run(orders.drop_last()).lemma_next_inv(orders.last());
        }
    }

    /// One more move at the end of a run.
    pub proof fn lemma_run_push(self, orders: Seq<Seq<Direction>>, order: Seq<Direction>)
        ensures
            self.run(orders.push(order)) == self.run(orders).next(order),
    {
        assert(orders.push(order).drop_last() =~= orders);
    }
}

} // verus!
