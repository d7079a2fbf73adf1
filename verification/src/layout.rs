//! The mathematical model of a maze: a rectangular grid of cells with a start
//! and a finish, and the graph that its openings form.

use vstd::prelude::*;
use vstd::relations::injective_on;
use vstd::set_lib::{lemma_int_range, lemma_len_subset, lemma_map_size, set_int_range};
use crate::grid::{Cell, Direction, Position};

verus! {

/// What a maze is, apart from how it is stored: its size, its cells in
/// row-major order, and the two cells where it is entered and left.
pub struct Layout {
    pub height: nat,
    pub width: nat,
    pub start: Position,
    pub finish: Position,
    pub cells: Seq<Cell>,
}

impl Layout {
    /// The structural invariant: at least two rows and two columns, one cell
    /// per coordinate and no more cells than a machine can count, the start on
    /// the top row and the finish on the bottom row.
    pub open spec fn wf(self) -> bool {
        &&& self.height >= 2
        &&& self.width >= 2
        &&& self.height * self.width <= usize::MAX
        &&& self.cells.len() == self.height * self.width
        &&& self.start.y == 0
        &&& self.start.x < self.width
        &&& self.finish.y == self.height - 1
        &&& self.finish.x < self.width
    }

    /// Whether `p` lies inside the grid.
    pub open spec fn contains(self, p: Position) -> bool {
        p.x < self.width && p.y < self.height
    }

    /// The row-major index of `p`.
    pub open spec fn index(self, p: Position) -> int {
        p.y * self.width + p.x
    }

    pub open spec fn cell(self, p: Position) -> Cell {
        self.cells[self.index(p)]
    }

    /// The cell next to `p` in direction `d`, if the grid has one.
    pub open spec fn neighbor(self, p: Position, d: Direction) -> Option<Position> {
        d.shift(p, self.height as int, self.width as int)
    }

    /// Whether the cell at `p` is open towards `d`.
    pub open spec fn open(self, p: Position, d: Direction) -> bool {
        self.cell(p).has(d)
    }

    /// A door is an opening of a cell of the grid that leads to another cell
    /// of the grid.
    pub open spec fn door(self, p: Position, d: Direction) -> bool {
        self.contains(p) && self.open(p, d) && self.neighbor(p, d).is_some()
    }

    /// Whether the door of `p` towards `d` exists and leads to `q`.
    pub open spec fn leads(self, p: Position, d: Direction, q: Position) -> bool {
        self.door(p, d) && self.neighbor(p, d) == Some(q)
    }

    /// Whether some door of `p` leads to `q`.
    pub open spec fn linked(self, p: Position, q: Position) -> bool {
        ||| self.leads(p, Direction::North, q)
        ||| self.leads(p, Direction::South, q)
        ||| self.leads(p, Direction::East, q)
        ||| self.leads(p, Direction::West, q)
    }

    /// Whether a door leads from the cell at index `i` of `path` to the next.
    pub open spec fn hop(self, path: Seq<Position>, i: int) -> bool {
        self.linked(path[i], path[i + 1])
    }

    /// A route is a non-empty walk through doors that begins inside the grid.
    pub open spec fn route(self, path: Seq<Position>) -> bool {
        &&& path.len() >= 1
        &&& self.contains(path[0])
        &&& forall|i: int| 0 <= i < path.len() - 1 ==> #[trigger] self.hop(path, i)
    }

    /// Whether a route leads from `a` to `b`.
    pub open spec fn connected(self, a: Position, b: Position) -> bool {
        exists|path: Seq<Position>| self.joins(path, a, b)
    }

    /// Whether `path` is a route from `a` to `b`.
    pub open spec fn joins(self, path: Seq<Position>, a: Position, b: Position) -> bool {
        self.route(path) && path[0] == a && path.last() == b
    }

    /// Every cell of the grid can be reached from the start.
    pub open spec fn spanning(self) -> bool {
        forall|p: Position| self.contains(p) ==> #[trigger] self.connected(self.start, p)
    }

    /// Every door has its counterpart on the other side.
    pub open spec fn reciprocal(self) -> bool {
        forall|p: Position, d: Direction| #[trigger]
            self.door(p, d) ==> self.open(self.neighbor(p, d).unwrap(), d.inverse())
    }

    /// The start is open to the north and the finish to the south, both to
    /// the outside of the grid.
    pub open spec fn breached(self) -> bool {
        &&& self.open(self.start, Direction::North)
        &&& self.neighbor(self.start, Direction::North).is_none()
        &&& self.open(self.finish, Direction::South)
        &&& self.neighbor(self.finish, Direction::South).is_none()
    }

    /// Whether the opening of `p` towards `d` is one of the two breaches.
    pub open spec fn is_breach(self, p: Position, d: Direction) -> bool {
        (p == self.start && d == Direction::North) || (p == self.finish && d == Direction::South)
    }

    /// No opening but the two breaches leads out of the grid.
    pub open spec fn sealed(self) -> bool {
        forall|p: Position, d: Direction|
            self.contains(p) && #[trigger] self.open(p, d) && self.neighbor(p, d).is_none()
                ==> self.is_breach(p, d)
    }

    /// The grid of the given size with every wall standing.
    pub open spec fn blank(height: nat, width: nat, start: Position, finish: Position) -> Layout {
        Layout {
            height,
            width,
            start,
            finish,
            cells: Seq::new(height * width, |i: int| Cell::walled()),
        }
    }

    /// The layout with the wall of `p` towards `d` taken down.
    pub open spec fn opened(self, p: Position, d: Direction) -> Layout {
        Layout { cells: self.cells.update(self.index(p), self.cell(p).opened(d)), ..self }
    }

    /// Inside the grid the row-major index is a bijection onto `0 .. height * width`.
    pub proof fn lemma_index(self, p: Position)
        requires
            self.contains(p),
        ensures
            0 <= self.index(p) < self.height * self.width,
    {
        assert(p.y * self.width + p.x < self.height * self.width) by (nonlinear_arith)
            requires
                p.x < self.width,
                p.y < self.height,
        ;
        assert(0 <= p.y * self.width) by (nonlinear_arith);
    }

    pub proof fn lemma_index_injective(self, p: Position, q: Position)
        requires
            self.contains(p),
            self.contains(q),
            self.index(p) == self.index(q),
        ensures
            p == q,
    {
        assert(p.y == q.y) by (nonlinear_arith)
            requires
                p.x < self.width,
                q.x < self.width,
                p.y * self.width + p.x == q.y * self.width + q.x,
        ;
        assert(p.x == q.x) by (nonlinear_arith)
            requires
                p.y == q.y,
                p.y * self.width + p.x == q.y * self.width + q.x,
        ;
    }

    /// A neighbor of a cell of the grid is a cell of the grid, and stepping
    /// back from it returns to where one came from.
    pub proof fn lemma_neighbor(self, p: Position, d: Direction)
        requires
            self.wf(),
            self.contains(p),
            self.neighbor(p, d).is_some(),
        ensures
            self.contains(self.neighbor(p, d).unwrap()),
            self.neighbor(p, d).unwrap() != p,
            self.neighbor(self.neighbor(p, d).unwrap(), d.inverse()) == Some(p),
    {
        self.lemma_sides();
    }

    /// Neither side of the grid is longer than a machine can count.
    pub proof fn lemma_sides(self)
        requires
            self.wf(),
        ensures
            self.height <= usize::MAX,
            self.width <= usize::MAX,
    {
        assert(self.height <= self.height * self.width && self.width <= self.height * self.width)
            by (nonlinear_arith)
            requires
                self.height >= 2,
                self.width >= 2,
        ;
    }

    /// Taking down a wall leaves the structure of the grid as it was.
    pub proof fn lemma_opened_wf(self, p: Position, d: Direction)
        requires
            self.wf(),
            self.contains(p),
        ensures
            self.opened(p, d).wf(),
    {
        self.lemma_index(p);
    }

    /// What taking down one wall changes: that opening, and nothing else.
    pub proof fn lemma_opened(self, p: Position, d: Direction, q: Position, e: Direction)
        requires
            self.cells.len() == self.height * self.width,
            self.contains(p),
            self.contains(q),
        ensures
            self.opened(p, d).open(q, e) == ((q == p && e == d) || self.open(q, e)),
    {
        broadcast use Cell::lemma_opened;
        self.lemma_index(p);
        self.lemma_index(q);
        if self.index(p) == self.index(q) {
            self.lemma_index_injective(p, q);
        }
    }

    /// Taking down a wall that is down already changes nothing.
    pub proof fn lemma_opened_again(self, p: Position, d: Direction)
        requires
            self.wf(),
            self.contains(p),
            self.open(p, d),
        ensures
            self.opened(p, d) == self,
    {
        broadcast use Cell::lemma_opened;

        self.lemma_index(p);
        assert(self.cell(p).opened(d) == self.cell(p)) by {
            Cell::lemma_extensional(self.cell(p).opened(d), self.cell(p));
        }
        assert(self.opened(p, d).cells =~= self.cells);
    }

    /// Every wall stands.
    pub open spec fn pristine(self) -> bool {
        &&& self.wf()
        &&& forall|p: Position, d: Direction| self.contains(p) ==> !#[trigger] self.open(p, d)
    }

    /// The grid with every wall standing is pristine.
    pub proof fn lemma_blank_pristine(height: nat, width: nat, start: Position, finish: Position)
        requires
            height >= 2,
            width >= 2,
            height * width <= usize::MAX,
            start.x < width,
            start.y == 0,
            finish.x < width,
            finish.y == height - 1,
        ensures
            Layout::blank(height, width, start, finish).pristine(),
    {
        broadcast use Cell::lemma_walled;

        let blank = Layout::blank(height, width, start, finish);
        assert forall|p: Position, d: Direction| blank.contains(p) implies !#[trigger] blank.open(
            p,
            d,
        ) by {
            blank.lemma_index(p);
        }
    }

    /// A finite set of cells of the grid has at most `height * width` members.
    pub proof fn lemma_capacity(self, cells: Set<Position>)
        requires
            self.wf(),
            cells.finite(),
            forall|p: Position| cells.contains(p) ==> self.contains(p),
        ensures
            cells.len() <= self.height * self.width,
    {
        let index = |p: Position| self.index(p);
        let indices = cells.map(index);
        assert(injective_on(index, cells)) by {
            assert forall|p: Position, q: Position|
                cells.contains(p) && cells.contains(q) && #[trigger] index(p) == #[trigger] index(
                    q,
                ) implies p == q by {
                self.lemma_index_injective(p, q);
            }
        }
        lemma_map_size(cells, indices, index);
        let range = set_int_range(0, (self.height * self.width) as int);
        lemma_int_range(0, (self.height * self.width) as int);
        assert(indices.subset_of(range)) by {
            assert forall|i: int| indices.contains(i) implies range.contains(i) by {
                let p = choose|p: Position| cells.contains(p) && index(p) == i;
                self.lemma_index(p);
            }
        }
        lemma_len_subset(indices, range);
    }

    /// The cells of the grid are `height * width` in number.
    pub proof fn lemma_all_cells(self, cells: Set<Position>)
        requires
            self.wf(),
            cells.finite(),
            forall|p: Position| cells.contains(p) <==> self.contains(p),
        ensures
            cells.len() == self.height * self.width,
    {
        let index = |p: Position| self.index(p);
        let indices = cells.map(index);
        let total = (self.height * self.width) as int;
        let width = self.width as int;
        assert(injective_on(index, cells)) by {
            assert forall|p: Position, q: Position|
                cells.contains(p) && cells.contains(q) && #[trigger] index(p) == #[trigger] index(
                    q,
                ) implies p == q by {
                self.lemma_index_injective(p, q);
            }
        }
        lemma_map_size(cells, indices, index);
        let range = set_int_range(0, total);
        lemma_int_range(0, total);
        self.lemma_sides();
        assert forall|i: int| indices.contains(i) <==> range.contains(i) by {
            if indices.contains(i) {
                let p = choose|p: Position| cells.contains(p) && index(p) == i;
                self.lemma_index(p);
            }
            if range.contains(i) {
                vstd::arithmetic::div_mod::lemma_fundamental_div_mod(i, width);
                vstd::arithmetic::div_mod::lemma_mod_bound(i, width);
                vstd::arithmetic::div_mod::lemma_div_pos_is_pos(i, width);
                assert(i / width < self.height) by (nonlinear_arith)
                    requires
                        0 <= i < self.height * width,
                        width > 0,
                        i == width * (i / width) + i % width,
                        0 <= i % width,
                ;
                let p = Position { x: (i % width) as usize, y: (i / width) as usize };
                assert(self.index(p) == i) by (nonlinear_arith)
                    requires
                        self.index(p) == p.y * width + p.x,
                        p.x == i % width,
                        p.y == i / width,
                        i == width * (i / width) + i % width,
                ;
                assert(cells.contains(p));
                assert(index(p) == i);
            }
        }
        assert(indices =~= range);
    }

    /// Taking down a wall keeps every route.
    pub proof fn lemma_opened_route(self, p: Position, d: Direction, path: Seq<Position>)
        requires
            self.wf(),
            self.contains(p),
            self.route(path),
        ensures
            self.opened(p, d).route(path),
    {
        let after = self.opened(p, d);
        self.lemma_route_inside(path);
        assert forall|i: int| 0 <= i < path.len() - 1 implies #[trigger] after.hop(path, i) by {
            let a = path[i];
            assert(self.hop(path, i));
            self.lemma_opened(p, d, a, Direction::North);
            self.lemma_opened(p, d, a, Direction::South);
            self.lemma_opened(p, d, a, Direction::East);
            self.lemma_opened(p, d, a, Direction::West);
        }
    }

    /// A route never leaves the grid.
    pub proof fn lemma_route_inside(self, path: Seq<Position>)
        requires
            self.wf(),
            self.route(path),
        ensures
            forall|i: int| 0 <= i < path.len() ==> self.contains(#[trigger] path[i]),
        decreases path.len(),
    {
        if path.len() > 1 {
            let front = path.drop_last();
            assert(self.route(front)) by {
                assert forall|i: int| 0 <= i < front.len() - 1 implies #[trigger] self.hop(front, i) by {
                    assert(self.hop(path, i));
                }
            }
            self.lemma_route_inside(front);
            let a = path[path.len() - 2];
            let b = path.last();
            assert(front[front.len() - 1] == a);
            assert(self.hop(path, path.len() - 2));
            self.lemma_linked_inside(a, b);
            assert forall|i: int| 0 <= i < path.len() implies self.contains(#[trigger] path[i]) by {
                if i < front.len() {
                    assert(front[i] == path[i]);
                }
            }
        }
    }

    /// A door leads to a cell of the grid.
    pub proof fn lemma_linked_inside(self, a: Position, b: Position)
        requires
            self.wf(),
            self.linked(a, b),
        ensures
            self.contains(a),
            self.contains(b),
    {
        if self.leads(a, Direction::North, b) {
            self.lemma_neighbor(a, Direction::North);
        } else if self.leads(a, Direction::South, b) {
            self.lemma_neighbor(a, Direction::South);
        } else if self.leads(a, Direction::East, b) {
            self.lemma_neighbor(a, Direction::East);
        } else {
            self.lemma_neighbor(a, Direction::West);
        }
    }

    /// A route that is continued through one more door is a route.
    pub proof fn lemma_route_push(self, path: Seq<Position>, b: Position)
        requires
            self.route(path),
            self.linked(path.last(), b),
        ensures
            self.route(path.push(b)),
    {
        let longer = path.push(b);
        assert forall|i: int| 0 <= i < longer.len() - 1 implies #[trigger] self.hop(longer, i) by {
            if i < path.len() - 1 {
                assert(self.hop(path, i));
            }
        }
    }
}

} // verus!
