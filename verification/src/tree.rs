//! When the doors of a maze form a tree: between any two cells there is then
//! exactly one route that passes no cell twice, and no route runs in a circle.

use vstd::prelude::*;
use crate::grid::{Direction, Position};
use crate::layout::Layout;

verus! {

impl Layout {
    /// A simple route passes no cell twice.
    pub open spec fn simple(self, path: Seq<Position>) -> bool {
        self.route(path) && path.no_duplicates()
    }

    /// Whether a simple route leads from `a` to `b`.
    pub open spec fn simply_connected(self, a: Position, b: Position) -> bool {
        exists|path: Seq<Position>| self.simple(path) && path[0] == a && path.last() == b
    }

    /// A maze is perfect if exactly one simple route leads from any cell to
    /// any other.
    pub open spec fn perfect(self) -> bool {
        &&& forall|a: Position, b: Position|
            self.contains(a) && self.contains(b) ==> #[trigger] self.simply_connected(a, b)
        &&& forall|p: Seq<Position>, q: Seq<Position>|
            #[trigger] self.simple(p) && #[trigger] self.simple(q) && p[0] == q[0] && p.last()
                == q.last() ==> p == q
    }

    /// The passages of the maze, each named once: by the cell north or west
    /// of it and the direction, south or east, in which it leaves that cell.
    pub open spec fn passages(self) -> Set<(Position, Direction)> {
        Set::new(
            |e: (Position, Direction)|
                self.door(e.0, e.1) && (e.1 == Direction::South || e.1 == Direction::East),
        )
    }

    /// A perfect maze is a tree: it has one passage fewer than it has cells.
    pub open spec fn tree_sized(self) -> bool {
        self.passages().finite() && self.passages().len() == self.height * self.width - 1
    }

    /// A circle is a route of three cells or more that passes none of them
    /// twice and then returns to the first.
    pub open spec fn circle(self, path: Seq<Position>) -> bool {
        &&& self.route(path)
        &&& path.len() >= 4
        &&& path[0] == path.last()
        &&& path.drop_last().no_duplicates()
    }

    /// No route runs in a circle.
    pub open spec fn acyclic(self) -> bool {
        forall|path: Seq<Position>| !self.circle(path)
    }

    /// A grading gives every cell a height such that a door never joins two
    /// cells of the same height and no cell has two doors that lead down.
    pub open spec fn graded(self, rank: spec_fn(Position) -> int) -> bool {
        &&& forall|p: Position, d: Direction| #[trigger]
            self.door(p, d) ==> rank(self.neighbor(p, d).unwrap()) != rank(p)
        &&& forall|p: Position, d: Direction, e: Direction|
            #[trigger] self.door(p, d) && #[trigger] self.door(p, e) && rank(
                self.neighbor(p, d).unwrap(),
            ) < rank(p) && rank(self.neighbor(p, e).unwrap()) < rank(p) ==> d == e
    }

    /// The direction of a door of `a` that leads to `b`.
    pub open spec fn way(self, a: Position, b: Position) -> Direction {
        if self.leads(a, Direction::North, b) {
            Direction::North
        } else if self.leads(a, Direction::South, b) {
            Direction::South
        } else if self.leads(a, Direction::East, b) {
            Direction::East
        } else {
            Direction::West
        }
    }

    /// In a maze whose doors come in pairs, a door can be passed both ways.
    pub proof fn lemma_linked_back(self, a: Position, b: Position)
        requires
            self.wf(),
            self.reciprocal(),
            self.linked(a, b),
        ensures
            self.linked(b, a),
    {
        let d = self.way(a, b);
        self.lemma_neighbor(a, d);
        assert(self.door(a, d));
        assert(self.leads(b, d.inverse(), a));
    }

    /// Linked cells differ in height.
    pub proof fn lemma_linked_ranks(self, rank: spec_fn(Position) -> int, a: Position, b: Position)
        requires
            self.graded(rank),
            self.linked(a, b),
        ensures
            rank(a) != rank(b),
    {
        assert(self.door(a, self.way(a, b)));
    }

    /// A cell is linked to at most one cell below it.
    pub proof fn lemma_down_unique(
        self,
        rank: spec_fn(Position) -> int,
        a: Position,
        b: Position,
        c: Position,
    )
        requires
            self.graded(rank),
            self.linked(a, b),
            self.linked(a, c),
            rank(b) < rank(a),
            rank(c) < rank(a),
        ensures
            b == c,
    {
        assert(self.door(a, self.way(a, b)));
        assert(self.door(a, self.way(a, c)));
    }

    /// What is left of a simple route without its first cell, or without its
    /// last, is a simple route.
    pub proof fn lemma_simple_parts(self, path: Seq<Position>)
        requires
            self.wf(),
            self.simple(path),
            path.len() >= 2,
        ensures
            self.simple(path.skip(1)),
            self.simple(path.drop_last()),
    {
        self.lemma_route_inside(path);
        let tail = path.skip(1);
        let front = path.drop_last();
        assert(self.contains(path[1]));
        assert forall|i: int| 0 <= i < tail.len() - 1 implies #[trigger] self.hop(tail, i) by {
            assert(self.hop(path, i + 1));
        }
        assert forall|i: int| 0 <= i < front.len() - 1 implies #[trigger] self.hop(front, i) by {
            assert(self.hop(path, i));
        }
        assert forall|i: int, j: int|
            0 <= i < tail.len() && 0 <= j < tail.len() && i != j implies tail[i] != tail[j] by {
            assert(path[i + 1] != path[j + 1]);
        }
        assert forall|i: int, j: int|
            0 <= i < front.len() && 0 <= j < front.len() && i != j implies front[i] != front[j] by {
            assert(path[i] != path[j]);
        }
    }

    /// On a simple route through a graded maze, a step up is followed by
    /// steps up only.
    pub proof fn lemma_ascent(self, rank: spec_fn(Position) -> int, path: Seq<Position>, j: int, k: int)
        requires
            self.wf(),
            self.reciprocal(),
            self.graded(rank),
            self.simple(path),
            0 <= j < k < path.len(),
            rank(path[j + 1]) > rank(path[j]),
        ensures
            rank(path[k]) > rank(path[k - 1]),
            rank(path[k]) > rank(path[j]),
        decreases k - j,
    {
        if k > j + 1 {
            self.lemma_ascent(rank, path, j, k - 1);
            let a = path[k - 2];
            let b = path[k - 1];
            let c = path[k];
            assert(self.hop(path, k - 2));
            assert(self.hop(path, k - 1));
            self.lemma_linked_back(a, b);
            self.lemma_linked_ranks(rank, b, c);
            if rank(c) < rank(b) {
                self.lemma_down_unique(rank, b, a, c);
                assert(path[k - 2] != path[k]);
            }
        }
    }

    /// On a simple route through a graded maze, a step down is preceded by
    /// steps down only.
    pub proof fn lemma_descent(self, rank: spec_fn(Position) -> int, path: Seq<Position>, k: int)
        requires
            self.wf(),
            self.reciprocal(),
            self.graded(rank),
            self.simple(path),
            1 <= k < path.len(),
            rank(path[k]) < rank(path[k - 1]),
        ensures
            rank(path[k]) < rank(path[0]),
        decreases k,
    {
        if k > 1 {
            assert(self.hop(path, k - 2));
            self.lemma_linked_ranks(rank, path[k - 2], path[k - 1]);
            if rank(path[k - 1]) > rank(path[k - 2]) {
                self.lemma_ascent(rank, path, k - 2, k);
            }
            self.lemma_descent(rank, path, k - 1);
        }
    }

    /// In a graded maze whose doors come in pairs, two simple routes between
    /// the same two cells are the same route.
    pub proof fn lemma_graded_unique(
        self,
        rank: spec_fn(Position) -> int,
        p: Seq<Position>,
        q: Seq<Position>,
    )
        requires
            self.wf(),
            self.reciprocal(),
            self.graded(rank),
            self.simple(p),
            self.simple(q),
            p[0] == q[0],
            p.last() == q.last(),
        ensures
            p == q,
        decreases p.len(),
    {
        if p.len() == 1 || q.len() == 1 {
            if p.len() > 1 {
                assert(p[0] != p[p.len() - 1]);
            }
            if q.len() > 1 {
                assert(q[0] != q[q.len() - 1]);
            }
            assert(p =~= q);
        } else {
            let a = p[0];
            let b = p.last();
            let m = p.len() - 1;
            let n = q.len() - 1;
            assert(self.hop(p, 0));
            assert(self.hop(q, 0));
            assert(self.hop(p, m - 1));
            assert(self.hop(q, n - 1));
            self.lemma_linked_ranks(rank, a, p[1]);
            self.lemma_linked_ranks(rank, a, q[1]);
            self.lemma_linked_ranks(rank, p[m - 1], b);
            self.lemma_linked_ranks(rank, q[n - 1], b);
            self.lemma_simple_parts(p);
            self.lemma_simple_parts(q);
            if rank(p[1]) < rank(a) && rank(q[1]) < rank(a) {
                self.lemma_down_unique(rank, a, p[1], q[1]);
                self.lemma_graded_unique(rank, p.skip(1), q.skip(1));
                assert(p =~= seq![a] + p.skip(1));
                assert(q =~= seq![a] + q.skip(1));
            } else if rank(p[m - 1]) < rank(b) && rank(q[n - 1]) < rank(b) {
                self.lemma_linked_back(p[m - 1], b);
                self.lemma_linked_back(q[n - 1], b);
                self.lemma_down_unique(rank, b, p[m - 1], q[n - 1]);
                self.lemma_graded_unique(rank, p.drop_last(), q.drop_last());
                assert(p =~= p.drop_last().push(b));
                assert(q =~= q.drop_last().push(b));
            } else if rank(p[1]) > rank(a) {
                self.lemma_ascent(rank, p, 0, m);
                self.lemma_descent(rank, q, n);
            } else {
                self.lemma_ascent(rank, q, 0, n);
                self.lemma_descent(rank, p, m);
            }
        }
    }
}

impl Layout {
    /// In a maze whose doors come in pairs, a route walked backwards is a route.
    pub proof fn lemma_route_reverse(self, path: Seq<Position>)
        requires
            self.wf(),
            self.reciprocal(),
            self.route(path),
        ensures
            self.route(path.reverse()),
            path.reverse()[0] == path.last(),
            path.reverse().last() == path[0],
    {
        let back = path.reverse();
        self.lemma_route_inside(path);
        assert(self.contains(path[path.len() - 1]));
        assert forall|i: int| 0 <= i < back.len() - 1 implies #[trigger] self.hop(back, i) by {
            let k = path.len() - 2 - i;
            assert(self.hop(path, k));
            self.lemma_linked_back(path[k], path[k + 1]);
        }
    }

    /// A route that ends where another begins can be continued by it.
    pub proof fn lemma_route_join(self, p: Seq<Position>, q: Seq<Position>)
        requires
            self.route(p),
            self.route(q),
            p.last() == q[0],
        ensures
            self.route(p + q.skip(1)),
            (p + q.skip(1))[0] == p[0],
            (p + q.skip(1)).last() == q.last(),
    {
        let whole = p + q.skip(1);
        assert forall|i: int| 0 <= i < whole.len() - 1 implies #[trigger] self.hop(whole, i) by {
            if i < p.len() - 1 {
                assert(self.hop(p, i));
            } else {
                let k = i - (p.len() - 1);
                assert(self.hop(q, k));
            }
        }
    }

    /// Every route can be cut short to a simple route between the same cells.
    pub proof fn lemma_route_simplify(self, path: Seq<Position>) -> (short: Seq<Position>)
        requires
            self.wf(),
            self.route(path),
        ensures
            self.simple(short),
            short[0] == path[0],
            short.last() == path.last(),
        decreases path.len(),
    {
        if path.no_duplicates() {
            path
        } else {
            let (i, j) = choose|i: int, j: int|
                0 <= i < path.len() && 0 <= j < path.len() && i != j && path[i] == path[j];
            let (lo, hi) = if i < j {
                (i, j)
            } else {
                (j, i)
            };
            let cut = path.take(lo) + path.skip(hi);
            self.lemma_route_inside(path);
            assert(self.contains(cut[0])) by {
                if lo == 0 {
                    assert(cut[0] == path[hi]);
                } else {
                    assert(cut[0] == path[0]);
                }
            }
            assert forall|k: int| 0 <= k < cut.len() - 1 implies #[trigger] self.hop(cut, k) by {
                if k < lo - 1 {
                    assert(self.hop(path, k));
                } else if k == lo - 1 {
                    assert(self.hop(path, k));
                    assert(cut[k + 1] == path[hi]);
                } else {
                    let m = k - lo + hi;
                    assert(self.hop(path, m));
                }
            }
            assert(cut.last() == path.last());
            self.lemma_route_simplify(cut)
        }
    }

    /// In a maze whose doors come in pairs and in which every cell can be
    /// reached from the start, a simple route leads from any cell to any other.
    pub proof fn lemma_simply_connected(self, a: Position, b: Position)
        requires
            self.wf(),
            self.reciprocal(),
            self.spanning(),
            self.contains(a),
            self.contains(b),
        ensures
            self.simply_connected(a, b),
    {
        assert(self.connected(self.start, a));
        assert(self.connected(self.start, b));
        let to_a = choose|path: Seq<Position>| self.joins(path, self.start, a);
        let to_b = choose|path: Seq<Position>| self.joins(path, self.start, b);
        self.lemma_route_reverse(to_a);
        self.lemma_route_join(to_a.reverse(), to_b);
        let short = self.lemma_route_simplify(to_a.reverse() + to_b.skip(1));
        assert(self.simple(short) && short[0] == a && short.last() == b);
    }

    /// A graded maze whose doors come in pairs and in which every cell can be
    /// reached from the start is perfect.
    pub proof fn lemma_graded_perfect(self, rank: spec_fn(Position) -> int)
        requires
            self.wf(),
            self.reciprocal(),
            self.spanning(),
            self.graded(rank),
        ensures
            self.perfect(),
    {
        assert forall|a: Position, b: Position|
            self.contains(a) && self.contains(b) implies #[trigger] self.simply_connected(a, b) by {
            self.lemma_simply_connected(a, b);
        }
        assert forall|p: Seq<Position>, q: Seq<Position>|
            #[trigger] self.simple(p) && #[trigger] self.simple(q) && p[0] == q[0] && p.last()
                == q.last() implies p == q by {
            self.lemma_graded_unique(rank, p, q);
        }
    }

    /// In a perfect maze whose doors come in pairs no route runs in a circle.
    pub proof fn lemma_perfect_acyclic(self)
        requires
            self.wf(),
            self.reciprocal(),
            self.perfect(),
        ensures
            self.acyclic(),
    {
        assert forall|path: Seq<Position>| !self.circle(path) by {
            if self.circle(path) {
                let around = path.drop_last();
                let n = around.len() - 1;
                self.lemma_route_inside(path);
                assert(self.route(around)) by {
                    assert forall|i: int| 0 <= i < around.len() - 1 implies #[trigger] self.hop(around, i) by {
                        assert(self.hop(path, i));
                    }
                }
                assert(self.hop(path, n));
                self.lemma_linked_back(path[n], path[0]);
                let across = seq![path[0], path[n]];
                assert(around[0] != around[n]);
                assert(self.simple(across)) by {
                    assert forall|i: int| 0 <= i < across.len() - 1 implies #[trigger] self.hop(across, i) by {
                        assert(across[0] == path[0] && across[1] == path[n]);
                    }
                }
                assert(self.simple(around));
                assert(across[0] == around[0] && across.last() == around.last());
                assert(across.len() != around.len());
            }
        }
    }
}

} // verus!
