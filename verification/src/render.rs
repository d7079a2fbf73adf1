//! The maze as text: a solid block for every wall, a space for every passage.

use vstd::prelude::*;
use vstd::string::StringExecFns;
use crate::grid::{Direction, Position};
use crate::layout::Layout;
use crate::maze::Maze;

verus! {

/// The character that stands for a wall.
pub open spec fn wall() -> char {
    '█'
}

/// The character drawn where a wall may stand: a space if it was taken down.
pub open spec fn glyph(open: bool) -> char {
    if open {
        ' '
    } else {
        wall()
    }
}

impl Layout {
    /// The line above the grid: a wall post before each column, then that
    /// column's northern wall, and a closing post. Every line is `2 * width + 1`
    /// characters and a line feed.
    pub open spec fn top_row(self) -> Seq<char> {
        Seq::new(
            2 * self.width + 2,
            |c: int|
                if c == 2 * self.width + 1 {
                    '\n'
                } else if c % 2 == 0 {
                    wall()
                } else {
                    glyph(self.open(Position { x: (c / 2) as usize, y: 0 }, Direction::North))
                },
        )
    }

    /// The line through the cells of row `y`: each cell's western wall, then
    /// the cell itself, which is always free, and a closing wall.
    pub open spec fn passage_row(self, y: int) -> Seq<char> {
        Seq::new(
            2 * self.width + 2,
            |c: int|
                if c == 2 * self.width + 1 {
                    '\n'
                } else if c == 2 * self.width {
                    wall()
                } else if c % 2 == 0 {
                    glyph(self.open(Position { x: (c / 2) as usize, y: y as usize }, Direction::West))
                } else {
                    ' '
                },
        )
    }

    /// The line below the cells of row `y`: a wall post before each column,
    /// then that cell's southern wall, and a closing post.
    pub open spec fn wall_row(self, y: int) -> Seq<char> {
        Seq::new(
            2 * self.width + 2,
            |c: int|
                if c == 2 * self.width + 1 {
                    '\n'
                } else if c % 2 == 0 {
                    wall()
                } else {
                    glyph(self.open(Position { x: (c / 2) as usize, y: y as usize }, Direction::South))
                },
        )
    }

    /// The top line followed by the two lines of each of the first `n` rows.
    pub open spec fn rows(self, n: nat) -> Seq<char>
        decreases n,
    {
        if n == 0 {
            self.top_row()
        } else {
            self.rows((n - 1) as nat) + self.passage_row(n - 1) + self.wall_row(n - 1)
        }
    }

    /// The whole maze as text: `2 * height + 1` lines.
    pub open spec fn text(self) -> Seq<char> {
        self.rows(self.height)
    }
}

impl Maze {
    /// Appends the character for a wall that may have been taken down.
    fn draw(text: &mut String, open: bool)
        ensures
            final(text)@ == old(text)@.push(glyph(open)),
    {
        proof {
            reveal_strlit(" ");
            reveal_strlit("█");
        }
        if open {
            text.append(" ");
        } else {
            text.append("█");
        }
        assert(final(text)@ =~= old(text)@.push(glyph(open)));
    }

    /// Appends the closing wall of a line and the line feed.
    fn close(text: &mut String)
        ensures
            final(text)@ == old(text)@.push(wall()).push('\n'),
    {
        proof {
            reveal_strlit("█\n");
        }
        text.append("█\n");
        assert(final(text)@ =~= old(text)@.push(wall()).push('\n'));
    }

    /// The maze drawn as text.
    pub fn as_string(&self) -> (text: String)
        ensures
            text@ == self@.text(),
    {
        proof {
            use_type_invariant(self);
            self.lemma_inv();
            self@.lemma_sides();
        }
        let width = self.width();
        let height = self.height();
        let mut text = String::new();
        let ghost top = self@.top_row();
        let mut x: usize = 0;
        while x < width
            invariant
                x <= width,
                width == self@.width,
                self@.wf(),
                top == self@.top_row(),
                text@ == top.take(2 * x),
            decreases width - x,
        {
            let cell = self.at(x, 0);
            Self::draw(&mut text, false);
            Self::draw(&mut text, cell.has_opening(Direction::North));
            assert(text@ =~= top.take(2 * (x + 1)));
            x += 1;
        }
        Self::close(&mut text);
        assert(text@ =~= self@.rows(0));
        let mut y: usize = 0;
        while y < height
            invariant
                y <= height,
                width == self@.width,
                height == self@.height,
                self@.wf(),
                text@ == self@.rows(y as nat),
            decreases height - y,
        {
            let ghost done = text@;
            let ghost passage = self@.passage_row(y as int);
            let mut x: usize = 0;
            while x < width
                invariant
                    x <= width,
                    y < height,
                    width == self@.width,
                    height == self@.height,
                    self@.wf(),
                    passage == self@.passage_row(y as int),
                    text@ == done + passage.take(2 * x),
                decreases width - x,
            {
                let cell = self.at(x, y);
                Self::draw(&mut text, cell.has_opening(Direction::West));
                Self::draw(&mut text, true);
                assert(text@ =~= done + passage.take(2 * (x + 1)));
                x += 1;
            }
            Self::close(&mut text);
            assert(text@ =~= done + passage);
            let ghost done = text@;
            let ghost south = self@.wall_row(y as int);
            let mut x: usize = 0;
            while x < width
                invariant
                    x <= width,
                    y < height,
                    width == self@.width,
                    height == self@.height,
                    self@.wf(),
                    south == self@.wall_row(y as int),
                    text@ == done + south.take(2 * x),
                decreases width - x,
            {
                let cell = self.at(x, y);
                Self::draw(&mut text, false);
                Self::draw(&mut text, cell.has_opening(Direction::South));
                assert(text@ =~= done + south.take(2 * (x + 1)));
                x += 1;
            }
            Self::close(&mut text);
            assert(text@ =~= done + south);
            y += 1;
        }
        text
    }
}

} // verus!
