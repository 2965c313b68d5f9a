use vstd::prelude::*;

use vstd::string::StringExecFns;

use crate::grid::Address;
use crate::location::Way;
use crate::maze::{advance_right_then_down, OrthoMaze};

verus! {

/// The decimal digit character for `d`.
pub open spec fn dec_digit(d: int) -> char {
    if d == 0 {
        '0'
    } else if d == 1 {
        '1'
    } else if d == 2 {
        '2'
    } else if d == 3 {
        '3'
    } else if d == 4 {
        '4'
    } else if d == 5 {
        '5'
    } else if d == 6 {
        '6'
    } else if d == 7 {
        '7'
    } else if d == 8 {
        '8'
    } else {
        '9'
    }
}

/// The decimal digits of `n`, most significant first.
pub open spec fn dec_str(n: int) -> Seq<char>
    decreases n,
{
    if n < 10 {
        seq![dec_digit(n)]
    } else {
        dec_str(n / 10) + seq![dec_digit(n % 10)]
    }
}

fn digit_str(d: usize) -> (r: &'static str)
    requires
        d < 10,
    ensures
        r@ == seq![dec_digit(d as int)],
{
    proof {
        reveal_strlit("0");
        reveal_strlit("1");
        reveal_strlit("2");
        reveal_strlit("3");
        reveal_strlit("4");
        reveal_strlit("5");
        reveal_strlit("6");
        reveal_strlit("7");
        reveal_strlit("8");
        reveal_strlit("9");
    }
    let r = match d {
        0 => "0",
        1 => "1",
        2 => "2",
        3 => "3",
        4 => "4",
        5 => "5",
        6 => "6",
        7 => "7",
        _ => "8",
    };
    if d == 9 {
        proof {
            assert("9"@ =~= seq![dec_digit(d as int)]);
        }
        return "9";
    }
    proof {
        assert(r@ =~= seq![dec_digit(d as int)]);
    }
    r
}

/// Appends the decimal digits of `n` to `out`.
pub(crate) fn push_dec_digits(n: usize, out: &mut String)
    ensures
        final(out)@ == old(out)@ + dec_str(n as int),
    decreases n,
{
    if n >= 10 {
        push_dec_digits(n / 10, out);
    }
    let d = digit_str(n % 10);
    out.append(d);
    proof {
        if n < 10 {
            assert(n as int % 10 == n as int);
            assert(final(out)@ =~= old(out)@ + dec_str(n as int));
        } else {
            assert(final(out)@ =~= old(out)@ + dec_str(n as int));
        }
    }
}

/// Formats positions for the advisory log surface.
pub struct Logger {
    pub name: &'static str,
}

impl Logger {
    /// The cursor position as `x:y`.
    pub fn format_pos(pos: &Walker) -> (r: String)
        ensures
            r@ == dec_str(pos.spec_x() as int) + seq![':'] + dec_str(pos.spec_y() as int),
    {
        let mut out = String::new();
        push_dec_digits(pos.x(), &mut out);
        proof {
            reveal_strlit(":");
        }
        out.append(":");
        push_dec_digits(pos.y(), &mut out);
        proof {
            assert(":"@ =~= seq![':']);
            assert(out@ =~= dec_str(pos.spec_x() as int) + seq![':'] + dec_str(
                pos.spec_y() as int,
            ));
        }
        out
    }
}

/// What a standalone carving pass reports after one cell.
#[derive(Debug, PartialEq, Eq, Structural)]
pub enum AlgoStatus {
    Done,
    Continuing,
}

/// A bare row-major cursor over a maze, the minimal state a border-rule
/// carving pass needs.
pub struct Walker {
    x: usize,
    y: usize,
}

impl Walker {
    pub closed spec fn spec_x(&self) -> usize {
        self.x
    }

    pub closed spec fn spec_y(&self) -> usize {
        self.y
    }

    pub open spec fn spec_addr(&self) -> Address {
        Address { column: self.spec_x(), line: self.spec_y() }
    }

    pub fn new() -> (w: Walker)
        ensures
            w.spec_x() == 0,
            w.spec_y() == 0,
    {
        Walker { x: 0, y: 0 }
    }

    #[verifier::when_used_as_spec(spec_x)]
    pub fn x(&self) -> (r: usize)
        ensures
            r == self.spec_x(),
    {
        self.x
    }

    #[verifier::when_used_as_spec(spec_y)]
    pub fn y(&self) -> (r: usize)
        ensures
            r == self.spec_y(),
    {
        self.y
    }

    pub fn carve_right(&self, maze: &mut OrthoMaze)
        requires
            old(maze).wf(),
        ensures
            old(maze).same_shape(final(maze)),
            old(maze).carve_allowed(self.spec_x() as int, self.spec_y() as int, Way::Right)
                ==> final(maze).cells() == crate::maze::open_right_at(
                old(maze).cells(),
                old(maze).slot_i(self.spec_x() as int, self.spec_y() as int),
            ),
            !old(maze).carve_allowed(self.spec_x() as int, self.spec_y() as int, Way::Right)
                ==> *final(maze) == *old(maze),
    {
        let addr = Address { column: self.x, line: self.y };
        addr.carve_right(maze);
    }

    pub fn carve_down(&self, maze: &mut OrthoMaze)
        requires
            old(maze).wf(),
        ensures
            old(maze).same_shape(final(maze)),
            old(maze).carve_allowed(self.spec_x() as int, self.spec_y() as int, Way::Down)
                ==> final(maze).cells() == crate::maze::open_down_at(
                old(maze).cells(),
                old(maze).slot_i(self.spec_x() as int, self.spec_y() as int),
            ),
            !old(maze).carve_allowed(self.spec_x() as int, self.spec_y() as int, Way::Down)
                ==> *final(maze) == *old(maze),
    {
        let addr = Address { column: self.x, line: self.y };
        addr.carve_down(maze);
    }

    pub fn mark_active(&self, maze: &mut OrthoMaze)
        requires
            old(maze).wf(),
        ensures
            old(maze).same_shape(final(maze)),
            self.spec_addr().within(*old(maze)) ==> final(maze).cells() == crate::maze::set_active(
                old(maze).cells(),
                self.spec_addr().slot_in(*old(maze)),
                true,
            ),
            !self.spec_addr().within(*old(maze)) ==> *final(maze) == *old(maze),
    {
        let addr = Address { column: self.x, line: self.y };
        addr.mark_active(maze);
    }

    pub fn unmark_active(&self, maze: &mut OrthoMaze)
        requires
            old(maze).wf(),
        ensures
            old(maze).same_shape(final(maze)),
            self.spec_addr().within(*old(maze)) ==> final(maze).cells() == crate::maze::set_active(
                old(maze).cells(),
                self.spec_addr().slot_in(*old(maze)),
                false,
            ),
            !self.spec_addr().within(*old(maze)) ==> *final(maze) == *old(maze),
    {
        let addr = Address { column: self.x, line: self.y };
        addr.unmark_active(maze);
    }

    pub fn mark_current(&self, maze: &mut OrthoMaze)
        requires
            old(maze).wf(),
        ensures
            old(maze).same_shape(final(maze)),
            self.spec_addr().within(*old(maze)) ==> final(maze).cells()
                == crate::maze::set_current(
                old(maze).cells(),
                self.spec_addr().slot_in(*old(maze)),
                true,
            ),
            !self.spec_addr().within(*old(maze)) ==> *final(maze) == *old(maze),
    {
        let addr = Address { column: self.x, line: self.y };
        addr.mark_current(maze);
    }

    pub fn unmark_current(&self, maze: &mut OrthoMaze)
        requires
            old(maze).wf(),
        ensures
            old(maze).same_shape(final(maze)),
            self.spec_addr().within(*old(maze)) ==> final(maze).cells()
                == crate::maze::set_current(
                old(maze).cells(),
                self.spec_addr().slot_in(*old(maze)),
                false,
            ),
            !self.spec_addr().within(*old(maze)) ==> *final(maze) == *old(maze),
    {
        let addr = Address { column: self.x, line: self.y };
        addr.unmark_current(maze);
    }

    pub fn is_on_right_border(&self, maze: &OrthoMaze) -> (b: bool)
        ensures
            b == (self.spec_x() + 1 == maze.spec_columns()),
    {
        let addr = Address { column: self.x, line: self.y };
        addr.is_on_right_border(maze)
    }

    pub fn is_on_down_border(&self, maze: &OrthoMaze) -> (b: bool)
        ensures
            b == (self.spec_y() + 1 == maze.spec_lines()),
    {
        let addr = Address { column: self.x, line: self.y };
        addr.is_on_down_border(maze)
    }

    pub fn move_x(&self, x: usize) -> (w: Walker)
        ensures
            w.spec_x() == x,
            w.spec_y() == self.spec_y(),
    {
        Walker { x, y: self.y }
    }

    pub fn is_done_walking_right_then_down(&self, maze: &OrthoMaze) -> (b: bool)
        ensures
            b == self.spec_addr().spec_done_walking(*maze),
    {
        let addr = Address { column: self.x, line: self.y };
        addr.is_done_walking_right_then_down(maze)
    }

    /// Moves the cursor one row-major step, shifting the `current` mark
    /// with it.
    pub fn walk_right_then_down(&mut self, maze: &mut OrthoMaze)
        requires
            old(maze).wf(),
            old(self).spec_addr().within(*old(maze)),
        ensures
            old(maze).same_shape(final(maze)),
            final(self).spec_addr() == advance_right_then_down(
                old(self).spec_addr(),
                old(maze).spec_columns(),
            ),
            !final(self).spec_addr().spec_done_walking(*old(maze)) ==> final(maze).cells()
                == crate::maze::set_current(
                crate::maze::set_current(
                    old(maze).cells(),
                    old(self).spec_addr().slot_in(*old(maze)),
                    false,
                ),
                final(self).spec_addr().slot_in(*old(maze)),
                true,
            ),
            final(self).spec_addr().spec_done_walking(*old(maze)) ==> final(maze).cells()
                == crate::maze::set_current(
                old(maze).cells(),
                old(self).spec_addr().slot_in(*old(maze)),
                false,
            ),
    {
        let mut addr = Address { column: self.x, line: self.y };
        addr.walk_right_then_down(maze);
        self.x = addr.column;
        self.y = addr.line;
    }
}

} // verus!
