use vstd::prelude::*;

use crate::location::{Loc, LocGenerator, Localisable, Way};

verus! {

/// A cursor that moves freely between adjacent cells of a grid,
/// checked against the grid's borders.
pub struct OrthoFreeWalk {
    locgen: LocGenerator,
    column: usize,
    line: usize,
}

impl OrthoFreeWalk {
    pub closed spec fn spec_column(&self) -> usize {
        self.column
    }

    pub closed spec fn spec_line(&self) -> usize {
        self.line
    }

    pub closed spec fn spec_columns(&self) -> usize {
        self.locgen.spec_columns()
    }

    pub closed spec fn spec_lines(&self) -> usize {
        self.locgen.spec_lines()
    }

    /// The cursor always stands on a cell of a non-empty grid.
    pub open spec fn wf(&self) -> bool {
        &&& 1 <= self.spec_columns()
        &&& 1 <= self.spec_lines()
        &&& (self.spec_columns() as int) * (self.spec_lines() as int) <= usize::MAX
        &&& self.spec_column() < self.spec_columns()
        &&& self.spec_line() < self.spec_lines()
    }

    pub fn new(locgen: LocGenerator) -> (w: OrthoFreeWalk)
        requires
            1 <= locgen.spec_columns(),
            1 <= locgen.spec_lines(),
            (locgen.spec_columns() as int) * (locgen.spec_lines() as int) <= usize::MAX,
        ensures
            w.wf(),
            w.spec_column() == 0,
            w.spec_line() == 0,
            w.spec_columns() == locgen.spec_columns(),
            w.spec_lines() == locgen.spec_lines(),
    {
        OrthoFreeWalk { column: 0, line: 0, locgen }
    }

    #[verifier::when_used_as_spec(spec_column)]
    pub fn column(&self) -> (c: usize)
        ensures
            c == self.spec_column(),
    {
        self.column
    }

    #[verifier::when_used_as_spec(spec_line)]
    pub fn line(&self) -> (l: usize)
        ensures
            l == self.spec_line(),
    {
        self.line
    }

    /// Whether one step in `direction` stays inside the grid.
    pub open spec fn spec_can_move(&self, direction: Way) -> bool {
        match direction {
            Way::Up => self.spec_line() > 0,
            Way::Down => self.spec_line() + 1 < self.spec_lines(),
            Way::Left => self.spec_column() > 0,
            Way::Right => self.spec_column() + 1 < self.spec_columns(),
        }
    }

    pub fn can_move(&self, direction: Way) -> (b: bool)
        requires
            self.wf(),
        ensures
            b == self.spec_can_move(direction),
    {
        let floor = self.locgen.lines() - 1;
        let wall = self.locgen.columns() - 1;
        (direction == Way::Up && self.line > 0) || (direction == Way::Down && self.line < floor)
            || (direction == Way::Left && self.column > 0) || (direction == Way::Right
            && self.column < wall)
    }

    pub fn step_to(&mut self, direction: Way)
        requires
            old(self).wf(),
            old(self).spec_can_move(direction),
        ensures
            final(self).wf(),
            final(self).spec_columns() == old(self).spec_columns(),
            final(self).spec_lines() == old(self).spec_lines(),
            match direction {
                Way::Up => final(self).spec_column() == old(self).spec_column() && final(self).spec_line() == old(self).spec_line() - 1,
                Way::Down => final(self).spec_column() == old(self).spec_column() && final(self).spec_line() == old(self).spec_line() + 1,
                Way::Left => final(self).spec_column() == old(self).spec_column() - 1 && final(self).spec_line() == old(self).spec_line(),
                Way::Right => final(self).spec_column() == old(self).spec_column() + 1 && final(self).spec_line() == old(self).spec_line(),
            },
    {
        match direction {
            Way::Up => self.line = self.line - 1,
            Way::Down => self.line = self.line + 1,
            Way::Left => self.column = self.column - 1,
            Way::Right => self.column = self.column + 1,
        }
    }

    pub fn spawn_at(&mut self, column: usize, line: usize)
        requires
            old(self).wf(),
            column < old(self).spec_columns(),
            line < old(self).spec_lines(),
        ensures
            final(self).wf(),
            final(self).spec_columns() == old(self).spec_columns(),
            final(self).spec_lines() == old(self).spec_lines(),
            final(self).spec_column() == column,
            final(self).spec_line() == line,
    {
        self.column = column;
        self.line = line;
    }
}

impl Localisable for OrthoFreeWalk {
    open spec fn can_locate(&self) -> bool {
        self.wf()
    }

    fn to_loc(&self) -> Loc {
        proof {
            crate::grid::lemma_slot_in_bounds(
                self.spec_columns() as int,
                self.spec_lines() as int,
                self.spec_column() as int,
                self.spec_line() as int,
            );
        }
        self.locgen.create_from_coordinates(self.column, self.line)
    }
}

} // verus!
