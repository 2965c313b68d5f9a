use vstd::prelude::*;

verus! {

/// A direction of movement between two adjacent cells.
#[derive(Debug, Clone, Copy, PartialEq, Eq, Structural)]
pub enum Way {
    Up,
    Down,
    Left,
    Right,
}

/// A side of the grid.
#[derive(Debug, Clone, Copy, PartialEq, Eq, Structural)]
pub enum Border {
    Top,
    Down,
    Left,
    Right,
}

/// Hands out locations measured against one grid's dimensions.
///
/// The generator holds only the dimensions, never a second reference into
/// the grid: a `Loc` resolves to a cell by going back through the owning
/// grid.
pub struct LocGenerator {
    columns: usize,
    lines: usize,
}

impl LocGenerator {
    pub closed spec fn spec_columns(&self) -> usize {
        self.columns
    }

    pub closed spec fn spec_lines(&self) -> usize {
        self.lines
    }

    pub fn new<T>(grid: &crate::grid::Grid<T>) -> (g: LocGenerator)
        ensures
            g.spec_columns() == grid.spec_columns(),
            g.spec_lines() == grid.spec_lines(),
    {
        LocGenerator { columns: grid.columns(), lines: grid.lines() }
    }

    #[verifier::when_used_as_spec(spec_columns)]
    pub fn columns(&self) -> (c: usize)
        ensures
            c == self.spec_columns(),
    {
        self.columns
    }

    #[verifier::when_used_as_spec(spec_lines)]
    pub fn lines(&self) -> (l: usize)
        ensures
            l == self.spec_lines(),
    {
        self.lines
    }

    pub fn create_from_storage_pos(&self, spos: usize) -> (loc: Loc)
        requires
            self.spec_columns() >= 1,
        ensures
            loc.wf(),
            loc.spec_spos() == spos,
            loc.spec_columns() == self.spec_columns(),
            loc.spec_lines() == self.spec_lines(),
            loc.spec_column() < self.spec_columns(),
            loc.spec_line() == spos as int / self.spec_columns() as int,
    {
        let line = spos / self.columns;
        proof {
            lemma_loc_div_mod(spos as int, self.columns as int);
        }
        let column = spos - line * self.columns;
        Loc { spos, column, line, columns: self.columns, lines: self.lines }
    }

    pub fn create_from_coordinates(&self, column: usize, line: usize) -> (loc: Loc)
        requires
            (line as int) * (self.spec_columns() as int) + (column as int) <= usize::MAX,
        ensures
            loc.wf(),
            loc.spec_column() == column,
            loc.spec_line() == line,
            loc.spec_columns() == self.spec_columns(),
            loc.spec_lines() == self.spec_lines(),
    {
        let spos = line * self.columns + column;
        Loc { spos, column, line, columns: self.columns, lines: self.lines }
    }
}

/// A coordinate pair resolved against one grid's dimensions.
///
/// A `Loc` may lie outside the grid it was measured against; the checked
/// accessors answer with an absence value for such a location instead of
/// wrapping around to another slot.
pub struct Loc {
    spos: usize,
    column: usize,
    line: usize,
    columns: usize,
    lines: usize,
}

impl Loc {
    pub closed spec fn spec_spos(&self) -> usize {
        self.spos
    }

    pub closed spec fn spec_column(&self) -> usize {
        self.column
    }

    pub closed spec fn spec_line(&self) -> usize {
        self.line
    }

    pub closed spec fn spec_columns(&self) -> usize {
        self.columns
    }

    pub closed spec fn spec_lines(&self) -> usize {
        self.lines
    }

    /// The stored slot always mirrors the coordinates.
    pub open spec fn wf(&self) -> bool {
        self.spec_spos() as int == (self.spec_line() as int) * (self.spec_columns() as int) + (
        self.spec_column() as int)
    }

    /// Whether the location denotes a cell of the grid it was measured against.
    pub open spec fn in_bounds(&self) -> bool {
        self.spec_column() < self.spec_columns() && self.spec_line() < self.spec_lines()
    }

    #[verifier::when_used_as_spec(spec_spos)]
    pub fn storage_pos(&self) -> (s: usize)
        ensures
            s == self.spec_spos(),
    {
        self.spos
    }

    #[verifier::when_used_as_spec(spec_column)]
    pub fn column(&self) -> (c: usize)
        ensures
            c == self.spec_column(),
    {
        self.column
    }

    #[verifier::when_used_as_spec(spec_line)]
    pub fn line(&self) -> (l: usize)
        ensures
            l == self.spec_line(),
    {
        self.line
    }

    pub fn coordinates(&self) -> (r: (usize, usize))
        ensures
            r.0 == self.spec_column(),
            r.1 == self.spec_line(),
    {
        (self.column, self.line)
    }

    pub fn is_close_to(&self, border: Border) -> (b: bool)
        ensures
            b == match border {
                Border::Top => self.spec_line() == 0,
                Border::Down => self.spec_line() + 1 >= self.spec_lines(),
                Border::Left => self.spec_column() == 0,
                Border::Right => self.spec_column() + 1 >= self.spec_columns(),
            },
    {
        match border {
            Border::Top => self.line == 0,
            Border::Down => self.line >= self.lines || self.line == self.lines - 1,
            Border::Left => self.column == 0,
            Border::Right => self.column >= self.columns || self.column == self.columns - 1,
        }
    }
}

/// Anything that can name the cell it currently stands on.
pub trait Localisable {
    /// When the implementor stands on a nameable cell.
    spec fn can_locate(&self) -> bool;

    fn to_loc(&self) -> Loc
        requires
            self.can_locate(),
    ;
}

/// Splitting a slot into line and column by division never wraps around.
pub proof fn lemma_loc_div_mod(spos: int, columns: int)
    requires
        spos >= 0,
        columns >= 1,
    ensures
        (spos / columns) * columns <= spos,
        spos - (spos / columns) * columns < columns,
        spos - (spos / columns) * columns == spos % columns,
{
    assert((spos / columns) * columns <= spos && spos - (spos / columns) * columns < columns
        && spos - (spos / columns) * columns == spos % columns) by (nonlinear_arith)
        requires
            spos >= 0,
            columns >= 1,
    ;
}

} // verus!
