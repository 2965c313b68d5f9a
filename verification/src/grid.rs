use vstd::prelude::*;

use crate::location::Loc;

verus! {

/// Dense, fixed-size 2D container of cells, stored row-major.
///
/// The grid owns every cell by value; every other component addresses a
/// cell by its coordinates and goes through the grid for each access, so
/// no second live reference into the buffer ever exists.
pub struct Grid<T> {
    columns: usize,
    lines: usize,
    cells: Vec<T>,
}

impl<T> View for Grid<T> {
    type V = Seq<T>;

    closed spec fn view(&self) -> Seq<T> {
        self.cells@
    }
}

impl<T: Default> Grid<T> {
    pub fn new(columns: usize, lines: usize) -> (g: Grid<T>)
        requires
            (columns as int) * (lines as int) <= usize::MAX,
        ensures
            g.wf(),
            g.spec_columns() == columns,
            g.spec_lines() == lines,
            forall|i: int| 0 <= i < g@.len() ==> call_ensures(T::default, (), #[trigger] g@[i]),
    {
        let count = columns * lines;
        let mut cells: Vec<T> = Vec::with_capacity(count);
        for _k in 0..count
            invariant
                cells@.len() == _k,
                forall|i: int|
                    0 <= i < cells@.len() ==> call_ensures(T::default, (), #[trigger] cells@[i]),
        {
            cells.push(T::default());
        }
        Grid { columns, lines, cells }
    }
}

impl<T: Copy> Grid<T> {
    pub fn new_from_copy(columns: usize, lines: usize, model: &T) -> (g: Grid<T>)
        requires
            (columns as int) * (lines as int) <= usize::MAX,
        ensures
            g.wf(),
            g.spec_columns() == columns,
            g.spec_lines() == lines,
            forall|i: int| 0 <= i < g@.len() ==> #[trigger] g@[i] == *model,
    {
        let count = columns * lines;
        let mut cells: Vec<T> = Vec::with_capacity(count);
        for _k in 0..count
            invariant
                cells@.len() == _k,
                forall|i: int| 0 <= i < cells@.len() ==> #[trigger] cells@[i] == *model,
        {
            cells.push(*model);
        }
        Grid { columns, lines, cells }
    }
}

impl<T> Grid<T> {
    pub fn new_by<F: Fn() -> T>(columns: usize, lines: usize, create: F) -> (g: Grid<T>)
        requires
            (columns as int) * (lines as int) <= usize::MAX,
            forall|i: ()| create.requires(i),
        ensures
            g.wf(),
            g.spec_columns() == columns,
            g.spec_lines() == lines,
            forall|i: int| 0 <= i < g@.len() ==> call_ensures(create, (), #[trigger] g@[i]),
    {
        let count = columns * lines;
        let mut cells: Vec<T> = Vec::with_capacity(count);
        for _k in 0..count
            invariant
                cells@.len() == _k,
                forall|i: ()| create.requires(i),
                forall|i: int|
                    0 <= i < cells@.len() ==> call_ensures(create, (), #[trigger] cells@[i]),
        {
            cells.push(create());
        }
        Grid { columns, lines, cells }
    }
}

impl<T> Grid<T> {
    /// The cell buffer holds exactly one slot per coordinate pair.
    pub open spec fn wf(&self) -> bool {
        self@.len() == (self.spec_columns() as int) * (self.spec_lines() as int) && (
        self.spec_columns() as int) * (self.spec_lines() as int) <= usize::MAX
    }

    pub closed spec fn spec_columns(&self) -> usize {
        self.columns
    }

    pub closed spec fn spec_lines(&self) -> usize {
        self.lines
    }

    /// Whether `(x, y)` denotes a cell of this grid.
    pub open spec fn spec_contains(&self, x: usize, y: usize) -> bool {
        x < self.spec_columns() && y < self.spec_lines()
    }

    /// Row-major buffer slot of the in-bounds coordinate pair `(x, y)`.
    pub open spec fn slot(&self, x: usize, y: usize) -> int {
        (y as int) * (self.spec_columns() as int) + (x as int)
    }

    #[verifier::when_used_as_spec(spec_columns)]
    pub fn columns(&self) -> (c: usize)
        ensures
            c == self.spec_columns(),
    {
        self.columns
    }

    #[verifier::when_used_as_spec(spec_lines)]
    pub fn lines(&self) -> (l: usize)
        ensures
            l == self.spec_lines(),
    {
        self.lines
    }

    pub fn cell_count(&self) -> (n: usize)
        requires
            self.wf(),
        ensures
            n == self@.len(),
    {
        let n = self.cells.len();
        proof {
            lemma_mul_commutes(self.lines as int, self.columns as int);
        }
        self.lines * self.columns
    }

    #[verifier::when_used_as_spec(spec_contains)]
    pub fn contains(&self, x: usize, y: usize) -> (b: bool)
        ensures
            b == self.spec_contains(x, y),
    {
        y < self.lines && x < self.columns
    }

    pub fn try_at(&self, x: usize, y: usize) -> (r: Option<&T>)
        requires
            self.wf(),
        ensures
            match r {
                Some(cell) => self.contains(x, y) && *cell == self@[self.slot(x, y)],
                None => !self.contains(x, y),
            },
    {
        if self.contains(x, y) {
            let n = self.cells.len();
            proof {
                lemma_slot_in_bounds(
                    self.columns as int,
                    self.lines as int,
                    x as int,
                    y as int,
                );
                lemma_mul_commutes(self.lines as int, self.columns as int);
            }
            Some(&self.cells[y * self.columns + x])
        } else {
            None
        }
    }

    pub fn at(&self, x: usize, y: usize) -> (r: &T)
        requires
            self.wf(),
            self.contains(x, y),
        ensures
            *r == self@[self.slot(x, y)],
    {
        self.try_at(x, y).unwrap()
    }

    fn cell_ref_mut(&mut self, x: usize, y: usize) -> (r: &mut T)
        requires
            old(self).wf(),
            old(self).contains(x, y),
        ensures
            *r == old(self)@[old(self).slot(x, y)],
            final(self)@ == old(self)@.update(old(self).slot(x, y), *final(r)),
            final(self).wf(),
            final(self).spec_columns() == old(self).spec_columns(),
            final(self).spec_lines() == old(self).spec_lines(),
    {
        let n = self.cells.len();
        proof {
            lemma_slot_in_bounds(self.columns as int, self.lines as int, x as int, y as int);
            lemma_mul_commutes(self.lines as int, self.columns as int);
        }
        let idx = y * self.columns + x;
        &mut self.cells[idx]
    }

    pub fn at_mut(&mut self, x: usize, y: usize) -> (r: &mut T)
        requires
            old(self).wf(),
            old(self).contains(x, y),
        ensures
            *r == old(self)@[old(self).slot(x, y)],
            final(self)@ == old(self)@.update(old(self).slot(x, y), *final(r)),
            final(self).wf(),
            final(self).spec_columns() == old(self).spec_columns(),
            final(self).spec_lines() == old(self).spec_lines(),
    {
        match self.try_at_mut(x, y) {
            Some(cell) => cell,
            None => vstd::pervasive::unreached(),
        }
    }
}

impl<T> Grid<T> {
    pub fn try_at_mut(&mut self, x: usize, y: usize) -> (r: Option<&mut T>)
        requires
            old(self).wf(),
        ensures
            old(self).contains(x, y) ==> (r matches Some(p)
                && *p == old(self)@[old(self).slot(x, y)]
                && final(self)@ == old(self)@.update(old(self).slot(x, y), *final(p))
                && final(self).wf()
                && final(self).spec_columns() == old(self).spec_columns()
                && final(self).spec_lines() == old(self).spec_lines()),
            !old(self).contains(x, y) ==> r is None && *final(self) == *old(self),
    {
        if self.contains(x, y) {
            Some(self.cell_ref_mut(x, y))
        } else {
            None
        }
    }
}

impl<T> Grid<T> {
    /// Whether `loc` was measured against a grid of the same dimensions.
    pub open spec fn loc_matches(&self, loc: Loc) -> bool {
        loc.wf() && loc.spec_columns() == self.spec_columns() && loc.spec_lines()
            == self.spec_lines()
    }

    pub fn at_loc(&self, loc: &Loc) -> (r: &T)
        requires
            self.wf(),
            self.loc_matches(*loc),
            loc.in_bounds(),
        ensures
            *r == self@[loc.spec_spos() as int],
    {
        self.at(loc.column(), loc.line())
    }

    pub fn try_at_loc(&self, loc: &Loc) -> (r: Option<&T>)
        requires
            self.wf(),
            self.loc_matches(*loc),
        ensures
            match r {
                Some(cell) => loc.in_bounds() && *cell == self@[loc.spec_spos() as int],
                None => !loc.in_bounds(),
            },
    {
        self.try_at(loc.column(), loc.line())
    }

    pub fn at_loc_mut(&mut self, loc: &Loc) -> (r: &mut T)
        requires
            old(self).wf(),
            old(self).loc_matches(*loc),
            loc.in_bounds(),
        ensures
            *r == old(self)@[loc.spec_spos() as int],
            final(self)@ == old(self)@.update(loc.spec_spos() as int, *final(r)),
            final(self).wf(),
            final(self).spec_columns() == old(self).spec_columns(),
            final(self).spec_lines() == old(self).spec_lines(),
    {
        self.at_mut(loc.column(), loc.line())
    }

    pub fn try_at_loc_mut(&mut self, loc: &Loc) -> (r: Option<&mut T>)
        requires
            old(self).wf(),
            old(self).loc_matches(*loc),
        ensures
            loc.in_bounds() ==> (r matches Some(p)
                && *p == old(self)@[loc.spec_spos() as int]
                && final(self)@ == old(self)@.update(loc.spec_spos() as int, *final(p))
                && final(self).wf()
                && final(self).spec_columns() == old(self).spec_columns()
                && final(self).spec_lines() == old(self).spec_lines()),
            !loc.in_bounds() ==> r is None && *final(self) == *old(self),
    {
        self.try_at_mut(loc.column(), loc.line())
    }
}

/// A pure coordinate pair, resolved on demand against a grid.
#[derive(Debug, Clone, Copy, PartialEq, Eq, Structural)]
pub struct Address {
    pub column: usize,
    pub line: usize,
}

/// Anything that owns a grid of `T` cells and hands out access to it.
pub trait Within<T> {
    /// The owned grid.
    spec fn spec_grid(&self) -> Grid<T>;

    /// The same owner with its grid replaced, everything else untouched.
    spec fn with_grid(&self, g: Grid<T>) -> Self where Self: core::marker::Sized;

    fn grid(&self) -> (r: &Grid<T>)
        ensures
            *r == self.spec_grid(),
    ;

    fn grid_mut(&mut self) -> (r: &mut Grid<T>) where Self: core::marker::Sized
        ensures
            *r == old(self).spec_grid(),
            *final(self) == old(self).with_grid(*final(r)),
            final(self).spec_grid() == *final(r),
            old(self).with_grid(old(self).spec_grid()) == *old(self),
    ;
}

impl<T> Within<T> for Grid<T> {
    open spec fn spec_grid(&self) -> Grid<T> {
        *self
    }

    open spec fn with_grid(&self, g: Grid<T>) -> Grid<T> {
        g
    }

    fn grid(&self) -> (r: &Grid<T>) {
        self
    }

    fn grid_mut(&mut self) -> (r: &mut Grid<T>) {
        self
    }
}

impl Address {
    pub fn from<'a, T, W: Within<T>>(&self, wgrid: &'a W) -> (r: Option<Pos<'a, T>>)
        requires
            wgrid.spec_grid().wf(),
        ensures
            match r {
                Some(pos) => {
                    &&& wgrid.spec_grid().contains(self.column, self.line)
                    &&& pos.wf()
                    &&& pos.column == self.column
                    &&& pos.line == self.line
                    &&& *pos.grid == wgrid.spec_grid()
                },
                None => !wgrid.spec_grid().contains(self.column, self.line),
            },
    {
        wgrid.grid().cell(self.column, self.line)
    }
}

/// Walks every address of a grid in row-major order.
pub struct Crumbs {
    i: usize,
    columns: usize,
    max: usize,
}

impl Crumbs {
    pub closed spec fn spec_index(&self) -> usize {
        self.i
    }

    pub closed spec fn spec_columns(&self) -> usize {
        self.columns
    }

    pub closed spec fn spec_max(&self) -> usize {
        self.max
    }

    pub fn next(&mut self) -> (r: Option<Address>)
        requires
            old(self).spec_columns() >= 1 || old(self).spec_max() == 0,
        ensures
            final(self).spec_columns() == old(self).spec_columns(),
            final(self).spec_max() == old(self).spec_max(),
            old(self).spec_index() < old(self).spec_max() ==> (r matches Some(a)
                && a.line as int == old(self).spec_index() as int / old(self).spec_columns() as int
                && a.column as int == old(self).spec_index() as int % old(self).spec_columns() as int
                && final(self).spec_index() == old(self).spec_index() + 1),
            old(self).spec_index() >= old(self).spec_max() ==> r is None && final(self).spec_index()
                == old(self).spec_index(),
    {
        if self.i >= self.max {
            None
        } else {
            let y = self.i / self.columns;
            proof {
                crate::location::lemma_loc_div_mod(self.i as int, self.columns as int);
            }
            let x = self.i - y * self.columns;
            self.i = self.i + 1;
            Some(Address { column: x, line: y })
        }
    }
}

impl<T> Grid<T> {
    pub fn crumbs(&self) -> (c: Crumbs)
        requires
            self.wf(),
        ensures
            c.spec_index() == 0,
            c.spec_columns() == self.spec_columns(),
            c.spec_columns() >= 1 || c.spec_max() == 0,
            c.spec_max() as int == (self.spec_columns() as int) * (self.spec_lines() as int),
    {
        let n = self.cells.len();
        let max = self.columns * self.lines;
        proof {
            if self.columns == 0 {
                assert((self.columns as int) * (self.lines as int) == 0) by (nonlinear_arith)
                    requires
                        self.columns == 0,
                ;
            }
        }
        Crumbs { i: 0, columns: self.columns, max }
    }

    pub fn cell(&self, x: usize, y: usize) -> (r: Option<Pos<'_, T>>)
        requires
            self.wf(),
        ensures
            match r {
                Some(pos) => {
                    &&& self.contains(x, y)
                    &&& pos.wf()
                    &&& pos.column == x
                    &&& pos.line == y
                    &&& *pos.grid == *self
                },
                None => !self.contains(x, y),
            },
    {
        if self.contains(x, y) {
            Some(Pos { column: x, line: y, grid: self })
        } else {
            None
        }
    }

    pub fn center(&self) -> (r: Option<Pos<'_, T>>)
        requires
            self.wf(),
        ensures
            match r {
                Some(pos) => {
                    &&& self.contains((self.spec_columns() / 2) as usize, (self.spec_lines() / 2) as usize)
                    &&& pos.wf()
                    &&& pos.column == self.spec_columns() / 2
                    &&& pos.line == self.spec_lines() / 2
                    &&& *pos.grid == *self
                },
                None => self@.len() == 0,
            },
    {
        let x = self.columns / 2;
        let y = self.lines / 2;
        proof {
            if self.columns > 0 && self.lines > 0 {
                lemma_slot_in_bounds(self.columns as int, self.lines as int, 0, 0);
            } else {
                assert((self.columns as int) * (self.lines as int) == 0) by (nonlinear_arith)
                    requires
                        self.columns == 0 || self.lines == 0,
                ;
            }
        }
        self.cell(x, y)
    }
}

impl<T> Grid<T> {
    pub(crate) fn pin_coords(&self, index: usize) -> (r: (usize, usize))
        requires
            self.wf(),
            index < self@.len(),
        ensures
            self.contains(r.0, r.1),
            self.slot(r.0, r.1) == index,
    {
        proof {
            lemma_pin_in_bounds(self.columns as int, self.lines as int, index as int);
        }
        let y = index / self.columns;
        proof {
            crate::location::lemma_loc_div_mod(index as int, self.columns as int);
        }
        let x = index - y * self.columns;
        (x, y)
    }

    /// A uniformly random cell, absent only on an empty grid.
    pub fn anywhere_rand(&self) -> (r: Option<Pos<'_, T>>)
        requires
            self.wf(),
        ensures
            match r {
                Some(pos) => self@.len() > 0 && pos.wf() && *pos.grid == *self,
                None => self@.len() == 0,
            },
    {
        let count = self.cell_count();
        if count == 0 {
            return None;
        }
        let index = crate::rng::rand_below(count);
        let (column, line) = self.pin_coords(index);
        Some(Pos { column, line, grid: self })
    }

    /// Retries uniformly random cells until one satisfies `func`, giving
    /// up after as many draws as the grid has cells. Exhaustion answers
    /// with an absence value, which callers must treat as a hard error.
    pub fn anywhere_rand_match<'a, F: Fn(Pos<'a, T>) -> bool>(&'a self, func: F) -> (r: Option<
        Pos<'a, T>,
    >)
        requires
            self.wf(),
            self@.len() > 0,
            forall|p: Pos<'a, T>|
                p.wf() && p.grid == self ==> #[trigger] func.requires((p,)),
        ensures
            match r {
                Some(pos) => pos.wf() && *pos.grid == *self && call_ensures(func, (pos,), true),
                None => true,
            },
            (forall|p: Pos<'a, T>|
                p.wf() && p.grid == self ==> !(#[trigger] call_ensures(func, (p,), false))) ==> r
                is Some,
    {
        let count = self.cell_count();
        let index = crate::rng::rand_below(count);
        let (mut column, mut line) = self.pin_coords(index);

        let mut security = count;
        loop
            invariant
                self.wf(),
                self@.len() > 0,
                count == self@.len(),
                self.contains(column, line),
                forall|p: Pos<'a, T>|
                    p.wf() && p.grid == self ==> #[trigger] func.requires((p,)),
                (forall|p: Pos<'a, T>|
                    p.wf() && p.grid == self ==> !(#[trigger] call_ensures(func, (p,), false)))
                    ==> security == count,
            ensures
                self.contains(column, line),
                security == 0 || call_ensures(func, (Pos { column, line, grid: self },), true),
                (forall|p: Pos<'a, T>|
                    p.wf() && p.grid == self ==> !(#[trigger] call_ensures(func, (p,), false)))
                    ==> security == count,
            decreases security,
        {
            if !(security > 0) {
                break;
            }
            if func(Pos { column, line, grid: self }) {
                break;
            }
            proof {
                assert(call_ensures(func, (Pos { column, line, grid: self },), false));
            }
            let index = crate::rng::rand_below(count);
            let (c, l) = self.pin_coords(index);
            column = c;
            line = l;
            security = security - 1;
        }

        if security == 0 {
            None
        } else {
            Some(Pos { column, line, grid: self })
        }
    }
}

pub proof fn lemma_pin_in_bounds(columns: int, lines: int, index: int)
    requires
        0 <= index < columns * lines,
        columns >= 0,
        lines >= 0,
    ensures
        columns >= 1,
        index / columns < lines,
{
    if columns == 0 {
        assert(columns * lines == 0) by (nonlinear_arith)
            requires
                columns == 0,
        ;
    }
    let q = index / columns;
    assert(q * columns <= index && q >= 0) by (nonlinear_arith)
        requires
            columns >= 1,
            index >= 0,
            q == index / columns,
    ;
    if q >= lines {
        assert(q * columns >= lines * columns) by (nonlinear_arith)
            requires
                q >= lines,
                columns >= 1,
        ;
        assert(lines * columns == columns * lines) by (nonlinear_arith);
        assert(false);
    }
}

/// A read-only view of one in-bounds cell, carrying its coordinates.
pub struct Pos<'a, T> {
    pub column: usize,
    pub line: usize,
    pub grid: &'a Grid<T>,
}

impl<'a, T> Pos<'a, T> {
    /// The coordinates lie inside the grid they point into.
    pub open spec fn wf(&self) -> bool {
        self.grid.wf() && self.grid.contains(self.column, self.line)
    }

    pub open spec fn spec_cell(&self) -> T {
        self.grid@[self.grid.slot(self.column, self.line)]
    }

    pub fn cell_value(&self) -> (r: &T)
        requires
            self.wf(),
        ensures
            *r == self.spec_cell(),
    {
        self.grid.at(self.column, self.line)
    }

    /// The in-bounds cells one step away, in the fixed order
    /// up, left, down, right.
    pub fn neighbours(&self) -> (r: Vec<Pos<'a, T>>)
        requires
            self.wf(),
        ensures
            r@.map_values(|p: Pos<'a, T>| (p.column as int, p.line as int)) == neighbour_coords(
                self.grid.spec_columns() as int,
                self.grid.spec_lines() as int,
                self.column as int,
                self.line as int,
            ),
            forall|i: int|
                0 <= i < r@.len() ==> (#[trigger] r@[i]).wf() && r@[i].grid == self.grid,
    {
        let mut result: Vec<Pos<'a, T>> = Vec::with_capacity(4);
        if self.line >= 1 {
            result.push(Pos { column: self.column, line: self.line - 1, grid: self.grid });
        }
        if self.column >= 1 {
            result.push(Pos { column: self.column - 1, line: self.line, grid: self.grid });
        }
        if self.line + 1 < self.grid.lines() {
            result.push(Pos { column: self.column, line: self.line + 1, grid: self.grid });
        }
        if self.column + 1 < self.grid.columns() {
            result.push(Pos { column: self.column + 1, line: self.line, grid: self.grid });
        }
        proof {
            assert(result@.map_values(|p: Pos<'a, T>| (p.column as int, p.line as int))
                =~= neighbour_coords(
                self.grid.spec_columns() as int,
                self.grid.spec_lines() as int,
                self.column as int,
                self.line as int,
            ));
        }
        result
    }
}

/// The coordinates one step away from `(x, y)` that lie inside a
/// `columns` by `lines` grid, in the fixed order up, left, down, right.
pub open spec fn neighbour_coords(columns: int, lines: int, x: int, y: int) -> Seq<(int, int)> {
    (if y >= 1 {
        seq![(x, y - 1)]
    } else {
        Seq::empty()
    }) + (if x >= 1 {
        seq![(x - 1, y)]
    } else {
        Seq::empty()
    }) + (if y + 1 < lines {
        seq![(x, y + 1)]
    } else {
        Seq::empty()
    }) + (if x + 1 < columns {
        seq![(x + 1, y)]
    } else {
        Seq::empty()
    })
}

/// A checked ticket for writing one cell.
///
/// It carries only the coordinates; the write itself goes through the one
/// owning grid, so no second live reference into the buffer ever exists.
#[derive(Debug, Clone, Copy, PartialEq, Eq, Structural)]
pub struct PosMut {
    pub column: usize,
    pub line: usize,
}

impl<T> Grid<T> {
    pub fn cell_mut(&mut self, x: usize, y: usize) -> (r: Option<PosMut>)
        ensures
            *final(self) == *old(self),
            match r {
                Some(pos) => {
                    &&& old(self).contains(x, y)
                    &&& pos.column == x
                    &&& pos.line == y
                },
                None => !old(self).contains(x, y),
            },
    {
        if self.contains(x, y) {
            Some(PosMut { column: x, line: y })
        } else {
            None
        }
    }
}

impl Address {
    pub fn from_mut<T, W: Within<T>>(&self, wgrid: &mut W) -> (r: Option<PosMut>)
        ensures
            *final(wgrid) == *old(wgrid),
            match r {
                Some(pos) => {
                    &&& old(wgrid).spec_grid().contains(self.column, self.line)
                    &&& pos.column == self.column
                    &&& pos.line == self.line
                },
                None => !old(wgrid).spec_grid().contains(self.column, self.line),
            },
    {
        wgrid.grid_mut().cell_mut(self.column, self.line)
    }
}

/// For an in-bounds coordinate pair, the row-major slot lies inside the buffer.
pub proof fn lemma_slot_in_bounds(columns: int, lines: int, x: int, y: int)
    requires
        0 <= x < columns,
        0 <= y < lines,
    ensures
        0 <= y * columns + x < lines * columns,
{
    assert(0 <= y * columns + x < lines * columns) by (nonlinear_arith)
        requires
            0 <= x < columns,
            0 <= y < lines,
    ;
}

/// Distinct in-bounds coordinate pairs occupy distinct buffer slots.
pub proof fn lemma_slot_injective(columns: int, x1: int, y1: int, x2: int, y2: int)
    requires
        0 <= x1 < columns,
        0 <= x2 < columns,
        0 <= y1,
        0 <= y2,
        y1 * columns + x1 == y2 * columns + x2,
    ensures
        x1 == x2 && y1 == y2,
{
    assert(x1 == x2 && y1 == y2) by (nonlinear_arith)
        requires
            0 <= x1 < columns,
            0 <= x2 < columns,
            0 <= y1,
            0 <= y2,
            y1 * columns + x1 == y2 * columns + x2,
    ;
}

proof fn lemma_mul_commutes(a: int, b: int)
    ensures
        a * b == b * a,
{
}

} // verus!
