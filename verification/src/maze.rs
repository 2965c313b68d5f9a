use vstd::prelude::*;

use vstd::string::StringExecFns;

use crate::freewalk::OrthoFreeWalk;
use crate::grid::{Address, Grid};
use crate::location::{Loc, LocGenerator, Way};
use crate::pathwalk::ZWalk;

verus! {

/// One cell of the maze: two persistent gate bits plus three transient
/// flags used while an algorithm is running.
///
/// A gate is recorded on the cell on the upper/lefter side of the pair it
/// connects: `down_gate_open` means the edge to the cell below is open,
/// `right_gate_open` the edge to the cell on the right.
#[derive(Debug, Clone, Copy, PartialEq, Eq, Structural)]
pub struct MazeCell {
    pub down_gate_open: bool,
    pub right_gate_open: bool,
    pub active: bool,
    pub current: bool,
    pub visited: bool,
}

/// A cell with closed gates and cleared flags.
pub open spec fn blank_cell() -> MazeCell {
    MazeCell {
        down_gate_open: false,
        right_gate_open: false,
        active: false,
        current: false,
        visited: false,
    }
}

impl Default for MazeCell {
    fn default() -> (r: MazeCell)
        ensures
            r == blank_cell(),
    {
        MazeCell {
            down_gate_open: false,
            right_gate_open: false,
            active: false,
            current: false,
            visited: false,
        }
    }
}

pub open spec fn with_down_open(c: MazeCell) -> MazeCell {
    MazeCell { down_gate_open: true, ..c }
}

pub open spec fn with_right_open(c: MazeCell) -> MazeCell {
    MazeCell { right_gate_open: true, ..c }
}

pub open spec fn with_active(c: MazeCell, b: bool) -> MazeCell {
    MazeCell { active: b, ..c }
}

pub open spec fn with_current(c: MazeCell, b: bool) -> MazeCell {
    MazeCell { current: b, ..c }
}

pub open spec fn with_visited(c: MazeCell, b: bool) -> MazeCell {
    MazeCell { visited: b, ..c }
}

/// Whether a carve in `way` records its bit in the `down` slot of its
/// owner cell (as opposed to the `right` slot).
pub open spec fn gate_stores_down(way: Way) -> bool {
    match way {
        Way::Down | Way::Up => true,
        Way::Right | Way::Left => false,
    }
}

impl Grid<MazeCell> {
    pub open spec fn contains_i(&self, x: int, y: int) -> bool {
        0 <= x < self.spec_columns() && 0 <= y < self.spec_lines()
    }

    pub open spec fn slot_i(&self, x: int, y: int) -> int {
        y * (self.spec_columns() as int) + x
    }

    pub open spec fn cell_i(&self, x: int, y: int) -> MazeCell {
        self@[self.slot_i(x, y)]
    }

    /// Whether a carve from `(x, y)` in direction `way` connects two
    /// in-bounds cells.
    pub open spec fn carve_allowed(&self, x: int, y: int, way: Way) -> bool {
        self.contains_i(x, y) && match way {
            Way::Down => y + 1 < self.spec_lines(),
            Way::Right => x + 1 < self.spec_columns(),
            Way::Up => y >= 1,
            Way::Left => x >= 1,
        }
    }

    /// The buffer slot of the cell that records a carve from `(x, y)` in
    /// direction `way`.
    pub open spec fn gate_slot(&self, x: int, y: int, way: Way) -> int {
        match way {
            Way::Down | Way::Right => self.slot_i(x, y),
            Way::Up => self.slot_i(x, y - 1),
            Way::Left => self.slot_i(x - 1, y),
        }
    }

    /// Whether the edge from `(x, y)` in direction `way` is open: both of
    /// its ends are in bounds and its gate bit is set.
    pub open spec fn way_open(&self, x: int, y: int, way: Way) -> bool {
        self.carve_allowed(x, y, way) && (if gate_stores_down(way) {
            self@[self.gate_slot(x, y, way)].down_gate_open
        } else {
            self@[self.gate_slot(x, y, way)].right_gate_open
        })
    }

    pub open spec fn all_visited(&self) -> bool {
        forall|i: int| 0 <= i < self@.len() ==> (#[trigger] self@[i]).visited
    }
}

/// Every cell of the sequence carries the visited flag.
pub open spec fn all_cells_visited(m: Seq<MazeCell>) -> bool {
    forall|i: int| 0 <= i < m.len() ==> (#[trigger] m[i]).visited
}

pub open spec fn set_active(m: Seq<MazeCell>, i: int, b: bool) -> Seq<MazeCell> {
    m.update(i, with_active(m[i], b))
}

pub open spec fn set_current(m: Seq<MazeCell>, i: int, b: bool) -> Seq<MazeCell> {
    m.update(i, with_current(m[i], b))
}

pub open spec fn set_visited(m: Seq<MazeCell>, i: int, b: bool) -> Seq<MazeCell> {
    m.update(i, with_visited(m[i], b))
}

pub open spec fn open_down_at(m: Seq<MazeCell>, i: int) -> Seq<MazeCell> {
    m.update(i, with_down_open(m[i]))
}

pub open spec fn open_right_at(m: Seq<MazeCell>, i: int) -> Seq<MazeCell> {
    m.update(i, with_right_open(m[i]))
}

/// Gate bits alone, cell by cell: (down open, right open).
pub open spec fn gates_of(m: Seq<MazeCell>) -> Seq<(bool, bool)> {
    Seq::new(m.len(), |j: int| (m[j].down_gate_open, m[j].right_gate_open))
}

/// The visited flags alone, cell by cell.
pub open spec fn visited_of(m: Seq<MazeCell>) -> Seq<bool> {
    Seq::new(m.len(), |j: int| m[j].visited)
}

/// The active flags alone, cell by cell.
pub open spec fn active_of(m: Seq<MazeCell>) -> Seq<bool> {
    Seq::new(m.len(), |j: int| m[j].active)
}

/// The direction of the single grid step from `from` to `to`, or nothing
/// when the two addresses are not exactly one step apart.
pub open spec fn step_way(from: Address, to: Address) -> Option<Way> {
    if to.line == from.line && to.column == from.column + 1 {
        Some(Way::Right)
    } else if to.line == from.line && to.column + 1 == from.column {
        Some(Way::Left)
    } else if to.column == from.column && to.line == from.line + 1 {
        Some(Way::Down)
    } else if to.column == from.column && to.line + 1 == from.line {
        Some(Way::Up)
    } else {
        None
    }
}

/// The cursor address one row-major step further.
pub open spec fn advance_right_then_down(a: Address, columns: usize) -> Address {
    if a.column + 1 >= columns {
        Address { column: 0, line: (a.line + 1) as usize }
    } else {
        Address { column: (a.column + 1) as usize, line: a.line }
    }
}

/// A carve applied between `from` and `to`, when the two are exactly one
/// in-bounds grid step apart; otherwise the cells unchanged.
pub open spec fn open_between(
    m: Seq<MazeCell>,
    maze: OrthoMaze,
    from: Address,
    to: Address,
) -> Seq<MazeCell> {
    match step_way(from, to) {
        Some(way) => {
            if maze.carve_allowed(from.column as int, from.line as int, way) {
                let i = maze.gate_slot(from.column as int, from.line as int, way);
                if gate_stores_down(way) {
                    m.update(i, with_down_open(m[i]))
                } else {
                    m.update(i, with_right_open(m[i]))
                }
            } else {
                m
            }
        },
        None => m,
    }
}

/// The owner slot of a permitted carve lies inside the buffer.
pub proof fn lemma_gate_slot_in_bounds(m: OrthoMaze, x: int, y: int, way: Way)
    requires
        m.wf(),
        m.carve_allowed(x, y, way),
    ensures
        0 <= m.gate_slot(x, y, way) < m.cells().len(),
{
    let cols = m.spec_columns() as int;
    let lines = m.spec_lines() as int;
    assert(cols * lines == lines * cols) by (nonlinear_arith);
    match way {
        Way::Down | Way::Right => {
            crate::grid::lemma_slot_in_bounds(cols, lines, x, y);
        },
        Way::Up => {
            crate::grid::lemma_slot_in_bounds(cols, lines, x, y - 1);
        },
        Way::Left => {
            crate::grid::lemma_slot_in_bounds(cols, lines, x - 1, y);
        },
    }
}

/// The active flag cleared on every cell that an address of `walk` names.
pub open spec fn active_cleared_on(
    m: Seq<MazeCell>,
    maze: OrthoMaze,
    walk: Seq<Address>,
) -> Seq<MazeCell> {
    Seq::new(
        m.len(),
        |j: int|
            if exists|k: int|
                0 <= k < walk.len() && #[trigger] walk[k].slot_in(maze) == j && walk[k].within(
                    maze,
                ) {
                with_active(m[j], false)
            } else {
                m[j]
            },
    )
}

/// Clearing active flags reads only the grid's dimensions, never its
/// cells, so two same-shaped mazes agree on it.
pub proof fn lemma_active_cleared_congruent(
    m: Seq<MazeCell>,
    m1: OrthoMaze,
    m2: OrthoMaze,
    w: Seq<Address>,
)
    requires
        m1.spec_columns() == m2.spec_columns(),
        m1.spec_lines() == m2.spec_lines(),
    ensures
        active_cleared_on(m, m1, w) == active_cleared_on(m, m2, w),
{
    assert forall|j: int|
        0 <= j < m.len() implies active_cleared_on(m, m1, w)[j] == active_cleared_on(
        m,
        m2,
        w,
    )[j] by {
        assert(forall|k: int|
            0 <= k < w.len() ==> (#[trigger] w[k].slot_in(m1)) == w[k].slot_in(m2) && (w[k].within(
                m1,
            ) <==> w[k].within(m2)));
        assert(forall|k: int|
            0 <= k < w.len() ==> (#[trigger] w[k].slot_in(m2)) == w[k].slot_in(m1) && (w[k].within(
                m2,
            ) <==> w[k].within(m1)));
    };
    assert(active_cleared_on(m, m1, w) =~= active_cleared_on(m, m2, w));
}

/// No gate ever closes between the two states.
pub open spec fn gates_monotone(m0: Seq<MazeCell>, m1: Seq<MazeCell>) -> bool {
    &&& m0.len() == m1.len()
    &&& forall|j: int|
        0 <= j < m0.len() ==> ((#[trigger] m0[j]).down_gate_open ==> m1[j].down_gate_open) && (
        m0[j].right_gate_open ==> m1[j].right_gate_open)
}

/// No cell ever loses its visited flag between the two states.
pub open spec fn visited_monotone(m0: Seq<MazeCell>, m1: Seq<MazeCell>) -> bool {
    &&& m0.len() == m1.len()
    &&& forall|j: int| 0 <= j < m0.len() ==> ((#[trigger] m0[j]).visited ==> m1[j].visited)
}

/// The cursor's `current` mark moved from `from` to `to`; a cursor that
/// walked past the last cell keeps no mark.
pub open spec fn shift_current(
    m: Seq<MazeCell>,
    maze0: OrthoMaze,
    from: Address,
    to: Address,
) -> Seq<MazeCell> {
    let cleared = set_current(m, from.slot_in(maze0), false);
    if to.spec_done_walking(maze0) {
        cleared
    } else {
        set_current(cleared, to.slot_in(maze0), true)
    }
}

/// The four directional openings seen from one cell.
#[derive(Debug, Clone, Copy, PartialEq, Eq, Structural)]
pub struct Gates {
    pub top: bool,
    pub down: bool,
    pub left: bool,
    pub right: bool,
}

impl Gates {
    pub open spec fn spec_can_move(&self, gateway: Way) -> bool {
        match gateway {
            Way::Up => self.top,
            Way::Down => self.down,
            Way::Left => self.left,
            Way::Right => self.right,
        }
    }

    pub fn can_move(&self, gateway: &Way) -> (b: bool)
        ensures
            b == self.spec_can_move(*gateway),
    {
        match gateway {
            Way::Up => self.top,
            Way::Down => self.down,
            Way::Left => self.left,
            Way::Right => self.right,
        }
    }

    pub fn can_move_all(&self, gateways: &[Way]) -> (b: bool)
        ensures
            b == forall|i: int| 0 <= i < gateways@.len() ==> self.spec_can_move(#[trigger] gateways@[i]),
    {
        let n = gateways.len();
        let mut k: usize = 0;
        while k < n
            invariant
                n == gateways@.len(),
                k <= n,
                forall|i: int| 0 <= i < k ==> self.spec_can_move(#[trigger] gateways@[i]),
            decreases n - k,
        {
            if !self.can_move(&gateways[k]) {
                return false;
            }
            k = k + 1;
        }
        true
    }
}

/// The maze: a grid of cells whose open gates form its passages.
pub struct OrthoMaze {
    pub grid: Grid<MazeCell>,
}

impl OrthoMaze {
    pub open spec fn wf(&self) -> bool {
        self.grid.wf()
    }

    pub open spec fn cells(&self) -> Seq<MazeCell> {
        self.grid@
    }

    pub open spec fn spec_columns(&self) -> usize {
        self.grid.spec_columns()
    }

    pub open spec fn spec_lines(&self) -> usize {
        self.grid.spec_lines()
    }

    pub open spec fn contains_i(&self, x: int, y: int) -> bool {
        self.grid.contains_i(x, y)
    }

    pub open spec fn slot_i(&self, x: int, y: int) -> int {
        self.grid.slot_i(x, y)
    }

    pub open spec fn cell_i(&self, x: int, y: int) -> MazeCell {
        self.grid.cell_i(x, y)
    }

    pub open spec fn carve_allowed(&self, x: int, y: int, way: Way) -> bool {
        self.grid.carve_allowed(x, y, way)
    }

    pub open spec fn gate_slot(&self, x: int, y: int, way: Way) -> int {
        self.grid.gate_slot(x, y, way)
    }

    pub open spec fn way_open(&self, x: int, y: int, way: Way) -> bool {
        self.grid.way_open(x, y, way)
    }

    /// Dimensions are untouched and the grid stays well formed.
    pub open spec fn same_shape(&self, other: &OrthoMaze) -> bool {
        &&& other.wf()
        &&& other.spec_columns() == self.spec_columns()
        &&& other.spec_lines() == self.spec_lines()
        &&& other.cells().len() == self.cells().len()
    }

    pub fn new(w: usize, h: usize) -> (m: OrthoMaze)
        requires
            (w as int) * (h as int) <= usize::MAX,
        ensures
            m.wf(),
            m.spec_columns() == w,
            m.spec_lines() == h,
            m.cells().len() == (w as int) * (h as int),
            forall|i: int| 0 <= i < m.cells().len() ==> #[trigger] m.cells()[i] == blank_cell(),
    {
        let grid: Grid<MazeCell> = Grid::new(w, h);
        proof {
            assert(forall|c: MazeCell|
                call_ensures(MazeCell::default, (), c) ==> c == blank_cell());
        }
        OrthoMaze { grid }
    }

    pub fn columns(&self) -> (c: usize)
        ensures
            c == self.spec_columns(),
    {
        self.grid.columns()
    }

    pub fn lines(&self) -> (l: usize)
        ensures
            l == self.spec_lines(),
    {
        self.grid.lines()
    }

    pub fn loc_generator(&self) -> (g: LocGenerator)
        ensures
            g.spec_columns() == self.spec_columns(),
            g.spec_lines() == self.spec_lines(),
    {
        LocGenerator::new(&self.grid)
    }

    pub fn zwalk(&self) -> (w: ZWalk)
        requires
            self.wf(),
        ensures
            w.wf(),
            w.spec_index() == 0,
            w.spec_columns() == self.spec_columns(),
            w.spec_lines() == self.spec_lines(),
    {
        ZWalk::new(self.loc_generator())
    }

    pub fn freewalk(&self) -> (w: OrthoFreeWalk)
        requires
            self.wf(),
            1 <= self.spec_columns(),
            1 <= self.spec_lines(),
        ensures
            w.wf(),
            w.spec_column() == 0,
            w.spec_line() == 0,
            w.spec_columns() == self.spec_columns(),
            w.spec_lines() == self.spec_lines(),
    {
        OrthoFreeWalk::new(self.loc_generator())
    }

    /// Opens a gate from `(x, y)` in direction `gateway`. Nothing is
    /// touched when the pair of cells is not entirely inside the grid.
    pub fn open_gate(&mut self, x: usize, y: usize, gateway: Way) -> (ok: bool)
        requires
            old(self).wf(),
        ensures
            old(self).same_shape(final(self)),
            ok == old(self).carve_allowed(x as int, y as int, gateway),
            ok ==> final(self).cells() == old(self).cells().update(
                old(self).gate_slot(x as int, y as int, gateway),
                if gate_stores_down(gateway) {
                    with_down_open(old(self).cells()[old(self).gate_slot(x as int, y as int, gateway)])
                } else {
                    with_right_open(old(self).cells()[old(self).gate_slot(x as int, y as int, gateway)])
                },
            ),
            !ok ==> *final(self) == *old(self),
    {
        if !self.grid.contains(x, y) {
            return false;
        }
        match gateway {
            Way::Down => {
                if y + 1 < self.grid.lines() {
                    let cell = self.grid.at_mut(x, y);
                    cell.down_gate_open = true;
                    true
                } else {
                    false
                }
            },
            Way::Right => {
                if x + 1 < self.grid.columns() {
                    let cell = self.grid.at_mut(x, y);
                    cell.right_gate_open = true;
                    true
                } else {
                    false
                }
            },
            Way::Up => {
                if y >= 1 {
                    let cell = self.grid.at_mut(x, y - 1);
                    cell.down_gate_open = true;
                    true
                } else {
                    false
                }
            },
            Way::Left => {
                if x >= 1 {
                    let cell = self.grid.at_mut(x - 1, y);
                    cell.right_gate_open = true;
                    true
                } else {
                    false
                }
            },
        }
    }

    /// Opens a gate at `loc` toward `gateway`, rejecting a carve whose
    /// other end would fall outside the grid, with no mutation.
    pub fn carve(&mut self, loc: &Loc, gateway: &Way) -> (r: Result<(), String>)
        requires
            old(self).wf(),
        ensures
            old(self).same_shape(final(self)),
            r is Ok <==> old(self).carve_allowed(
                loc.spec_column() as int,
                loc.spec_line() as int,
                *gateway,
            ),
            r is Ok ==> final(self).cells() == old(self).cells().update(
                old(self).gate_slot(loc.spec_column() as int, loc.spec_line() as int, *gateway),
                if gate_stores_down(*gateway) {
                    with_down_open(
                        old(self).cells()[old(self).gate_slot(
                            loc.spec_column() as int,
                            loc.spec_line() as int,
                            *gateway,
                        )],
                    )
                } else {
                    with_right_open(
                        old(self).cells()[old(self).gate_slot(
                            loc.spec_column() as int,
                            loc.spec_line() as int,
                            *gateway,
                        )],
                    )
                },
            ),
            r is Err ==> *final(self) == *old(self),
    {
        if self.open_gate(loc.column(), loc.line(), *gateway) {
            Ok(())
        } else {
            Err("invalid carving".to_owned())
        }
    }

    /// The four directional openings of the cell at `loc`, reading the
    /// cell's own down/right bits and the up/left neighbours' bits.
    pub fn gates_at(&self, loc: &Loc) -> (g: Gates)
        requires
            self.wf(),
        ensures
            g.top == self.way_open(loc.spec_column() as int, loc.spec_line() as int, Way::Up),
            g.down == self.way_open(loc.spec_column() as int, loc.spec_line() as int, Way::Down),
            g.left == self.way_open(loc.spec_column() as int, loc.spec_line() as int, Way::Left),
            g.right == self.way_open(loc.spec_column() as int, loc.spec_line() as int, Way::Right),
    {
        let x = loc.column();
        let y = loc.line();
        let mut g = Gates { top: false, down: false, left: false, right: false };
        if !self.grid.contains(x, y) {
            return g;
        }
        let cell = self.grid.at(x, y);
        if cell.down_gate_open && y + 1 < self.grid.lines() {
            g.down = true;
        }
        if cell.right_gate_open && x + 1 < self.grid.columns() {
            g.right = true;
        }
        if y >= 1 {
            let above = self.grid.at(x, y - 1);
            if above.down_gate_open {
                g.top = true;
            }
        }
        if x >= 1 {
            let lefter = self.grid.at(x - 1, y);
            if lefter.right_gate_open {
                g.left = true;
            }
        }
        g
    }

    /// Whether every cell has been incorporated into the maze.
    pub fn is_visitation_complete(&self) -> (b: bool)
        requires
            self.wf(),
        ensures
            b == self.grid.all_visited(),
    {
        let count = self.grid.cell_count();
        let mut i: usize = 0;
        while i < count
            invariant
                self.wf(),
                count == self.cells().len(),
                i <= count,
                forall|j: int| 0 <= j < i ==> (#[trigger] self.cells()[j]).visited,
            decreases count - i,
        {
            let pos = self.grid.pin_coords(i);
            if !self.grid.at(pos.0, pos.1).visited {
                return false;
            }
            i = i + 1;
        }
        true
    }
}

impl Address {
    /// The address as `column:line`.
    pub fn to_str(&self) -> (r: String)
        ensures
            r@ == crate::walker::dec_str(self.column as int) + seq![':']
                + crate::walker::dec_str(self.line as int),
    {
        let mut out = String::new();
        crate::walker::push_dec_digits(self.column, &mut out);
        proof {
            reveal_strlit(":");
        }
        out.append(":");
        crate::walker::push_dec_digits(self.line, &mut out);
        proof {
            assert(":"@ =~= seq![':']);
            assert(out@ =~= crate::walker::dec_str(self.column as int) + seq![':']
                + crate::walker::dec_str(self.line as int));
        }
        out
    }

    /// The buffer slot this address resolves to in `m`.
    pub open spec fn slot_in(&self, m: OrthoMaze) -> int {
        m.slot_i(self.column as int, self.line as int)
    }

    /// Whether this address denotes a cell of `m`.
    pub open spec fn within(&self, m: OrthoMaze) -> bool {
        m.contains_i(self.column as int, self.line as int)
    }

    pub open spec fn spec_visited(&self, m: OrthoMaze) -> bool {
        self.within(m) && m.cells()[self.slot_in(m)].visited
    }

    pub fn mark_active(&self, maze: &mut OrthoMaze)
        requires
            old(maze).wf(),
        ensures
            old(maze).same_shape(final(maze)),
            self.within(*old(maze)) ==> final(maze).cells() == set_active(
                old(maze).cells(),
                self.slot_in(*old(maze)),
                true,
            ),
            !self.within(*old(maze)) ==> *final(maze) == *old(maze),
    {
        if let Some(cell) = maze.grid.try_at_mut(self.column, self.line) {
            cell.active = true;
        }
    }

    pub fn unmark_active(&self, maze: &mut OrthoMaze)
        requires
            old(maze).wf(),
        ensures
            old(maze).same_shape(final(maze)),
            self.within(*old(maze)) ==> final(maze).cells() == set_active(
                old(maze).cells(),
                self.slot_in(*old(maze)),
                false,
            ),
            !self.within(*old(maze)) ==> *final(maze) == *old(maze),
    {
        if let Some(cell) = maze.grid.try_at_mut(self.column, self.line) {
            cell.active = false;
        }
    }

    pub fn mark_current(&self, maze: &mut OrthoMaze)
        requires
            old(maze).wf(),
        ensures
            old(maze).same_shape(final(maze)),
            self.within(*old(maze)) ==> final(maze).cells() == set_current(
                old(maze).cells(),
                self.slot_in(*old(maze)),
                true,
            ),
            !self.within(*old(maze)) ==> *final(maze) == *old(maze),
    {
        if let Some(cell) = maze.grid.try_at_mut(self.column, self.line) {
            cell.current = true;
        }
    }

    pub fn unmark_current(&self, maze: &mut OrthoMaze)
        requires
            old(maze).wf(),
        ensures
            old(maze).same_shape(final(maze)),
            self.within(*old(maze)) ==> final(maze).cells() == set_current(
                old(maze).cells(),
                self.slot_in(*old(maze)),
                false,
            ),
            !self.within(*old(maze)) ==> *final(maze) == *old(maze),
    {
        if let Some(cell) = maze.grid.try_at_mut(self.column, self.line) {
            cell.current = false;
        }
    }

    pub fn mark_visit(&self, maze: &mut OrthoMaze)
        requires
            old(maze).wf(),
        ensures
            old(maze).same_shape(final(maze)),
            self.within(*old(maze)) ==> final(maze).cells() == set_visited(
                old(maze).cells(),
                self.slot_in(*old(maze)),
                true,
            ),
            !self.within(*old(maze)) ==> *final(maze) == *old(maze),
    {
        if let Some(cell) = maze.grid.try_at_mut(self.column, self.line) {
            cell.visited = true;
        }
    }

    pub fn unmark_visit(&self, maze: &mut OrthoMaze)
        requires
            old(maze).wf(),
        ensures
            old(maze).same_shape(final(maze)),
            self.within(*old(maze)) ==> final(maze).cells() == set_visited(
                old(maze).cells(),
                self.slot_in(*old(maze)),
                false,
            ),
            !self.within(*old(maze)) ==> *final(maze) == *old(maze),
    {
        if let Some(cell) = maze.grid.try_at_mut(self.column, self.line) {
            cell.visited = false;
        }
    }

    pub fn is_visited(&self, maze: &OrthoMaze) -> (b: bool)
        requires
            maze.wf(),
        ensures
            b == self.spec_visited(*maze),
    {
        match maze.grid.try_at(self.column, self.line) {
            Some(cell) => cell.visited,
            None => false,
        }
    }

    pub fn is_on_right_border(&self, maze: &OrthoMaze) -> (b: bool)
        ensures
            b == (self.column + 1 == maze.spec_columns()),
    {
        let c = maze.grid.columns();
        c >= 1 && self.column == c - 1
    }

    pub fn is_on_down_border(&self, maze: &OrthoMaze) -> (b: bool)
        ensures
            b == (self.line + 1 == maze.spec_lines()),
    {
        let l = maze.grid.lines();
        l >= 1 && self.line == l - 1
    }

    pub fn move_column(&self, x: usize) -> (a: Address)
        ensures
            a.column == x,
            a.line == self.line,
    {
        Address { column: x, line: self.line }
    }

    /// Whether the row-major cursor has passed the last cell.
    pub open spec fn spec_done_walking(&self, m: OrthoMaze) -> bool {
        self.line >= m.spec_lines() || self.column >= m.spec_columns()
    }

    pub fn is_done_walking_right_then_down(&self, maze: &OrthoMaze) -> (b: bool)
        ensures
            b == self.spec_done_walking(*maze),
    {
        self.line >= maze.grid.lines() || self.column >= maze.grid.columns()
    }

    /// Moves the cursor one row-major step, shifting the `current` mark
    /// with it; a cursor that walked past the last cell keeps no mark.
    pub fn walk_right_then_down(&mut self, maze: &mut OrthoMaze)
        requires
            old(maze).wf(),
            old(self).within(*old(maze)),
        ensures
            old(maze).same_shape(final(maze)),
            *final(self) == advance_right_then_down(*old(self), old(maze).spec_columns()),
            !final(self).spec_done_walking(*old(maze)) ==> final(maze).cells() == set_current(
                set_current(old(maze).cells(), old(self).slot_in(*old(maze)), false),
                final(self).slot_in(*old(maze)),
                true,
            ),
            final(self).spec_done_walking(*old(maze)) ==> final(maze).cells() == set_current(
                old(maze).cells(),
                old(self).slot_in(*old(maze)),
                false,
            ),
    {
        let unmarked = Address { column: self.column, line: self.line };
        unmarked.unmark_current(maze);

        self.column = self.column + 1;

        if self.column >= maze.grid.columns() {
            self.column = 0;
            self.line = self.line + 1;
        }

        if !self.is_done_walking_right_then_down(maze) {
            let marked = Address { column: self.column, line: self.line };
            marked.mark_current(maze);
        }
    }

    pub fn carve_right(&self, maze: &mut OrthoMaze)
        requires
            old(maze).wf(),
        ensures
            old(maze).same_shape(final(maze)),
            old(maze).carve_allowed(self.column as int, self.line as int, Way::Right)
                ==> final(maze).cells() == old(maze).cells().update(
                old(maze).slot_i(self.column as int, self.line as int),
                with_right_open(old(maze).cells()[old(maze).slot_i(self.column as int, self.line as int)]),
            ),
            !old(maze).carve_allowed(self.column as int, self.line as int, Way::Right)
                ==> *final(maze) == *old(maze),
    {
        let _ = maze.open_gate(self.column, self.line, Way::Right);
    }

    pub fn carve_down(&self, maze: &mut OrthoMaze)
        requires
            old(maze).wf(),
        ensures
            old(maze).same_shape(final(maze)),
            old(maze).carve_allowed(self.column as int, self.line as int, Way::Down)
                ==> final(maze).cells() == old(maze).cells().update(
                old(maze).slot_i(self.column as int, self.line as int),
                with_down_open(old(maze).cells()[old(maze).slot_i(self.column as int, self.line as int)]),
            ),
            !old(maze).carve_allowed(self.column as int, self.line as int, Way::Down)
                ==> *final(maze) == *old(maze),
    {
        let _ = maze.open_gate(self.column, self.line, Way::Down);
    }

    /// Carves between this address and `addr_to` when the two are exactly
    /// one in-bounds grid step apart; otherwise nothing moves.
    pub fn carve_to(&self, addr_to: &Address, maze: &mut OrthoMaze)
        requires
            old(maze).wf(),
        ensures
            old(maze).same_shape(final(maze)),
            match step_way(*self, *addr_to) {
                Some(way) => {
                    &&& old(maze).carve_allowed(self.column as int, self.line as int, way)
                        ==> final(maze).cells() == old(maze).cells().update(
                        old(maze).gate_slot(self.column as int, self.line as int, way),
                        if gate_stores_down(way) {
                            with_down_open(
                                old(maze).cells()[old(maze).gate_slot(
                                    self.column as int,
                                    self.line as int,
                                    way,
                                )],
                            )
                        } else {
                            with_right_open(
                                old(maze).cells()[old(maze).gate_slot(
                                    self.column as int,
                                    self.line as int,
                                    way,
                                )],
                            )
                        },
                    )
                    &&& !old(maze).carve_allowed(self.column as int, self.line as int, way)
                        ==> *final(maze) == *old(maze)
                },
                None => *final(maze) == *old(maze),
            },
    {
        let way = if addr_to.line == self.line && addr_to.column > self.column && addr_to.column
            - self.column == 1 {
            Some(Way::Right)
        } else if addr_to.line == self.line && self.column > addr_to.column && self.column
            - addr_to.column == 1 {
            Some(Way::Left)
        } else if addr_to.column == self.column && addr_to.line > self.line && addr_to.line
            - self.line == 1 {
            Some(Way::Down)
        } else if addr_to.column == self.column && self.line > addr_to.line && self.line
            - addr_to.line == 1 {
            Some(Way::Up)
        } else {
            None
        };
        if let Some(way) = way {
            let _ = maze.open_gate(self.column, self.line, way);
        }
    }
}

impl crate::grid::Within<MazeCell> for OrthoMaze {
    open spec fn spec_grid(&self) -> Grid<MazeCell> {
        self.grid
    }

    open spec fn with_grid(&self, g: Grid<MazeCell>) -> OrthoMaze {
        OrthoMaze { grid: g }
    }

    fn grid(&self) -> (r: &Grid<MazeCell>) {
        &self.grid
    }

    fn grid_mut(&mut self) -> (r: &mut Grid<MazeCell>) {
        &mut self.grid
    }
}

/// Each entry of the neighbour list is in bounds and exactly one grid
/// step away from `(x, y)`.
pub proof fn lemma_neighbour_adjacent(columns: int, lines: int, x: int, y: int, i: int)
    requires
        0 <= x < columns <= usize::MAX,
        0 <= y < lines <= usize::MAX,
        0 <= i < crate::grid::neighbour_coords(columns, lines, x, y).len(),
    ensures
        ({
            let c = crate::grid::neighbour_coords(columns, lines, x, y)[i];
            &&& 0 <= c.0 < columns
            &&& 0 <= c.1 < lines
            &&& step_way(
                Address { column: x as usize, line: y as usize },
                Address { column: c.0 as usize, line: c.1 as usize },
            ) is Some
        }),
{
}

/// Clears the active flag on the cells named by `walk[lo..hi]`.
pub(crate) fn unmark_active_range(
    walk: &Vec<Address>,
    lo: usize,
    hi: usize,
    maze: &mut OrthoMaze,
)
    requires
        old(maze).wf(),
        lo <= hi <= walk@.len(),
    ensures
        old(maze).same_shape(final(maze)),
        final(maze).cells() == active_cleared_on(
            old(maze).cells(),
            *old(maze),
            walk@.subrange(lo as int, hi as int),
        ),
{
    let ghost m0 = *maze;
    let ghost c0 = maze.cells();
    proof {
        assert(c0 =~= active_cleared_on(c0, m0, walk@.subrange(lo as int, lo as int)));
    }
    let mut i = lo;
    while i < hi
        invariant
            maze.wf(),
            m0.same_shape(maze),
            c0 == m0.cells(),
            lo <= i <= hi <= walk@.len(),
            m0.spec_columns() == maze.spec_columns(),
            m0.spec_lines() == maze.spec_lines(),
            maze.cells() == active_cleared_on(c0, m0, walk@.subrange(lo as int, i as int)),
        decreases hi - i,
    {
        let ghost prev = maze.cells();
        let entry = walk[i];
        entry.unmark_active(maze);
        proof {
            let sub1 = walk@.subrange(lo as int, i as int);
            let sub2 = walk@.subrange(lo as int, i as int + 1);
            let nextc = active_cleared_on(c0, m0, sub2);
            assert(forall|k: int| 0 <= k < sub2.len() ==> sub2[k] == walk@[lo + k]);
            assert(sub2[i - lo] == walk@[i as int]);
            if entry.within(m0) {
                let ij = entry.slot_in(m0);
                crate::grid::lemma_slot_in_bounds(
                    m0.spec_columns() as int,
                    m0.spec_lines() as int,
                    entry.column as int,
                    entry.line as int,
                );
                assert forall|j: int| 0 <= j < nextc.len() implies maze.cells()[j] == nextc[j] by {
                    if j == ij {
                        assert(sub2[i - lo].slot_in(m0) == j && sub2[i - lo].within(m0));
                        assert(nextc[j] == with_active(c0[j], false));
                        assert(maze.cells()[j] == with_active(prev[j], false));
                    } else {
                        assert(forall|k: int|
                            0 <= k < sub2.len() && #[trigger] sub2[k].slot_in(m0) == j && sub2[k].within(m0)
                                ==> k < sub1.len() && sub1[k].slot_in(m0) == j && sub1[k].within(m0));
                        assert(forall|k: int|
                            0 <= k < sub1.len() && #[trigger] sub1[k].slot_in(m0) == j && sub1[k].within(m0)
                                ==> 0 <= k < sub2.len() && sub2[k].slot_in(m0) == j && sub2[k].within(m0));
                    }
                };
                assert(maze.cells() =~= nextc);
            } else {
                assert forall|j: int| 0 <= j < nextc.len() implies maze.cells()[j] == nextc[j] by {
                    assert(forall|k: int|
                        0 <= k < sub2.len() && #[trigger] sub2[k].slot_in(m0) == j && sub2[k].within(m0)
                            ==> k < sub1.len() && sub1[k].slot_in(m0) == j && sub1[k].within(m0));
                    assert(forall|k: int|
                        0 <= k < sub1.len() && #[trigger] sub1[k].slot_in(m0) == j && sub1[k].within(m0)
                            ==> 0 <= k < sub2.len() && sub2[k].slot_in(m0) == j && sub2[k].within(m0));
                };
                assert(maze.cells() =~= nextc);
            }
        }
        i = i + 1;
    }
}

/// Resets the visited flag of every cell, for a full analysis restart.
pub(crate) fn unmark_all_visits(maze: &mut OrthoMaze)
    requires
        old(maze).wf(),
    ensures
        old(maze).same_shape(final(maze)),
        final(maze).cells() == Seq::new(
            old(maze).cells().len(),
            |j: int| with_visited(old(maze).cells()[j], false),
        ),
{
    let ghost m0 = *maze;
    let ghost c0 = maze.cells();
    proof {
        assert(maze.cells() =~= Seq::new(
            c0.len(),
            |j: int|
                if j < 0 {
                    with_visited(c0[j], false)
                } else {
                    c0[j]
                },
        ));
    }
    let mut crumbs = maze.grid.crumbs();
    let ghost max = crumbs.spec_max();
    let mut i: usize = 0;
    loop
        invariant
            maze.wf(),
            m0.same_shape(maze),
            c0 == m0.cells(),
            m0.spec_columns() == maze.spec_columns(),
            m0.spec_lines() == maze.spec_lines(),
            crumbs.spec_columns() == m0.spec_columns(),
            crumbs.spec_columns() >= 1 || crumbs.spec_max() == 0,
            crumbs.spec_max() == max,
            max == c0.len(),
            crumbs.spec_index() == i,
            i <= max,
            maze.cells() == Seq::new(
                c0.len(),
                |j: int|
                    if j < i {
                        with_visited(c0[j], false)
                    } else {
                        c0[j]
                    },
            ),
        ensures
            i == max,
        decreases max - i,
    {
        let ghost prev = maze.cells();
        let addr = match crumbs.next() {
            Some(a) => a,
            None => {
                break ;
            },
        };
        proof {
            crate::location::lemma_loc_div_mod(i as int, m0.spec_columns() as int);
            assert(addr.slot_in(m0) == i);
            assert(addr.within(m0)) by {
                crate::grid::lemma_pin_in_bounds(
                    m0.spec_columns() as int,
                    m0.spec_lines() as int,
                    i as int,
                );
            }
        }
        addr.unmark_visit(maze);
        proof {
            assert(maze.cells() =~= Seq::new(
                c0.len(),
                |j: int|
                    if j < i + 1 {
                        with_visited(c0[j], false)
                    } else {
                        c0[j]
                    },
            ));
        }
        i = i + 1;
    }
    proof {
        assert(maze.cells() =~= Seq::new(c0.len(), |j: int| with_visited(c0[j], false)));
    }
}

impl Grid<MazeCell> {
    /// The coordinates reachable from `(x, y)` through an open gate, in
    /// the fixed order up, left, down, right.
    pub open spec fn reachable_coords(&self, x: int, y: int) -> Seq<(int, int)> {
        (if self.way_open(x, y, Way::Up) {
            seq![(x, y - 1)]
        } else {
            Seq::empty()
        }) + (if self.way_open(x, y, Way::Left) {
            seq![(x - 1, y)]
        } else {
            Seq::empty()
        }) + (if self.way_open(x, y, Way::Down) {
            seq![(x, y + 1)]
        } else {
            Seq::empty()
        }) + (if self.way_open(x, y, Way::Right) {
            seq![(x + 1, y)]
        } else {
            Seq::empty()
        })
    }
}

impl<'a> crate::grid::Pos<'a, MazeCell> {
    pub fn is_visited(&self) -> (b: bool)
        requires
            self.wf(),
        ensures
            b == self.spec_cell().visited,
    {
        self.cell_value().visited
    }

    pub fn is_active(&self) -> (b: bool)
        requires
            self.wf(),
        ensures
            b == self.spec_cell().active,
    {
        self.cell_value().active
    }

    pub fn is_current(&self) -> (b: bool)
        requires
            self.wf(),
        ensures
            b == self.spec_cell().current,
    {
        self.cell_value().current
    }

    pub fn can_move_down(&self) -> (b: bool)
        requires
            self.wf(),
        ensures
            b == self.grid.way_open(self.column as int, self.line as int, Way::Down),
    {
        self.cell_value().down_gate_open && self.line + 1 < self.grid.lines()
    }

    pub fn can_move_right(&self) -> (b: bool)
        requires
            self.wf(),
        ensures
            b == self.grid.way_open(self.column as int, self.line as int, Way::Right),
    {
        self.cell_value().right_gate_open && self.column + 1 < self.grid.columns()
    }

    /// The neighbours connected to this cell through an open gate, in the
    /// fixed order up, left, down, right.
    pub fn reachable_neighbours(&self) -> (r: Vec<crate::grid::Pos<'a, MazeCell>>)
        requires
            self.wf(),
        ensures
            r@.map_values(|p: crate::grid::Pos<'a, MazeCell>| (p.column as int, p.line as int))
                == self.grid.reachable_coords(self.column as int, self.line as int),
            forall|i: int|
                0 <= i < r@.len() ==> (#[trigger] r@[i]).wf() && r@[i].grid == self.grid,
    {
        let x = self.column;
        let y = self.line;
        let mut result: Vec<crate::grid::Pos<'a, MazeCell>> = Vec::with_capacity(4);
        if y >= 1 && self.grid.at(x, y - 1).down_gate_open {
            result.push(crate::grid::Pos { column: x, line: y - 1, grid: self.grid });
        }
        if x >= 1 && self.grid.at(x - 1, y).right_gate_open {
            result.push(crate::grid::Pos { column: x - 1, line: y, grid: self.grid });
        }
        if y + 1 < self.grid.lines() && self.grid.at(x, y).down_gate_open {
            result.push(crate::grid::Pos { column: x, line: y + 1, grid: self.grid });
        }
        if x + 1 < self.grid.columns() && self.grid.at(x, y).right_gate_open {
            result.push(crate::grid::Pos { column: x + 1, line: y, grid: self.grid });
        }
        proof {
            assert(result@.map_values(
                |p: crate::grid::Pos<'a, MazeCell>| (p.column as int, p.line as int),
            ) =~= self.grid.reachable_coords(self.column as int, self.line as int));
        }
        result
    }
}

} // verus!
