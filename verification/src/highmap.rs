use vstd::prelude::*;

use crate::grid::{Grid, Pos, PosMut, Within};

verus! {

/// One cell of a distance overlay: an optional depth, unset while the
/// cell is unreached.
#[derive(Debug, Clone, Copy, PartialEq, Eq, Structural)]
pub struct CellStatus {
    pub height: Option<usize>,
}

impl Default for CellStatus {
    fn default() -> (r: CellStatus)
        ensures
            r.height is None,
    {
        CellStatus { height: None }
    }
}

/// A breadth-first distance map over the maze, tracking the greatest
/// depth assigned so far.
pub struct OrthoHighMap {
    pub grid: Grid<CellStatus>,
    pub highest: usize,
}

impl OrthoHighMap {
    pub open spec fn wf(&self) -> bool {
        self.grid.wf()
    }

    pub open spec fn cells(&self) -> Seq<CellStatus> {
        self.grid@
    }

    pub open spec fn spec_columns(&self) -> usize {
        self.grid.spec_columns()
    }

    pub open spec fn spec_lines(&self) -> usize {
        self.grid.spec_lines()
    }

    pub open spec fn height_at(&self, x: int, y: int) -> Option<usize> {
        self.grid@[y * (self.spec_columns() as int) + x].height
    }

    pub fn new(w: usize, h: usize) -> (m: OrthoHighMap)
        requires
            (w as int) * (h as int) <= usize::MAX,
        ensures
            m.wf(),
            m.spec_columns() == w,
            m.spec_lines() == h,
            m.cells().len() == (w as int) * (h as int),
            forall|i: int| 0 <= i < m.cells().len() ==> (#[trigger] m.cells()[i]).height is None,
            m.highest == 0,
    {
        let grid: Grid<CellStatus> = Grid::new(w, h);
        proof {
            assert(forall|c: CellStatus|
                call_ensures(CellStatus::default, (), c) ==> c.height is None);
        }
        OrthoHighMap { grid, highest: 0 }
    }
}

impl Within<CellStatus> for OrthoHighMap {
    open spec fn spec_grid(&self) -> Grid<CellStatus> {
        self.grid
    }

    open spec fn with_grid(&self, g: Grid<CellStatus>) -> OrthoHighMap {
        OrthoHighMap { grid: g, highest: self.highest }
    }

    fn grid(&self) -> (r: &Grid<CellStatus>) {
        &self.grid
    }

    fn grid_mut(&mut self) -> (r: &mut Grid<CellStatus>) {
        &mut self.grid
    }
}

impl<'a> Pos<'a, CellStatus> {
    pub fn height(&self) -> (r: Option<usize>)
        requires
            self.wf(),
        ensures
            r == self.spec_cell().height,
    {
        self.cell_value().height
    }
}

impl PosMut {
    /// Records a depth for this cell in the owning map; out-of-bounds
    /// coordinates touch nothing.
    pub fn set_depth<W: Within<CellStatus>>(&self, map: &mut W, height: usize)
        requires
            old(map).spec_grid().wf(),
        ensures
            final(map).spec_grid().wf(),
            final(map).spec_grid().spec_columns() == old(map).spec_grid().spec_columns(),
            final(map).spec_grid().spec_lines() == old(map).spec_grid().spec_lines(),
            *final(map) == old(map).with_grid(final(map).spec_grid()),
            old(map).spec_grid().contains(self.column, self.line) ==> final(map).spec_grid()@
                == old(map).spec_grid()@.update(
                old(map).spec_grid().slot(self.column, self.line),
                CellStatus { height: Some(height) },
            ),
            !old(map).spec_grid().contains(self.column, self.line) ==> *final(map) == *old(map),
    {
        let grid = map.grid_mut();
        if let Some(cell) = grid.try_at_mut(self.column, self.line) {
            cell.height = Some(height);
        }
    }
}

} // verus!
