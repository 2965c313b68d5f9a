use vstd::prelude::*;

use crate::grid::{Grid, Pos, Within};
use crate::highmap::CellStatus;

verus! {

/// A breadth-first depth overlay over the maze, tracking the deepest
/// path found so far.
pub struct OrthoDepthMap {
    pub grid: Grid<CellStatus>,
    pub max_path_depth: usize,
}

impl OrthoDepthMap {
    pub open spec fn wf(&self) -> bool {
        self.grid.wf()
    }

    pub fn new(w: usize, h: usize) -> (m: OrthoDepthMap)
        requires
            (w as int) * (h as int) <= usize::MAX,
        ensures
            m.wf(),
            m.grid.spec_columns() == w,
            m.grid.spec_lines() == h,
            forall|i: int| 0 <= i < m.grid@.len() ==> (#[trigger] m.grid@[i]).height is None,
            m.max_path_depth == 0,
    {
        let grid: Grid<CellStatus> = Grid::new(w, h);
        proof {
            assert(forall|c: CellStatus|
                call_ensures(CellStatus::default, (), c) ==> c.height is None);
        }
        OrthoDepthMap { grid, max_path_depth: 0 }
    }
}

impl Within<CellStatus> for OrthoDepthMap {
    open spec fn spec_grid(&self) -> Grid<CellStatus> {
        self.grid
    }

    open spec fn with_grid(&self, g: Grid<CellStatus>) -> OrthoDepthMap {
        OrthoDepthMap { grid: g, max_path_depth: self.max_path_depth }
    }

    fn grid(&self) -> (r: &Grid<CellStatus>) {
        &self.grid
    }

    fn grid_mut(&mut self) -> (r: &mut Grid<CellStatus>) {
        &mut self.grid
    }
}

impl<'a> Pos<'a, CellStatus> {
    pub fn depth(&self) -> (r: Option<usize>)
        requires
            self.wf(),
        ensures
            r == self.spec_cell().height,
    {
        self.cell_value().height
    }
}

} // verus!
