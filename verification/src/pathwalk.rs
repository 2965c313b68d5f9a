use vstd::prelude::*;

use crate::location::{Loc, LocGenerator};

verus! {

/// Walks every location of a grid in row-major order, one call at a time.
pub struct ZWalk {
    i: usize,
    limit: usize,
    locgen: LocGenerator,
}

impl ZWalk {
    pub closed spec fn spec_index(&self) -> usize {
        self.i
    }

    pub closed spec fn spec_limit(&self) -> usize {
        self.limit
    }

    pub closed spec fn spec_columns(&self) -> usize {
        self.locgen.spec_columns()
    }

    pub closed spec fn spec_lines(&self) -> usize {
        self.locgen.spec_lines()
    }

    /// The walk covers exactly the slots of the walked grid.
    pub open spec fn wf(&self) -> bool {
        self.spec_limit() as int == (self.spec_columns() as int) * (self.spec_lines() as int)
    }

    pub fn new(locgen: LocGenerator) -> (w: ZWalk)
        requires
            (locgen.spec_columns() as int) * (locgen.spec_lines() as int) <= usize::MAX,
        ensures
            w.wf(),
            w.spec_index() == 0,
            w.spec_columns() == locgen.spec_columns(),
            w.spec_lines() == locgen.spec_lines(),
    {
        let limit = locgen.columns() * locgen.lines();
        ZWalk { i: 0, limit, locgen }
    }

    pub fn next(&mut self) -> (r: Option<Loc>)
        requires
            old(self).wf(),
        ensures
            final(self).wf(),
            final(self).spec_limit() == old(self).spec_limit(),
            final(self).spec_columns() == old(self).spec_columns(),
            final(self).spec_lines() == old(self).spec_lines(),
            old(self).spec_index() < old(self).spec_limit() ==> (r matches Some(loc)
                && loc.wf()
                && loc.spec_spos() == old(self).spec_index()
                && loc.spec_columns() == old(self).spec_columns()
                && loc.spec_lines() == old(self).spec_lines()
                && loc.spec_column() as int == old(self).spec_index() as int % old(self).spec_columns() as int
                && loc.spec_line() as int == old(self).spec_index() as int / old(self).spec_columns() as int
                && loc.in_bounds()
                && final(self).spec_index() == old(self).spec_index() + 1),
            old(self).spec_index() >= old(self).spec_limit() ==> r is None
                && final(self).spec_index() == old(self).spec_index(),
    {
        if self.i >= self.limit {
            None
        } else {
            proof {
                lemma_zwalk_pos(
                    self.locgen.spec_columns() as int,
                    self.locgen.spec_lines() as int,
                    self.i as int,
                );
            }
            let loc = self.locgen.create_from_storage_pos(self.i);
            self.i = self.i + 1;
            Some(loc)
        }
    }
}

proof fn lemma_zwalk_pos(columns: int, lines: int, i: int)
    requires
        0 <= i < columns * lines,
        columns >= 0,
        lines >= 0,
    ensures
        columns >= 1,
        i / columns < lines,
        i % columns == i - (i / columns) * columns,
{
    assert(columns >= 1 && i / columns < lines && i % columns == i - (i / columns) * columns)
        by (nonlinear_arith)
        requires
            0 <= i < columns * lines,
            columns >= 0,
            lines >= 0,
    ;
}

} // verus!
