use vstd::prelude::*;

use crate::grid::Address;
use crate::maze::{
    advance_right_then_down, open_down_at, open_right_at, shift_current, MazeCell, OrthoMaze,
};
use crate::task::{Args, Status, StepEvent};

verus! {

/// Binary Tree carving: the cursor walks the grid row-major and opens,
/// at every cell, either the down or the right gate — forced along the
/// two far borders, chosen by a coin toss elsewhere.
pub struct BinaryTree {
    location: Address,
    last_event: Option<StepEvent>,
}

impl BinaryTree {
    pub closed spec fn spec_location(&self) -> Address {
        self.location
    }

    pub closed spec fn spec_last_event(&self) -> Option<StepEvent> {
        self.last_event
    }

    /// The cursor never leaves the column range and passes the line range
    /// by at most one row.
    pub open spec fn wf_for(&self, m: OrthoMaze) -> bool {
        self.spec_location().column < m.spec_columns() && self.spec_location().line
            <= m.spec_lines()
    }

    pub fn new(maze: &OrthoMaze) -> (t: BinaryTree)
        requires
            maze.wf(),
            1 <= maze.spec_columns(),
            1 <= maze.spec_lines(),
        ensures
            t.spec_location() == (Address { column: 0, line: 0 }),
            t.wf_for(*maze),
    {
        proof {
            crate::grid::lemma_slot_in_bounds(
                maze.spec_columns() as int,
                maze.spec_lines() as int,
                0,
                0,
            );
        }
        let mut crumbs = maze.grid.crumbs();
        let location = crumbs.next().unwrap();
        BinaryTree { location, last_event: None }
    }

    pub fn action(&self) -> (r: Option<StepEvent>)
        ensures
            r == self.spec_last_event(),
    {
        self.last_event
    }

    /// The gates after one step at cursor `a`: along the bottom border
    /// only the right gate opens, along the right border only the down
    /// gate, anywhere else the coin decides.
    pub open spec fn step_gates(m: OrthoMaze, a: Address, chose_down: bool) -> Seq<MazeCell> {
        let i = a.slot_in(m);
        if a.line + 1 == m.spec_lines() {
            if a.column + 1 < m.spec_columns() {
                open_right_at(m.cells(), i)
            } else {
                m.cells()
            }
        } else if a.column + 1 == m.spec_columns() {
            open_down_at(m.cells(), i)
        } else if chose_down {
            open_down_at(m.cells(), i)
        } else {
            open_right_at(m.cells(), i)
        }
    }

    /// One tick: carve at the cursor and move it one row-major step;
    /// report Done once the cursor has passed the last cell.
    pub fn execute_one(&mut self, args: &mut Args) -> (r: Status)
        requires
            old(args).wf(),
            old(self).wf_for(old(args).maze),
        ensures
            BinaryTree::step_rel(*old(self), *old(args), *final(self), *final(args), r),
    {
        let ghost m0 = args.maze;
        let ghost a = self.location;

        if self.location.is_done_walking_right_then_down(&args.maze) {
            return Status::Done;
        } else if self.location.is_on_down_border(&args.maze) {
            self.last_event = Some(StepEvent::ForcedCarveRight);
            self.location.carve_right(&mut args.maze);
        } else if self.location.is_on_right_border(&args.maze) {
            self.last_event = Some(StepEvent::ForcedCarveDown);
            self.location.carve_down(&mut args.maze);
        } else {
            let vert = crate::rng::rand_bool();
            if vert {
                self.last_event = Some(StepEvent::CarveDown);
                self.location.carve_down(&mut args.maze);
            } else {
                self.last_event = Some(StepEvent::CarveRight);
                self.location.carve_right(&mut args.maze);
            }
        }
        proof {
            assert(args.maze.cells() == BinaryTree::step_gates(m0, a, true) || args.maze.cells()
                == BinaryTree::step_gates(m0, a, false));
        }
        self.location.walk_right_then_down(&mut args.maze);
        Status::Continuing
    }
}

/// The active flag cleared on columns `[lo, hi)` of row `line`.
pub open spec fn run_cleared(
    m: Seq<MazeCell>,
    maze: OrthoMaze,
    line: int,
    lo: int,
    hi: int,
) -> Seq<MazeCell> {
    Seq::new(
        m.len(),
        |j: int|
            if exists|c: int| lo <= c < hi && j == maze.slot_i(c, line) {
                crate::maze::with_active(m[j], false)
            } else {
                m[j]
            },
    )
}

/// Sidewinder carving: the cursor walks row-major, extending a run of
/// cells rightward or closing it by carving down from one cell of the
/// run — forced to close on the right border, forced to extend on the
/// bottom one, a coin toss elsewhere.
pub struct SideWinder {
    pub location: Address,
    start_x: usize,
    last_event: Option<StepEvent>,
}

impl SideWinder {
    pub closed spec fn spec_location(&self) -> Address {
        self.location
    }

    pub closed spec fn spec_start_x(&self) -> usize {
        self.start_x
    }

    pub closed spec fn spec_last_event(&self) -> Option<StepEvent> {
        self.last_event
    }

    /// The cursor stays in the column range, passes the line range by at
    /// most one row, and never stands left of its run's start.
    pub open spec fn wf_for(&self, m: OrthoMaze) -> bool {
        &&& self.spec_location().column < m.spec_columns()
        &&& self.spec_location().line <= m.spec_lines()
        &&& self.spec_start_x() <= self.spec_location().column
    }

    pub fn new(maze: &OrthoMaze) -> (t: SideWinder)
        requires
            maze.wf(),
            1 <= maze.spec_columns(),
            1 <= maze.spec_lines(),
        ensures
            t.spec_location() == (Address { column: 0, line: 0 }),
            t.spec_start_x() == 0,
            t.wf_for(*maze),
    {
        proof {
            crate::grid::lemma_slot_in_bounds(
                maze.spec_columns() as int,
                maze.spec_lines() as int,
                0,
                0,
            );
        }
        let mut crumbs = maze.grid.crumbs();
        let location = crumbs.next().unwrap();
        let start_x = location.column;
        SideWinder { location, start_x, last_event: None }
    }

    pub fn action(&self) -> (r: Option<StepEvent>)
        ensures
            r == self.spec_last_event(),
    {
        self.last_event
    }

    /// The cells after a run `[start_x, a.column]` on row `a.line` closes
    /// with a down carve at column `door`: the run's active marks clear
    /// and, when the row is not the bottom one, the door's down gate
    /// opens.
    pub open spec fn run_closed(
        m0: OrthoMaze,
        cells: Seq<MazeCell>,
        a: Address,
        start_x: usize,
        door: usize,
    ) -> Seq<MazeCell> {
        let cleared = run_cleared(cells, m0, a.line as int, start_x as int, a.column as int);
        if m0.carve_allowed(door as int, a.line as int, crate::location::Way::Down) {
            open_down_at(cleared, m0.slot_i(door as int, a.line as int))
        } else {
            cleared
        }
    }

    /// The cells after one step that chose `close`, with `door` the
    /// column of the closing carve (ignored on an extending step).
    pub open spec fn step_cells(
        m0: OrthoMaze,
        a: Address,
        sx: usize,
        close: bool,
        door: usize,
    ) -> Seq<MazeCell> {
        if close {
            SideWinder::run_closed(m0, m0.cells(), a, sx, door)
        } else {
            SideWinder::run_extended(m0, m0.cells(), a)
        }
    }

    /// The cells after the run extends: the cursor cell is marked active
    /// and its right gate opens.
    pub open spec fn run_extended(m0: OrthoMaze, cells: Seq<MazeCell>, a: Address) -> Seq<
        MazeCell,
    > {
        open_right_at(crate::maze::set_active(cells, a.slot_in(m0), true), a.slot_in(m0))
    }

    /// Closes the current run: clears its active marks and carves down
    /// from a uniformly chosen door within `[start_x, location.column]`.
    fn close_group(&mut self, maze: &mut OrthoMaze)
        requires
            old(maze).wf(),
            old(self).wf_for(*old(maze)),
            old(self).spec_location().within(*old(maze)),
        ensures
            old(maze).same_shape(final(maze)),
            final(self).spec_location() == old(self).spec_location(),
            final(self).spec_start_x() == old(self).spec_start_x(),
            exists|door: usize|
                old(self).spec_start_x() <= door <= old(self).spec_location().column
                    && final(maze).cells() == #[trigger] SideWinder::run_closed(
                    *old(maze),
                    old(maze).cells(),
                    old(self).spec_location(),
                    old(self).spec_start_x(),
                    door,
                ),
    {
        let ghost m0 = *maze;
        let ghost c0 = maze.cells();
        let ghost a = self.location;
        let ghost sx = self.start_x;
        proof {
            assert(maze.cells() =~= run_cleared(c0, m0, a.line as int, sx as int, sx as int));
        }

        let mut column = self.start_x;
        while column < self.location.column
            invariant
                maze.wf(),
                m0.same_shape(maze),
                self == old(self),
                a == self.location,
                sx == self.start_x,
                self.wf_for(*maze),
                self.location.within(*maze),
                c0 == m0.cells(),
                m0.spec_columns() == maze.spec_columns(),
                m0.spec_lines() == maze.spec_lines(),
                sx <= column <= self.location.column,
                maze.cells() == run_cleared(c0, m0, a.line as int, sx as int, column as int),
            decreases self.location.column - column,
        {
            let ghost prev = maze.cells();
            let location = self.location.move_column(column);
            location.unmark_active(maze);
            proof {
                let line = a.line as int;
                let nextc = run_cleared(c0, m0, line, sx as int, column as int + 1);
                let ij = m0.slot_i(column as int, line);
                crate::grid::lemma_slot_in_bounds(
                    m0.spec_columns() as int,
                    m0.spec_lines() as int,
                    column as int,
                    line,
                );
                assert forall|j: int| 0 <= j < nextc.len() implies maze.cells()[j] == nextc[j] by {
                    if j == ij {
                        assert(sx <= column && j == m0.slot_i(column as int, line));
                        assert(forall|c: int|
                            sx <= c < column && #[trigger] m0.slot_i(c, line) == j ==> false);
                        assert(prev[j] == c0[j]);
                    } else {
                        assert(forall|c: int|
                            sx <= c < column as int + 1 && #[trigger] m0.slot_i(c, line) == j
                                ==> c < column);
                    }
                };
                assert(maze.cells() =~= nextc);
            }
            column = column + 1;
        }

        let count = self.location.column - self.start_x + 1;
        let door = self.start_x + crate::rng::rand_below(count);
        let door_loc = self.location.move_column(door);
        self.last_event = Some(StepEvent::RunClosed);
        door_loc.carve_down(maze);
        proof {
            assert(sx <= door <= a.column && maze.cells() == SideWinder::run_closed(
                m0,
                c0,
                a,
                sx,
                door,
            ));
        }
    }

    /// Extends the current run: marks the cursor cell active and carves
    /// right from it.
    fn continue_group(&mut self, maze: &mut OrthoMaze)
        requires
            old(maze).wf(),
            old(self).spec_location().within(*old(maze)),
            old(self).spec_location().column + 1 < old(maze).spec_columns(),
        ensures
            old(maze).same_shape(final(maze)),
            final(self).spec_location() == old(self).spec_location(),
            final(self).spec_start_x() == old(self).spec_start_x(),
            final(maze).cells() == SideWinder::run_extended(
                *old(maze),
                old(maze).cells(),
                old(self).spec_location(),
            ),
    {
        self.location.mark_active(maze);
        self.last_event = Some(StepEvent::RunExtended);
        self.location.carve_right(maze);
    }

    /// One tick: extend or close the current run at the cursor, then
    /// move the cursor one row-major step; report Done once the cursor
    /// has passed the last cell.
    pub fn execute_one(&mut self, args: &mut Args) -> (r: Status)
        requires
            old(args).wf(),
            old(self).wf_for(old(args).maze),
        ensures
            SideWinder::step_rel(*old(self), *old(args), *final(self), *final(args), r),
    {
        let ghost m0 = args.maze;
        let ghost a = self.location;
        let ghost sx = self.start_x;

        let mut update_start = false;

        if self.location.is_done_walking_right_then_down(&args.maze) {
            return Status::Done;
        } else if self.location.is_on_right_border(&args.maze) {
            self.close_group(&mut args.maze);
            update_start = true;
        } else if self.location.is_on_down_border(&args.maze) {
            self.continue_group(&mut args.maze);
        } else {
            let build_group = crate::rng::rand_bool();
            if build_group {
                self.continue_group(&mut args.maze);
            } else {
                self.close_group(&mut args.maze);
                update_start = true;
            }
        }

        let ghost mid = args.maze.cells();
        let ghost stepped = advance_right_then_down(a, m0.spec_columns());

        self.location.walk_right_then_down(&mut args.maze);

        if update_start {
            self.start_x = self.location.column;
        }

        proof {
            assert(args.maze.cells() == shift_current(mid, m0, a, stepped));
            if update_start {
                let door = choose|door: usize|
                    sx <= door <= a.column && mid == #[trigger] SideWinder::run_closed(
                        m0,
                        m0.cells(),
                        a,
                        sx,
                        door,
                    );
                assert(mid == SideWinder::step_cells(m0, a, sx, true, door));
            } else {
                assert(mid == SideWinder::step_cells(m0, a, sx, false, sx));
            }
        }

        if self.location.is_done_walking_right_then_down(&args.maze) {
            Status::Done
        } else {
            Status::Continuing
        }
    }
}

/// Whether `walk` holds `addr`.
fn walk_contains(walk: &Vec<Address>, addr: &Address) -> (b: bool)
    ensures
        b == walk@.contains(*addr),
{
    let n = walk.len();
    let mut i: usize = 0;
    while i < n
        invariant
            n == walk@.len(),
            i <= n,
            forall|k: int| 0 <= k < i ==> walk@[k] != *addr,
        decreases n - i,
    {
        if walk[i].column == addr.column && walk[i].line == addr.line {
            proof {
                assert(walk@[i as int] == *addr);
            }
            return true;
        }
        i = i + 1;
    }
    proof {
        assert(forall|k: int| 0 <= k < walk@.len() ==> walk@[k] != *addr);
    }
    false
}

/// Aldous-Broder carving: an uninformed random walk over the grid that
/// carves a gate whenever it first reaches an unvisited cell, finished
/// once every cell has been visited.
pub struct AldousBroder {
    pub location: Address,
    walk: Vec<Address>,
    restart_walk: bool,
    last_event: Option<StepEvent>,
}

impl AldousBroder {
    pub closed spec fn spec_location(&self) -> Address {
        self.location
    }

    pub closed spec fn spec_walk(&self) -> Seq<Address> {
        self.walk@
    }

    pub closed spec fn spec_restart(&self) -> bool {
        self.restart_walk
    }

    pub closed spec fn spec_last_event(&self) -> Option<StepEvent> {
        self.last_event
    }

    /// The cursor and every buffered walk cell lie inside the maze.
    pub open spec fn wf_for(&self, m: OrthoMaze) -> bool {
        &&& self.spec_location().within(m)
        &&& forall|k: int| 0 <= k < self.spec_walk().len() ==> (#[trigger] self.spec_walk()[k]).within(m)
    }

    pub fn new(maze: &OrthoMaze) -> (t: AldousBroder)
        requires
            maze.wf(),
            1 <= maze.spec_columns(),
            1 <= maze.spec_lines(),
        ensures
            t.spec_location() == (Address { column: 0, line: 0 }),
            t.spec_walk() == Seq::<Address>::empty(),
            t.spec_restart(),
            t.wf_for(*maze),
    {
        proof {
            crate::grid::lemma_slot_in_bounds(
                maze.spec_columns() as int,
                maze.spec_lines() as int,
                0,
                0,
            );
        }
        let mut crumbs = maze.grid.crumbs();
        let unused_location = crumbs.next().unwrap();
        let t = AldousBroder {
            location: unused_location,
            walk: Vec::new(),
            restart_walk: true,
            last_event: None,
        };
        proof {
            assert(t.spec_walk() =~= Seq::<Address>::empty());
        }
        t
    }

    pub fn action(&self) -> (r: Option<StepEvent>)
        ensures
            r == self.spec_last_event(),
    {
        self.last_event
    }

    /// Clears the active highlight of the buffered walk and empties it.
    fn clear_walk(&mut self, maze: &mut OrthoMaze)
        requires
            old(maze).wf(),
        ensures
            old(maze).same_shape(final(maze)),
            final(maze).cells() == crate::maze::active_cleared_on(
                old(maze).cells(),
                *old(maze),
                old(self).spec_walk(),
            ),
            final(self).spec_walk() == Seq::<Address>::empty(),
            final(self).spec_location() == old(self).spec_location(),
            final(self).spec_restart() == old(self).spec_restart(),
            final(self).spec_last_event() == old(self).spec_last_event(),
    {
        let n = self.walk.len();
        crate::maze::unmark_active_range(&self.walk, 0, n, maze);
        proof {
            assert(self.walk@.subrange(0, n as int) =~= self.walk@);
        }
        self.walk.clear();
        proof {
            assert(self.walk@ =~= Seq::<Address>::empty());
        }
    }

    /// Clears every transient highlight this walk left behind: the
    /// cursor's mark and the walk buffer's active flags.
    fn clear_all(&mut self, maze: &mut OrthoMaze)
        requires
            old(maze).wf(),
            old(self).spec_location().within(*old(maze)),
        ensures
            old(maze).same_shape(final(maze)),
            final(maze).cells() == crate::maze::active_cleared_on(
                crate::maze::set_current(
                    old(maze).cells(),
                    old(self).spec_location().slot_in(*old(maze)),
                    false,
                ),
                *old(maze),
                old(self).spec_walk(),
            ),
            final(self).spec_walk() == Seq::<Address>::empty(),
            final(self).spec_location() == old(self).spec_location(),
            final(self).spec_restart() == old(self).spec_restart(),
            final(self).spec_last_event() == old(self).spec_last_event(),
    {
        let ghost m0 = *maze;
        let ghost w0 = self.walk@;
        self.location.unmark_current(maze);
        let ghost mmid = *maze;
        self.clear_walk(maze);
        proof {
            crate::maze::lemma_active_cleared_congruent(mmid.cells(), mmid, m0, w0);
        }
    }

    /// Resets every visited flag, for a full analysis restart.
    pub fn clear_visit(&self, maze: &mut OrthoMaze)
        requires
            old(maze).wf(),
        ensures
            old(maze).same_shape(final(maze)),
            final(maze).cells() == Seq::new(
                old(maze).cells().len(),
                |j: int| crate::maze::with_visited(old(maze).cells()[j], false),
            ),
    {
        crate::maze::unmark_all_visits(maze);
    }

    /// Moves the cursor to `addr`, marking the left cell visited and
    /// active and buffering it on the walk.
    fn walk_to(&mut self, addr: Address, maze: &mut OrthoMaze)
        requires
            old(maze).wf(),
            old(self).spec_location().within(*old(maze)),
        ensures
            old(maze).same_shape(final(maze)),
            ({
                let ia = old(self).spec_location().slot_in(*old(maze));
                let inext = addr.slot_in(*old(maze));
                final(maze).cells() == crate::maze::set_current(
                    crate::maze::set_active(
                        crate::maze::set_visited(
                            crate::maze::set_current(old(maze).cells(), ia, false),
                            ia,
                            true,
                        ),
                        ia,
                        true,
                    ),
                    inext,
                    true,
                ) || (!addr.within(*old(maze)) && final(maze).cells()
                    == crate::maze::set_active(
                    crate::maze::set_visited(
                        crate::maze::set_current(old(maze).cells(), ia, false),
                        ia,
                        true,
                    ),
                    ia,
                    true,
                ))
            }),
            final(self).spec_walk() == old(self).spec_walk().push(old(self).spec_location()),
            final(self).spec_location() == addr,
            final(self).spec_restart() == old(self).spec_restart(),
    {
        let moved = Address { column: self.location.column, line: self.location.line };
        moved.unmark_current(maze);
        moved.mark_visit(maze);
        moved.mark_active(maze);
        self.walk.push(moved);
        addr.mark_current(maze);
        self.location = addr;
    }

    /// Draws a uniformly random in-bounds neighbour of the cursor; only a
    /// single-cell grid leaves the draw without a candidate.
    fn pick_next(&self, maze: &OrthoMaze) -> (r: Result<Address, &'static str>)
        requires
            maze.wf(),
            self.spec_location().within(*maze),
        ensures
            match r {
                Ok(next) => {
                    &&& next.within(*maze)
                    &&& crate::maze::step_way(self.spec_location(), next) is Some
                    &&& (maze.spec_columns() > 1 || maze.spec_lines() > 1)
                },
                Err(_) => maze.spec_columns() == 1 && maze.spec_lines() == 1,
            },
    {
        pick_adjacent_rand(&self.location, maze)
    }

    /// One tick of the walk: move to a random neighbour, carving the
    /// joining gate exactly when that neighbour was unvisited; finished
    /// once every cell is visited, clearing the transient highlights.
    pub fn execute_one(&mut self, args: &mut Args) -> (r: Status)
        requires
            old(args).wf(),
            old(self).wf_for(old(args).maze),
        ensures
            AldousBroder::step_rel(*old(self), *old(args), *final(self), *final(args), r),
    {
        let ghost m0 = args.maze;
        let ghost c0 = args.maze.cells();
        let ghost a = self.location;

        if self.restart_walk {
            self.clear_walk(&mut args.maze);
            self.restart_walk = false;
        }
        proof {
            if !old(self).spec_restart() {
                assert(args.maze.cells() == c0);
            }
        }
        let ghost base = args.maze.cells();
        let ghost wb = self.walk@;

        let next_addr = match self.pick_next(&args.maze) {
            Err(msg) => {
                self.last_event = Some(StepEvent::NoNeighbours);
                proof {
                    assert(self.location.within(args.maze));
                    assert forall|k: int|
                        0 <= k < self.walk@.len() implies (#[trigger] self.walk@[k]).within(
                        args.maze,
                    ) by {
                        assert(self.walk@[k] == wb[k]);
                        if !old(self).spec_restart() {
                            assert(wb[k] == old(self).spec_walk()[k]);
                            assert(old(self).spec_walk()[k].within(m0));
                        }
                    };
                }
                return Status::Aborted(msg.to_owned());
            },
            Ok(value) => value,
        };

        proof {
            assert(next_addr.within(m0));
            assert(crate::maze::step_way(a, next_addr) is Some);
            crate::grid::lemma_slot_in_bounds(
                m0.spec_columns() as int,
                m0.spec_lines() as int,
                next_addr.column as int,
                next_addr.line as int,
            );
            assert(args.maze.cells()[next_addr.slot_in(m0)].visited
                == c0[next_addr.slot_in(m0)].visited);
        }
        let must_carve = !next_addr.is_visited(&args.maze);
        let ghost mbase = args.maze;
        if must_carve {
            self.last_event = Some(StepEvent::CarveToUnvisited);
            self.location.carve_to(&next_addr, &mut args.maze);
            proof {
                assert(args.maze.cells() == crate::maze::open_between(base, mbase, a, next_addr));
                assert(args.maze.cells() == crate::maze::open_between(base, m0, a, next_addr));
            }
        } else {
            self.last_event = Some(StepEvent::MoveWithoutCarve);
        }
        let ghost carved = args.maze.cells();

        self.restart_walk = !must_carve || walk_contains(&self.walk, &next_addr);
        proof {
            assert(must_carve == !c0[next_addr.slot_in(m0)].visited);
            assert(self.restart_walk == (c0[next_addr.slot_in(m0)].visited || wb.contains(
                next_addr,
            )));
        }

        self.walk_to(next_addr, &mut args.maze);
        let ghost after = args.maze.cells();
        proof {
            let ia = a.slot_in(m0);
            let inext = next_addr.slot_in(m0);
            assert(after == crate::maze::set_current(
                crate::maze::set_active(
                    crate::maze::set_visited(
                        crate::maze::set_current(carved, ia, false),
                        ia,
                        true,
                    ),
                    ia,
                    true,
                ),
                inext,
                true,
            ));
        }

        if args.maze.is_visitation_complete() {
            self.last_event = Some(StepEvent::MazeComplete);
            let ghost mafter = args.maze;
            self.clear_all(&mut args.maze);
            proof {
                let inext = next_addr.slot_in(m0);
                let wafter = wb.push(a);
                crate::maze::lemma_active_cleared_congruent(
                    crate::maze::set_current(after, inext, false),
                    mafter,
                    m0,
                    wafter,
                );
                assert forall|j: int|
                    0 <= j < args.maze.cells().len() implies (#[trigger] args.maze.cells()[j]).visited by {
                    assert(after[j].visited);
                }
                assert(self.location.within(args.maze));
                assert(self.walk@.len() == 0);
                let ia = a.slot_in(m0);
                let base_e = if old(self).spec_restart() {
                    crate::maze::active_cleared_on(c0, m0, old(self).spec_walk())
                } else {
                    c0
                };
                assert(base == base_e);
                let wb_e = if old(self).spec_restart() {
                    Seq::<Address>::empty()
                } else {
                    old(self).spec_walk()
                };
                assert(wb =~= wb_e);
                let carved_e = if !c0[inext].visited {
                    crate::maze::open_between(base_e, m0, a, next_addr)
                } else {
                    base_e
                };
                assert(carved == carved_e);
                let after_e = crate::maze::set_current(
                    crate::maze::set_active(
                        crate::maze::set_visited(
                            crate::maze::set_current(carved_e, ia, false),
                            ia,
                            true,
                        ),
                        ia,
                        true,
                    ),
                    inext,
                    true,
                );
                assert(after == after_e);
                assert(crate::maze::all_cells_visited(after_e)) by {
                    assert forall|i: int| 0 <= i < after_e.len() implies (#[trigger] after_e[i]).visited by {
                        assert(mafter.grid@[i].visited);
                    }
                };
                assert(self.walk@ =~= Seq::<Address>::empty());
            }
            Status::Done
        } else {
            proof {
                let ia = a.slot_in(m0);
                let inext = next_addr.slot_in(m0);
                let base_e = if old(self).spec_restart() {
                    crate::maze::active_cleared_on(c0, m0, old(self).spec_walk())
                } else {
                    c0
                };
                assert(base == base_e);
                let wb_e = if old(self).spec_restart() {
                    Seq::<Address>::empty()
                } else {
                    old(self).spec_walk()
                };
                assert(wb =~= wb_e);
                let carved_e = if !c0[inext].visited {
                    crate::maze::open_between(base_e, m0, a, next_addr)
                } else {
                    base_e
                };
                assert(carved == carved_e);
                let after_e = crate::maze::set_current(
                    crate::maze::set_active(
                        crate::maze::set_visited(
                            crate::maze::set_current(carved_e, ia, false),
                            ia,
                            true,
                        ),
                        ia,
                        true,
                    ),
                    inext,
                    true,
                );
                assert(after == after_e);
                assert(!args.maze.grid.all_visited());
                assert(!crate::maze::all_cells_visited(after_e)) by {
                    if crate::maze::all_cells_visited(after_e) {
                        assert forall|i: int|
                            0 <= i < args.maze.grid@.len() implies (#[trigger] args.maze.grid@[i]).visited by {
                            assert(after_e[i].visited);
                        }
                    }
                };
                let wafter = wb.push(a);
                assert(self.walk@ == wafter);
                assert(self.location == next_addr);
                assert(args.maze.cells() == after);
                assert(self.location.within(args.maze));
                assert forall|k: int|
                    0 <= k < self.walk@.len() implies (#[trigger] self.walk@[k]).within(
                    args.maze,
                ) by {
                    if k < wb.len() {
                        assert(self.walk@[k] == wb[k]);
                        if !old(self).spec_restart() {
                            assert(wb[k] == old(self).spec_walk()[k]);
                            assert(old(self).spec_walk()[k].within(m0));
                        }
                    } else {
                        assert(self.walk@[k] == a);
                    }
                };
            }
            Status::Continuing
        }
    }
}

/// Draws a uniformly random in-bounds neighbour of `location`; only a
/// single-cell grid leaves the draw without a candidate.
fn pick_adjacent_rand(location: &Address, maze: &OrthoMaze) -> (r: Result<Address, &'static str>)
    requires
        maze.wf(),
        location.within(*maze),
    ensures
        match r {
            Ok(next) => {
                &&& next.within(*maze)
                &&& crate::maze::step_way(*location, next) is Some
                &&& (maze.spec_columns() > 1 || maze.spec_lines() > 1)
            },
            Err(_) => maze.spec_columns() == 1 && maze.spec_lines() == 1,
        },
{
    let pos = location.from(maze).unwrap();
    let candidates = pos.neighbours();
    let n = candidates.len();
    if n == 0 {
        proof {
            let nc = crate::grid::neighbour_coords(
                maze.spec_columns() as int,
                maze.spec_lines() as int,
                location.column as int,
                location.line as int,
            );
            assert(candidates@.map_values(
                |p: crate::grid::Pos<MazeCell>| (p.column as int, p.line as int),
            ).len() == 0);
            assert(nc.len() == 0);
            if maze.spec_columns() > 1 || maze.spec_lines() > 1 {
                if location.line as int >= 1 {
                    assert(nc.len() >= 1);
                } else if location.line as int + 1 < maze.spec_lines() as int {
                    assert(nc.len() >= 1);
                } else if location.column as int >= 1 {
                    assert(nc.len() >= 1);
                } else {
                    assert(location.column as int + 1 < maze.spec_columns() as int);
                    assert(nc.len() >= 1);
                }
            }
        }
        Err("impossible situation - no neighbours")
    } else {
        let i = crate::rng::rand_below(n);
        let chosen = &candidates[i];
        let next = Address { column: chosen.column, line: chosen.line };
        proof {
            let nc = crate::grid::neighbour_coords(
                maze.spec_columns() as int,
                maze.spec_lines() as int,
                location.column as int,
                location.line as int,
            );
            assert(candidates@.map_values(
                |p: crate::grid::Pos<MazeCell>| (p.column as int, p.line as int),
            )[i as int] == nc[i as int]);
            crate::maze::lemma_neighbour_adjacent(
                maze.spec_columns() as int,
                maze.spec_lines() as int,
                location.column as int,
                location.line as int,
                i as int,
            );
        }
        Ok(next)
    }
}

/// The position of the first occurrence of `a` in `w`.
pub open spec fn first_index_of(w: Seq<Address>, a: Address) -> int
    decreases w.len(),
{
    if w.len() == 0 {
        0
    } else if w[0] == a {
        0
    } else {
        1 + first_index_of(w.drop_first(), a)
    }
}

/// The first occurrence really is the first: it holds `a` and nothing
/// before it does.
pub proof fn lemma_first_index_of(w: Seq<Address>, a: Address)
    requires
        w.contains(a),
    ensures
        ({
            let k = first_index_of(w, a);
            &&& 0 <= k < w.len()
            &&& w[k] == a
            &&& forall|j: int| 0 <= j < k ==> w[j] != a
        }),
    decreases w.len(),
{
    if w.len() == 0 {
    } else if w[0] == a {
    } else {
        let i = choose|i: int| 0 <= i < w.len() && w[i] == a;
        assert(w.drop_first()[i - 1] == a);
        assert(w.drop_first().contains(a));
        lemma_first_index_of(w.drop_first(), a);
        let k = first_index_of(w, a);
        assert(k == 1 + first_index_of(w.drop_first(), a));
        assert forall|j: int| 0 <= j < k implies w[j] != a by {
            if j >= 1 {
                assert(w.drop_first()[j - 1] == w[j]);
            }
        }
    }
}

/// The cells after a committed walk: along each consecutive pair of the
/// path, the source cell loses its active mark, gains the visited mark,
/// and the joining gate opens.
pub open spec fn commit_pairs(m: Seq<MazeCell>, maze: OrthoMaze, path: Seq<Address>) -> Seq<
    MazeCell,
>
    decreases path.len(),
{
    if path.len() < 2 {
        m
    } else {
        let i0 = path[0].slot_in(maze);
        let step = crate::maze::open_between(
            crate::maze::set_visited(crate::maze::set_active(m, i0, false), i0, true),
            maze,
            path[0],
            path[1],
        );
        commit_pairs(step, maze, path.drop_first())
    }
}

/// A walk whose entries all lie inside the maze, each one grid step
/// from the next.
pub open spec fn chain_of_adjacent(m: OrthoMaze, path: Seq<Address>) -> bool {
    &&& forall|i: int| 0 <= i < path.len() ==> (#[trigger] path[i]).within(m)
    &&& forall|i: int|
        0 <= i < path.len() - 1 ==> crate::maze::step_way(path[i], #[trigger] path[i + 1]) is Some
}

/// A single in-bounds grid step is always a permitted carve.
pub proof fn lemma_adjacent_carve_allowed(
    m: OrthoMaze,
    from: Address,
    to: Address,
    way: crate::location::Way,
)
    requires
        m.wf(),
        from.within(m),
        to.within(m),
        crate::maze::step_way(from, to) == Some(way),
    ensures
        m.carve_allowed(from.column as int, from.line as int, way),
{
}

/// Law: committing never closes a gate nor clears a visited flag.
pub proof fn lemma_commit_pairs_monotone(
    m: Seq<MazeCell>,
    maze: OrthoMaze,
    path: Seq<Address>,
    j: int,
)
    requires
        maze.wf(),
        m.len() == maze.cells().len(),
        0 <= j < m.len(),
        forall|i: int| 0 <= i < path.len() ==> (#[trigger] path[i]).within(maze),
    ensures
        ({
            let out = commit_pairs(m, maze, path);
            &&& out.len() == m.len()
            &&& (m[j].down_gate_open ==> out[j].down_gate_open)
            &&& (m[j].right_gate_open ==> out[j].right_gate_open)
            &&& (m[j].visited ==> out[j].visited)
        }),
    decreases path.len(),
{
    if path.len() >= 2 {
        let i0 = path[0].slot_in(maze);
        crate::grid::lemma_slot_in_bounds(
            maze.spec_columns() as int,
            maze.spec_lines() as int,
            path[0].column as int,
            path[0].line as int,
        );
        assert(maze.spec_columns() as int * (maze.spec_lines() as int) == (
        maze.spec_lines() as int) * (maze.spec_columns() as int)) by (nonlinear_arith);
        let step = crate::maze::open_between(
            crate::maze::set_visited(crate::maze::set_active(m, i0, false), i0, true),
            maze,
            path[0],
            path[1],
        );
        let mid = crate::maze::set_visited(crate::maze::set_active(m, i0, false), i0, true);
        assert(mid.len() == m.len());
        match crate::maze::step_way(path[0], path[1]) {
            Some(way) => {
                if maze.carve_allowed(path[0].column as int, path[0].line as int, way) {
                    crate::maze::lemma_gate_slot_in_bounds(
                        maze,
                        path[0].column as int,
                        path[0].line as int,
                        way,
                    );
                }
            },
            None => {},
        }
        assert(step.len() == m.len());
        assert(m[j].down_gate_open ==> step[j].down_gate_open);
        assert(m[j].right_gate_open ==> step[j].right_gate_open);
        assert(m[j].visited ==> step[j].visited);
        assert(forall|i: int|
            0 <= i < path.drop_first().len() ==> #[trigger] path.drop_first()[i] == path[i + 1]);
        lemma_commit_pairs_monotone(step, maze, path.drop_first(), j);
    }
}

/// Law: committing a pairwise-adjacent in-bounds walk opens the joining
/// gate of every consecutive pair and marks every stepped-from cell
/// visited.
pub proof fn lemma_commit_pairs_chain(
    m: Seq<MazeCell>,
    maze: OrthoMaze,
    path: Seq<Address>,
    i: int,
)
    requires
        maze.wf(),
        m.len() == maze.cells().len(),
        chain_of_adjacent(maze, path),
        0 <= i < path.len() - 1,
    ensures
        ({
            let out = commit_pairs(m, maze, path);
            &&& out[path[i].slot_in(maze)].visited
            &&& forall|way: crate::location::Way|
                crate::maze::step_way(path[i], path[i + 1]) == Some(way) ==> (
                if crate::maze::gate_stores_down(way) {
                    out[#[trigger] maze.gate_slot(path[i].column as int, path[i].line as int, way)].down_gate_open
                } else {
                    out[maze.gate_slot(path[i].column as int, path[i].line as int, way)].right_gate_open
                })
        }),
    decreases path.len(),
{
    let cols = maze.spec_columns() as int;
    let lines = maze.spec_lines() as int;
    assert(cols * lines == lines * cols) by (nonlinear_arith);
    let i0 = path[0].slot_in(maze);
    crate::grid::lemma_slot_in_bounds(cols, lines, path[0].column as int, path[0].line as int);
    let step = crate::maze::open_between(
        crate::maze::set_visited(crate::maze::set_active(m, i0, false), i0, true),
        maze,
        path[0],
        path[1],
    );
    match crate::maze::step_way(path[0], path[1]) {
        Some(way) => {
            if maze.carve_allowed(path[0].column as int, path[0].line as int, way) {
                crate::maze::lemma_gate_slot_in_bounds(
                    maze,
                    path[0].column as int,
                    path[0].line as int,
                    way,
                );
            }
        },
        None => {},
    }
    assert(step.len() == m.len());
    assert(forall|k: int|
        0 <= k < path.drop_first().len() ==> #[trigger] path.drop_first()[k] == path[k + 1]);
    if i == 0 {
        let way = choose|way: crate::location::Way|
            crate::maze::step_way(path[0], path[1]) == Some(way);
        lemma_adjacent_carve_allowed(maze, path[0], path[1], way);
        crate::grid::lemma_slot_in_bounds(cols, lines, path[1].column as int, path[1].line as int);
        let ig = maze.gate_slot(path[0].column as int, path[0].line as int, way);
        assert(0 <= ig < m.len());
        assert(step[i0].visited);
        assert(if crate::maze::gate_stores_down(way) {
            step[ig].down_gate_open
        } else {
            step[ig].right_gate_open
        });
        lemma_commit_pairs_monotone(step, maze, path.drop_first(), i0);
        lemma_commit_pairs_monotone(step, maze, path.drop_first(), ig);
        assert(commit_pairs(m, maze, path) == commit_pairs(step, maze, path.drop_first()));
    } else {
        lemma_commit_pairs_chain(step, maze, path.drop_first(), i - 1);
        assert(path.drop_first()[i - 1] == path[i]);
        assert(path.drop_first()[i] == path[i + 1]);
    }
}

/// Wilson carving: a loop-erased random walk. Each walk starts on a
/// random unvisited cell, erases any loop it forms against its own
/// buffer, and commits — carving every consecutive pair — the moment it
/// touches a visited cell.
pub struct Wilson {
    pub location: Address,
    started: bool,
    walk: Vec<Address>,
    last_event: Option<StepEvent>,
}

impl Wilson {
    pub closed spec fn spec_location(&self) -> Address {
        self.location
    }

    pub closed spec fn spec_started(&self) -> bool {
        self.started
    }

    pub closed spec fn spec_walk(&self) -> Seq<Address> {
        self.walk@
    }

    pub closed spec fn spec_last_event(&self) -> Option<StepEvent> {
        self.last_event
    }

    /// The cursor and every buffered walk cell lie inside the maze.
    pub open spec fn wf_for(&self, m: OrthoMaze) -> bool {
        &&& self.spec_location().within(m)
        &&& forall|k: int|
            0 <= k < self.spec_walk().len() ==> (#[trigger] self.spec_walk()[k]).within(m)
    }

    pub fn new(maze: &OrthoMaze) -> (t: Wilson)
        requires
            maze.wf(),
            1 <= maze.spec_columns(),
            1 <= maze.spec_lines(),
        ensures
            t.spec_location() == (Address { column: 0, line: 0 }),
            !t.spec_started(),
            t.spec_walk() == Seq::<Address>::empty(),
            t.wf_for(*maze),
    {
        proof {
            crate::grid::lemma_slot_in_bounds(
                maze.spec_columns() as int,
                maze.spec_lines() as int,
                0,
                0,
            );
        }
        let mut crumbs = maze.grid.crumbs();
        let location = crumbs.next().unwrap();
        let t = Wilson { location, started: false, walk: Vec::new(), last_event: None };
        proof {
            assert(t.spec_walk() =~= Seq::<Address>::empty());
        }
        t
    }

    pub fn action(&self) -> (r: Option<StepEvent>)
        ensures
            r == self.spec_last_event(),
    {
        self.last_event
    }

    /// The not-yet-committed walk, oldest entry first.
    pub fn walk_buffer(&self) -> (r: &Vec<Address>)
        ensures
            r@ == self.spec_walk(),
    {
        &self.walk
    }

    /// Clears the cursor's transient mark once the maze is complete.
    fn clear_all(&mut self, maze: &mut OrthoMaze)
        requires
            old(maze).wf(),
            old(self).spec_location().within(*old(maze)),
        ensures
            old(maze).same_shape(final(maze)),
            final(maze).cells() == crate::maze::set_current(
                old(maze).cells(),
                old(self).spec_location().slot_in(*old(maze)),
                false,
            ),
            final(self).spec_location() == old(self).spec_location(),
            final(self).spec_started() == old(self).spec_started(),
            final(self).spec_walk() == old(self).spec_walk(),
            final(self).spec_last_event() == old(self).spec_last_event(),
    {
        self.location.unmark_current(maze);
    }

    /// Resets every visited flag, for a full analysis restart.
    pub fn clear_visit(&self, maze: &mut OrthoMaze)
        requires
            old(maze).wf(),
        ensures
            old(maze).same_shape(final(maze)),
            final(maze).cells() == Seq::new(
                old(maze).cells().len(),
                |j: int| crate::maze::with_visited(old(maze).cells()[j], false),
            ),
    {
        crate::maze::unmark_all_visits(maze);
    }

    /// Moves the cursor to `addr`, marking the left cell active and
    /// buffering it on the walk.
    pub fn walk_to(&mut self, addr: Address, maze: &mut OrthoMaze)
        requires
            old(maze).wf(),
            old(self).spec_location().within(*old(maze)),
        ensures
            old(maze).same_shape(final(maze)),
            ({
                let ia = old(self).spec_location().slot_in(*old(maze));
                let inext = addr.slot_in(*old(maze));
                final(maze).cells() == crate::maze::set_current(
                    crate::maze::set_active(
                        crate::maze::set_current(old(maze).cells(), ia, false),
                        ia,
                        true,
                    ),
                    inext,
                    true,
                ) || (!addr.within(*old(maze)) && final(maze).cells() == crate::maze::set_active(
                    crate::maze::set_current(old(maze).cells(), ia, false),
                    ia,
                    true,
                ))
            }),
            final(self).spec_walk() == old(self).spec_walk().push(old(self).spec_location()),
            final(self).spec_location() == addr,
            final(self).spec_started() == old(self).spec_started(),
    {
        let moved = Address { column: self.location.column, line: self.location.line };
        moved.unmark_current(maze);
        moved.mark_active(maze);
        self.walk.push(moved);
        addr.mark_current(maze);
        self.location = addr;
    }

    /// Commits the walk extended by the cursor and `addr`: every
    /// consecutive pair of the path is carved and each stepped-from cell
    /// is marked visited and loses its active highlight; the buffer
    /// empties.
    pub fn commit_walk(&mut self, addr: Address, maze: &mut OrthoMaze)
        requires
            old(maze).wf(),
            old(self).wf_for(*old(maze)),
            addr.within(*old(maze)),
        ensures
            old(maze).same_shape(final(maze)),
            final(maze).cells() == commit_pairs(
                old(maze).cells(),
                *old(maze),
                old(self).spec_walk().push(old(self).spec_location()).push(addr),
            ),
            final(self).spec_walk() == Seq::<Address>::empty(),
            final(self).spec_location() == old(self).spec_location(),
            final(self).spec_started() == old(self).spec_started(),
    {
        let ghost m0 = *maze;
        let ghost c0 = maze.cells();
        let here = Address { column: self.location.column, line: self.location.line };
        self.walk.push(here);
        self.walk.push(addr);
        let ghost full = self.walk@;

        let n = self.walk.len();
        proof {
            assert(full.skip(0) =~= full);
            assert forall|j: int| 0 <= j < full.len() implies (#[trigger] full[j]).within(m0) by {
                if j < full.len() - 2 {
                    assert(full[j] == old(self).spec_walk()[j]);
                    assert(old(self).spec_walk()[j].within(m0));
                } else if j == full.len() - 2 {
                    assert(full[j] == here);
                } else {
                    assert(full[j] == addr);
                }
            };
        }
        let mut k: usize = 0;
        while k + 1 < n
            invariant
                maze.wf(),
                m0.same_shape(maze),
                c0 == m0.cells(),
                m0.spec_columns() == maze.spec_columns(),
                m0.spec_lines() == maze.spec_lines(),
                n == self.walk@.len(),
                self.walk@ == full,
                n >= 2,
                k <= n - 1,
                forall|j: int| 0 <= j < full.len() ==> (#[trigger] full[j]).within(m0),
                commit_pairs(c0, m0, full) == commit_pairs(
                    maze.cells(),
                    m0,
                    full.skip(k as int),
                ),
                self.location == old(self).spec_location(),
                self.started == old(self).spec_started(),
            decreases n - k,
        {
            let ghost prev = maze.cells();
            let src = self.walk[k];
            let dst = self.walk[k + 1];
            src.unmark_active(maze);
            src.mark_visit(maze);
            src.carve_to(&dst, maze);
            proof {
                let ik = src.slot_in(m0);
                crate::grid::lemma_slot_in_bounds(
                    m0.spec_columns() as int,
                    m0.spec_lines() as int,
                    src.column as int,
                    src.line as int,
                );
                let stepc = crate::maze::open_between(
                    crate::maze::set_visited(crate::maze::set_active(prev, ik, false), ik, true),
                    m0,
                    src,
                    dst,
                );
                assert(maze.cells() == stepc);
                assert(full.skip(k as int)[0] == full[k as int]);
                assert(full.skip(k as int)[1] == full[k as int + 1]);
                assert(full.skip(k as int).drop_first() =~= full.skip(k as int + 1));
                assert(commit_pairs(prev, m0, full.skip(k as int)) == commit_pairs(
                    stepc,
                    m0,
                    full.skip(k as int + 1),
                ));
            }
            k = k + 1;
        }
        proof {
            assert(full.skip(n as int - 1).len() == 1);
            assert(commit_pairs(maze.cells(), m0, full.skip(n as int - 1)) == maze.cells());
        }
        self.walk.clear();
        proof {
            assert(self.walk@ =~= Seq::<Address>::empty());
        }
    }

    /// Draws a uniformly random in-bounds neighbour of the cursor; only a
    /// single-cell grid leaves the draw without a candidate.
    fn pick_next(&self, maze: &OrthoMaze) -> (r: Result<Address, &'static str>)
        requires
            maze.wf(),
            self.spec_location().within(*maze),
        ensures
            match r {
                Ok(next) => {
                    &&& next.within(*maze)
                    &&& crate::maze::step_way(self.spec_location(), next) is Some
                    &&& (maze.spec_columns() > 1 || maze.spec_lines() > 1)
                },
                Err(_) => maze.spec_columns() == 1 && maze.spec_lines() == 1,
            },
    {
        pick_adjacent_rand(&self.location, maze)
    }

    /// Draws random cells until an unvisited one comes up, giving up
    /// after as many draws as the grid has cells.
    fn pick_rand_unvisited(&self, maze: &OrthoMaze) -> (r: Result<Address, &'static str>)
        requires
            maze.wf(),
            maze.cells().len() > 0,
        ensures
            match r {
                Ok(next) => next.within(*maze) && !maze.cells()[next.slot_in(*maze)].visited,
                Err(_) => true,
            },
    {
        let unvisited = |pos: crate::grid::Pos<MazeCell>| -> (r: bool)
            requires
                pos.wf(),
            ensures
                r == !pos.spec_cell().visited,
            {
                !pos.is_visited()
            };
        let picked = maze.grid.anywhere_rand_match(unvisited);
        match picked {
            None => Err("impossible situation - no more unvisited cell"),
            Some(pos) => {
                proof {
                    crate::grid::lemma_slot_in_bounds(
                        maze.spec_columns() as int,
                        maze.spec_lines() as int,
                        pos.column as int,
                        pos.line as int,
                    );
                }
                Ok(Address { column: pos.column, line: pos.line })
            },
        }
    }

    /// Rewinds the walk to the first buffered occurrence of `addr`: the
    /// buffer keeps exactly the entries before it, every erased entry
    /// loses its active highlight, and the cursor moves to `addr`.
    pub fn rewind_to(&mut self, addr: Address, maze: &mut OrthoMaze)
        requires
            old(maze).wf(),
            old(self).wf_for(*old(maze)),
            old(self).spec_walk().contains(addr),
        ensures
            old(maze).same_shape(final(maze)),
            ({
                let w0 = old(self).spec_walk();
                let k = first_index_of(w0, addr);
                &&& final(self).spec_walk() == w0.take(k)
                &&& final(self).spec_location() == addr
                &&& final(maze).cells() == crate::maze::set_current(
                    crate::maze::set_current(
                        crate::maze::active_cleared_on(old(maze).cells(), *old(maze), w0.skip(k)),
                        old(self).spec_location().slot_in(*old(maze)),
                        false,
                    ),
                    addr.slot_in(*old(maze)),
                    true,
                )
            }),
            final(self).spec_started() == old(self).spec_started(),
    {
        let ghost m0 = *maze;
        let ghost w0 = self.walk@;
        proof {
            lemma_first_index_of(w0, addr);
        }

        let n = self.walk.len();
        let mut k: usize = 0;
        loop
            invariant
                n == self.walk@.len(),
                self.walk@ == w0,
                k <= n,
                w0.contains(addr),
                forall|j: int| 0 <= j < k ==> w0[j] != addr,
            ensures
                k < n,
                w0[k as int] == addr,
                forall|j: int| 0 <= j < k ==> w0[j] != addr,
            decreases n - k,
        {
            proof {
                if k >= n {
                    let i = choose|i: int| 0 <= i < w0.len() && w0[i] == addr;
                    assert(w0[i] != addr);
                }
            }
            let e = self.walk[k];
            if e.column == addr.column && e.line == addr.line {
                proof {
                    assert(w0[k as int] == addr);
                }
                break ;
            }
            k = k + 1;
        }
        proof {
            let fi = first_index_of(w0, addr);
            if (k as int) < fi {
                assert(w0[k as int] != addr);
            }
            if fi < k as int {
                assert(w0[fi] != addr);
            }
            assert(k as int == fi);
        }

        crate::maze::unmark_active_range(&self.walk, k, n, maze);
        proof {
            assert(self.walk@.subrange(k as int, n as int) =~= w0.skip(k as int));
        }
        self.walk.truncate(k);
        proof {
            assert(self.walk@ =~= w0.take(k as int));
        }

        let here = Address { column: self.location.column, line: self.location.line };
        here.unmark_current(maze);
        addr.mark_current(maze);
        self.location = addr;
        proof {
            let mmid = crate::maze::active_cleared_on(m0.cells(), m0, w0.skip(k as int));
            crate::maze::lemma_active_cleared_congruent(m0.cells(), *maze, m0, w0.skip(k as int));
            assert(addr.within(m0)) by {
                assert(w0[k as int].within(m0));
            }
        }
    }

    /// Relocates the cursor to a random unvisited cell, clearing its old
    /// mark; aborts when the draws find none.
    fn relocate_rand(&mut self, maze: &mut OrthoMaze) -> (r: Status)
        requires
            old(maze).wf(),
            old(self).spec_location().within(*old(maze)),
            old(maze).cells().len() > 0,
        ensures
            old(maze).same_shape(final(maze)),
            final(self).spec_walk() == old(self).spec_walk(),
            final(self).spec_started() == old(self).spec_started(),
            !(r is Done),
            ({
                let c1 = crate::maze::set_current(
                    old(maze).cells(),
                    old(self).spec_location().slot_in(*old(maze)),
                    false,
                );
                if r is Continuing {
                    exists|chosen: Address|
                        #[trigger] chosen.within(*old(maze)) && !old(maze).cells()[chosen.slot_in(
                            *old(maze),
                        )].visited && final(self).spec_location() == chosen && final(maze).cells()
                            == crate::maze::set_current(c1, chosen.slot_in(*old(maze)), true)
                } else {
                    final(maze).cells() == c1 && final(self).spec_location() == old(self).spec_location()
                }
            }),
    {
        let ghost m0 = *maze;
        let here = Address { column: self.location.column, line: self.location.line };
        proof {
            crate::grid::lemma_slot_in_bounds(
                m0.spec_columns() as int,
                m0.spec_lines() as int,
                here.column as int,
                here.line as int,
            );
        }
        here.unmark_current(maze);
        let ghost mmid = *maze;
        proof {
            assert(mmid.cells() == crate::maze::set_current(m0.cells(), here.slot_in(m0), false));
        }

        let picked = match self.pick_rand_unvisited(maze) {
            Err(msg) => {
                self.last_event = Some(StepEvent::NoUnvisitedCell);
                return Status::Aborted(msg.to_owned());
            },
            Ok(value) => value,
        };

        self.location = picked;
        self.last_event = Some(StepEvent::Relocated);
        let moved = Address { column: self.location.column, line: self.location.line };
        moved.mark_current(maze);
        proof {
            assert(picked.within(m0));
            crate::grid::lemma_slot_in_bounds(
                m0.spec_columns() as int,
                m0.spec_lines() as int,
                picked.column as int,
                picked.line as int,
            );
            assert(!mmid.cells()[picked.slot_in(mmid)].visited);
            assert(picked.slot_in(mmid) == picked.slot_in(m0));
            assert(mmid.cells()[picked.slot_in(m0)].visited == m0.cells()[picked.slot_in(m0)].visited);
            assert(!m0.cells()[picked.slot_in(m0)].visited);
            assert(maze.cells() == crate::maze::set_current(
                crate::maze::set_current(m0.cells(), here.slot_in(m0), false),
                picked.slot_in(m0),
                true,
            ));
        }
        Status::Continuing
    }
}

impl Wilson {
    /// One tick: on the first tick mark a start cell visited and
    /// relocate to a random unvisited cell; afterwards walk to a random
    /// neighbour, erasing a loop on first recurrence, committing the walk
    /// the moment it touches a visited cell, and relocating after each
    /// commit; finished once every cell is visited.
    pub fn execute_one(&mut self, args: &mut Args) -> (r: Status)
        requires
            old(args).wf(),
            old(self).wf_for(old(args).maze),
        ensures
            Wilson::step_rel(*old(self), *old(args), *final(self), *final(args), r),
    {
        let ghost m0 = args.maze;
        let ghost c0 = args.maze.cells();
        let ghost a = self.location;
        let ghost w0 = self.walk@;

        proof {
            crate::grid::lemma_slot_in_bounds(
                m0.spec_columns() as int,
                m0.spec_lines() as int,
                a.column as int,
                a.line as int,
            );
        }

        if !self.started {
            self.started = true;
            let start = Address { column: self.location.column, line: self.location.line };
            start.mark_visit(&mut args.maze);
            self.last_event = Some(StepEvent::Started);
            let ghost mmid = args.maze;
            let r = self.relocate_rand(&mut args.maze);
            proof {
                assert forall|k: int|
                    0 <= k < self.walk@.len() implies (#[trigger] self.walk@[k]).within(
                    args.maze,
                ) by {
                    assert(self.walk@[k] == old(self).spec_walk()[k]);
                    assert(old(self).spec_walk()[k].within(old(args).maze));
                };
                let ia = a.slot_in(m0);
                let c1 = crate::maze::set_visited(c0, ia, true);
                let c2 = crate::maze::set_current(c1, ia, false);
                assert(mmid.cells() == c1);
                if r is Continuing {
                    let chosen = choose|chosen: Address|
                        #[trigger] chosen.within(mmid) && !mmid.cells()[chosen.slot_in(
                            mmid,
                        )].visited && self.spec_location() == chosen && args.maze.cells()
                            == crate::maze::set_current(
                            crate::maze::set_current(mmid.cells(), a.slot_in(mmid), false),
                            chosen.slot_in(mmid),
                            true,
                        );
                    assert(chosen.within(m0));
                    assert(args.maze.cells() == crate::maze::set_current(
                        c2,
                        chosen.slot_in(m0),
                        true,
                    ));
                }
            }
            return r;
        }

        let next_addr = match self.pick_next(&args.maze) {
            Err(msg) => {
                self.last_event = Some(StepEvent::NoNeighbours);
                proof {
                    assert forall|k: int|
                        0 <= k < self.walk@.len() implies (#[trigger] self.walk@[k]).within(
                        args.maze,
                    ) by {
                        assert(self.walk@[k] == old(self).spec_walk()[k]);
                        assert(old(self).spec_walk()[k].within(old(args).maze));
                    };
                }
                return Status::Aborted(msg.to_owned());
            },
            Ok(value) => value,
        };
        proof {
            assert(next_addr.within(m0));
            assert(crate::maze::step_way(a, next_addr) is Some);
            crate::grid::lemma_slot_in_bounds(
                m0.spec_columns() as int,
                m0.spec_lines() as int,
                next_addr.column as int,
                next_addr.line as int,
            );
        }

        let next_is_visited = next_addr.is_visited(&args.maze);
        if next_is_visited {
            self.commit_walk(next_addr, &mut args.maze);
            let ghost full = w0.push(a).push(next_addr);
            let ghost committed = commit_pairs(c0, m0, full);
            proof {
                assert(args.maze.cells() == committed);
            }

            if args.maze.is_visitation_complete() {
                self.last_event = Some(StepEvent::MazeComplete);
                let ghost mafter = args.maze;
                self.clear_all(&mut args.maze);
                proof {
                    assert(crate::maze::all_cells_visited(committed)) by {
                        assert forall|i: int|
                            0 <= i < committed.len() implies (#[trigger] committed[i]).visited by {
                            assert(mafter.grid@[i].visited);
                        }
                    };
                    assert(args.maze.cells() == crate::maze::set_current(
                        committed,
                        a.slot_in(m0),
                        false,
                    ));
                    assert forall|j: int|
                        0 <= j < args.maze.cells().len() implies (#[trigger] args.maze.cells()[j]).visited by {
                        assert(committed[j].visited);
                    }
                }
                Status::Done
            } else {
                self.last_event = Some(StepEvent::WalkCommitted);
                let ghost mmid = args.maze;
                let r = self.relocate_rand(&mut args.maze);
                proof {
                    let ia = a.slot_in(m0);
                    let cleared = crate::maze::set_current(committed, ia, false);
                    assert(!crate::maze::all_cells_visited(committed)) by {
                        if crate::maze::all_cells_visited(committed) {
                            assert forall|i: int|
                                0 <= i < mmid.grid@.len() implies (#[trigger] mmid.grid@[i]).visited by {
                                assert(committed[i].visited);
                            }
                        }
                    };
                    if r is Continuing {
                        let chosen = choose|chosen: Address|
                            #[trigger] chosen.within(mmid) && !mmid.cells()[chosen.slot_in(
                                mmid,
                            )].visited && self.spec_location() == chosen && args.maze.cells()
                                == crate::maze::set_current(
                                crate::maze::set_current(mmid.cells(), a.slot_in(mmid), false),
                                chosen.slot_in(mmid),
                                true,
                            );
                        assert(chosen.within(m0));
                        assert(!committed[chosen.slot_in(m0)].visited);
                        assert(args.maze.cells() == crate::maze::set_current(
                            cleared,
                            chosen.slot_in(m0),
                            true,
                        ));
                    }
                }
                r
            }
        } else {
            let is_in_current_walk = walk_contains(&self.walk, &next_addr);

            if is_in_current_walk {
                self.last_event = Some(StepEvent::LoopErased);
                proof {
                    assert forall|j: int|
                        0 <= j < self.walk@.len() implies (#[trigger] self.walk@[j]).within(
                        args.maze,
                    ) by {
                        assert(self.walk@[j] == old(self).spec_walk()[j]);
                        assert(old(self).spec_walk()[j].within(old(args).maze));
                    };
                }
                self.rewind_to(next_addr, &mut args.maze);
                proof {
                    let k = first_index_of(w0, next_addr);
                    lemma_first_index_of(w0, next_addr);
                    assert forall|j: int|
                        0 <= j < self.walk@.len() implies (#[trigger] self.walk@[j]).within(
                        args.maze,
                    ) by {
                        assert(self.walk@[j] == w0[j]);
                        assert(w0[j] == old(self).spec_walk()[j]);
                        assert(old(self).spec_walk()[j].within(old(args).maze));
                    };
                }
                Status::Continuing
            } else {
                self.last_event = Some(StepEvent::WalkContinued);
                self.walk_to(next_addr, &mut args.maze);
                proof {
                    assert forall|j: int|
                        0 <= j < self.walk@.len() implies (#[trigger] self.walk@[j]).within(
                        args.maze,
                    ) by {
                        if j < w0.len() {
                            assert(self.walk@[j] == w0[j]);
                            assert(w0[j] == old(self).spec_walk()[j]);
                            assert(old(self).spec_walk()[j].within(old(args).maze));
                        } else {
                            assert(self.walk@[j] == a);
                        }
                    };
                }
                Status::Continuing
            }
        }
    }
}

/// Law: on the bottom row (away from the corner) a Binary Tree step
/// carves only the rightward gate of the cursor cell, whatever the coin
/// said.
pub proof fn lemma_binary_tree_bottom_row(m: OrthoMaze, a: Address, chose_down: bool)
    requires
        m.wf(),
        a.within(m),
        a.line + 1 == m.spec_lines(),
        a.column + 1 < m.spec_columns(),
    ensures
        ({
            let i = a.slot_in(m);
            let g0 = crate::maze::gates_of(m.cells());
            crate::maze::gates_of(BinaryTree::step_gates(m, a, chose_down)) == g0.update(
                i,
                (g0[i].0, true),
            )
        }),
{
    crate::grid::lemma_slot_in_bounds(
        m.spec_columns() as int,
        m.spec_lines() as int,
        a.column as int,
        a.line as int,
    );
    let i = a.slot_in(m);
    let g0 = crate::maze::gates_of(m.cells());
    assert(crate::maze::gates_of(BinaryTree::step_gates(m, a, chose_down)) =~= g0.update(
        i,
        (g0[i].0, true),
    ));
}

/// Law: on the right column (away from the corner) a Binary Tree step
/// carves only the downward gate of the cursor cell, whatever the coin
/// said.
pub proof fn lemma_binary_tree_right_column(m: OrthoMaze, a: Address, chose_down: bool)
    requires
        m.wf(),
        a.within(m),
        a.column + 1 == m.spec_columns(),
        a.line + 1 < m.spec_lines(),
    ensures
        ({
            let i = a.slot_in(m);
            let g0 = crate::maze::gates_of(m.cells());
            crate::maze::gates_of(BinaryTree::step_gates(m, a, chose_down)) == g0.update(
                i,
                (true, g0[i].1),
            )
        }),
{
    crate::grid::lemma_slot_in_bounds(
        m.spec_columns() as int,
        m.spec_lines() as int,
        a.column as int,
        a.line as int,
    );
    let i = a.slot_in(m);
    let g0 = crate::maze::gates_of(m.cells());
    assert(crate::maze::gates_of(BinaryTree::step_gates(m, a, chose_down)) =~= g0.update(
        i,
        (true, g0[i].1),
    ));
}

/// Law: a closing carve opens exactly one gate — the chosen door's down
/// gate, when the row below exists — and never a right gate: every other
/// gate bit stays as it was.
pub proof fn lemma_closed_run_gates(
    m0: OrthoMaze,
    cells: Seq<MazeCell>,
    a: Address,
    start_x: usize,
    door: usize,
)
    requires
        m0.wf(),
        a.within(m0),
        cells.len() == m0.cells().len(),
    ensures
        ({
            let out = SideWinder::run_closed(m0, cells, a, start_x, door);
            let idoor = m0.slot_i(door as int, a.line as int);
            &&& out.len() == cells.len()
            &&& forall|j: int|
                0 <= j < cells.len() ==> (#[trigger] out[j]).right_gate_open
                    == cells[j].right_gate_open
            &&& forall|j: int|
                0 <= j < cells.len() && j != idoor ==> (#[trigger] out[j]).down_gate_open
                    == cells[j].down_gate_open
            &&& (m0.carve_allowed(door as int, a.line as int, crate::location::Way::Down)
                ==> out[idoor].down_gate_open)
            &&& (!m0.carve_allowed(door as int, a.line as int, crate::location::Way::Down)
                ==> forall|j: int|
                0 <= j < cells.len() ==> (#[trigger] out[j]).down_gate_open
                    == cells[j].down_gate_open)
        }),
{
    let cols = m0.spec_columns() as int;
    let lines = m0.spec_lines() as int;
    let line = a.line as int;
    let cleared = run_cleared(cells, m0, line, start_x as int, a.column as int);
    assert(cleared.len() == cells.len());
    assert(cols * lines == lines * cols) by (nonlinear_arith);
    assert forall|j: int|
        0 <= j < cells.len() implies (#[trigger] cleared[j]).right_gate_open
            == cells[j].right_gate_open && cleared[j].down_gate_open
            == cells[j].down_gate_open by {};
    if m0.carve_allowed(door as int, line, crate::location::Way::Down) {
        crate::grid::lemma_slot_in_bounds(cols, lines, door as int, line);
    }
}

/// Law: once a run closes, no cell of the completed run keeps the active
/// flag. The closing cell itself is never marked by a run extension,
/// stated here as the premise on the pre-state.
pub proof fn lemma_closed_run_inactive(
    m0: OrthoMaze,
    cells: Seq<MazeCell>,
    a: Address,
    start_x: usize,
    door: usize,
    c: int,
)
    requires
        m0.wf(),
        a.within(m0),
        cells.len() == m0.cells().len(),
        start_x <= a.column,
        start_x <= c <= a.column,
        !cells[m0.slot_i(a.column as int, a.line as int)].active,
    ensures
        !SideWinder::run_closed(m0, cells, a, start_x, door)[m0.slot_i(c, a.line as int)].active,
{
    crate::grid::lemma_slot_in_bounds(
        m0.spec_columns() as int,
        m0.spec_lines() as int,
        a.column as int,
        a.line as int,
    );
    let line = a.line as int;
    let j = m0.slot_i(c, line);
    crate::grid::lemma_slot_in_bounds(m0.spec_columns() as int, m0.spec_lines() as int, c, line);
    if m0.carve_allowed(door as int, line, crate::location::Way::Down) {
        crate::grid::lemma_slot_in_bounds(
            m0.spec_columns() as int,
            m0.spec_lines() as int,
            door as int,
            line,
        );
    }
    let cleared = run_cleared(cells, m0, line, start_x as int, a.column as int);
    if c < a.column {
        assert(start_x <= c < a.column && j == m0.slot_i(c, line));
        assert(cleared[j] == crate::maze::with_active(cells[j], false));
    } else {
        assert(forall|d: int|
            start_x <= d < a.column && #[trigger] m0.slot_i(d, line) == j ==> false);
        assert(cleared[j] == cells[j]);
    }
    assert(!cleared[j].active);
}


impl BinaryTree {
    /// Everything one tick guarantees: the relation between the pre and
    /// post task states, the pre and post shared grids, and the status.
    pub open spec fn step_rel(pre: BinaryTree, a0: Args, post: BinaryTree, a1: Args, r: Status) -> bool {

    &&& (a1.wf())
    &&& (a0.maze.same_shape(&a1.maze))
    &&& (a1.highmap == a0.highmap)
    &&& (post.wf_for(a1.maze))
    &&& (({
                let m0 = a0.maze;
                let a = pre.spec_location();
                if a.spec_done_walking(m0) {
                    &&& r is Done
                    &&& a1 == a0
                    &&& post.spec_location() == a
                } else {
                    let stepped = advance_right_then_down(a, m0.spec_columns());
                    &&& r is Continuing
                    &&& post.spec_location() == stepped
                    &&& exists|chose_down: bool|
                        a1.maze.cells() == shift_current(
                            #[trigger] BinaryTree::step_gates(m0, a, chose_down),
                            m0,
                            a,
                            stepped,
                        )
                }
            }))
    }
}

impl SideWinder {
    /// Everything one tick guarantees: the relation between the pre and
    /// post task states, the pre and post shared grids, and the status.
    pub open spec fn step_rel(pre: SideWinder, a0: Args, post: SideWinder, a1: Args, r: Status) -> bool {

    &&& (a1.wf())
    &&& (a0.maze.same_shape(&a1.maze))
    &&& (a1.highmap == a0.highmap)
    &&& (post.wf_for(a1.maze))
    &&& (({
                let m0 = a0.maze;
                let a = pre.spec_location();
                let sx = pre.spec_start_x();
                if a.spec_done_walking(m0) {
                    &&& r is Done
                    &&& a1 == a0
                    &&& post.spec_location() == a
                    &&& post.spec_start_x() == sx
                } else {
                    let stepped = advance_right_then_down(a, m0.spec_columns());
                    &&& (r is Done <==> stepped.spec_done_walking(m0))
                    &&& (r is Done || r is Continuing)
                    &&& post.spec_location() == stepped
                    &&& exists|close: bool, door: usize|
                        ((a.column + 1 == m0.spec_columns() ==> close) && (a.line + 1
                            == m0.spec_lines() && a.column + 1 < m0.spec_columns() ==> !close) && sx
                            <= door <= a.column && a1.maze.cells() == shift_current(
                            #[trigger] SideWinder::step_cells(m0, a, sx, close, door),
                            m0,
                            a,
                            stepped,
                        ) && post.spec_start_x() == (if close {
                            stepped.column
                        } else {
                            sx
                        }))
                }
            }))
    }
}

impl AldousBroder {
    /// Everything one tick guarantees: the relation between the pre and
    /// post task states, the pre and post shared grids, and the status.
    pub open spec fn step_rel(pre: AldousBroder, a0: Args, post: AldousBroder, a1: Args, r: Status) -> bool {

    &&& (a1.wf())
    &&& (a0.maze.same_shape(&a1.maze))
    &&& (a1.highmap == a0.highmap)
    &&& (post.wf_for(a1.maze))
    &&& (r is Done ==> a1.maze.grid.all_visited())
    &&& (r is Aborted <==> a0.maze.spec_columns() == 1 && a0.maze.spec_lines()
                == 1)
    &&& (({
                let m0 = a0.maze;
                let c0 = a0.maze.cells();
                let a = pre.spec_location();
                let base = if pre.spec_restart() {
                    crate::maze::active_cleared_on(c0, m0, pre.spec_walk())
                } else {
                    c0
                };
                let wb = if pre.spec_restart() {
                    Seq::<Address>::empty()
                } else {
                    pre.spec_walk()
                };
                if m0.spec_columns() == 1 && m0.spec_lines() == 1 {
                    &&& r is Aborted
                    &&& a1.maze.cells() == base
                    &&& post.spec_location() == a
                    &&& post.spec_walk() == wb
                } else {
                    exists|next: Address|
                        #[trigger] next.within(m0) && crate::maze::step_way(a, next) is Some && ({
                            let ia = a.slot_in(m0);
                            let inext = next.slot_in(m0);
                            let carved = if !c0[inext].visited {
                                crate::maze::open_between(base, m0, a, next)
                            } else {
                                base
                            };
                            let after = crate::maze::set_current(
                                crate::maze::set_active(
                                    crate::maze::set_visited(
                                        crate::maze::set_current(carved, ia, false),
                                        ia,
                                        true,
                                    ),
                                    ia,
                                    true,
                                ),
                                inext,
                                true,
                            );
                            let wafter = wb.push(a);
                            post.spec_location() == next && post.spec_restart() == (
                            c0[inext].visited || wb.contains(next)) && (if crate::maze::all_cells_visited(
                                after,
                            ) {
                                r is Done && a1.maze.cells()
                                    == crate::maze::active_cleared_on(
                                    crate::maze::set_current(after, inext, false),
                                    m0,
                                    wafter,
                                ) && post.spec_walk() == Seq::<Address>::empty()
                            } else {
                                r is Continuing && a1.maze.cells() == after
                                    && post.spec_walk() == wafter
                            })
                        })
                }
            }))
    }
}

impl Wilson {
    /// Everything one tick guarantees: the relation between the pre and
    /// post task states, the pre and post shared grids, and the status.
    pub open spec fn step_rel(pre: Wilson, a0: Args, post: Wilson, a1: Args, r: Status) -> bool {

    &&& (a1.wf())
    &&& (a0.maze.same_shape(&a1.maze))
    &&& (a1.highmap == a0.highmap)
    &&& (post.wf_for(a1.maze))
    &&& (r is Done ==> a1.maze.grid.all_visited())
    &&& (({
                let m0 = a0.maze;
                let c0 = a0.maze.cells();
                let a = pre.spec_location();
                let w0 = pre.spec_walk();
                let ia = a.slot_in(m0);
                if !pre.spec_started() {
                    let c1 = crate::maze::set_visited(c0, ia, true);
                    let c2 = crate::maze::set_current(c1, ia, false);
                    &&& post.spec_started()
                    &&& post.spec_walk() == w0
                    &&& !(r is Done)
                    &&& (r is Continuing ==> exists|chosen: Address|
                        #[trigger] chosen.within(m0) && !c1[chosen.slot_in(m0)].visited && a1.maze.cells() == crate::maze::set_current(c2, chosen.slot_in(m0), true)
                            && post.spec_location() == chosen)
                    &&& (r is Aborted ==> a1.maze.cells() == c2 && post.spec_location() == a)
                } else if m0.spec_columns() == 1 && m0.spec_lines() == 1 {
                    &&& r is Aborted
                    &&& a1.maze.cells() == c0
                    &&& post.spec_location() == a
                    &&& post.spec_walk() == w0
                } else {
                    exists|next: Address|
                        #[trigger] next.within(m0) && crate::maze::step_way(a, next) is Some && ({
                            let inext = next.slot_in(m0);
                            if c0[inext].visited {
                                let full = w0.push(a).push(next);
                                let committed = commit_pairs(c0, m0, full);
                                let cleared = crate::maze::set_current(committed, ia, false);
                                post.spec_walk() == Seq::<Address>::empty() && (
                                if crate::maze::all_cells_visited(committed) {
                                    r is Done && a1.maze.cells() == cleared && post.spec_location() == a
                                } else {
                                    !(r is Done) && (r is Continuing ==> exists|chosen: Address|
                                        #[trigger] chosen.within(m0) && !committed[chosen.slot_in(
                                            m0,
                                        )].visited && a1.maze.cells()
                                            == crate::maze::set_current(
                                            cleared,
                                            chosen.slot_in(m0),
                                            true,
                                        ) && post.spec_location() == chosen) && (
                                    r is Aborted ==> a1.maze.cells() == cleared && post.spec_location() == a)
                                })
                            } else if w0.contains(next) {
                                let k = first_index_of(w0, next);
                                r is Continuing && post.spec_walk() == w0.take(k) && post.spec_location() == next && a1.maze.cells()
                                    == crate::maze::set_current(
                                    crate::maze::set_current(
                                        crate::maze::active_cleared_on(c0, m0, w0.skip(k)),
                                        ia,
                                        false,
                                    ),
                                    inext,
                                    true,
                                )
                            } else {
                                r is Continuing && post.spec_walk() == w0.push(a) && post.spec_location() == next && a1.maze.cells()
                                    == crate::maze::set_current(
                                    crate::maze::set_active(
                                        crate::maze::set_current(c0, ia, false),
                                        ia,
                                        true,
                                    ),
                                    inext,
                                    true,
                                )
                            }
                        })
                }
            }))
    }
}

} // verus!
