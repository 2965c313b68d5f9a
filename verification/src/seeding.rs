use vstd::prelude::*;

use std::collections::VecDeque;

use crate::grid::{Address, Grid};
use crate::highmap::CellStatus;
use crate::location::Way;
use crate::maze::MazeCell;
use crate::task::{Args, Status, StepEvent};

verus! {

/// The smaller of two optional depths.
pub open spec fn min_opt(a: Option<usize>, b: Option<usize>) -> Option<usize> {
    match (a, b) {
        (Some(x), Some(y)) => if x <= y {
            Some(x)
        } else {
            Some(y)
        },
        (Some(x), None) => Some(x),
        (None, Some(y)) => Some(y),
        (None, None) => None,
    }
}

/// The least depth already assigned among the cells named by `rc`.
pub open spec fn min_height(h: Seq<CellStatus>, cols: int, rc: Seq<(int, int)>) -> Option<usize>
    decreases rc.len(),
{
    if rc.len() == 0 {
        None
    } else {
        min_opt(h[rc[0].1 * cols + rc[0].0].height, min_height(h, cols, rc.drop_first()))
    }
}

/// One more than the least neighbouring depth, `0` for the seed cell;
/// the depth saturates at the machine bound, unreachable in practice.
pub open spec fn next_height(m: Option<usize>) -> usize {
    match m {
        None => 0,
        Some(v) => if v < usize::MAX {
            (v + 1) as usize
        } else {
            v
        },
    }
}

/// The frontier extended, in order, by every cell of `rc` that has no
/// depth yet and is not already queued.
pub open spec fn extended_frontier(
    q: Seq<Address>,
    h: Seq<CellStatus>,
    cols: int,
    rc: Seq<(int, int)>,
) -> Seq<Address>
    decreases rc.len(),
{
    if rc.len() == 0 {
        q
    } else {
        let addr = Address { column: rc[0].0 as usize, line: rc[0].1 as usize };
        let q1 = if h[rc[0].1 * cols + rc[0].0].height is Some {
            q
        } else if q.contains(addr) {
            q
        } else {
            q.push(addr)
        };
        extended_frontier(q1, h, cols, rc.drop_first())
    }
}

/// Whether `q` holds `addr`.
fn deque_contains(q: &VecDeque<Address>, addr: &Address) -> (b: bool)
    ensures
        b == q@.contains(*addr),
{
    let n = q.len();
    let mut i: usize = 0;
    while i < n
        invariant
            n == q@.len(),
            i <= n,
            forall|k: int| 0 <= k < i ==> q@[k] != *addr,
        decreases n - i,
    {
        if q[i].column == addr.column && q[i].line == addr.line {
            proof {
                assert(q@[i as int] == *addr);
            }
            return true;
        }
        i = i + 1;
    }
    false
}

/// The breadth-first distance scan: a task seeded with one address whose
/// frontier floods the carved maze, assigning each popped cell one more
/// than the least depth among its reachable neighbours (`0` for the
/// seed) and tracking the greatest depth assigned.
pub struct DijkstraWalk {
    in_sight: VecDeque<Address>,
    last_event: Option<StepEvent>,
}

impl DijkstraWalk {
    pub closed spec fn spec_frontier(&self) -> Seq<Address> {
        self.in_sight@
    }

    pub closed spec fn spec_last_event(&self) -> Option<StepEvent> {
        self.last_event
    }

    /// Every queued cell lies inside the maze.
    pub open spec fn wf_for(&self, m: crate::maze::OrthoMaze) -> bool {
        forall|k: int|
            0 <= k < self.spec_frontier().len() ==> (#[trigger] self.spec_frontier()[k]).within(m)
    }

    pub fn new(maze: &crate::maze::OrthoMaze) -> (t: DijkstraWalk)
        requires
            maze.wf(),
            1 <= maze.spec_columns(),
            1 <= maze.spec_lines(),
        ensures
            t.spec_frontier() =~= seq![Address { column: 0, line: 0 }],
            t.wf_for(*maze),
    {
        proof {
            crate::grid::lemma_slot_in_bounds(
                maze.spec_columns() as int,
                maze.spec_lines() as int,
                0,
                0,
            );
        }
        let mut crumbs = maze.grid.crumbs();
        let start = crumbs.next().unwrap();
        let mut in_sight: VecDeque<Address> = VecDeque::new();
        in_sight.push_back(start);
        DijkstraWalk { in_sight, last_event: None }
    }

    pub fn action(&self) -> (r: Option<StepEvent>)
        ensures
            r == self.spec_last_event(),
    {
        self.last_event
    }

    /// One tick: pop the frontier head, enqueue its depth-free reachable
    /// neighbours that are not yet queued, assign the head its depth, and
    /// raise the running maximum; finished once the frontier is empty.
    pub fn execute_one(&mut self, args: &mut Args) -> (r: Status)
        requires
            old(args).wf(),
            old(self).wf_for(old(args).maze),
        ensures
            DijkstraWalk::step_rel(*old(self), *old(args), *final(self), *final(args), r),
    {
        let ghost q0 = self.in_sight@;
        let ghost m0 = args.maze;
        let ghost heights = args.highmap.grid@;
        let ghost cols = args.maze.spec_columns() as int;

        if let Some(address) = self.in_sight.pop_front() {
            proof {
                assert(address == q0[0]);
                assert(old(self).spec_frontier()[0].within(old(args).maze));
                assert(address.within(m0));
                crate::grid::lemma_slot_in_bounds(
                    m0.spec_columns() as int,
                    m0.spec_lines() as int,
                    address.column as int,
                    address.line as int,
                );
            }
            let ghost rc = m0.grid.reachable_coords(address.column as int, address.line as int);
            let ghost q1 = extended_frontier(q0.drop_first(), heights, cols, rc);

            let pos = address.from(&args.maze).unwrap();
            let neighbours = pos.reachable_neighbours();

            let mut best: Option<usize> = None;
            let n = neighbours.len();
            proof {
                assert(rc.skip(0) =~= rc);
                assert forall|k: int|
                    0 <= k < self.in_sight@.len() implies (#[trigger] self.in_sight@[k]).within(
                    m0,
                ) by {
                    assert(self.in_sight@[k] == old(self).spec_frontier()[k + 1]);
                    assert(old(self).spec_frontier()[k + 1].within(old(args).maze));
                };
            }
            let mut i: usize = 0;
            while i < n
                invariant
                    args.wf(),
                    args.maze == m0,
                    args.highmap.grid@ == heights,
                    cols == m0.spec_columns() as int,
                    n == neighbours@.len(),
                    n == rc.len(),
                    i <= n,
                    forall|k: int|
                        0 <= k < n ==> (#[trigger] neighbours@[k]).wf() && neighbours@[k].grid
                            == pos.grid,
                    *pos.grid == m0.grid,
                    neighbours@.map_values(
                        |p: crate::grid::Pos<crate::maze::MazeCell>| (
                            p.column as int,
                            p.line as int,
                        ),
                    ) == rc,
                    min_opt(best, min_height(heights, cols, rc.skip(i as int))) == min_height(
                        heights,
                        cols,
                        rc,
                    ),
                    extended_frontier(self.in_sight@, heights, cols, rc.skip(i as int)) == q1,
                    forall|k: int|
                        0 <= k < self.in_sight@.len() ==> (#[trigger] self.in_sight@[k]).within(
                            m0,
                        ),
                decreases n - i,
            {
                let ghost qcur = self.in_sight@;
                let neighbour = &neighbours[i];
                let haddress = Address { column: neighbour.column, line: neighbour.line };
                proof {
                    assert(rc.skip(i as int)[0] == rc[i as int]);
                    assert(rc[i as int] == (haddress.column as int, haddress.line as int));
                    assert(rc.skip(i as int).drop_first() =~= rc.skip(i as int + 1));
                    assert(haddress.within(m0));
                    crate::grid::lemma_slot_in_bounds(
                        m0.spec_columns() as int,
                        m0.spec_lines() as int,
                        haddress.column as int,
                        haddress.line as int,
                    );
                }
                let hpos = haddress.from(&args.highmap).unwrap();
                match hpos.height() {
                    Some(height) => {
                        best = match best {
                            None => Some(height),
                            Some(b) => if height <= b {
                                Some(height)
                            } else {
                                Some(b)
                            },
                        };
                    },
                    None => {
                        if !deque_contains(&self.in_sight, &haddress) {
                            self.in_sight.push_back(haddress);
                        }
                    },
                }
                i = i + 1;
            }
            proof {
                assert(rc.skip(n as int).len() == 0);
                assert(min_opt(best, None) == best);
                assert(best == min_height(heights, cols, rc));
                assert(extended_frontier(self.in_sight@, heights, cols, rc.skip(n as int))
                    == self.in_sight@);
            }

            let height: usize = match best {
                None => 0,
                Some(v) => if v < usize::MAX {
                    v + 1
                } else {
                    v
                },
            };
            self.last_event = Some(StepEvent::DepthMeasured);

            let hpos = address.from_mut(&mut args.highmap).unwrap();
            hpos.set_depth(&mut args.highmap, height);

            if height > args.highmap.highest {
                args.highmap.highest = height;
            }
        }

        if self.in_sight.len() == 0 {
            Status::Done
        } else {
            Status::Continuing
        }
    }
}

/// Law: the tracked maximum dominates every assigned depth. One tick,
/// which assigns `newh` to one slot and raises the maximum to it when
/// needed, preserves that bound.
pub proof fn lemma_highest_dominates(
    h0: Seq<CellStatus>,
    h1: Seq<CellStatus>,
    highest0: usize,
    highest1: usize,
    slot: int,
    newh: usize,
)
    requires
        0 <= slot < h0.len(),
        h1 == h0.update(slot, CellStatus { height: Some(newh) }),
        highest1 == (if newh > highest0 {
            newh
        } else {
            highest0
        }),
        forall|j: int|
            0 <= j < h0.len() ==> (#[trigger] h0[j].height matches Some(v) ==> v <= highest0),
    ensures
        forall|j: int|
            0 <= j < h1.len() ==> (#[trigger] h1[j].height matches Some(v) ==> v <= highest1),
{
}

/// Law: the tracked maximum is itself an assigned depth, or zero while
/// nothing has been assigned. One tick that fills a depth-free slot
/// preserves that, so the maximum always names the deepest cell.
pub proof fn lemma_highest_attained(
    h0: Seq<CellStatus>,
    h1: Seq<CellStatus>,
    highest0: usize,
    highest1: usize,
    slot: int,
    newh: usize,
)
    requires
        0 <= slot < h0.len(),
        h0[slot].height is None,
        h1 == h0.update(slot, CellStatus { height: Some(newh) }),
        highest1 == (if newh > highest0 {
            newh
        } else {
            highest0
        }),
        highest0 == 0 || exists|j: int| 0 <= j < h0.len() && #[trigger] h0[j].height == Some(
            highest0,
        ),
    ensures
        highest1 == 0 || exists|j: int| 0 <= j < h1.len() && #[trigger] h1[j].height == Some(
            highest1,
        ),
{
    if newh > highest0 {
        assert(h1[slot].height == Some(highest1));
    } else {
        if highest0 != 0 {
            let j0 = choose|j: int|
                0 <= j < h0.len() && #[trigger] h0[j].height == Some(highest0);
            assert(j0 != slot);
            assert(h1[j0].height == Some(highest1));
        }
    }
}

/// The frontier is fit for first-assignment layering: every queued cell
/// lies inside the grid, no cell is queued twice, and none has a depth
/// yet.
pub open spec fn frontier_fit(q: Seq<Address>, h: Seq<CellStatus>, cols: int, lines: int) -> bool {
    &&& forall|k: int|
        0 <= k < q.len() ==> (#[trigger] q[k]).column < cols && q[k].line < lines
    &&& forall|k1: int, k2: int| 0 <= k1 < k2 < q.len() ==> q[k1] != q[k2]
    &&& forall|k: int|
        0 <= k < q.len() ==> (#[trigger] h[q[k].line * cols + q[k].column].height) is None
}

/// Extending a fit frontier keeps it fit: only in-bounds, depth-free,
/// not-yet-queued cells enter the queue.
pub proof fn lemma_extended_frontier_fit(
    q: Seq<Address>,
    h: Seq<CellStatus>,
    cols: int,
    lines: int,
    rc: Seq<(int, int)>,
)
    requires
        cols <= usize::MAX,
        lines <= usize::MAX,
        frontier_fit(q, h, cols, lines),
        forall|i: int|
            0 <= i < rc.len() ==> 0 <= (#[trigger] rc[i]).0 < cols && 0 <= rc[i].1 < lines,
    ensures
        frontier_fit(extended_frontier(q, h, cols, rc), h, cols, lines),
    decreases rc.len(),
{
    if rc.len() > 0 {
        let addr = Address { column: rc[0].0 as usize, line: rc[0].1 as usize };
        let q1 = if h[rc[0].1 * cols + rc[0].0].height is Some {
            q
        } else if q.contains(addr) {
            q
        } else {
            q.push(addr)
        };
        assert(frontier_fit(q1, h, cols, lines)) by {
            assert(0 <= rc[0].0 < cols && 0 <= rc[0].1 < lines);
            assert(addr.column as int == rc[0].0 && addr.line as int == rc[0].1);
            if !(h[rc[0].1 * cols + rc[0].0].height is Some) && !q.contains(addr) {
                assert(forall|k: int| 0 <= k < q.len() ==> q[k] != addr);
                assert(forall|k: int| 0 <= k < q.len() ==> #[trigger] q1[k] == q[k]);
                assert(q1[q.len() as int] == addr);
            }
        };
        assert(forall|i: int|
            0 <= i < rc.drop_first().len() ==> #[trigger] rc.drop_first()[i] == rc[i + 1]);
        lemma_extended_frontier_fit(q1, h, cols, lines, rc.drop_first());
    }
}

/// Law: one scan tick assigns a depth only to a cell that had none —
/// first assignment wins — and hands the next tick a fit frontier again,
/// provided the popped head's reachable cells are its neighbours, not
/// itself.
pub proof fn lemma_scan_first_assignment_wins(
    q0: Seq<Address>,
    h0: Seq<CellStatus>,
    h1: Seq<CellStatus>,
    cols: int,
    lines: int,
    rc: Seq<(int, int)>,
    newh: usize,
)
    requires
        1 <= cols <= usize::MAX,
        1 <= lines <= usize::MAX,
        h0.len() == cols * lines,
        q0.len() > 0,
        frontier_fit(q0, h0, cols, lines),
        forall|i: int|
            0 <= i < rc.len() ==> 0 <= (#[trigger] rc[i]).0 < cols && 0 <= rc[i].1 < lines,
        forall|i: int|
            0 <= i < rc.len() ==> !((#[trigger] rc[i]).0 == q0[0].column && rc[i].1 == q0[0].line),
        h1 == h0.update(
            q0[0].line * cols + q0[0].column,
            CellStatus { height: Some(newh) },
        ),
    ensures
        h0[q0[0].line * cols + q0[0].column].height is None,
        frontier_fit(extended_frontier(q0.drop_first(), h0, cols, rc), h1, cols, lines),
{
    let head = q0[0];
    let ihead = head.line * cols + head.column;
    crate::grid::lemma_slot_in_bounds(cols, lines, head.column as int, head.line as int);
    let tail = q0.drop_first();
    assert(forall|k: int| 0 <= k < tail.len() ==> #[trigger] tail[k] == q0[k + 1]);
    assert(forall|k: int| 0 <= k < tail.len() ==> #[trigger] tail[k] != head);
    assert(frontier_fit(tail, h0, cols, lines));
    lemma_extended_frontier_fit(tail, h0, cols, lines, rc);
    let q1 = extended_frontier(tail, h0, cols, rc);
    assert forall|k: int|
        0 <= k < q1.len() implies (#[trigger] h1[q1[k].line * cols + q1[k].column].height)
        is None by {
        lemma_entry_stays_depth_free(tail, h0, cols, lines, rc, head, k);
        let islot = q1[k].line * cols + q1[k].column;
        crate::grid::lemma_slot_in_bounds(cols, lines, q1[k].column as int, q1[k].line as int);
        assert(h0[islot].height is None);
        if islot == ihead {
            crate::grid::lemma_slot_injective(
                cols,
                q1[k].column as int,
                q1[k].line as int,
                head.column as int,
                head.line as int,
            );
            assert(q1[k] == head);
            assert(false);
        }
        assert(islot != ihead);
        assert(cols * lines == lines * cols) by (nonlinear_arith);
        assert(0 <= ihead < h0.len());
        assert(0 <= islot < h0.len());
        assert(h0.update(ihead, CellStatus { height: Some(newh) })[islot] == h0[islot]);
        assert(h1[islot] == h0[islot]);
    };
}

/// Every cell of an extended fit frontier differs from the popped head.
proof fn lemma_entry_stays_depth_free(
    tail: Seq<Address>,
    h0: Seq<CellStatus>,
    cols: int,
    lines: int,
    rc: Seq<(int, int)>,
    head: Address,
    k: int,
)
    requires
        cols <= usize::MAX,
        lines <= usize::MAX,
        frontier_fit(tail, h0, cols, lines),
        forall|i: int|
            0 <= i < rc.len() ==> 0 <= (#[trigger] rc[i]).0 < cols && 0 <= rc[i].1 < lines,
        forall|i: int|
            0 <= i < rc.len() ==> !((#[trigger] rc[i]).0 == head.column && rc[i].1 == head.line),
        forall|k2: int| 0 <= k2 < tail.len() ==> #[trigger] tail[k2] != head,
        0 <= k < extended_frontier(tail, h0, cols, rc).len(),
    ensures
        extended_frontier(tail, h0, cols, rc)[k] != head,
    decreases rc.len(),
{
    if rc.len() > 0 {
        let addr = Address { column: rc[0].0 as usize, line: rc[0].1 as usize };
        let q1 = if h0[rc[0].1 * cols + rc[0].0].height is Some {
            tail
        } else if tail.contains(addr) {
            tail
        } else {
            tail.push(addr)
        };
        assert(frontier_fit(q1, h0, cols, lines)) by {
            lemma_extended_frontier_fit(tail, h0, cols, lines, rc.take(1));
            assert(rc.take(1).drop_first().len() == 0);
            assert(extended_frontier(q1, h0, cols, rc.take(1).drop_first()) == q1);
            assert(rc.take(1)[0] == rc[0]);
        };
        assert(forall|k2: int| 0 <= k2 < q1.len() ==> #[trigger] q1[k2] != head) by {
            assert(0 <= rc[0].0 < cols && 0 <= rc[0].1 < lines);
            assert(addr.column as int == rc[0].0 && addr.line as int == rc[0].1);
            assert(addr != head);
            if q1.len() > tail.len() {
                assert(forall|k2: int| 0 <= k2 < tail.len() ==> #[trigger] q1[k2] == tail[k2]);
                assert(q1[tail.len() as int] == addr);
            }
        };
        assert(forall|i: int|
            0 <= i < rc.drop_first().len() ==> #[trigger] rc.drop_first()[i] == rc[i + 1]);
        lemma_entry_stays_depth_free(q1, h0, cols, lines, rc.drop_first(), head, k);
    }
}


impl DijkstraWalk {
    /// Everything one scan tick guarantees: the relation between the pre
    /// and post task states, the pre and post shared grids, and the
    /// status.
    pub open spec fn step_rel(pre: DijkstraWalk, a0: Args, post: DijkstraWalk, a1: Args, r: Status) -> bool {
    &&& (a1.wf())
    &&& (a1.maze == a0.maze)
    &&& (a1.highmap.spec_columns() == a0.highmap.spec_columns())
    &&& (a1.highmap.spec_lines() == a0.highmap.spec_lines())
    &&& (post.wf_for(a1.maze))
    &&& (({
                let q0 = pre.spec_frontier();
                if q0.len() == 0 {
                    &&& r is Done
                    &&& a1 == a0
                    &&& post.spec_frontier() == q0
                } else {
                    let head = q0[0];
                    let tail = q0.drop_first();
                    let cols = a0.maze.spec_columns() as int;
                    let rc = a0.maze.grid.reachable_coords(
                        head.column as int,
                        head.line as int,
                    );
                    let heights = a0.highmap.grid@;
                    let newh = next_height(min_height(heights, cols, rc));
                    let q1 = extended_frontier(tail, heights, cols, rc);
                    &&& post.spec_frontier() == q1
                    &&& a1.highmap.grid@ == heights.update(
                        (head.line as int) * cols + (head.column as int),
                        CellStatus { height: Some(newh) },
                    )
                    &&& a1.highmap.highest == (if newh > a0.highmap.highest {
                        newh
                    } else {
                        a0.highmap.highest
                    })
                    &&& (r is Done <==> q1.len() == 0)
                    &&& r is Done || r is Continuing
                }
            }))
    }
}

/// The coordinates one grid step from `(x, y)` in direction `way`.
pub open spec fn way_target(x: int, y: int, way: Way) -> (int, int) {
    match way {
        Way::Up => (x, y - 1),
        Way::Down => (x, y + 1),
        Way::Left => (x - 1, y),
        Way::Right => (x + 1, y),
    }
}

/// The scan's closure invariant: every cell that already has a depth has
/// each of its open-gate neighbours depthed or queued.
pub open spec fn scan_closed(h: Seq<CellStatus>, g: Grid<MazeCell>, q: Seq<Address>) -> bool {
    forall|x: int, y: int, way: Way|
        ({
            let cols = g.spec_columns() as int;
            let tx = way_target(x, y, way).0;
            let ty = way_target(x, y, way).1;
            (0 <= x < g.spec_columns() && 0 <= y < g.spec_lines() && h[y * cols + x].height
                is Some && #[trigger] g.way_open(x, y, way)) ==> (h[ty * cols + tx].height is Some
                || q.contains(Address { column: tx as usize, line: ty as usize }))
        })
}

/// Law: a map with no depth assigned yet is closed for any frontier, so
/// a fresh scan starts inside the closure invariant.
pub proof fn lemma_scan_closed_initial(h: Seq<CellStatus>, g: Grid<MazeCell>, q: Seq<Address>)
    requires
        g.wf(),
        h.len() == g@.len(),
        forall|j: int| 0 <= j < h.len() ==> (#[trigger] h[j].height) is None,
    ensures
        scan_closed(h, g, q),
{
    assert forall|x: int, y: int, way: Way|
        ({
            let cols = g.spec_columns() as int;
            let tx = way_target(x, y, way).0;
            let ty = way_target(x, y, way).1;
            (0 <= x < g.spec_columns() && 0 <= y < g.spec_lines() && h[y * cols + x].height
                is Some && #[trigger] g.way_open(x, y, way)) ==> (h[ty * cols + tx].height is Some
                || q.contains(Address { column: tx as usize, line: ty as usize }))
        }) by {
        let cols = g.spec_columns() as int;
        if 0 <= x < g.spec_columns() && 0 <= y < g.spec_lines() {
            crate::grid::lemma_slot_in_bounds(cols, g.spec_lines() as int, x, y);
            assert(cols * (g.spec_lines() as int) == (g.spec_lines() as int) * cols)
                by (nonlinear_arith);
            assert(h[y * cols + x].height is None);
        }
    }
}

/// An open gate out of `(x, y)` names a cell of the reachable list.
pub proof fn lemma_reachable_contains(g: Grid<MazeCell>, x: int, y: int, way: Way)
    requires
        g.way_open(x, y, way),
    ensures
        g.reachable_coords(x, y).contains(way_target(x, y, way)),
{
    let rc = g.reachable_coords(x, y);
    match way {
        Way::Up => {
            assert(rc[0] == (x, y - 1));
        },
        Way::Left => {
            let i: int = if g.way_open(x, y, Way::Up) {
                1
            } else {
                0
            };
            assert(rc[i] == (x - 1, y));
        },
        Way::Down => {
            let i: int = (if g.way_open(x, y, Way::Up) {
                1int
            } else {
                0int
            }) + (if g.way_open(x, y, Way::Left) {
                1int
            } else {
                0int
            });
            assert(rc[i] == (x, y + 1));
        },
        Way::Right => {
            let i: int = (if g.way_open(x, y, Way::Up) {
                1int
            } else {
                0int
            }) + (if g.way_open(x, y, Way::Left) {
                1int
            } else {
                0int
            }) + (if g.way_open(x, y, Way::Down) {
                1int
            } else {
                0int
            });
            assert(rc[i] == (x + 1, y));
        },
    }
}

/// The frontier extension never drops a queued cell.
pub proof fn lemma_extended_frontier_keeps(
    q: Seq<Address>,
    h: Seq<CellStatus>,
    cols: int,
    rc: Seq<(int, int)>,
    a: Address,
)
    requires
        q.contains(a),
    ensures
        extended_frontier(q, h, cols, rc).contains(a),
    decreases rc.len(),
{
    if rc.len() > 0 {
        let addr = Address { column: rc[0].0 as usize, line: rc[0].1 as usize };
        let q1 = if h[rc[0].1 * cols + rc[0].0].height is Some {
            q
        } else if q.contains(addr) {
            q
        } else {
            q.push(addr)
        };
        assert(q1.contains(a)) by {
            let j = choose|j: int| 0 <= j < q.len() && q[j] == a;
            assert(q1[j] == a);
        };
        lemma_extended_frontier_keeps(q1, h, cols, rc.drop_first(), a);
    }
}

/// Every depth-free cell of the reachable list ends up queued by the
/// frontier extension.
pub proof fn lemma_extended_frontier_covers(
    q: Seq<Address>,
    h: Seq<CellStatus>,
    cols: int,
    rc: Seq<(int, int)>,
    i: int,
)
    requires
        0 <= i < rc.len(),
        0 <= rc[i].0 <= usize::MAX,
        0 <= rc[i].1 <= usize::MAX,
        h[rc[i].1 * cols + rc[i].0].height is None,
    ensures
        extended_frontier(q, h, cols, rc).contains(
            Address { column: rc[i].0 as usize, line: rc[i].1 as usize },
        ),
    decreases rc.len(),
{
    let addr0 = Address { column: rc[0].0 as usize, line: rc[0].1 as usize };
    let q1 = if h[rc[0].1 * cols + rc[0].0].height is Some {
        q
    } else if q.contains(addr0) {
        q
    } else {
        q.push(addr0)
    };
    if i == 0 {
        assert(q1.contains(addr0)) by {
            if !(h[rc[0].1 * cols + rc[0].0].height is Some) && !q.contains(addr0) {
                assert(q1[q.len() as int] == addr0);
            }
        };
        lemma_extended_frontier_keeps(q1, h, cols, rc.drop_first(), addr0);
    } else {
        assert(rc.drop_first()[i - 1] == rc[i]);
        lemma_extended_frontier_covers(q1, h, cols, rc.drop_first(), i - 1);
    }
}

/// Law: one scan tick preserves the closure invariant — the popped head
/// gets its depth, its depth-free reachable neighbours enter the
/// frontier, and nothing already promised is dropped.
pub proof fn lemma_scan_tick_keeps_closure(
    q0: Seq<Address>,
    h0: Seq<CellStatus>,
    h1: Seq<CellStatus>,
    g: Grid<MazeCell>,
    newh: usize,
)
    requires
        g.wf(),
        q0.len() > 0,
        (q0[0].column as int) < g.spec_columns(),
        (q0[0].line as int) < g.spec_lines(),
        h0.len() == g@.len(),
        h1 == h0.update(
            (q0[0].line as int) * (g.spec_columns() as int) + (q0[0].column as int),
            CellStatus { height: Some(newh) },
        ),
        scan_closed(h0, g, q0),
    ensures
        scan_closed(
            h1,
            g,
            extended_frontier(
                q0.drop_first(),
                h0,
                g.spec_columns() as int,
                g.reachable_coords(q0[0].column as int, q0[0].line as int),
            ),
        ),
{
    let cols = g.spec_columns() as int;
    let lines = g.spec_lines() as int;
    let head = q0[0];
    let hx = head.column as int;
    let hy = head.line as int;
    let ihead = hy * cols + hx;
    let rc = g.reachable_coords(hx, hy);
    let tail = q0.drop_first();
    let q1 = extended_frontier(tail, h0, cols, rc);
    crate::grid::lemma_slot_in_bounds(cols, lines, hx, hy);
    assert forall|x: int, y: int, way: Way|
        0 <= x < cols && 0 <= y < lines && h1[y * cols + x].height is Some && #[trigger] g.way_open(
            x,
            y,
            way,
        ) implies (h1[way_target(x, y, way).1 * cols + way_target(x, y, way).0].height is Some
        || q1.contains(
        Address { column: way_target(x, y, way).0 as usize, line: way_target(x, y, way).1 as usize },
    )) by {
        let tx = way_target(x, y, way).0;
        let ty = way_target(x, y, way).1;
        let it = ty * cols + tx;
        let target = Address { column: tx as usize, line: ty as usize };
        assert(0 <= tx < cols && 0 <= ty < lines);
        crate::grid::lemma_slot_in_bounds(cols, lines, x, y);
        crate::grid::lemma_slot_in_bounds(cols, lines, tx, ty);
        if it == ihead {
            assert(h1[it].height is Some);
        } else {
            assert(h1[it] == h0[it]);
            if y * cols + x == ihead {
                crate::grid::lemma_slot_injective(cols, x, y, hx, hy);
                assert(x == hx && y == hy);
                if h0[it].height is Some {
                } else {
                    lemma_reachable_contains(g, x, y, way);
                    let i = choose|i: int| 0 <= i < rc.len() && rc[i] == (tx, ty);
                    lemma_extended_frontier_covers(tail, h0, cols, rc, i);
                    assert(q1.contains(target));
                }
            } else {
                assert(h0[y * cols + x].height is Some);
                assert(h0[it].height is Some || q0.contains(target));
                if h0[it].height is Some {
                } else {
                    let j = choose|j: int| 0 <= j < q0.len() && q0[j] == target;
                    if j == 0 {
                        assert(target == head);
                        assert(it == ihead);
                        assert(false);
                    } else {
                        assert(tail[j - 1] == target);
                        assert(tail.contains(target));
                        lemma_extended_frontier_keeps(tail, h0, cols, rc, target);
                    }
                }
            }
        }
    }
}

/// A path of `n` open-gate steps from `(x0, y0)` to `(x1, y1)`.
pub open spec fn connected_in(
    g: Grid<MazeCell>,
    x0: int,
    y0: int,
    x1: int,
    y1: int,
    n: nat,
) -> bool
    decreases n,
{
    if n == 0 {
        x0 == x1 && y0 == y1
    } else {
        exists|way: Way|
            #[trigger] g.way_open(x0, y0, way) && connected_in(
                g,
                way_target(x0, y0, way).0,
                way_target(x0, y0, way).1,
                x1,
                y1,
                (n - 1) as nat,
            )
    }
}

/// Law: once the frontier has emptied, every cell connected through open
/// gates to a depthed cell is itself depthed — the whole-run scan has
/// covered its reachable component, each cell exactly once (the frontier
/// stays duplicate-free and depth-free, so a cell is popped as head at
/// most once, and the closure invariant forces every reachable cell to
/// have been popped).
pub proof fn lemma_scan_coverage_at_done(
    h: Seq<CellStatus>,
    g: Grid<MazeCell>,
    x0: int,
    y0: int,
    x1: int,
    y1: int,
    n: nat,
)
    requires
        g.wf(),
        0 <= x0 < g.spec_columns(),
        0 <= y0 < g.spec_lines(),
        h[y0 * (g.spec_columns() as int) + x0].height is Some,
        scan_closed(h, g, Seq::<Address>::empty()),
        connected_in(g, x0, y0, x1, y1, n),
    ensures
        h[y1 * (g.spec_columns() as int) + x1].height is Some,
    decreases n,
{
    let cols = g.spec_columns() as int;
    if n == 0 {
    } else {
        let way = choose|way: Way|
            #[trigger] g.way_open(x0, y0, way) && connected_in(
                g,
                way_target(x0, y0, way).0,
                way_target(x0, y0, way).1,
                x1,
                y1,
                (n - 1) as nat,
            );
        let tx = way_target(x0, y0, way).0;
        let ty = way_target(x0, y0, way).1;
        let target = Address { column: tx as usize, line: ty as usize };
        assert(!Seq::<Address>::empty().contains(target));
        assert(h[ty * cols + tx].height is Some);
        assert(0 <= tx < cols && 0 <= ty < g.spec_lines());
        lemma_scan_coverage_at_done(h, g, tx, ty, x1, y1, (n - 1) as nat);
    }
}

} // verus!
