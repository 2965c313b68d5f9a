use vstd::prelude::*;

use crate::binary_tree::{
    cell_gate_count, exit_open, exits_to_terminal, lemma_every_cell_reaches_terminal,
    lemma_gate_total_blank, lemma_gate_total_update, open_gate_total,
};
use crate::grid::Address;
use crate::maze::{MazeCell, OrthoMaze};

verus! {

/// The state any number of ticks of the steppable Binary Tree carver
/// reaches on a freshly built maze: every cell the cursor has passed —
/// except the terminal corner — holds an own open gate toward an
/// in-bounds neighbour, every cell from the cursor on holds no gate yet,
/// and the open-gate total counts the passed non-terminal cells.
pub open spec fn binary_tree_run_inv(t: crate::carving::BinaryTree, m: OrthoMaze) -> bool {
    let cols = m.spec_columns() as int;
    let lines = m.spec_lines() as int;
    let cursor = (t.spec_location().line as int) * cols + (t.spec_location().column as int);
    &&& m.wf()
    &&& 1 <= cols
    &&& 1 <= lines
    &&& t.wf_for(m)
    &&& cursor <= m.cells().len()
    &&& forall|cx: int, cy: int|
        0 <= cx < cols && 0 <= cy < lines && cy * cols + cx < cursor && !(cx == cols - 1 && cy
            == lines - 1) ==> #[trigger] exit_open(m.cells(), cols, lines, cx, cy)
    &&& forall|j: int|
        cursor <= j < m.cells().len() ==> !(#[trigger] m.cells()[j]).down_gate_open
            && !m.cells()[j].right_gate_open
    &&& open_gate_total(m.cells()) == (if cursor < m.cells().len() {
        cursor
    } else {
        m.cells().len() - 1
    })
}

/// Law: a fresh carver on a fresh maze starts in the run state.
pub proof fn lemma_binary_tree_run_init(t: crate::carving::BinaryTree, m: OrthoMaze)
    requires
        m.wf(),
        1 <= m.spec_columns(),
        1 <= m.spec_lines(),
        t.spec_location() == (crate::grid::Address { column: 0, line: 0 }),
        forall|j: int| 0 <= j < m.cells().len() ==> #[trigger] m.cells()[j] == crate::maze::blank_cell(),
    ensures
        binary_tree_run_inv(t, m),
{
    crate::grid::lemma_slot_in_bounds(
        m.spec_columns() as int,
        m.spec_lines() as int,
        0,
        0,
    );
    lemma_gate_total_blank(m.cells());
}

/// Law: one tick preserves the run state, whatever the coin said.
pub proof fn lemma_binary_tree_run_preserved(
    t0: crate::carving::BinaryTree,
    a0: crate::task::Args,
    t1: crate::carving::BinaryTree,
    a1: crate::task::Args,
    r: crate::task::Status,
)
    requires
        crate::carving::BinaryTree::step_rel(t0, a0, t1, a1, r),
        binary_tree_run_inv(t0, a0.maze),
    ensures
        binary_tree_run_inv(t1, a1.maze),
{
    let m0 = a0.maze;
    let m1 = a1.maze;
    let cols = m0.spec_columns() as int;
    let lines = m0.spec_lines() as int;
    let a = t0.spec_location();
    let x = a.column as int;
    let y = a.line as int;
    let cursor = y * cols + x;
    if a.spec_done_walking(m0) {
    } else {
        crate::grid::lemma_slot_in_bounds(cols, lines, x, y);
        assert(cols * lines == lines * cols) by (nonlinear_arith);
        assert((lines - 1) * cols + (cols - 1) == lines * cols - 1) by (nonlinear_arith);
        assert(m0.cells().len() == cols * lines);
        assert(0 <= cursor < m0.cells().len());
        let stepped = crate::maze::advance_right_then_down(a, m0.spec_columns());
        let chose = choose|chose_down: bool|
            a1.maze.cells() == crate::maze::shift_current(
                #[trigger] crate::carving::BinaryTree::step_gates(m0, a, chose_down),
                m0,
                a,
                stepped,
            );
        let sg = crate::carving::BinaryTree::step_gates(m0, a, chose);
        let c1 = m1.cells();
        assert(sg.len() == m0.cells().len());
        assert(c1.len() == m0.cells().len());
        // the cursor mark shift leaves every gate bit in place
        assert forall|j: int| 0 <= j < c1.len() implies (#[trigger] c1[j]).down_gate_open
            == sg[j].down_gate_open && c1[j].right_gate_open == sg[j].right_gate_open by {
            if !stepped.spec_done_walking(m0) {
                crate::grid::lemma_slot_in_bounds(
                    cols,
                    lines,
                    stepped.column as int,
                    stepped.line as int,
                );
            }
        };
        lemma_gate_total_same_bits(c1, sg);
        // the stepped cursor names the next row-major slot
        let cursor1 = (stepped.line as int) * cols + (stepped.column as int);
        assert(cursor1 == cursor + 1) by (nonlinear_arith)
            requires
                cursor == y * cols + x,
                cursor1 == (stepped.line as int) * cols + (stepped.column as int),
                0 <= x < cols,
                (x + 1 < cols ==> stepped.column as int == x + 1 && stepped.line as int == y),
                (x + 1 >= cols ==> stepped.column as int == 0 && stepped.line as int == y + 1),
        ;
        // the carved cell gains an exit, or is the corner and stays bare
        if y + 1 == lines && x + 1 == cols {
            assert(sg == m0.cells());
            assert(cursor == m0.cells().len() - 1);
            assert(open_gate_total(c1) == open_gate_total(m0.cells()));
        } else {
            assert(cursor != m0.cells().len() - 1) by {
                if cursor == lines * cols - 1 {
                    crate::grid::lemma_slot_injective(cols, x, y, cols - 1, lines - 1);
                }
            };
            assert(m0.cells()[cursor].down_gate_open == false);
            assert(m0.cells()[cursor].right_gate_open == false);
            assert(sg[cursor].down_gate_open || sg[cursor].right_gate_open);
            assert(cell_gate_count(sg[cursor]) == 1);
            assert(cell_gate_count(m0.cells()[cursor]) == 0);
            lemma_gate_total_update(m0.cells(), cursor, sg[cursor]);
            assert(sg =~= m0.cells().update(cursor, sg[cursor]));
            assert(open_gate_total(sg) == open_gate_total(m0.cells()) + 1);
            assert(exit_open(c1, cols, lines, x, y));
        }
        // earlier cells keep their exits, later cells stay bare
        assert forall|cx: int, cy: int|
            0 <= cx < cols && 0 <= cy < lines && cy * cols + cx < cursor1 && !(cx == cols - 1 && cy
                == lines - 1) implies #[trigger] exit_open(c1, cols, lines, cx, cy) by {
            crate::grid::lemma_slot_in_bounds(cols, lines, cx, cy);
            if cy * cols + cx < cursor {
                assert(exit_open(m0.cells(), cols, lines, cx, cy));
            } else {
                assert(cy * cols + cx == cursor);
                crate::grid::lemma_slot_injective(cols, cx, cy, x, y);
                assert(cx == x && cy == y);
            }
        };
        assert forall|j: int|
            cursor1 <= j < c1.len() implies !(#[trigger] c1[j]).down_gate_open
                && !c1[j].right_gate_open by {
            assert(!m0.cells()[j].down_gate_open && !m0.cells()[j].right_gate_open);
        };
    }
}

/// Two cell sequences with the same gate bits count the same gates.
pub proof fn lemma_gate_total_same_bits(m1: Seq<MazeCell>, m2: Seq<MazeCell>)
    requires
        m1.len() == m2.len(),
        forall|j: int|
            0 <= j < m1.len() ==> (#[trigger] m1[j]).down_gate_open == m2[j].down_gate_open
                && m1[j].right_gate_open == m2[j].right_gate_open,
    ensures
        open_gate_total(m1) == open_gate_total(m2),
    decreases m1.len(),
{
    if m1.len() > 0 {
        assert(forall|j: int|
            0 <= j < m1.drop_last().len() ==> #[trigger] m1.drop_last()[j] == m1[j]);
        assert(forall|j: int|
            0 <= j < m2.drop_last().len() ==> #[trigger] m2.drop_last()[j] == m2[j]);
        lemma_gate_total_same_bits(m1.drop_last(), m2.drop_last());
        assert(m1.last() == m1[m1.len() - 1]);
        assert(m2.last() == m2[m2.len() - 1]);
    }
}

/// Law: the run state survives any chain of Continuing ticks, and the
/// task stays a Binary Tree carver throughout.
pub proof fn lemma_binary_tree_run_chain(
    n: nat,
    t0: crate::carving::BinaryTree,
    a0: crate::task::Args,
    tk: crate::task::Task,
    ak: crate::task::Args,
)
    requires
        crate::task::continuing_ticks(n, crate::task::Task::BinaryTree(t0), a0, tk, ak),
        binary_tree_run_inv(t0, a0.maze),
    ensures
        tk matches crate::task::Task::BinaryTree(t1) && binary_tree_run_inv(t1, ak.maze),
    decreases n,
{
    if n == 0 {
    } else {
        let (tm, am): (crate::task::Task, crate::task::Args) = choose|
            tm: crate::task::Task,
            am: crate::task::Args,
        |
            crate::task::continuing_ticks(
                (n - 1) as nat,
                crate::task::Task::BinaryTree(t0),
                a0,
                tm,
                am,
            ) && #[trigger] crate::task::task_step_rel(
                tm,
                am,
                tk,
                ak,
                crate::task::Status::Continuing,
            );
        lemma_binary_tree_run_chain((n - 1) as nat, t0, a0, tm, am);
        match (tm, tk) {
            (crate::task::Task::BinaryTree(tmid), crate::task::Task::BinaryTree(tnext)) => {
                lemma_binary_tree_run_preserved(
                    tmid,
                    am,
                    tnext,
                    ak,
                    crate::task::Status::Continuing,
                );
            },
            _ => {
                assert(false);
            },
        }
    }
}

/// Law: driven tick by tick from a fresh carver on a fresh maze, the
/// steppable Binary Tree carve stands, at the tick that reports Done, on
/// a spanning tree — every cell reaches the terminal corner through open
/// gates and exactly one gate per non-terminal cell is open.
pub proof fn lemma_binary_tree_run_spans(
    n: nat,
    t0: crate::carving::BinaryTree,
    a0: crate::task::Args,
    tm: crate::task::Task,
    am: crate::task::Args,
    tfin: crate::task::Task,
    afin: crate::task::Args,
    r: crate::task::Status,
)
    requires
        a0.maze.wf(),
        1 <= a0.maze.spec_columns(),
        1 <= a0.maze.spec_lines(),
        t0.wf_for(a0.maze),
        t0.spec_location() == (crate::grid::Address { column: 0, line: 0 }),
        forall|j: int|
            0 <= j < a0.maze.cells().len() ==> #[trigger] a0.maze.cells()[j]
                == crate::maze::blank_cell(),
        crate::task::continuing_ticks(n, crate::task::Task::BinaryTree(t0), a0, tm, am),
        crate::task::task_step_rel(tm, am, tfin, afin, r),
        r is Done,
    ensures
        forall|cx: int, cy: int|
            0 <= cx < afin.maze.spec_columns() && 0 <= cy < afin.maze.spec_lines()
                ==> #[trigger] exits_to_terminal(
                afin.maze.cells(),
                afin.maze.spec_columns() as int,
                afin.maze.spec_lines() as int,
                cx,
                cy,
            ),
        open_gate_total(afin.maze.cells()) == afin.maze.cells().len() - 1,
{
    lemma_binary_tree_run_init(t0, a0.maze);
    lemma_binary_tree_run_chain(n, t0, a0, tm, am);
    match (tm, tfin) {
        (crate::task::Task::BinaryTree(tmid), crate::task::Task::BinaryTree(tnext)) => {
            let m = am.maze;
            let cols = m.spec_columns() as int;
            let lines = m.spec_lines() as int;
            let a = tmid.spec_location();
            let cursor = (a.line as int) * cols + (a.column as int);
            // a Done tick happens only with the cursor past the last
            // cell, and moves nothing
            assert(a.spec_done_walking(m));
            assert(afin.maze == am.maze);
            assert((a.line as int) >= lines);
            assert(cursor >= lines * cols) by (nonlinear_arith)
                requires
                    cursor == (a.line as int) * cols + (a.column as int),
                    (a.line as int) >= lines,
                    (a.column as int) >= 0,
                    cols >= 1,
            ;
            assert(cols * lines == lines * cols) by (nonlinear_arith);
            assert(cursor == m.cells().len());
            assert(open_gate_total(afin.maze.cells()) == afin.maze.cells().len() - 1);
            assert forall|cx: int, cy: int|
                0 <= cx < cols && 0 <= cy < lines implies #[trigger] exits_to_terminal(
                afin.maze.cells(),
                cols,
                lines,
                cx,
                cy,
            ) by {
                assert forall|ax: int, ay: int|
                    0 <= ax < cols && 0 <= ay < lines && !(ax == cols - 1 && ay == lines - 1)
                        implies #[trigger] exit_open(afin.maze.cells(), cols, lines, ax, ay) by {
                    crate::grid::lemma_slot_in_bounds(cols, lines, ax, ay);
                };
                lemma_every_cell_reaches_terminal(afin.maze.cells(), cols, lines, cx, cy);
            }
        },
        _ => {
            assert(false);
        },
    }
}

/// The state any number of ticks of the Sidewinder carver reaches on a
/// freshly built maze: the cells from the cursor on are untouched, the
/// current run is chained rightward with its down bits still free, and
/// the open-gate total counts the passed non-terminal cells.
pub open spec fn sidewinder_run_inv(t: crate::carving::SideWinder, m: OrthoMaze) -> bool {
    let cols = m.spec_columns() as int;
    let lines = m.spec_lines() as int;
    let cx = t.spec_location().column as int;
    let cy = t.spec_location().line as int;
    let sx = t.spec_start_x() as int;
    let cursor = cy * cols + cx;
    &&& m.wf()
    &&& 1 <= cols
    &&& 1 <= lines
    &&& t.wf_for(m)
    &&& cursor <= m.cells().len()
    &&& forall|j: int|
        cursor <= j < m.cells().len() ==> !(#[trigger] m.cells()[j]).down_gate_open
            && !m.cells()[j].right_gate_open
    &&& forall|c: int|
        sx <= c < cx ==> (#[trigger] m.cells()[cy * cols + c]).right_gate_open && !m.cells()[cy
            * cols + c].down_gate_open
    &&& open_gate_total(m.cells()) == (if cursor < m.cells().len() {
        cursor
    } else {
        m.cells().len() - 1
    })
}

/// Law: a fresh Sidewinder carver on a fresh maze starts in the run
/// state.
pub proof fn lemma_sidewinder_run_init(t: crate::carving::SideWinder, m: OrthoMaze)
    requires
        m.wf(),
        1 <= m.spec_columns(),
        1 <= m.spec_lines(),
        t.spec_location() == (crate::grid::Address { column: 0, line: 0 }),
        t.spec_start_x() == 0,
        forall|j: int|
            0 <= j < m.cells().len() ==> #[trigger] m.cells()[j] == crate::maze::blank_cell(),
    ensures
        sidewinder_run_inv(t, m),
{
    crate::grid::lemma_slot_in_bounds(m.spec_columns() as int, m.spec_lines() as int, 0, 0);
    lemma_gate_total_blank(m.cells());
}

/// Law: one Sidewinder tick preserves the run state, whatever the coin
/// and the door said.
pub proof fn lemma_sidewinder_run_preserved(
    t0: crate::carving::SideWinder,
    a0: crate::task::Args,
    t1: crate::carving::SideWinder,
    a1: crate::task::Args,
    r: crate::task::Status,
)
    requires
        crate::carving::SideWinder::step_rel(t0, a0, t1, a1, r),
        sidewinder_run_inv(t0, a0.maze),
    ensures
        sidewinder_run_inv(t1, a1.maze),
{
    let m0 = a0.maze;
    let m1 = a1.maze;
    let cols = m0.spec_columns() as int;
    let lines = m0.spec_lines() as int;
    let a = t0.spec_location();
    let x = a.column as int;
    let y = a.line as int;
    let sx = t0.spec_start_x() as int;
    let cursor = y * cols + x;
    if a.spec_done_walking(m0) {
    } else {
        crate::grid::lemma_slot_in_bounds(cols, lines, x, y);
        assert(cols * lines == lines * cols) by (nonlinear_arith);
        assert((lines - 1) * cols + (cols - 1) == lines * cols - 1) by (nonlinear_arith);
        assert(m0.cells().len() == cols * lines);
        assert(0 <= cursor < m0.cells().len());
        let stepped = crate::maze::advance_right_then_down(a, m0.spec_columns());
        let (close, door): (bool, usize) = choose|close: bool, door: usize|
            ((a.column + 1 == m0.spec_columns() ==> close) && (a.line + 1 == m0.spec_lines()
                && a.column + 1 < m0.spec_columns() ==> !close) && t0.spec_start_x() <= door
                <= a.column && a1.maze.cells() == crate::maze::shift_current(
                #[trigger] crate::carving::SideWinder::step_cells(
                    m0,
                    a,
                    t0.spec_start_x(),
                    close,
                    door,
                ),
                m0,
                a,
                stepped,
            ) && t1.spec_start_x() == (if close {
                stepped.column
            } else {
                t0.spec_start_x()
            }));
        let body = crate::carving::SideWinder::step_cells(m0, a, t0.spec_start_x(), close, door);
        let c1 = m1.cells();
        assert(body.len() == m0.cells().len()) by {
            if close {
                if m0.carve_allowed(door as int, y, crate::location::Way::Down) {
                    crate::grid::lemma_slot_in_bounds(cols, lines, door as int, y);
                }
            }
        };
        assert(c1.len() == m0.cells().len());
        // the cursor mark shift leaves every gate bit in place
        assert forall|j: int| 0 <= j < c1.len() implies (#[trigger] c1[j]).down_gate_open
            == body[j].down_gate_open && c1[j].right_gate_open == body[j].right_gate_open by {
            if !stepped.spec_done_walking(m0) {
                crate::grid::lemma_slot_in_bounds(
                    cols,
                    lines,
                    stepped.column as int,
                    stepped.line as int,
                );
            }
        };
        lemma_gate_total_same_bits(c1, body);
        // the stepped cursor names the next row-major slot
        let cursor1 = (stepped.line as int) * cols + (stepped.column as int);
        assert(cursor1 == cursor + 1) by (nonlinear_arith)
            requires
                cursor == y * cols + x,
                cursor1 == (stepped.line as int) * cols + (stepped.column as int),
                0 <= x < cols,
                (x + 1 < cols ==> stepped.column as int == x + 1 && stepped.line as int == y),
                (x + 1 >= cols ==> stepped.column as int == 0 && stepped.line as int == y + 1),
        ;
        if close {
            let cleared = crate::carving::run_cleared(m0.cells(), m0, y, sx, x);
            // clearing run highlights moves no gate bit
            assert forall|j: int| 0 <= j < cleared.len() implies (#[trigger] cleared[j]).down_gate_open
                == m0.cells()[j].down_gate_open && cleared[j].right_gate_open
                == m0.cells()[j].right_gate_open by {};
            if m0.carve_allowed(door as int, y, crate::location::Way::Down) {
                let idoor = m0.slot_i(door as int, y);
                crate::grid::lemma_slot_in_bounds(cols, lines, door as int, y);
                // the door's down bit was still free
                assert(!m0.cells()[idoor].down_gate_open) by {
                    if (door as int) < x {
                        assert(m0.cells()[y * cols + door as int].right_gate_open
                            && !m0.cells()[y * cols + door as int].down_gate_open);
                    } else {
                        assert(door as int == x);
                        assert(!m0.cells()[cursor].down_gate_open);
                    }
                };
                assert(!m0.cells()[idoor].right_gate_open || m0.cells()[idoor].right_gate_open);
                let cmp = crate::maze::open_down_at(m0.cells(), idoor);
                assert forall|j: int| 0 <= j < body.len() implies (#[trigger] body[j]).down_gate_open
                    == cmp[j].down_gate_open && body[j].right_gate_open
                    == cmp[j].right_gate_open by {};
                lemma_gate_total_same_bits(body, cmp);
                lemma_gate_total_update(m0.cells(), idoor, cmp[idoor]);
                assert(cell_gate_count(cmp[idoor]) == cell_gate_count(m0.cells()[idoor]) + 1);
                assert(open_gate_total(body) == open_gate_total(m0.cells()) + 1);
                assert(cursor != m0.cells().len() - 1) by {
                    if cursor == lines * cols - 1 {
                        crate::grid::lemma_slot_injective(cols, x, y, cols - 1, lines - 1);
                        assert(x == cols - 1 && y == lines - 1);
                        assert(m0.carve_allowed(door as int, y, crate::location::Way::Down));
                        assert(false);
                    }
                };
            } else {
                // the only rejected close is the terminal corner's
                assert(body == cleared);
                assert(open_gate_total(body) == open_gate_total(m0.cells())) by {
                    lemma_gate_total_same_bits(body, m0.cells());
                };
                assert(y + 1 >= lines);
                assert(x == cols - 1);
                assert(cursor == m0.cells().len() - 1);
            }
        } else {
            // an extend carves the cursor's right gate, previously free
            let ia = cursor;
            assert(x + 1 < cols);
            assert(!m0.cells()[ia].down_gate_open && !m0.cells()[ia].right_gate_open);
            let marked = crate::maze::set_active(m0.cells(), ia, true);
            assert(body == crate::maze::open_right_at(marked, ia));
            let cmp = crate::maze::open_right_at(m0.cells(), ia);
            assert forall|j: int| 0 <= j < body.len() implies (#[trigger] body[j]).down_gate_open
                == cmp[j].down_gate_open && body[j].right_gate_open == cmp[j].right_gate_open by {};
            lemma_gate_total_same_bits(body, cmp);
            lemma_gate_total_update(m0.cells(), ia, cmp[ia]);
            assert(open_gate_total(body) == open_gate_total(m0.cells()) + 1);
            assert(cursor != m0.cells().len() - 1) by {
                if cursor == lines * cols - 1 {
                    crate::grid::lemma_slot_injective(cols, x, y, cols - 1, lines - 1);
                }
            };
        }
        // the suffix stays untouched and the new run is rightly chained
        assert forall|j: int|
            cursor1 <= j < c1.len() implies !(#[trigger] c1[j]).down_gate_open
                && !c1[j].right_gate_open by {
            assert(!m0.cells()[j].down_gate_open && !m0.cells()[j].right_gate_open);
        };
        let sx1 = t1.spec_start_x() as int;
        let cx1 = t1.spec_location().column as int;
        let cy1 = t1.spec_location().line as int;
        if close {
            // the new run restarts empty at the stepped cursor
            assert(sx1 == cx1);
        } else {
            assert forall|c: int|
                sx1 <= c < cx1 implies (#[trigger] c1[cy1 * cols + c]).right_gate_open && !c1[cy1
                    * cols + c].down_gate_open by {
                assert(cy1 == y && cx1 == x + 1 && sx1 == sx);
                crate::grid::lemma_slot_in_bounds(cols, lines, c, y);
                if c < x {
                    assert(m0.cells()[y * cols + c].right_gate_open && !m0.cells()[y * cols
                        + c].down_gate_open);
                } else {
                    assert(c == x);
                }
            };
        }
    }
}

/// Law: the Sidewinder run state survives any chain of Continuing
/// ticks, and the task stays a Sidewinder carver throughout.
pub proof fn lemma_sidewinder_run_chain(
    n: nat,
    t0: crate::carving::SideWinder,
    a0: crate::task::Args,
    tk: crate::task::Task,
    ak: crate::task::Args,
)
    requires
        crate::task::continuing_ticks(n, crate::task::Task::SideWinder(t0), a0, tk, ak),
        sidewinder_run_inv(t0, a0.maze),
    ensures
        tk matches crate::task::Task::SideWinder(t1) && sidewinder_run_inv(t1, ak.maze),
    decreases n,
{
    if n == 0 {
    } else {
        let (tm, am): (crate::task::Task, crate::task::Args) = choose|
            tm: crate::task::Task,
            am: crate::task::Args,
        |
            crate::task::continuing_ticks(
                (n - 1) as nat,
                crate::task::Task::SideWinder(t0),
                a0,
                tm,
                am,
            ) && #[trigger] crate::task::task_step_rel(
                tm,
                am,
                tk,
                ak,
                crate::task::Status::Continuing,
            );
        lemma_sidewinder_run_chain((n - 1) as nat, t0, a0, tm, am);
        match (tm, tk) {
            (crate::task::Task::SideWinder(tmid), crate::task::Task::SideWinder(tnext)) => {
                lemma_sidewinder_run_preserved(
                    tmid,
                    am,
                    tnext,
                    ak,
                    crate::task::Status::Continuing,
                );
            },
            _ => {
                assert(false);
            },
        }
    }
}

/// Law: driven tick by tick from a fresh carver on a fresh maze, the
/// Sidewinder carve holds, at the tick that reports Done, exactly one
/// open gate less than the maze has cells.
pub proof fn lemma_sidewinder_run_edge_count(
    n: nat,
    t0: crate::carving::SideWinder,
    a0: crate::task::Args,
    tm: crate::task::Task,
    am: crate::task::Args,
    tfin: crate::task::Task,
    afin: crate::task::Args,
    r: crate::task::Status,
)
    requires
        a0.maze.wf(),
        1 <= a0.maze.spec_columns(),
        1 <= a0.maze.spec_lines(),
        t0.wf_for(a0.maze),
        t0.spec_location() == (crate::grid::Address { column: 0, line: 0 }),
        t0.spec_start_x() == 0,
        forall|j: int|
            0 <= j < a0.maze.cells().len() ==> #[trigger] a0.maze.cells()[j]
                == crate::maze::blank_cell(),
        crate::task::continuing_ticks(n, crate::task::Task::SideWinder(t0), a0, tm, am),
        crate::task::task_step_rel(tm, am, tfin, afin, r),
        r is Done,
    ensures
        open_gate_total(afin.maze.cells()) == afin.maze.cells().len() - 1,
{
    lemma_sidewinder_run_init(t0, a0.maze);
    lemma_sidewinder_run_chain(n, t0, a0, tm, am);
    match (tm, tfin) {
        (crate::task::Task::SideWinder(tmid), crate::task::Task::SideWinder(tnext)) => {
            lemma_sidewinder_run_preserved(tmid, am, tnext, afin, r);
            let m = afin.maze;
            let cols = m.spec_columns() as int;
            let lines = m.spec_lines() as int;
            let a = tnext.spec_location();
            let cursor = (a.line as int) * cols + (a.column as int);
            // a Done report leaves the cursor past the last cell
            assert(a.spec_done_walking(m)) by {
                if !tmid.spec_location().spec_done_walking(am.maze) {
                    assert(a == crate::maze::advance_right_then_down(
                        tmid.spec_location(),
                        am.maze.spec_columns(),
                    ));
                }
            };
            assert((a.line as int) >= lines || (a.column as int) >= cols);
            assert((a.column as int) < cols);
            assert(cursor >= lines * cols) by (nonlinear_arith)
                requires
                    cursor == (a.line as int) * cols + (a.column as int),
                    (a.line as int) >= lines,
                    (a.column as int) >= 0,
                    cols >= 1,
            ;
            assert(cols * lines == lines * cols) by (nonlinear_arith);
            assert(cursor >= m.cells().len());
        },
        _ => {
            assert(false);
        },
    }
}

/// How many cells carry the visited flag.
pub open spec fn visited_total(m: Seq<MazeCell>) -> int
    decreases m.len(),
{
    if m.len() == 0 {
        0
    } else {
        visited_total(m.drop_last()) + (if m.last().visited {
            1int
        } else {
            0int
        })
    }
}

/// Two cell sequences with the same visited flags count the same cells.
pub proof fn lemma_visited_total_same_bits(m1: Seq<MazeCell>, m2: Seq<MazeCell>)
    requires
        m1.len() == m2.len(),
        forall|j: int| 0 <= j < m1.len() ==> (#[trigger] m1[j]).visited == m2[j].visited,
    ensures
        visited_total(m1) == visited_total(m2),
    decreases m1.len(),
{
    if m1.len() > 0 {
        assert(forall|j: int|
            0 <= j < m1.drop_last().len() ==> #[trigger] m1.drop_last()[j] == m1[j]);
        assert(forall|j: int|
            0 <= j < m2.drop_last().len() ==> #[trigger] m2.drop_last()[j] == m2[j]);
        lemma_visited_total_same_bits(m1.drop_last(), m2.drop_last());
        assert(m1.last() == m1[m1.len() - 1]);
        assert(m2.last() == m2[m2.len() - 1]);
    }
}

/// Replacing one cell moves the visited count by that cell's difference.
pub proof fn lemma_visited_total_update(m: Seq<MazeCell>, j: int, c: MazeCell)
    requires
        0 <= j < m.len(),
    ensures
        visited_total(m.update(j, c)) == visited_total(m) - (if m[j].visited {
            1int
        } else {
            0int
        }) + (if c.visited {
            1int
        } else {
            0int
        }),
    decreases m.len(),
{
    let updated = m.update(j, c);
    if j == m.len() - 1 {
        assert(updated.drop_last() =~= m.drop_last());
        assert(updated.last() == c);
    } else {
        assert(updated.drop_last() =~= m.drop_last().update(j, c));
        assert(updated.last() == m.last());
        lemma_visited_total_update(m.drop_last(), j, c);
    }
}

/// A maze with no visited flag counts no visited cell.
pub proof fn lemma_visited_total_blank(m: Seq<MazeCell>)
    requires
        forall|j: int| 0 <= j < m.len() ==> !(#[trigger] m[j]).visited,
    ensures
        visited_total(m) == 0,
    decreases m.len(),
{
    if m.len() > 0 {
        assert(forall|j: int|
            0 <= j < m.drop_last().len() ==> #[trigger] m.drop_last()[j] == m[j]);
        lemma_visited_total_blank(m.drop_last());
        assert(m.last() == m[m.len() - 1]);
    }
}

/// Every maze with every cell visited counts them all.
pub proof fn lemma_visited_total_full(m: Seq<MazeCell>)
    requires
        forall|j: int| 0 <= j < m.len() ==> (#[trigger] m[j]).visited,
    ensures
        visited_total(m) == m.len(),
    decreases m.len(),
{
    if m.len() > 0 {
        assert(forall|j: int|
            0 <= j < m.drop_last().len() ==> #[trigger] m.drop_last()[j] == m[j]);
        lemma_visited_total_full(m.drop_last());
        assert(m.last() == m[m.len() - 1]);
    }
}

/// A cell the walk has reached: already visited, or under the cursor.
pub open spec fn walk_reached(m: OrthoMaze, cursor: int, j: int) -> bool {
    m.cells()[j].visited || j == cursor
}

/// The state any number of ticks of the Aldous-Broder walk reaches on a
/// freshly built maze: gates run only between reached cells — the
/// visited ones plus the cursor's — and the open gates always number one
/// less than the reached cells.
pub open spec fn aldous_broder_run_inv(t: crate::carving::AldousBroder, m: OrthoMaze) -> bool {
    let cols = m.spec_columns() as int;
    let cursor = (t.spec_location().line as int) * cols + (t.spec_location().column as int);
    &&& m.wf()
    &&& 1 <= cols
    &&& 1 <= m.spec_lines()
    &&& t.wf_for(m)
    &&& forall|j: int|
        0 <= j < m.cells().len() ==> (((#[trigger] m.cells()[j]).down_gate_open ==> j + cols
            < m.cells().len() && walk_reached(m, cursor, j) && walk_reached(m, cursor, j + cols))
            && (m.cells()[j].right_gate_open ==> j + 1 < m.cells().len() && walk_reached(
            m,
            cursor,
            j,
        ) && walk_reached(m, cursor, j + 1)))
    &&& open_gate_total(m.cells()) == visited_total(m.cells()) + (if m.cells()[cursor].visited {
        0int
    } else {
        1int
    }) - 1
}

/// Law: a fresh walk on a fresh maze starts in the run state.
pub proof fn lemma_aldous_broder_run_init(t: crate::carving::AldousBroder, m: OrthoMaze)
    requires
        m.wf(),
        1 <= m.spec_columns(),
        1 <= m.spec_lines(),
        t.wf_for(m),
        forall|j: int|
            0 <= j < m.cells().len() ==> #[trigger] m.cells()[j] == crate::maze::blank_cell(),
    ensures
        aldous_broder_run_inv(t, m),
{
    lemma_gate_total_blank(m.cells());
    lemma_visited_total_blank(m.cells());
    crate::grid::lemma_slot_in_bounds(
        m.spec_columns() as int,
        m.spec_lines() as int,
        t.spec_location().column as int,
        t.spec_location().line as int,
    );
    assert(m.spec_columns() as int * (m.spec_lines() as int) == (m.spec_lines() as int) * (
    m.spec_columns() as int)) by (nonlinear_arith);
}

/// Law: one walk tick that does not abort preserves the run state,
/// whichever neighbour the draw picked.
#[verifier::rlimit(60)]
pub proof fn lemma_aldous_broder_run_preserved(
    t0: crate::carving::AldousBroder,
    a0: crate::task::Args,
    t1: crate::carving::AldousBroder,
    a1: crate::task::Args,
    r: crate::task::Status,
)
    requires
        crate::carving::AldousBroder::step_rel(t0, a0, t1, a1, r),
        aldous_broder_run_inv(t0, a0.maze),
        !(r is Aborted),
    ensures
        aldous_broder_run_inv(t1, a1.maze),
{
    let m0 = a0.maze;
    let m1 = a1.maze;
    let cols = m0.spec_columns() as int;
    let lines = m0.spec_lines() as int;
    let c0 = m0.cells();
    let a = t0.spec_location();
    let ia = a.slot_in(m0);
    let w0 = t0.spec_walk();
    let base = if t0.spec_restart() {
        crate::maze::active_cleared_on(c0, m0, w0)
    } else {
        c0
    };
    let wb = if t0.spec_restart() {
        Seq::<Address>::empty()
    } else {
        w0
    };
    crate::grid::lemma_slot_in_bounds(cols, lines, a.column as int, a.line as int);
    assert(cols * lines == lines * cols) by (nonlinear_arith);
    assert(c0.len() == cols * lines);
    let next = choose|next: Address|
        #[trigger] next.within(m0) && crate::maze::step_way(a, next) is Some && ({
            let ia2 = a.slot_in(m0);
            let inext = next.slot_in(m0);
            let carved = if !c0[inext].visited {
                crate::maze::open_between(base, m0, a, next)
            } else {
                base
            };
            let after = crate::maze::set_current(
                crate::maze::set_active(
                    crate::maze::set_visited(
                        crate::maze::set_current(carved, ia2, false),
                        ia2,
                        true,
                    ),
                    ia2,
                    true,
                ),
                inext,
                true,
            );
            let wafter = wb.push(a);
            t1.spec_location() == next && t1.spec_restart() == (c0[inext].visited || wb.contains(
                next,
            )) && (if crate::maze::all_cells_visited(after) {
                r is Done && a1.maze.cells() == crate::maze::active_cleared_on(
                    crate::maze::set_current(after, inext, false),
                    m0,
                    wafter,
                ) && t1.spec_walk() == Seq::<Address>::empty()
            } else {
                r is Continuing && a1.maze.cells() == after && t1.spec_walk() == wafter
            })
        });
    let inext = next.slot_in(m0);
    crate::grid::lemma_slot_in_bounds(cols, lines, next.column as int, next.line as int);
    assert(ia != inext) by {
        if ia == inext {
            crate::grid::lemma_slot_injective(
                cols,
                a.column as int,
                a.line as int,
                next.column as int,
                next.line as int,
            );
        }
    };
    // active clearing moves no gate or visited bit
    assert forall|j: int| 0 <= j < c0.len() implies (#[trigger] base[j]).down_gate_open
        == c0[j].down_gate_open && base[j].right_gate_open == c0[j].right_gate_open && base[j].visited
        == c0[j].visited by {};
    let carved = if !c0[inext].visited {
        crate::maze::open_between(base, m0, a, next)
    } else {
        base
    };
    let way = choose|way: crate::location::Way| crate::maze::step_way(a, next) == Some(way);
    crate::carving::lemma_adjacent_carve_allowed(m0, a, next, way);
    crate::maze::lemma_gate_slot_in_bounds(m0, a.column as int, a.line as int, way);
    let ig = m0.gate_slot(a.column as int, a.line as int, way);
    // the carved slot's edge runs between the cursor and the neighbour
    assert((crate::maze::gate_stores_down(way) ==> ig + cols < c0.len() && (ig == ia && ig + cols
        == inext || ig == inext && ig + cols == ia)) && (!crate::maze::gate_stores_down(way) ==> ig
        + 1 < c0.len() && (ig == ia && ig + 1 == inext || ig == inext && ig + 1 == ia))) by {
        assert((a.line as int + 1) * cols + a.column as int == ia + cols) by (nonlinear_arith)
            requires
                ia == (a.line as int) * cols + (a.column as int),
        ;
        assert((a.line as int - 1) * cols + a.column as int == ia - cols) by (nonlinear_arith)
            requires
                ia == (a.line as int) * cols + (a.column as int),
        ;
    };
    let carve_fresh = !c0[inext].visited;
    if carve_fresh {
        // gates touch only reached cells, so this edge bit is still free
        assert(if crate::maze::gate_stores_down(way) {
            !c0[ig].down_gate_open
        } else {
            !c0[ig].right_gate_open
        }) by {
            if crate::maze::gate_stores_down(way) {
                if c0[ig].down_gate_open {
                    assert(walk_reached(m0, ia, inext));
                    assert(false);
                }
            } else {
                if c0[ig].right_gate_open {
                    assert(walk_reached(m0, ia, inext));
                    assert(false);
                }
            }
        };
        lemma_gate_total_same_bits(base, c0);
        lemma_gate_total_update(base, ig, carved[ig]);
        assert(carved =~= base.update(ig, carved[ig]));
        assert(open_gate_total(carved) == open_gate_total(c0) + 1);
    } else {
        lemma_gate_total_same_bits(carved, c0);
    }
    let after = crate::maze::set_current(
        crate::maze::set_active(
            crate::maze::set_visited(crate::maze::set_current(carved, ia, false), ia, true),
            ia,
            true,
        ),
        inext,
        true,
    );
    // the mark shuffle moves no gate bit, and exactly the cursor's cell
    // gains the visited flag
    assert forall|j: int| 0 <= j < c0.len() implies (#[trigger] after[j]).down_gate_open
        == carved[j].down_gate_open && after[j].right_gate_open == carved[j].right_gate_open by {};
    lemma_gate_total_same_bits(after, carved);
    assert forall|j: int|
        0 <= j < c0.len() && j != ia implies (#[trigger] after[j]).visited == c0[j].visited by {};
    assert(after[ia].visited);
    let vis_mid = crate::maze::set_visited(c0, ia, true);
    assert forall|j: int| 0 <= j < c0.len() implies (#[trigger] after[j]).visited
        == vis_mid[j].visited by {};
    lemma_visited_total_same_bits(after, vis_mid);
    lemma_visited_total_update(c0, ia, vis_mid[ia]);
    // the final cells carry the same gates and visited flags as `after`
    let cfin = m1.cells();
    assert forall|j: int| 0 <= j < c0.len() implies (#[trigger] cfin[j]).down_gate_open
        == after[j].down_gate_open && cfin[j].right_gate_open == after[j].right_gate_open
        && cfin[j].visited == after[j].visited by {};
    lemma_gate_total_same_bits(cfin, after);
    lemma_visited_total_same_bits(cfin, after);
    // the ledger balances: one more gate exactly when one more cell is
    // reached
    let u0: int = if c0[ia].visited {
        0
    } else {
        1
    };
    assert(visited_total(after) == visited_total(c0) + u0);
    assert(!cfin[inext].visited == !c0[inext].visited);
    // gates still run between reached cells, with the cursor now on the
    // neighbour
    assert forall|j: int|
        0 <= j < cfin.len() implies (((#[trigger] cfin[j]).down_gate_open ==> j + cols < cfin.len()
            && walk_reached(m1, inext, j) && walk_reached(m1, inext, j + cols)) && (
        cfin[j].right_gate_open ==> j + 1 < cfin.len() && walk_reached(m1, inext, j)
            && walk_reached(m1, inext, j + 1))) by {
        if carve_fresh && j == ig {
            assert(cfin[ia].visited);
        } else {
            if cfin[j].down_gate_open {
                assert(c0[j].down_gate_open);
                assert(walk_reached(m0, ia, j) && walk_reached(m0, ia, j + cols));
                assert(cfin[ia].visited);
            }
            if cfin[j].right_gate_open {
                assert(c0[j].right_gate_open);
                assert(walk_reached(m0, ia, j) && walk_reached(m0, ia, j + 1));
                assert(cfin[ia].visited);
            }
        }
    };
}

/// Law: the walk's run state survives any chain of Continuing ticks,
/// and the task stays an Aldous-Broder walk throughout.
pub proof fn lemma_aldous_broder_run_chain(
    n: nat,
    t0: crate::carving::AldousBroder,
    a0: crate::task::Args,
    tk: crate::task::Task,
    ak: crate::task::Args,
)
    requires
        crate::task::continuing_ticks(n, crate::task::Task::AldousBroder(t0), a0, tk, ak),
        aldous_broder_run_inv(t0, a0.maze),
    ensures
        tk matches crate::task::Task::AldousBroder(t1) && aldous_broder_run_inv(t1, ak.maze),
    decreases n,
{
    if n == 0 {
    } else {
        let (tm, am): (crate::task::Task, crate::task::Args) = choose|
            tm: crate::task::Task,
            am: crate::task::Args,
        |
            crate::task::continuing_ticks(
                (n - 1) as nat,
                crate::task::Task::AldousBroder(t0),
                a0,
                tm,
                am,
            ) && #[trigger] crate::task::task_step_rel(
                tm,
                am,
                tk,
                ak,
                crate::task::Status::Continuing,
            );
        lemma_aldous_broder_run_chain((n - 1) as nat, t0, a0, tm, am);
        match (tm, tk) {
            (crate::task::Task::AldousBroder(tmid), crate::task::Task::AldousBroder(tnext)) => {
                lemma_aldous_broder_run_preserved(
                    tmid,
                    am,
                    tnext,
                    ak,
                    crate::task::Status::Continuing,
                );
            },
            _ => {
                assert(false);
            },
        }
    }
}

/// Law: driven tick by tick from a fresh walk on a fresh maze, the
/// Aldous-Broder carve holds, at the tick that reports Done, every cell
/// visited and exactly one open gate less than the maze has cells — a
/// spanning count over the covered grid.
pub proof fn lemma_aldous_broder_run_edge_count(
    n: nat,
    t0: crate::carving::AldousBroder,
    a0: crate::task::Args,
    tm: crate::task::Task,
    am: crate::task::Args,
    tfin: crate::task::Task,
    afin: crate::task::Args,
    r: crate::task::Status,
)
    requires
        a0.maze.wf(),
        1 <= a0.maze.spec_columns(),
        1 <= a0.maze.spec_lines(),
        t0.wf_for(a0.maze),
        forall|j: int|
            0 <= j < a0.maze.cells().len() ==> #[trigger] a0.maze.cells()[j]
                == crate::maze::blank_cell(),
        crate::task::continuing_ticks(n, crate::task::Task::AldousBroder(t0), a0, tm, am),
        crate::task::task_step_rel(tm, am, tfin, afin, r),
        r is Done,
    ensures
        afin.maze.grid.all_visited(),
        open_gate_total(afin.maze.cells()) == afin.maze.cells().len() - 1,
{
    lemma_aldous_broder_run_init(t0, a0.maze);
    lemma_aldous_broder_run_chain(n, t0, a0, tm, am);
    match (tm, tfin) {
        (crate::task::Task::AldousBroder(tmid), crate::task::Task::AldousBroder(tnext)) => {
            lemma_aldous_broder_run_preserved(tmid, am, tnext, afin, r);
            let m = afin.maze;
            let cols = m.spec_columns() as int;
            let cursor = (tnext.spec_location().line as int) * cols + (
            tnext.spec_location().column as int);
            assert(m.grid.all_visited());
            assert(forall|j: int| 0 <= j < m.cells().len() ==> (#[trigger] m.cells()[j]).visited);
            lemma_visited_total_full(m.cells());
            crate::grid::lemma_slot_in_bounds(
                cols,
                m.spec_lines() as int,
                tnext.spec_location().column as int,
                tnext.spec_location().line as int,
            );
            assert(m.cells()[cursor].visited);
        },
        _ => {
            assert(false);
        },
    }
}

} // verus!
