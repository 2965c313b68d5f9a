use vstd::prelude::*;

use crate::location::{Loc, Way};
use crate::maze::{MazeCell, OrthoMaze};

verus! {

/// A carving session: the maze being built together with the reasons
/// recorded for every carve.
pub struct Execution {
    pub maze: OrthoMaze,
    pub history: Vec<String>,
}

impl Execution {
    pub open spec fn spec_history(&self) -> Seq<String> {
        self.history@
    }

    pub fn new(maze: OrthoMaze) -> (e: Execution)
        ensures
            e.maze == maze,
            e.spec_history().len() == 0,
    {
        Execution { maze, history: Vec::new() }
    }

    /// Carves at `loc` toward `gateway`, recording `why`; a rejected
    /// carve records nothing and moves nothing.
    pub fn carve(&mut self, loc: Loc, gateway: Way, why: &str) -> (r: Result<(), String>)
        requires
            old(self).maze.wf(),
        ensures
            old(self).maze.same_shape(&final(self).maze),
            r is Ok <==> old(self).maze.carve_allowed(
                loc.spec_column() as int,
                loc.spec_line() as int,
                gateway,
            ),
            r is Ok ==> final(self).maze.cells() == old(self).maze.cells().update(
                old(self).maze.gate_slot(loc.spec_column() as int, loc.spec_line() as int, gateway),
                if crate::maze::gate_stores_down(gateway) {
                    crate::maze::with_down_open(
                        old(self).maze.cells()[old(self).maze.gate_slot(
                            loc.spec_column() as int,
                            loc.spec_line() as int,
                            gateway,
                        )],
                    )
                } else {
                    crate::maze::with_right_open(
                        old(self).maze.cells()[old(self).maze.gate_slot(
                            loc.spec_column() as int,
                            loc.spec_line() as int,
                            gateway,
                        )],
                    )
                },
            ) && final(self).spec_history().len() == old(self).spec_history().len() + 1
                && final(self).spec_history().last()@ == why@ && final(self).spec_history().take(
                old(self).spec_history().len() as int,
            ) == old(self).spec_history(),
            r is Err ==> final(self).maze == old(self).maze && final(self).spec_history() == old(self).spec_history(),
    {
        let r = self.maze.carve(&loc, &gateway);
        match r {
            Ok(()) => {
                self.history.push(why.to_owned());
                proof {
                    assert(self.history@.take(old(self).spec_history().len() as int)
                        =~= old(self).spec_history());
                }
                Ok(())
            },
            Err(e) => Err(e),
        }
    }
}

/// One-shot Binary Tree carving: walks the whole grid row-major in a
/// single call, opening at every cell except the terminal one either the
/// right gate (forced on the bottom border) or the down gate (forced on
/// the right border), a coin toss anywhere else.
pub struct BinaryTree();

impl BinaryTree {
    /// Runs the whole carve. Afterwards every cell except the terminal
    /// bottom-right corner has one of its own gates open toward an
    /// in-bounds neighbour, so every cell reaches the terminal corner
    /// through open gates — the maze graph is connected. On a freshly
    /// built maze exactly one gate per non-terminal cell opens, so the
    /// connected graph has one edge less than it has cells: a spanning
    /// tree.
    pub fn carve(&self, exec: &mut Execution) -> (r: Result<(), String>)
        requires
            old(exec).maze.wf(),
            1 <= old(exec).maze.spec_columns(),
            1 <= old(exec).maze.spec_lines(),
        ensures
            r is Ok,
            old(exec).maze.same_shape(&final(exec).maze),
            forall|cx: int, cy: int|
                0 <= cx < final(exec).maze.spec_columns() && 0 <= cy < final(exec).maze.spec_lines() && !(cx == final(exec).maze.spec_columns() - 1 && cy == final(exec).maze.spec_lines() - 1) ==> #[trigger] exit_open(
                    final(exec).maze.cells(),
                    final(exec).maze.spec_columns() as int,
                    final(exec).maze.spec_lines() as int,
                    cx,
                    cy,
                ),
            forall|cx: int, cy: int|
                0 <= cx < final(exec).maze.spec_columns() && 0 <= cy < final(exec).maze.spec_lines() ==> #[trigger] exits_to_terminal(
                    final(exec).maze.cells(),
                    final(exec).maze.spec_columns() as int,
                    final(exec).maze.spec_lines() as int,
                    cx,
                    cy,
                ),
            (forall|j: int|
                0 <= j < old(exec).maze.cells().len()
                    ==> !(#[trigger] old(exec).maze.cells()[j]).down_gate_open && !old(exec).maze.cells()[j].right_gate_open) ==> open_gate_total(final(exec).maze.cells())
                == old(exec).maze.cells().len() - 1,
    {
        let ghost m0 = exec.maze;
        let ghost c0 = exec.maze.cells();
        let ghost cols = m0.spec_columns() as int;
        let ghost lines = m0.spec_lines() as int;
        let ghost terminal = exec.maze.slot_i(cols - 1, lines - 1);
        let ghost blank0 = forall|j: int|
            0 <= j < c0.len() ==> !(#[trigger] c0[j]).down_gate_open && !c0[j].right_gate_open;
        let mut zwalk = exec.maze.zwalk();
        let ghost limit = zwalk.spec_limit();
        proof {
            crate::grid::lemma_slot_in_bounds(cols, lines, cols - 1, lines - 1);
            assert((lines - 1) * cols + (cols - 1) == lines * cols - 1) by (nonlinear_arith);
            assert(lines * cols == cols * lines) by (nonlinear_arith);
            if blank0 {
                lemma_gate_total_blank(c0);
            }
        }
        loop
            invariant
                exec.maze.wf(),
                m0.same_shape(&exec.maze),
                m0.spec_columns() == exec.maze.spec_columns(),
                m0.spec_lines() == exec.maze.spec_lines(),
                cols == m0.spec_columns() as int,
                lines == m0.spec_lines() as int,
                1 <= cols,
                1 <= lines,
                c0 == m0.cells(),
                blank0 == (forall|j: int|
                    0 <= j < c0.len() ==> !(#[trigger] c0[j]).down_gate_open
                        && !c0[j].right_gate_open),
                zwalk.wf(),
                zwalk.spec_limit() == limit,
                limit == exec.maze.cells().len(),
                limit == c0.len(),
                zwalk.spec_columns() == m0.spec_columns(),
                zwalk.spec_lines() == m0.spec_lines(),
                zwalk.spec_index() <= limit,
                terminal == lines * cols - 1,
                0 <= terminal < limit,
                forall|j: int|
                    zwalk.spec_index() <= j < limit ==> #[trigger] exec.maze.cells()[j] == c0[j],
                forall|cx: int, cy: int|
                    0 <= cx < cols && 0 <= cy < lines && cy * cols + cx < zwalk.spec_index() && !(
                    cx == cols - 1 && cy == lines - 1) ==> #[trigger] exit_open(
                        exec.maze.cells(),
                        cols,
                        lines,
                        cx,
                        cy,
                    ),
                blank0 ==> open_gate_total(exec.maze.cells()) == (if zwalk.spec_index() < limit {
                    zwalk.spec_index() as int
                } else {
                    limit - 1
                }),
            ensures
                zwalk.spec_index() == limit,
                forall|cx: int, cy: int|
                    0 <= cx < cols && 0 <= cy < lines && cy * cols + cx < limit && !(cx == cols - 1
                        && cy == lines - 1) ==> #[trigger] exit_open(
                        exec.maze.cells(),
                        cols,
                        lines,
                        cx,
                        cy,
                    ),
                blank0 ==> open_gate_total(exec.maze.cells()) == limit - 1,
            decreases limit - zwalk.spec_index(),
        {
            let ghost i = zwalk.spec_index();
            let loc = match zwalk.next() {
                None => {
                    break ;
                },
                Some(l) => l,
            };
            proof {
                crate::location::lemma_loc_div_mod(i as int, cols);
                crate::grid::lemma_pin_in_bounds(cols, lines, i as int);
                assert(exec.maze.slot_i(loc.spec_column() as int, loc.spec_line() as int)
                    == i as int);
            }
            let on_down = loc.is_close_to(crate::location::Border::Down);
            let on_right = loc.is_close_to(crate::location::Border::Right);
            if on_down && on_right {
                // the terminal corner carves nothing
                proof {
                    assert(loc.spec_column() as int == cols - 1);
                    assert(loc.spec_line() as int == lines - 1);
                    assert((lines - 1) * cols + (cols - 1) == lines * cols - 1) by (nonlinear_arith);
                    assert(i as int == terminal);
                    assert(i as int == limit - 1);
                    assert forall|cx: int, cy: int|
                        0 <= cx < cols && 0 <= cy < lines && cy * cols + cx < i + 1 && !(cx == cols
                            - 1 && cy == lines - 1) implies #[trigger] exit_open(
                        exec.maze.cells(),
                        cols,
                        lines,
                        cx,
                        cy,
                    ) by {
                        crate::grid::lemma_slot_in_bounds(cols, lines, cx, cy);
                        if cy * cols + cx == terminal {
                            crate::grid::lemma_slot_injective(
                                cols,
                                cx,
                                cy,
                                cols - 1,
                                lines - 1,
                            );
                        }
                        assert(cy * cols + cx < i);
                    }
                }
                continue ;
            }
            let ghost prev = exec.maze.cells();
            let ghost x = loc.spec_column() as int;
            let ghost y = loc.spec_line() as int;
            if on_down {
                let _ = exec.carve(loc, Way::Right, "bottom border, forced to carve right");
            } else if on_right {
                let _ = exec.carve(loc, Way::Down, "right border, forced to carve down");
            } else {
                let is_tail = crate::rng::rand_bool();
                if is_tail {
                    let _ = exec.carve(loc, Way::Down, "randomly choose to carve down");
                } else {
                    let _ = exec.carve(loc, Way::Right, "randomly choose to carve right");
                }
            }
            proof {
                assert(exec.maze.cells().len() == prev.len());
                assert(exit_open(exec.maze.cells(), cols, lines, x, y));
                assert forall|cx: int, cy: int|
                    0 <= cx < cols && 0 <= cy < lines && cy * cols + cx < i + 1 && !(cx == cols - 1
                        && cy == lines - 1) implies #[trigger] exit_open(
                    exec.maze.cells(),
                    cols,
                    lines,
                    cx,
                    cy,
                ) by {
                    crate::grid::lemma_slot_in_bounds(cols, lines, cx, cy);
                    if cy * cols + cx < i {
                        assert(exit_open(prev, cols, lines, cx, cy));
                        assert(exec.maze.cells()[cy * cols + cx] == prev[cy * cols + cx]);
                    } else {
                        crate::grid::lemma_slot_injective(cols, cx, cy, x, y);
                    }
                }
                if i as int == terminal {
                    assert((lines - 1) * cols + (cols - 1) == lines * cols - 1)
                        by (nonlinear_arith);
                    crate::grid::lemma_slot_injective(cols, x, y, cols - 1, lines - 1);
                    assert(false);
                }
                assert((i as int) < limit - 1);
                if blank0 {
                    assert(prev[i as int] == c0[i as int]);
                    lemma_gate_total_update(prev, i as int, exec.maze.cells()[i as int]);
                    assert(open_gate_total(exec.maze.cells()) == open_gate_total(prev) + 1);
                }
            }
        }
        proof {
            assert forall|cx: int, cy: int|
                0 <= cx < cols && 0 <= cy < lines && !(cx == cols - 1 && cy == lines - 1)
                    implies #[trigger] exit_open(exec.maze.cells(), cols, lines, cx, cy) by {
                crate::grid::lemma_slot_in_bounds(cols, lines, cx, cy);
            }
            assert forall|cx: int, cy: int|
                0 <= cx < cols && 0 <= cy < lines implies #[trigger] exits_to_terminal(
                exec.maze.cells(),
                cols,
                lines,
                cx,
                cy,
            ) by {
                assert forall|ax: int, ay: int|
                    0 <= ax < cols && 0 <= ay < lines && !(ax == cols - 1 && ay == lines - 1)
                        implies #[trigger] exit_open(exec.maze.cells(), cols, lines, ax, ay) by {
                    crate::grid::lemma_slot_in_bounds(cols, lines, ax, ay);
                };
                lemma_every_cell_reaches_terminal(exec.maze.cells(), cols, lines, cx, cy);
            }
        }
        Ok(())
    }
}

/// Whether the cell at `(x, y)` has an own open gate toward an in-bounds
/// neighbour: rightward or downward.
pub open spec fn exit_open(m: Seq<MazeCell>, columns: int, lines: int, x: int, y: int) -> bool {
    (m[y * columns + x].right_gate_open && x + 1 < columns) || (m[y * columns + x].down_gate_open
        && y + 1 < lines)
}

/// Whether the cell at `(x, y)` reaches the terminal bottom-right corner
/// by repeatedly following its own open right/down gates.
pub open spec fn exits_to_terminal(
    m: Seq<MazeCell>,
    columns: int,
    lines: int,
    x: int,
    y: int,
) -> bool
    decreases (columns - 1 - x) + (lines - 1 - y)
        when 0 <= x < columns && 0 <= y < lines
{
    if x == columns - 1 && y == lines - 1 {
        true
    } else if m[y * columns + x].right_gate_open && x + 1 < columns {
        exits_to_terminal(m, columns, lines, x + 1, y)
    } else if m[y * columns + x].down_gate_open && y + 1 < lines {
        exits_to_terminal(m, columns, lines, x, y + 1)
    } else {
        false
    }
}

/// Law: a maze in which every non-terminal cell has an own open gate
/// toward an in-bounds neighbour is connected — every cell reaches the
/// terminal corner through open gates.
pub proof fn lemma_every_cell_reaches_terminal(
    m: Seq<MazeCell>,
    columns: int,
    lines: int,
    x: int,
    y: int,
)
    requires
        1 <= columns,
        1 <= lines,
        0 <= x < columns,
        0 <= y < lines,
        forall|cx: int, cy: int|
            0 <= cx < columns && 0 <= cy < lines && !(cx == columns - 1 && cy == lines - 1)
                ==> #[trigger] exit_open(m, columns, lines, cx, cy),
    ensures
        exits_to_terminal(m, columns, lines, x, y),
    decreases (columns - 1 - x) + (lines - 1 - y),
{
    if x == columns - 1 && y == lines - 1 {
    } else {
        assert(exit_open(m, columns, lines, x, y));
        if m[y * columns + x].right_gate_open && x + 1 < columns {
            lemma_every_cell_reaches_terminal(m, columns, lines, x + 1, y);
        } else {
            lemma_every_cell_reaches_terminal(m, columns, lines, x, y + 1);
        }
    }
}

/// How many gates one cell holds open.
pub open spec fn cell_gate_count(c: MazeCell) -> int {
    (if c.down_gate_open {
        1int
    } else {
        0int
    }) + (if c.right_gate_open {
        1int
    } else {
        0int
    })
}

/// How many gates the whole maze holds open, cell by cell.
pub open spec fn open_gate_total(m: Seq<MazeCell>) -> int
    decreases m.len(),
{
    if m.len() == 0 {
        0
    } else {
        open_gate_total(m.drop_last()) + cell_gate_count(m.last())
    }
}

/// A maze with every gate closed counts no open gate.
pub proof fn lemma_gate_total_blank(m: Seq<MazeCell>)
    requires
        forall|j: int|
            0 <= j < m.len() ==> !(#[trigger] m[j]).down_gate_open && !m[j].right_gate_open,
    ensures
        open_gate_total(m) == 0,
    decreases m.len(),
{
    if m.len() > 0 {
        assert(forall|j: int|
            0 <= j < m.drop_last().len() ==> #[trigger] m.drop_last()[j] == m[j]);
        lemma_gate_total_blank(m.drop_last());
        assert(m.last() == m[m.len() - 1]);
    }
}

/// Replacing one cell moves the total by the difference of that cell's
/// own count.
pub proof fn lemma_gate_total_update(m: Seq<MazeCell>, j: int, c: MazeCell)
    requires
        0 <= j < m.len(),
    ensures
        open_gate_total(m.update(j, c)) == open_gate_total(m) - cell_gate_count(m[j])
            + cell_gate_count(c),
    decreases m.len(),
{
    let updated = m.update(j, c);
    if j == m.len() - 1 {
        assert(updated.drop_last() =~= m.drop_last());
        assert(updated.last() == c);
    } else {
        assert(updated.drop_last() =~= m.drop_last().update(j, c));
        assert(updated.last() == m.last());
        lemma_gate_total_update(m.drop_last(), j, c);
    }
}

} // verus!
