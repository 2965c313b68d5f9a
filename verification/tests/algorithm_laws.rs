use orthomaze::carving::{AldousBroder, BinaryTree, SideWinder, Wilson};
use orthomaze::grid::Address;
use orthomaze::highmap::OrthoHighMap;
use orthomaze::location::Way;
use orthomaze::maze::OrthoMaze;
use orthomaze::seeding::DijkstraWalk;
use orthomaze::task::{Args, Executor, Status, Task};

fn open_gate_count(maze: &OrthoMaze, w: usize, h: usize) -> usize {
    let mut count = 0;
    for y in 0..h {
        for x in 0..w {
            let cell = maze.grid.try_at(x, y).unwrap();
            if cell.down_gate_open {
                count += 1;
            }
            if cell.right_gate_open {
                count += 1;
            }
        }
    }
    count
}

fn scan_reaches_every_cell(args: &mut Args, w: usize, h: usize) -> bool {
    let mut scan = DijkstraWalk::new(&args.maze);
    loop {
        match scan.execute_one(args) {
            Status::Continuing => {},
            Status::Done => break,
            Status::Aborted(why) => panic!("scan aborted: {}", why),
        }
    }
    for y in 0..h {
        for x in 0..w {
            if args.highmap.grid.try_at(x, y).unwrap().height.is_none() {
                return false;
            }
        }
    }
    true
}

#[test]
fn binary_tree_carves_a_spanning_tree() {
    let (w, h) = (4, 5);
    let maze = OrthoMaze::new(w, h);
    let bt = BinaryTree::new(&maze);
    let mut args = Args { maze, highmap: OrthoHighMap::new(w, h) };
    let mut exec = Executor::new();
    exec.stack(Task::BinaryTree(bt));
    exec.run_task(&mut args);
    assert_eq!(exec.len(), 0);

    // a spanning tree over w*h cells holds exactly w*h - 1 edges
    assert_eq!(open_gate_count(&args.maze, w, h), w * h - 1);
    assert!(scan_reaches_every_cell(&mut args, w, h));
}

#[test]
fn binary_tree_terminal_cell_keeps_its_own_gates_closed() {
    let (w, h) = (4, 5);
    let maze = OrthoMaze::new(w, h);
    let bt = BinaryTree::new(&maze);
    let mut args = Args { maze, highmap: OrthoHighMap::new(w, h) };
    let mut exec = Executor::new();
    exec.stack(Task::BinaryTree(bt));
    exec.run_task(&mut args);

    // the bottom-right terminal cell never carves: no down or right gate
    let locgen = args.maze.loc_generator();
    let corner = args.maze.gates_at(&locgen.create_from_coordinates(w - 1, h - 1));
    assert!(!corner.can_move(&Way::Down));
    assert!(!corner.can_move(&Way::Right));

    // the bottom row's last cell cannot move down, by construction
    let cell = args.maze.grid.try_at(w - 1, h - 1).unwrap();
    assert!(!cell.down_gate_open);
    assert!(!cell.right_gate_open);
}

#[test]
fn binary_tree_bottom_row_carves_only_rightward() {
    let (w, h) = (6, 4);
    let maze = OrthoMaze::new(w, h);
    let bt = BinaryTree::new(&maze);
    let mut args = Args { maze, highmap: OrthoHighMap::new(w, h) };
    let mut exec = Executor::new();
    exec.stack(Task::BinaryTree(bt));
    exec.run_task(&mut args);

    for x in 0..w {
        let cell = args.maze.grid.try_at(x, h - 1).unwrap();
        assert!(!cell.down_gate_open);
        if x + 1 < w {
            assert!(cell.right_gate_open);
        } else {
            assert!(!cell.right_gate_open);
        }
    }
    // the right column carves only downward
    for y in 0..h {
        let cell = args.maze.grid.try_at(w - 1, y).unwrap();
        assert!(!cell.right_gate_open);
        if y + 1 < h {
            assert!(cell.down_gate_open);
        }
    }
}

#[test]
fn sidewinder_carves_a_spanning_tree() {
    let (w, h) = (4, 5);
    let maze = OrthoMaze::new(w, h);
    let sw = SideWinder::new(&maze);
    let mut args = Args { maze, highmap: OrthoHighMap::new(w, h) };
    let mut exec = Executor::new();
    exec.stack(Task::SideWinder(sw));
    exec.run_task(&mut args);
    assert_eq!(exec.len(), 0);

    assert_eq!(open_gate_count(&args.maze, w, h), w * h - 1);
    assert!(scan_reaches_every_cell(&mut args, w, h));
}

#[test]
fn sidewinder_leaves_no_active_highlight() {
    let (w, h) = (5, 4);
    let maze = OrthoMaze::new(w, h);
    let sw = SideWinder::new(&maze);
    let mut args = Args { maze, highmap: OrthoHighMap::new(w, h) };
    let mut exec = Executor::new();
    exec.stack(Task::SideWinder(sw));
    exec.run_task(&mut args);

    // every run has closed, so no cell keeps the active flag
    for y in 0..h {
        for x in 0..w {
            assert!(!args.maze.grid.try_at(x, y).unwrap().active);
        }
    }
}

#[test]
fn aldous_broder_covers_and_carves_a_spanning_tree() {
    let (w, h) = (3, 3);
    let maze = OrthoMaze::new(w, h);
    let ab = AldousBroder::new(&maze);
    let mut args = Args { maze, highmap: OrthoHighMap::new(w, h) };
    let mut exec = Executor::new();
    exec.stack(Task::AldousBroder(ab));
    exec.run_task(&mut args);
    assert_eq!(exec.len(), 0);

    assert!(args.maze.is_visitation_complete());
    assert_eq!(open_gate_count(&args.maze, w, h), w * h - 1);
    assert!(scan_reaches_every_cell(&mut args, w, h));
}

#[test]
fn wilson_covers_and_carves_a_spanning_tree() {
    // relocation may exhaust its bounded random draws and abort, which
    // callers treat as a hard error; retry the generation when it does
    let (w, h) = (3, 3);
    let mut attempt = 0;
    loop {
        attempt += 1;
        let maze = OrthoMaze::new(w, h);
        let wilson = Wilson::new(&maze);
        let mut args = Args { maze, highmap: OrthoHighMap::new(w, h) };
        let mut exec = Executor::new();
        exec.stack(Task::Wilson(wilson));
        match exec.run(&mut args) {
            Status::Done => {
                assert_eq!(exec.len(), 0);
                assert!(args.maze.is_visitation_complete());
                assert_eq!(open_gate_count(&args.maze, w, h), w * h - 1);
                assert!(scan_reaches_every_cell(&mut args, w, h));
                return;
            },
            Status::Aborted(_) if attempt < 100 => {},
            status => panic!("unexpected status: {:?}", status),
        }
    }
}

#[test]
fn wilson_rewinds_to_the_first_occurrence() {
    // walking a, b, c, back to b, then d buffers [a, b, c, b]; reaching
    // b again must rewind the buffer to [a] with the cursor on b
    let mut maze = OrthoMaze::new(3, 3);
    let mut wilson = Wilson::new(&maze);
    let a = Address { column: 0, line: 0 };
    let b = Address { column: 1, line: 0 };
    let c = Address { column: 1, line: 1 };
    let d = Address { column: 2, line: 0 };

    wilson.walk_to(b, &mut maze);
    wilson.walk_to(c, &mut maze);
    wilson.walk_to(b, &mut maze);
    wilson.walk_to(d, &mut maze);
    assert_eq!(wilson.walk_buffer().as_slice(), &[a, b, c, b]);

    wilson.rewind_to(b, &mut maze);
    assert_eq!(wilson.walk_buffer().as_slice(), &[a]);
    assert_eq!(wilson.location, b);
    // the erased entries lost their highlight
    assert!(!maze.grid.try_at(1, 1).unwrap().active);
    assert!(!maze.grid.try_at(1, 0).unwrap().active);
    assert!(maze.grid.try_at(0, 0).unwrap().active);
    // no gate was carved by the erasure
    assert_eq!(open_gate_count(&maze, 3, 3), 0);
}

#[test]
fn wilson_commit_carves_every_consecutive_pair() {
    let mut maze = OrthoMaze::new(3, 3);
    let mut wilson = Wilson::new(&maze);
    let b = Address { column: 1, line: 0 };
    let c = Address { column: 1, line: 1 };
    let d = Address { column: 0, line: 1 };

    wilson.walk_to(b, &mut maze);
    wilson.walk_to(c, &mut maze);
    wilson.commit_walk(d, &mut maze);

    // the committed path a-b-c-d carved each consecutive pair
    assert!(maze.grid.try_at(0, 0).unwrap().right_gate_open);
    assert!(maze.grid.try_at(1, 0).unwrap().down_gate_open);
    assert!(maze.grid.try_at(0, 1).unwrap().right_gate_open);
    assert_eq!(open_gate_count(&maze, 3, 3), 3);

    // each stepped-from cell is now visited; the end of the path is not
    assert!(maze.grid.try_at(0, 0).unwrap().visited);
    assert!(maze.grid.try_at(1, 0).unwrap().visited);
    assert!(maze.grid.try_at(1, 1).unwrap().visited);
    assert!(!maze.grid.try_at(0, 1).unwrap().visited);
    assert_eq!(wilson.walk_buffer().len(), 0);
}

#[test]
fn aldous_broder_aborts_without_neighbours() {
    let maze = OrthoMaze::new(1, 1);
    let mut ab = AldousBroder::new(&maze);
    let mut args = Args { maze, highmap: OrthoHighMap::new(1, 1) };
    assert!(matches!(ab.execute_one(&mut args), Status::Aborted(_)));
}

#[test]
fn wilson_aborts_without_unvisited_cells() {
    let maze = OrthoMaze::new(1, 1);
    let mut wilson = Wilson::new(&maze);
    let mut args = Args { maze, highmap: OrthoHighMap::new(1, 1) };
    assert!(matches!(wilson.execute_one(&mut args), Status::Aborted(_)));
}

#[test]
fn carve_between_non_adjacent_cells_is_rejected() {
    let mut maze = OrthoMaze::new(2, 2);
    let locgen = maze.loc_generator();
    let origin = locgen.create_from_coordinates(0, 0);
    // carving up from the top row would leave the grid
    let r = maze.carve(&origin, &Way::Up);
    assert_eq!(r, Err("invalid carving".to_string()));
    assert_eq!(open_gate_count(&maze, 2, 2), 0);
}
