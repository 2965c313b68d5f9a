use orthomaze::grid::Address;
use orthomaze::highmap::OrthoHighMap;
use orthomaze::location::Way;
use orthomaze::maze::OrthoMaze;
use orthomaze::seeding::DijkstraWalk;
use orthomaze::task::{Args, Status};

fn run_scan(args: &mut Args) {
    let mut scan = DijkstraWalk::new(&args.maze);
    loop {
        match scan.execute_one(args) {
            Status::Continuing => {},
            Status::Done => break,
            Status::Aborted(why) => panic!("scan aborted: {}", why),
        }
    }
}

fn height_at(args: &Args, x: usize, y: usize) -> Option<usize> {
    args.highmap.grid.try_at(x, y).unwrap().height
}

#[test]
fn depths_follow_shortest_paths_on_a_corridor() {
    // a 2x2 maze carved as one corridor: (0,0)-(1,0)-(1,1), plus the
    // branch (0,0)-(0,1)
    let mut maze = OrthoMaze::new(2, 2);
    Address { column: 0, line: 0 }.carve_right(&mut maze);
    Address { column: 0, line: 0 }.carve_down(&mut maze);
    Address { column: 1, line: 0 }.carve_down(&mut maze);
    let mut args = Args { maze, highmap: OrthoHighMap::new(2, 2) };

    run_scan(&mut args);

    assert_eq!(height_at(&args, 0, 0), Some(0));
    assert_eq!(height_at(&args, 1, 0), Some(1));
    assert_eq!(height_at(&args, 0, 1), Some(1));
    assert_eq!(height_at(&args, 1, 1), Some(2));
    assert_eq!(args.highmap.highest, 2);
}

#[test]
fn depths_across_every_open_gate_differ_by_at_most_one() {
    let (w, h) = (4, 5);
    let maze = OrthoMaze::new(w, h);
    let bt = orthomaze::carving::BinaryTree::new(&maze);
    let mut args = Args { maze, highmap: OrthoHighMap::new(w, h) };
    let mut exec = orthomaze::task::Executor::new();
    exec.stack(orthomaze::task::Task::BinaryTree(bt));
    exec.run_task(&mut args);

    run_scan(&mut args);

    let locgen = args.maze.loc_generator();
    let mut max_depth = 0;
    for y in 0..h {
        for x in 0..w {
            let du = height_at(&args, x, y).expect("every cell is reached");
            if du > max_depth {
                max_depth = du;
            }
            let gates = args.maze.gates_at(&locgen.create_from_coordinates(x, y));
            if gates.can_move(&Way::Down) {
                let dv = height_at(&args, x, y + 1).expect("every cell is reached");
                assert!(du + 1 >= dv && dv + 1 >= du);
            }
            if gates.can_move(&Way::Right) {
                let dv = height_at(&args, x + 1, y).expect("every cell is reached");
                assert!(du + 1 >= dv && dv + 1 >= du);
            }
        }
    }
    // the tracked maximum equals the greatest depth assigned
    assert_eq!(args.highmap.highest, max_depth);
}

#[test]
fn unreachable_cells_stay_without_depth() {
    // nothing is carved: only the seed cell gets a depth
    let maze = OrthoMaze::new(2, 2);
    let mut args = Args { maze, highmap: OrthoHighMap::new(2, 2) };
    run_scan(&mut args);
    assert_eq!(height_at(&args, 0, 0), Some(0));
    assert_eq!(height_at(&args, 1, 0), None);
    assert_eq!(height_at(&args, 0, 1), None);
    assert_eq!(height_at(&args, 1, 1), None);
    assert_eq!(args.highmap.highest, 0);
}
