use orthomaze::carving::BinaryTree;
use orthomaze::highmap::OrthoHighMap;
use orthomaze::maze::OrthoMaze;
use orthomaze::seeding::DijkstraWalk;
use orthomaze::task::{Args, Executor, Status, Task};

#[test]
fn run_stops_at_abort_and_leaves_rest_queued() {
    // a single-cell maze makes the walk abort on its first tick: the
    // start is marked visited and no unvisited cell is left
    let maze = OrthoMaze::new(1, 1);
    let wilson = orthomaze::carving::Wilson::new(&maze);
    let scan = DijkstraWalk::new(&maze);
    let mut args = Args { maze, highmap: OrthoHighMap::new(1, 1) };

    let mut exec = Executor::new();
    exec.stack(Task::Wilson(wilson));
    exec.stack(Task::DijkstraWalk(scan));
    assert_eq!(exec.len(), 2);

    let status = exec.run(&mut args);
    assert!(matches!(status, Status::Aborted(_)));

    // the queue still holds the untouched second task
    assert_eq!(exec.len(), 1);
    assert_eq!(exec.front_name(), Some("DijkstraWalk"));
    // the distance scan was never ticked
    assert_eq!(args.highmap.grid.try_at(0, 0).unwrap().height, None);
    assert_eq!(args.highmap.highest, 0);
}

#[test]
fn run_step_pops_a_task_exactly_when_it_finishes() {
    // Binary Tree on a 2x2 grid reports Done on its fifth tick: four
    // carving ticks, one closing tick
    let maze = OrthoMaze::new(2, 2);
    let bt = BinaryTree::new(&maze);
    let scan = DijkstraWalk::new(&maze);
    let mut args = Args { maze, highmap: OrthoHighMap::new(2, 2) };

    let mut exec = Executor::new();
    exec.stack(Task::BinaryTree(bt));
    exec.stack(Task::DijkstraWalk(scan));

    for _ in 0..4 {
        exec.run_step(&mut args);
        assert_eq!(exec.len(), 2);
        assert_eq!(exec.front_name(), Some("BinaryTree"));
    }
    exec.run_step(&mut args);
    assert_eq!(exec.len(), 1);
    assert_eq!(exec.front_name(), Some("DijkstraWalk"));

    // the next step begins ticking the next queued task
    exec.run_step(&mut args);
    assert_eq!(exec.len(), 1);
    assert_eq!(args.highmap.grid.try_at(0, 0).unwrap().height, Some(0));
}

#[test]
fn run_drains_carve_then_scan() {
    let maze = OrthoMaze::new(4, 5);
    let bt = BinaryTree::new(&maze);
    let scan = DijkstraWalk::new(&maze);
    let mut args = Args { maze, highmap: OrthoHighMap::new(4, 5) };

    let mut exec = Executor::new();
    exec.stack(Task::BinaryTree(bt));
    exec.stack(Task::DijkstraWalk(scan));

    let status = exec.run(&mut args);
    assert!(matches!(status, Status::Done));
    assert_eq!(exec.len(), 0);

    // the carved maze is connected: the scan reached every cell
    for y in 0..5 {
        for x in 0..4 {
            assert!(args.highmap.grid.try_at(x, y).unwrap().height.is_some());
        }
    }
}

#[test]
fn clear_empties_the_queue() {
    let maze = OrthoMaze::new(2, 2);
    let bt = BinaryTree::new(&maze);
    let mut exec = Executor::new();
    exec.stack(Task::BinaryTree(bt));
    assert_eq!(exec.len(), 1);
    assert!(!exec.is_empty());
    exec.clear();
    assert_eq!(exec.len(), 0);
    assert!(exec.is_empty());
    assert_eq!(exec.front_name(), None);
    drop(maze);
}

#[test]
fn run_on_an_empty_queue_reports_done_and_moves_nothing() {
    let maze = OrthoMaze::new(2, 2);
    let mut args = Args { maze, highmap: OrthoHighMap::new(2, 2) };
    let mut exec = Executor::new();
    let status = exec.run(&mut args);
    assert!(matches!(status, Status::Done));
    assert_eq!(exec.len(), 0);
    assert_eq!(args.highmap.grid.try_at(0, 0).unwrap().height, None);
    assert!(!args.maze.grid.try_at(0, 0).unwrap().right_gate_open);
}

#[test]
fn run_task_on_an_empty_queue_is_a_no_op() {
    let maze = OrthoMaze::new(2, 2);
    let mut args = Args { maze, highmap: OrthoHighMap::new(2, 2) };
    let mut exec = Executor::new();
    exec.run_task(&mut args);
    assert_eq!(exec.len(), 0);
    assert_eq!(args.highmap.highest, 0);
}
