use orthomaze::binary_tree::{BinaryTree, Execution};
use orthomaze::location::Way;
use orthomaze::maze::OrthoMaze;

const NB_COLUMNS: usize = 4;
const NB_LINES: usize = 5;

#[test]
fn binary_tree_is_executable() {
    let maze = OrthoMaze::new(NB_COLUMNS, NB_LINES);
    let mut exec = Execution::new(maze);
    let bt = BinaryTree();
    assert_eq!(bt.carve(&mut exec), Ok(()));
}

#[test]
fn binary_tree_is_valid() {
    let maze = OrthoMaze::new(NB_COLUMNS, NB_LINES);
    let mut exec = Execution::new(maze);
    let bt = BinaryTree();
    assert_eq!(bt.carve(&mut exec), Ok(()));

    let locgen = exec.maze.loc_generator();

    // right border should be carved down and left
    let access_tr = exec.maze.gates_at(&locgen.create_from_coordinates(NB_COLUMNS - 1, 0));
    assert!(!access_tr.can_move(&Way::Up));
    assert!(access_tr.can_move(&Way::Down));
    assert!(!access_tr.can_move(&Way::Right));

    let access_r = exec.maze.gates_at(&locgen.create_from_coordinates(NB_COLUMNS - 1, 1));
    assert!(access_r.can_move(&Way::Up));
    assert!(access_r.can_move(&Way::Down));
    assert!(!access_r.can_move(&Way::Right));

    // down border should be carved left and right
    let access_dl = exec.maze.gates_at(&locgen.create_from_coordinates(0, NB_LINES - 1));
    assert!(!access_dl.can_move(&Way::Down));
    assert!(!access_dl.can_move(&Way::Left));
    assert!(access_dl.can_move(&Way::Right));

    let access_d = exec.maze.gates_at(&locgen.create_from_coordinates(1, NB_LINES - 1));
    assert!(!access_d.can_move(&Way::Down));
    assert!(access_d.can_move(&Way::Left));
    assert!(access_d.can_move(&Way::Right));
}
