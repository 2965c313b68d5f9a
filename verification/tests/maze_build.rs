use orthomaze::maze::OrthoMaze;

const NB_COLUMNS: usize = 4;
const NB_LINES: usize = 5;

#[test]
fn maze_maze_can_be_build() {
    let _maze = OrthoMaze::new(NB_COLUMNS, NB_LINES);
}

#[test]
fn maze_maze_can_be_walked_in_z_way() {
    let maze = OrthoMaze::new(NB_COLUMNS, NB_LINES);
    let _zwalk = maze.zwalk();
}

#[test]
fn maze_maze_can_be_walked_freely() {
    let maze = OrthoMaze::new(NB_COLUMNS, NB_LINES);
    let _freewalk = maze.freewalk();
}

#[test]
fn orthomaze_maze_can_be_build() {
    let _maze = OrthoMaze::new(NB_COLUMNS, NB_LINES);
}

#[test]
fn orthomaze_maze_can_be_walked_in_z_way() {
    let maze = OrthoMaze::new(NB_COLUMNS, NB_LINES);
    let _zwalk = maze.zwalk();
}

#[test]
fn orthomaze_maze_can_be_walked_freely() {
    let maze = OrthoMaze::new(NB_COLUMNS, NB_LINES);
    let _freewalk = maze.freewalk();
}
