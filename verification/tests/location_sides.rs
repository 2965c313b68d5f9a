use orthomaze::location::{Border, Localisable};
use orthomaze::maze::OrthoMaze;

const NB_COLUMNS: usize = 4;
const NB_LINES: usize = 5;

#[test]
fn location_on_left_side_knows_it() {
    let maze = OrthoMaze::new(NB_COLUMNS, NB_LINES);
    let mut pos = maze.freewalk();
    pos.spawn_at(0, 0);
    let loc = pos.to_loc();
    assert_eq!(loc.column(), 0);
    assert_eq!(loc.is_close_to(Border::Right), false);
    assert_eq!(loc.is_close_to(Border::Left), true);
}

#[test]
fn location_on_right_side_knows_it() {
    let maze = OrthoMaze::new(NB_COLUMNS, NB_LINES);
    let mut pos = maze.freewalk();
    pos.spawn_at(NB_COLUMNS - 1, 0);
    let loc = pos.to_loc();
    assert_eq!(loc.column(), NB_COLUMNS - 1);
    assert_eq!(loc.is_close_to(Border::Left), false);
    assert_eq!(loc.is_close_to(Border::Right), true);
}

#[test]
fn location_on_top_side_knows_it() {
    let maze = OrthoMaze::new(NB_COLUMNS, NB_LINES);
    let mut pos = maze.freewalk();
    pos.spawn_at(0, 0);
    let loc = pos.to_loc();
    assert_eq!(loc.line(), 0);
    assert_eq!(loc.is_close_to(Border::Down), false);
    assert_eq!(loc.is_close_to(Border::Top), true);
}

#[test]
fn location_on_down_side_knows_it() {
    let maze = OrthoMaze::new(NB_COLUMNS, NB_LINES);
    let mut pos = maze.freewalk();
    pos.spawn_at(0, NB_LINES - 1);
    let loc = pos.to_loc();
    assert_eq!(loc.line(), NB_LINES - 1);
    assert_eq!(loc.is_close_to(Border::Top), false);
    assert_eq!(loc.is_close_to(Border::Down), true);
}
