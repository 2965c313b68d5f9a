use orthomaze::freewalk::OrthoFreeWalk;
use orthomaze::grid::Grid;
use orthomaze::location::{LocGenerator, Localisable, Way};

const NB_COLUMNS: usize = 4;
const NB_LINES: usize = 5;

fn assert_pos(walker: &OrthoFreeWalk, pos: &[usize; 2]) {
    assert_eq!(walker.column(), pos[0]);
    assert_eq!(walker.line(), pos[1]);
}

#[test]
fn freewalking_at_origin_can_move_down() {
    let init_value = 1;
    let grid = Grid::new_from_copy(NB_COLUMNS, NB_LINES, &init_value);
    let walker = OrthoFreeWalk::new(LocGenerator::new(&grid));
    assert!(walker.can_move(Way::Down));
}

#[test]
fn freewalking_at_origin_can_move_right() {
    let init_value = 1;
    let grid = Grid::new_from_copy(NB_COLUMNS, NB_LINES, &init_value);
    let walker = OrthoFreeWalk::new(LocGenerator::new(&grid));
    assert!(walker.can_move(Way::Right));
}

#[test]
fn freewalking_at_origin_can_not_move_up() {
    let init_value = 1;
    let grid = Grid::new_from_copy(NB_COLUMNS, NB_LINES, &init_value);
    let walker = OrthoFreeWalk::new(LocGenerator::new(&grid));
    assert!(!walker.can_move(Way::Up));
}

#[test]
fn freewalking_at_origin_can_not_move_left() {
    let init_value = 1;
    let grid = Grid::new_from_copy(NB_COLUMNS, NB_LINES, &init_value);
    let walker = OrthoFreeWalk::new(LocGenerator::new(&grid));
    assert!(!walker.can_move(Way::Left));
}

#[test]
fn freewalking_moves_to_right() {
    let init_value = 1;
    let grid = Grid::new_from_copy(NB_COLUMNS, NB_LINES, &init_value);
    let mut walker = OrthoFreeWalk::new(LocGenerator::new(&grid));
    assert_pos(&walker, &[0, 0]);
    walker.step_to(Way::Right);
    assert_pos(&walker, &[1, 0]);
}

#[test]
fn freewalking_moves_to_down() {
    let init_value = 1;
    let grid = Grid::new_from_copy(NB_COLUMNS, NB_LINES, &init_value);
    let mut walker = OrthoFreeWalk::new(LocGenerator::new(&grid));
    assert_pos(&walker, &[0, 0]);
    walker.step_to(Way::Down);
    assert_pos(&walker, &[0, 1]);
}

#[test]
fn freewalking_moves_to_up() {
    let init_value = 1;
    let grid = Grid::new_from_copy(NB_COLUMNS, NB_LINES, &init_value);
    let mut walker = OrthoFreeWalk::new(LocGenerator::new(&grid));
    walker.step_to(Way::Down);
    assert_pos(&walker, &[0, 1]);
    walker.step_to(Way::Up);
    assert_pos(&walker, &[0, 0]);
}

#[test]
fn freewalking_moves_to_left() {
    let init_value = 1;
    let grid = Grid::new_from_copy(NB_COLUMNS, NB_LINES, &init_value);
    let mut walker = OrthoFreeWalk::new(LocGenerator::new(&grid));
    walker.step_to(Way::Right);
    assert_pos(&walker, &[1, 0]);
    walker.step_to(Way::Left);
    assert_pos(&walker, &[0, 0]);
}

#[test]
fn walker_is_localizable() {
    let init_value = 1;
    let grid = Grid::new_from_copy(NB_COLUMNS, NB_LINES, &init_value);
    let walker = OrthoFreeWalk::new(LocGenerator::new(&grid));
    let _loc = walker.to_loc();
}
