use std::collections::VecDeque;

use orthomaze::grid::Grid;
use orthomaze::location::{Loc, LocGenerator};
use orthomaze::pathwalk::ZWalk;

const NB_COLUMNS: usize = 4;
const NB_LINES: usize = 5;

#[derive(PartialEq, Debug)]
struct DummyPos(usize, usize);

#[test]
fn z_walk_is_possible() {
    let init_value = 1;
    let grid = Grid::new_from_copy(NB_COLUMNS, NB_LINES, &init_value);
    let lc = LocGenerator::new(&grid);
    let mut zwalk = ZWalk::new(lc);
    assert!(zwalk.next().is_some());
}

#[test]
fn z_walk_ends() {
    let init_value = 1;
    let grid = Grid::new_from_copy(0, 0, &init_value);
    let lc = LocGenerator::new(&grid);
    let mut zwalk = ZWalk::new(lc);
    assert!(zwalk.next().is_none());
}

#[test]
fn z_walk_is_completely_valid() {
    let mut expected_path = VecDeque::new();
    for y in 0..NB_LINES {
        for x in 0..NB_COLUMNS {
            expected_path.push_back(DummyPos(x, y));
        }
    }

    let init_value = 1;
    let grid = Grid::new_from_copy(NB_COLUMNS, NB_LINES, &init_value);
    let lc = LocGenerator::new(&grid);
    let mut zwalk = ZWalk::new(lc);
    while let Some(pos) = zwalk.next() {
        let dpos = DummyPos(pos.column(), pos.line());
        let expected_pos = expected_path.pop_front().expect("path is not finished");
        assert_eq!(dpos, expected_pos);
    }
    assert!(expected_path.is_empty());
}

#[test]
fn walk_is_localizable() {
    let init_value = 1;
    let grid = Grid::new_from_copy(NB_COLUMNS, NB_LINES, &init_value);
    let lc = LocGenerator::new(&grid);
    let mut zwalk = ZWalk::new(lc);
    let _loc: Loc = zwalk.next().expect("position exists");
}
