use orthomaze::grid::Grid;
use orthomaze::location::LocGenerator;

const NB_COLUMNS: usize = 4;
const NB_LINES: usize = 5;

#[derive(Clone, Copy, PartialEq, Debug)]
struct Dummy(i32, char);

impl Default for Dummy {
    fn default() -> Dummy {
        Dummy(77, 'M')
    }
}

// == BUILD ==

#[test]
fn build_grid_with_default_value() {
    let def_value = Dummy::default();
    let grid: Grid<Dummy> = Grid::new(NB_COLUMNS, NB_LINES);

    assert_eq!(grid.columns(), NB_COLUMNS);
    assert_eq!(grid.lines(), NB_LINES);
    assert_eq!(grid.at(0, 0), &def_value);
}

#[test]
fn build_grid_with_initial_value() {
    let init_value = Dummy(42, '*');
    let grid: Grid<Dummy> = Grid::new_from_copy(NB_COLUMNS, NB_LINES, &init_value);

    assert_eq!(grid.columns(), NB_COLUMNS);
    assert_eq!(grid.lines(), NB_LINES);
    assert_eq!(grid.at(0, 0), &init_value);
}

#[test]
fn build_grid_with_non_mutable_function() {
    let func_const = || 112;
    let value = 112;

    let grid: Grid<usize> = Grid::new_by(NB_COLUMNS, NB_LINES, func_const);

    assert_eq!(grid.columns(), NB_COLUMNS);
    assert_eq!(grid.lines(), NB_LINES);
    assert_eq!(grid.at(0, 0), &value);
    assert_eq!(grid.at(NB_COLUMNS - 1, NB_LINES - 1), &value);
}

// == read-only direct access ==

#[test]
#[should_panic]
fn panic_if_direct_access_value_outside_column_range() {
    let grid: Grid<usize> = Grid::new(NB_COLUMNS, NB_LINES);
    grid.at(NB_COLUMNS, 0);
}

#[test]
#[should_panic]
fn panic_if_direct_access_value_outside_line_range() {
    let grid: Grid<usize> = Grid::new(NB_COLUMNS, NB_LINES);
    grid.at(0, NB_LINES);
}

#[test]
fn access_with_location_within_range() {
    let grid: Grid<usize> = Grid::new(NB_COLUMNS, NB_LINES);
    let locgen = LocGenerator::new(&grid);
    let loc = locgen.create_from_coordinates(0, 0);
    assert_eq!(grid.at_loc(&loc), &0);
}

#[test]
#[should_panic]
fn panic_if_access_with_location_outside_range() {
    let grid: Grid<usize> = Grid::new(NB_COLUMNS, NB_LINES);
    let locgen = LocGenerator::new(&grid);
    let loc = locgen.create_from_coordinates(NB_COLUMNS, NB_LINES);
    assert_eq!(grid.at_loc(&loc), &0);
}

// == read-only optional access ==

#[test]
fn try_access_value_inside_range() {
    let grid: Grid<usize> = Grid::new(NB_COLUMNS, NB_LINES);
    assert_eq!(grid.try_at(0, 0), Some(&0));
}

#[test]
fn try_access_value_beyond_column_range() {
    let grid: Grid<usize> = Grid::new(NB_COLUMNS, NB_LINES);
    assert_eq!(grid.try_at(NB_COLUMNS, 0), None);
}

#[test]
fn try_access_value_beyond_line_range() {
    let grid: Grid<usize> = Grid::new(NB_COLUMNS, NB_LINES);
    assert_eq!(grid.try_at(0, NB_LINES), None);
}

#[test]
fn try_access_with_location_within_range() {
    let grid: Grid<usize> = Grid::new(NB_COLUMNS, NB_LINES);
    let locgen = LocGenerator::new(&grid);
    let loc = locgen.create_from_coordinates(0, 0);
    assert_eq!(grid.try_at_loc(&loc), Some(&0));
}

#[test]
fn try_access_with_location_outside_range() {
    let grid: Grid<usize> = Grid::new(NB_COLUMNS, NB_LINES);
    let locgen = LocGenerator::new(&grid);
    let loc = locgen.create_from_coordinates(NB_COLUMNS, NB_LINES);
    assert_eq!(grid.try_at_loc(&loc), None);
}

// == writable by direct access ==

#[test]
fn mutate_value_within_range() {
    let mut grid: Grid<usize> = Grid::new(NB_COLUMNS, NB_LINES);
    assert_eq!(grid.at_mut(0, 0), &0);
    *grid.at_mut(0, 0) = 12;
    assert_eq!(grid.at_mut(0, 0), &12);
}

#[test]
#[should_panic]
fn panic_if_mutate_value_outside_column_range() {
    let mut grid: Grid<usize> = Grid::new(NB_COLUMNS, NB_LINES);
    *grid.at_mut(NB_COLUMNS, 0) = 1;
}

#[test]
#[should_panic]
fn panic_if_mutate_value_outside_line_range() {
    let mut grid: Grid<usize> = Grid::new(NB_COLUMNS, NB_LINES);
    *grid.at_mut(0, NB_LINES) = 1;
}

#[test]
fn mutate_with_location_within_range() {
    let mut grid: Grid<usize> = Grid::new(NB_COLUMNS, NB_LINES);
    let locgen = LocGenerator::new(&grid);
    let loc = locgen.create_from_coordinates(0, 0);
    assert_eq!(grid.at_loc(&loc), &0);
    *grid.at_loc_mut(&loc) = 1;
    assert_eq!(grid.at_loc(&loc), &1);
}

#[test]
#[should_panic]
fn panic_if_mutate_with_location_outside_range() {
    let mut grid: Grid<usize> = Grid::new(NB_COLUMNS, NB_LINES);
    let locgen = LocGenerator::new(&grid);
    let loc = locgen.create_from_coordinates(NB_COLUMNS, NB_LINES);
    *grid.at_loc_mut(&loc) = 1;
}

// == writable by optional access ==

#[test]
fn try_mutate_value_inside_range() {
    let mut grid: Grid<usize> = Grid::new(NB_COLUMNS, NB_LINES);
    assert_eq!(grid.try_at(0, 0), Some(&0));
    grid.try_at_mut(0, 0).map(|var| *var = 1);
    assert_eq!(grid.try_at(0, 0), Some(&1));
}

#[test]
fn try_mutate_value_beyond_column_range() {
    let mut grid: Grid<usize> = Grid::new(NB_COLUMNS, NB_LINES);
    assert_eq!(grid.try_at_mut(NB_COLUMNS, 0), None);
}

#[test]
fn try_mutate_value_beyond_line_range() {
    let mut grid: Grid<usize> = Grid::new(NB_COLUMNS, NB_LINES);
    assert_eq!(grid.try_at_mut(0, NB_LINES), None);
}

#[test]
fn try_mutate_with_location_within_range() {
    let mut grid: Grid<usize> = Grid::new(NB_COLUMNS, NB_LINES);
    let locgen = LocGenerator::new(&grid);
    let loc = locgen.create_from_coordinates(0, 0);
    assert_eq!(grid.try_at_loc(&loc), Some(&0));
    grid.try_at_loc_mut(&loc).map(|var| *var = 1);
    assert_eq!(grid.try_at_loc(&loc), Some(&1));
}

#[test]
fn try_mutate_with_location_outside_range() {
    let mut grid: Grid<usize> = Grid::new(NB_COLUMNS, NB_LINES);
    let locgen = LocGenerator::new(&grid);
    let loc = locgen.create_from_coordinates(NB_COLUMNS, NB_LINES);
    assert_eq!(grid.try_at_loc(&loc), None);
    grid.try_at_loc_mut(&loc).map(|var| *var = 1);
}
