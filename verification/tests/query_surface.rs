use orthomaze::depth::OrthoDepthMap;
use orthomaze::grid::{Address, Grid};
use orthomaze::highmap::OrthoHighMap;
use orthomaze::location::Way;
use orthomaze::maze::{Gates, OrthoMaze};
use orthomaze::walker::{Logger, Walker};

#[test]
fn crumbs_walk_row_major() {
    let grid: Grid<usize> = Grid::new(3, 2);
    let mut crumbs = grid.crumbs();
    let mut seen = Vec::new();
    while let Some(addr) = crumbs.next() {
        seen.push((addr.column, addr.line));
    }
    assert_eq!(seen, vec![(0, 0), (1, 0), (2, 0), (0, 1), (1, 1), (2, 1)]);
}

#[test]
fn neighbours_follow_the_fixed_order() {
    let grid: Grid<usize> = Grid::new(3, 3);
    let pos = grid.cell(1, 1).unwrap();
    let around: Vec<(usize, usize)> =
        pos.neighbours().iter().map(|p| (p.column, p.line)).collect();
    // up, left, down, right
    assert_eq!(around, vec![(1, 0), (0, 1), (1, 2), (2, 1)]);

    let corner = grid.cell(0, 0).unwrap();
    let around: Vec<(usize, usize)> =
        corner.neighbours().iter().map(|p| (p.column, p.line)).collect();
    assert_eq!(around, vec![(0, 1), (1, 0)]);
}

#[test]
fn center_and_random_cells_stay_inside() {
    let grid: Grid<usize> = Grid::new(4, 5);
    let center = grid.center().unwrap();
    assert_eq!((center.column, center.line), (2, 2));

    for _ in 0..20 {
        let pos = grid.anywhere_rand().unwrap();
        assert!(pos.column < 4 && pos.line < 5);
    }

    let empty: Grid<usize> = Grid::new(0, 0);
    assert!(empty.anywhere_rand().is_none());
    assert!(empty.center().is_none());
}

#[test]
fn cell_count_multiplies_the_dimensions() {
    let grid: Grid<usize> = Grid::new(4, 5);
    assert_eq!(grid.cell_count(), 20);
    assert!(grid.contains(3, 4));
    assert!(!grid.contains(4, 4));
    assert!(!grid.contains(3, 5));
}

#[test]
fn gates_aggregate_the_four_directions() {
    let gates = Gates { top: true, down: false, left: true, right: false };
    assert!(gates.can_move(&Way::Up));
    assert!(!gates.can_move(&Way::Down));
    assert!(gates.can_move_all(&[Way::Up, Way::Left]));
    assert!(!gates.can_move_all(&[Way::Up, Way::Right]));
    assert!(gates.can_move_all(&[]));
}

#[test]
fn maze_cell_flags_round_trip() {
    let mut maze = OrthoMaze::new(2, 2);
    let a = Address { column: 1, line: 1 };
    a.mark_active(&mut maze);
    a.mark_current(&mut maze);
    a.mark_visit(&mut maze);
    let cell = *maze.grid.try_at(1, 1).unwrap();
    assert!(cell.active && cell.current && cell.visited);
    assert!(a.is_visited(&maze));

    a.unmark_active(&mut maze);
    a.unmark_current(&mut maze);
    a.unmark_visit(&mut maze);
    let cell = *maze.grid.try_at(1, 1).unwrap();
    assert!(!cell.active && !cell.current && !cell.visited);
    assert!(!a.is_visited(&maze));

    // out-of-range addresses touch nothing and read as unvisited
    let outside = Address { column: 5, line: 5 };
    outside.mark_visit(&mut maze);
    assert!(!outside.is_visited(&maze));
}

#[test]
fn depth_overlays_record_first_assignments() {
    let mut highmap = OrthoHighMap::new(2, 2);
    let a = Address { column: 0, line: 1 };
    let posmut = a.from_mut(&mut highmap).unwrap();
    posmut.set_depth(&mut highmap, 7);
    let pos = a.from(&highmap).unwrap();
    assert_eq!(pos.height(), Some(7));

    let mut depthmap = OrthoDepthMap::new(2, 2);
    let posmut = a.from_mut(&mut depthmap).unwrap();
    posmut.set_depth(&mut depthmap, 3);
    let pos = a.from(&depthmap).unwrap();
    assert_eq!(pos.depth(), Some(3));
    assert_eq!(depthmap.max_path_depth, 0);
}

#[test]
fn walker_carves_and_walks_row_major() {
    let mut maze = OrthoMaze::new(2, 2);
    let mut walker = Walker::new();
    assert_eq!((walker.x(), walker.y()), (0, 0));
    assert!(!walker.is_on_right_border(&maze));
    assert!(!walker.is_on_down_border(&maze));

    walker.carve_right(&mut maze);
    assert!(maze.grid.try_at(0, 0).unwrap().right_gate_open);

    walker.walk_right_then_down(&mut maze);
    assert_eq!((walker.x(), walker.y()), (1, 0));
    assert!(walker.is_on_right_border(&maze));
    assert!(!walker.is_done_walking_right_then_down(&maze));

    walker.carve_down(&mut maze);
    assert!(maze.grid.try_at(1, 0).unwrap().down_gate_open);

    let moved = walker.move_x(0);
    assert_eq!((moved.x(), moved.y()), (0, 0));
}

#[test]
fn aldous_broder_clear_visit_resets_every_cell() {
    let mut maze = OrthoMaze::new(2, 2);
    for y in 0..2 {
        for x in 0..2 {
            Address { column: x, line: y }.mark_visit(&mut maze);
        }
    }
    assert!(maze.is_visitation_complete());
    let ab = orthomaze::carving::AldousBroder::new(&maze);
    ab.clear_visit(&mut maze);
    assert!(!maze.is_visitation_complete());
    for y in 0..2 {
        for x in 0..2 {
            assert!(!maze.grid.try_at(x, y).unwrap().visited);
        }
    }
}

#[test]
fn addresses_and_walkers_format_as_column_line()
{
    let a = Address { column: 3, line: 4 };
    assert_eq!(a.to_str(), "3:4");

    let b = Address { column: 12, line: 0 };
    assert_eq!(b.to_str(), "12:0");

    let c = Address { column: 105, line: 990 };
    assert_eq!(c.to_str(), "105:990");

    let w = Walker::new();
    assert_eq!(Logger::format_pos(&w), "0:0");
}
