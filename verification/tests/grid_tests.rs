use gosh::grid::Grid;
use gosh::grid::Point;

#[test]
fn dimensions_come_from_integer_division() {
    let g = Grid::new(640, 480, 32);
    assert_eq!(g.columns(), 20);
    assert_eq!(g.rows(), 15);
    let g2 = Grid::new(100, 70, 32);
    assert_eq!(g2.columns(), 3);
    assert_eq!(g2.rows(), 2);
}

#[test]
fn within_bounds_iff_inside_dimensions() {
    let g = Grid::new(640, 480, 32);
    assert!(g.within_bounds(0, 0));
    assert!(g.within_bounds(19, 14));
    assert!(!g.within_bounds(20, 14));
    assert!(!g.within_bounds(19, 15));
    assert!(!g.within_bounds(100, 0));
    assert!(!g.within_bounds(0, 100));
}

#[test]
fn new_grid_is_fully_open() {
    let g = Grid::new(160, 160, 32);
    for x in 0..5 {
        for y in 0..5 {
            assert!(g.tile_at(x, y));
        }
    }
}

#[test]
fn toggle_blocks_and_toggle_twice_restores() {
    let mut g = Grid::new(160, 160, 32);
    assert!(g.tile_at(3, 4));
    g.toggle_position(3, 4);
    assert!(!g.tile_at(3, 4));
    g.toggle_position(3, 4);
    assert!(g.tile_at(3, 4));
}

#[test]
fn toggle_changes_only_the_target_cell() {
    let mut g = Grid::new(160, 160, 32);
    g.toggle_position(1, 1);
    for x in 0..5 {
        for y in 0..5 {
            if x == 1 && y == 1 {
                assert!(!g.tile_at(x, y));
            } else {
                assert!(g.tile_at(x, y));
            }
        }
    }
}

#[test]
fn neighbors_of_interior_open_cell_are_exactly_four() {
    let g = Grid::new(160, 160, 32);
    let n = g.neighbors_at(2, 2);
    assert_eq!(n.len(), 4);
    assert!(n.contains(&Point { x: 1, y: 2 }));
    assert!(n.contains(&Point { x: 3, y: 2 }));
    assert!(n.contains(&Point { x: 2, y: 1 }));
    assert!(n.contains(&Point { x: 2, y: 3 }));
}

#[test]
fn neighbors_of_corner_cell() {
    let g = Grid::new(160, 160, 32);
    let n = g.neighbors_at(0, 0);
    assert_eq!(n.len(), 2);
    assert!(n.contains(&Point { x: 1, y: 0 }));
    assert!(n.contains(&Point { x: 0, y: 1 }));
}

#[test]
fn neighbors_exclude_blocked_cells() {
    let mut g = Grid::new(160, 160, 32);
    g.toggle_position(2, 1);
    let n = g.neighbors_at(2, 2);
    assert_eq!(n.len(), 3);
    assert!(!n.contains(&Point { x: 2, y: 1 }));
    assert!(n.contains(&Point { x: 1, y: 2 }));
    assert!(n.contains(&Point { x: 3, y: 2 }));
    assert!(n.contains(&Point { x: 2, y: 3 }));
}

#[test]
fn neighbors_of_out_of_bounds_cell_are_empty() {
    let g = Grid::new(160, 160, 32);
    let n = g.neighbors_at(9, 9);
    assert!(n.is_empty());
}
