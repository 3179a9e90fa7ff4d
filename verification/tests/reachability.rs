use gosh::grid::Grid;
use gosh::grid::Point;
use gosh::mouse::Mouse;

#[test]
fn new_mouse_sits_at_origin_with_empty_area() {
    let m = Mouse::new(32, 5);
    assert_eq!(m.position(), (0, 0));
    assert!(m.possible_moves.is_empty());
}

#[test]
fn update_position_divides_pixels_by_cell_size() {
    let mut m = Mouse::new(32, 5);
    m.update_position(95, 64);
    assert_eq!(m.position(), (2, 2));
    m.update_position(96, 64);
    assert_eq!(m.position(), (3, 2));
    m.update_position(0, 31);
    assert_eq!(m.position(), (0, 0));
}

#[test]
fn budget_zero_gives_empty_area() {
    let g = Grid::new(160, 160, 32);
    let mut m = Mouse::new(32, 0);
    m.update_position(64, 64);
    m.update(&g);
    assert!(m.possible_moves.is_empty());
}

#[test]
fn out_of_bounds_origin_gives_empty_area() {
    let g = Grid::new(160, 160, 32);
    let mut m = Mouse::new(32, 3);
    m.update_position(400, 400);
    m.update(&g);
    assert!(m.possible_moves.is_empty());
}

#[test]
fn blocked_origin_gives_empty_area() {
    let mut g = Grid::new(160, 160, 32);
    g.toggle_position(2, 2);
    let mut m = Mouse::new(32, 3);
    m.update_position(64, 64);
    m.update(&g);
    assert!(m.possible_moves.is_empty());
}

#[test]
fn open_five_by_five_center_budget_two_reaches_twelve_cells() {
    let g = Grid::new(160, 160, 32);
    let mut m = Mouse::new(32, 2);
    m.update_position(64, 64);
    m.update(&g);
    let expected = [
        (1, 2),
        (3, 2),
        (2, 1),
        (2, 3),
        (0, 2),
        (4, 2),
        (2, 0),
        (2, 4),
        (1, 1),
        (1, 3),
        (3, 1),
        (3, 3),
    ];
    assert_eq!(m.possible_moves.len(), 12);
    for (x, y) in expected {
        assert!(m.possible_moves.contains(&Point { x, y }));
    }
    assert!(!m.possible_moves.contains(&Point { x: 2, y: 2 }));
}

#[test]
fn open_ten_by_ten_corner_budget_three_reaches_nine_cells() {
    let g = Grid::new(320, 320, 32);
    let mut m = Mouse::new(32, 3);
    m.update_position(0, 0);
    m.update(&g);
    let expected = [
        (1, 0),
        (0, 1),
        (2, 0),
        (1, 1),
        (0, 2),
        (3, 0),
        (2, 1),
        (1, 2),
        (0, 3),
    ];
    assert_eq!(m.possible_moves.len(), 9);
    for (x, y) in expected {
        assert!(m.possible_moves.contains(&Point { x, y }));
    }
    assert!(!m.possible_moves.contains(&Point { x: 0, y: 0 }));
}

#[test]
fn wall_cuts_off_cells_beyond_the_budget() {
    let mut g = Grid::new(96, 96, 32);
    g.toggle_position(1, 1);
    let mut m = Mouse::new(32, 2);
    m.update_position(0, 32);
    m.update(&g);
    assert_eq!(m.possible_moves.len(), 4);
    assert!(m.possible_moves.contains(&Point { x: 0, y: 0 }));
    assert!(m.possible_moves.contains(&Point { x: 0, y: 2 }));
    assert!(m.possible_moves.contains(&Point { x: 1, y: 0 }));
    assert!(m.possible_moves.contains(&Point { x: 1, y: 2 }));
    assert!(!m.possible_moves.contains(&Point { x: 1, y: 1 }));
    assert!(!m.possible_moves.contains(&Point { x: 2, y: 1 }));
}

#[test]
fn blocked_cells_never_appear_in_the_area() {
    let mut g = Grid::new(160, 160, 32);
    g.toggle_position(2, 1);
    g.toggle_position(3, 3);
    let mut m = Mouse::new(32, 4);
    m.update_position(64, 64);
    m.update(&g);
    assert!(!m.possible_moves.contains(&Point { x: 2, y: 1 }));
    assert!(!m.possible_moves.contains(&Point { x: 3, y: 3 }));
    for p in m.possible_moves.iter() {
        assert!(g.tile_at(p.x, p.y));
    }
}

#[test]
fn large_open_grid_with_large_budget_completes_and_covers_everything() {
    let g = Grid::new(1280, 1280, 32);
    let mut m = Mouse::new(32, 80);
    m.update_position(640, 640);
    m.update(&g);
    assert_eq!(m.possible_moves.len(), 40 * 40 - 1);
}

#[test]
fn area_holds_no_duplicate_cells() {
    let g = Grid::new(160, 160, 32);
    let mut m = Mouse::new(32, 3);
    m.update_position(64, 64);
    m.update(&g);
    for i in 0..m.possible_moves.len() {
        for j in (i + 1)..m.possible_moves.len() {
            assert_ne!(m.possible_moves[i], m.possible_moves[j]);
        }
    }
}

#[test]
fn depth_above_the_budget_gives_empty_area() {
    let g = Grid::new(160, 160, 32);
    let mut m = Mouse::new(32, 2);
    m.find_movement_area(&g, 2, 2, 5);
    assert!(m.possible_moves.is_empty());
}

#[test]
fn depth_counts_against_the_budget() {
    let g = Grid::new(160, 160, 32);
    let mut m = Mouse::new(32, 2);
    m.find_movement_area(&g, 2, 2, 1);
    assert_eq!(m.possible_moves.len(), 4);
    assert!(m.possible_moves.contains(&Point { x: 1, y: 2 }));
    assert!(m.possible_moves.contains(&Point { x: 3, y: 2 }));
    assert!(m.possible_moves.contains(&Point { x: 2, y: 1 }));
    assert!(m.possible_moves.contains(&Point { x: 2, y: 3 }));
}

#[test]
fn update_keeps_the_cursor_cell() {
    let g = Grid::new(160, 160, 32);
    let mut m = Mouse::new(32, 2);
    m.update_position(100, 70);
    m.update(&g);
    assert_eq!(m.position(), (3, 2));
}
