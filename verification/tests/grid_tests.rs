use particle_grid::grid::Grid;

fn grid_1200x600_80x40() -> Grid {
    Grid::new(1200, 600, 80, 40)
}

#[test]
fn cell_of_interior_position() {
    let g = grid_1200x600_80x40();
    // one cell is 15 x 15 units
    assert_eq!(g.pos_to_grid(30, 30), (2, 2));
    assert_eq!(g.pos_to_grid(0, 0), (0, 0));
    assert_eq!(g.pos_to_grid(14, 14), (0, 0));
    assert_eq!(g.pos_to_grid(15, 15), (1, 1));
    assert_eq!(g.pos_to_grid(1199, 599), (79, 39));
}

#[test]
fn cell_id_encodes_row_major() {
    let g = grid_1200x600_80x40();
    assert_eq!(g.pos_to_grid_index(30, 30), 2 + 2 * 80);
    assert_eq!(g.pos_to_grid_index(0, 0), 0);
    assert_eq!(g.pos_to_grid_index(1199, 599), 79 + 39 * 80);
}

#[test]
fn all_in_bounds_positions_give_valid_ids() {
    // Grid partition totality on a sweep of in-bounds positions.
    let g = grid_1200x600_80x40();
    let num_cells = 80 * 40;
    let mut x = 0i64;
    while x < 1200 {
        let mut y = 0i64;
        while y < 600 {
            let id = g.pos_to_grid_index(x, y);
            assert!(id < num_cells);
            y += 37;
        }
        x += 41;
    }
}

#[test]
fn clamping_at_and_beyond_boundary() {
    // A position exactly at or slightly beyond a boundary maps to the
    // last valid column, never out of range.
    let g = grid_1200x600_80x40();
    assert_eq!(g.pos_to_grid(1200, 0).0, 79);
    assert_eq!(g.pos_to_grid(1201, 0).0, 79);
    assert_eq!(g.pos_to_grid(9_999_999, 0).0, 79);
    assert_eq!(g.pos_to_grid(0, 600).1, 39);
    assert_eq!(g.pos_to_grid(0, 601).1, 39);
    assert_eq!(g.pos_to_grid(-1, -50), (0, 0));
    let id = g.pos_to_grid_index(9_999_999, 9_999_999);
    assert_eq!(id, 79 + 39 * 80);
}

#[test]
fn neighbor_cells_center_block() {
    let g = grid_1200x600_80x40();
    let block = g.neighbor_cells(5, 5, 1);
    assert_eq!(block.len(), 9);
    for nx in 4..=6u64 {
        for ny in 4..=6u64 {
            assert!(block.contains(&(nx, ny)));
        }
    }
}

#[test]
fn neighbor_cells_clipped_at_corner() {
    let g = grid_1200x600_80x40();
    let block = g.neighbor_cells(0, 0, 1);
    assert_eq!(block.len(), 4);
    assert!(block.contains(&(0, 0)));
    assert!(block.contains(&(1, 0)));
    assert!(block.contains(&(0, 1)));
    assert!(block.contains(&(1, 1)));
    // cells outside the grid are skipped, not wrapped
    assert!(!block.contains(&(79, 0)));
    assert!(!block.contains(&(0, 39)));
}

#[test]
fn neighbor_cells_clipped_at_far_edge() {
    let g = grid_1200x600_80x40();
    let block = g.neighbor_cells(79, 39, 1);
    assert_eq!(block.len(), 4);
    assert!(block.contains(&(78, 38)));
    assert!(block.contains(&(79, 39)));
}

#[test]
fn cell_count_is_product() {
    let g = grid_1200x600_80x40();
    assert_eq!(g.cell_count(), 3200);
}
