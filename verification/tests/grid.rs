use bevyjam::grid::{
    build_links, clamp_cell_2d, clamped_cell_1d, coord_from_1d, coord_to_1d, get_neighbours, link_costs,
    should_generate_grid, NavGrid, SIDE_NODE_NO,
};

#[test]
fn coord_round_trip_through_flat_index() {
    for side in [1, 4, 7, SIDE_NODE_NO] {
        for idx in [0, 1, 5, 27, 100, 1000] {
            let (x, y) = coord_from_1d(side, idx);
            assert_eq!(coord_to_1d(side, x, y), idx);
        }
    }
}

#[test]
fn coord_round_trip_of_negative_index() {
    // Rust's remainder keeps the sign of the index
    assert_eq!(coord_from_1d(4, -5), (-1, -1));
    assert_eq!(coord_to_1d(4, -1, -1), -5);
}

#[test]
fn coord_round_trip_through_cell() {
    for side in [2, 4, 165] {
        for x in 0..side.min(6) {
            for y in [0, 1, 3, 40] {
                assert_eq!(coord_from_1d(side, coord_to_1d(side, x, y)), (x, y));
            }
        }
    }
}

#[test]
fn neighbours_are_symmetric() {
    let side = 5;
    for x in 0..side {
        for y in 0..side {
            let idx = coord_to_1d(side, x, y);
            let nb = get_neighbours(side, x, y);
            for k in 0..8 {
                if nb[k] != -1 {
                    let (nx, ny) = coord_from_1d(side, nb[k]);
                    assert!(nx >= 0 && nx < side && ny >= 0 && ny < side);
                    assert_eq!(get_neighbours(side, nx, ny)[7 - k], idx);
                }
            }
        }
    }
}

#[test]
fn neighbours_of_edge_cells() {
    assert_eq!(get_neighbours(3, 2, 1), vec![1, 2, -1, 4, -1, 7, 8, -1]);
    assert_eq!(get_neighbours(1, 0, 0), vec![-1; 8]);
}

#[test]
fn links_skip_unwalkable_cells() {
    // 3x3 grid with the centre blocked
    let valid = vec![true, true, true, true, false, true, true, true, true];
    let links = build_links(3, &valid);
    assert_eq!(links.len(), 9);
    assert_eq!(links[0], vec![-1, -1, -1, -1, 1, -1, 3, -1]);
    assert_eq!(links[4], vec![-1; 8]);
    assert_eq!(links[8], vec![-1, 5, -1, 7, -1, -1, -1, -1]);
    for i in 0..9usize {
        for k in 0..8usize {
            let j = links[i][k];
            if j != -1 {
                assert!(valid[j as usize]);
                assert_eq!(links[j as usize][7 - k], i as i32);
            }
        }
    }
}

#[test]
fn node_costs_count_linked_neighbours() {
    let links = vec![
        vec![-1, -1, -1, -1, -1, -1, -1, -1],
        vec![1, 2, 3, 4, 5, 6, 7, 8],
        // a link to cell 0 counts like any other
        vec![0, -1, -1, 5, -1, -1, -1, -1],
    ];
    let costs = link_costs(&links);
    assert_eq!(costs, vec![100 + 8 * 15, 100, 100 + 6 * 15]);
    // all cells walkable: cell 1 of a 4-wide grid has five neighbours
    let grid = NavGrid::build(4, vec![true; 16]);
    assert_eq!(grid.costs[1], 145);
}

#[test]
fn clamping_keeps_cells_inside_the_grid() {
    // a side of 1000 units sampled at 0.01 cells per unit has 10 cells: the
    // position (-3000, 5000) rounds to (-30, 50) and clamps to (0, 9)
    assert_eq!(clamp_cell_2d(-30, 50, 10), (0, 9));
    assert_eq!(clamp_cell_2d(3, 4, 10), (3, 4));
    assert_eq!(clamped_cell_1d(-3, 200, SIDE_NODE_NO), 164 * 165);
    assert_eq!(clamped_cell_1d(2, 1, 10), 167);
    // a grid wider than the game's: the index still counts rows of the game's width
    assert_eq!(clamped_cell_1d(500, 2, 1000), 2 * 165 + 500);
}

#[test]
fn grid_generation_guard() {
    assert!(should_generate_grid(false, false, 1));
    assert!(!should_generate_grid(true, false, 3));
    assert!(!should_generate_grid(false, true, 3));
    assert!(!should_generate_grid(false, false, 0));
}

#[test]
fn built_grid_is_complete() {
    let valid = vec![true; 16];
    let grid = NavGrid::build(4, valid);
    assert!(grid.complete);
    assert_eq!(grid.links.len(), 16);
    assert_eq!(grid.costs.len(), 16);
    assert_eq!(grid.links[5], get_neighbours(4, 1, 1));
    // corner cell: three links, one of them to cell 0 on the far corner is not there
    assert_eq!(grid.costs[0], 100 + 5 * 15);
    let empty = NavGrid::new();
    assert!(!empty.complete);
    assert_eq!(empty.valid.len(), 0);
}

#[test]
fn coord_from_1d_of_negative_width_follows_rust_division() {
    assert_eq!(coord_from_1d(-4, 10), (2, -2));
    assert_eq!(coord_from_1d(-4, -10), (-2, 2));
    assert_eq!(coord_from_1d(i32::MIN, 5), (5, 0));
    assert_eq!(coord_from_1d(-1, i32::MAX), (0, -i32::MAX));
}
