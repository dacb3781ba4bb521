use bevyjam::grid::{coord_to_1d, NavGrid};
use bevyjam::pathfinding::{
    add_to_open, build_path, pluck_from_open, cost_for_link_dir, find_path, AStarBuffer, PathOutcome, DIAGONAL_LINK_COST, MAX_SEARCH_STEPS,
    NODE_CLOSED, NODE_OPEN, NODE_UNCHECKED, STRAIGHT_LINK_COST, UNSET_COST,
};

/// Whether `path` is a walk along the grid's links.
fn is_walk(grid: &NavGrid, path: &[usize]) -> bool {
    path.windows(2).all(|w| grid.valid[w[1]] && grid.links[w[0]].contains(&(w[1] as i32)))
}

/// Grid of `side` x `side` cells; `#` marks a blocked cell.
fn grid_from(rows: &[&str]) -> NavGrid {
    let side = rows.len() as i32;
    let valid: Vec<bool> = rows.iter().flat_map(|r| r.chars().map(|c| c != '#')).collect();
    NavGrid::build(side, valid)
}

#[test]
fn link_costs_by_direction() {
    for d in [0usize, 2, 5, 7] {
        assert_eq!(cost_for_link_dir(d), DIAGONAL_LINK_COST);
    }
    for d in [1usize, 3, 4, 6, 8] {
        assert_eq!(cost_for_link_dir(d), STRAIGHT_LINK_COST);
    }
    assert_eq!(DIAGONAL_LINK_COST, 14_000);
    assert_eq!(STRAIGHT_LINK_COST, 10_000);
}

#[test]
fn fresh_buffer_is_unset() {
    let b = AStarBuffer::for_nodes(5);
    assert_eq!(b.parents, vec![-1; 5]);
    assert_eq!(b.state, vec![0; 5]);
    assert_eq!(b.g_cost, vec![UNSET_COST; 5]);
    assert!(b.open_sorted_idxs.is_empty());
}

#[test]
fn parent_chain_is_rebuilt_root_first() {
    let parents = vec![-1, 0, 1, 1, 3];
    assert_eq!(build_path(&parents, 4), vec![0, 1, 3, 4]);
    assert_eq!(build_path(&parents, 0), vec![0]);
}

#[test]
fn path_across_open_grid() {
    let grid = grid_from(&["....", "....", "....", "...."]);
    let mut buffer = AStarBuffer::for_nodes(16);
    match find_path(&grid, &mut buffer, 0, 15) {
        PathOutcome::Reached(path) => {
            assert_eq!(path[0], 0);
            assert_eq!(*path.last().unwrap(), 15);
            assert!(is_walk(&grid, &path));
        }
        _ => panic!("expected a path"),
    }
}

#[test]
fn path_around_a_wall() {
    let grid = grid_from(&[".....", "####.", ".....", ".####", "....."]);
    let mut buffer = AStarBuffer::for_nodes(25);
    let start = coord_to_1d(5, 0, 0);
    let end = coord_to_1d(5, 4, 4);
    match find_path(&grid, &mut buffer, start, end) {
        PathOutcome::Reached(path) => {
            assert_eq!(path[0], start as usize);
            assert_eq!(*path.last().unwrap(), end as usize);
            assert!(is_walk(&grid, &path));
            assert!(path.iter().all(|&n| grid.valid[n]));
            // the path is the target's parent chain and repeats no node
            let mut seen = path.clone();
            seen.sort();
            seen.dedup();
            assert_eq!(seen.len(), path.len());
            assert_eq!(build_path(&buffer.parents, end as usize), path);
            assert_eq!(buffer.state[end as usize], NODE_CLOSED);
            // open nodes are marked open, nodes never reached stay unchecked
            assert!(buffer.open_sorted_idxs.iter().all(|&n| buffer.state[n as usize] == NODE_OPEN));
            assert!(buffer.state.iter().enumerate().all(|(v, &st)| st != NODE_UNCHECKED
                || (!buffer.open_sorted_idxs.contains(&(v as i32)) && buffer.parents[v] == -1)));
        }
        _ => panic!("expected a path"),
    }
    // the buffer can be searched with again
    assert!(matches!(find_path(&grid, &mut buffer, start, start), PathOutcome::Reached(p) if p == vec![start as usize]));
}

#[test]
fn walled_off_target_is_unreachable() {
    let grid = grid_from(&["..#..", "..#..", "###..", ".....", "....."]);
    let mut buffer = AStarBuffer::for_nodes(25);
    let start = coord_to_1d(5, 0, 0);
    let end = coord_to_1d(5, 4, 4);
    assert!(matches!(find_path(&grid, &mut buffer, start, end), PathOutcome::Unreachable));
    // every closed node was reachable: the start's corner only
    let closed = buffer.state.iter().filter(|s| **s == NODE_CLOSED).count();
    assert_eq!(closed, 4);
}

#[test]
fn search_gives_up_after_the_step_budget() {
    // a large open area, and a target cell cut off from it
    let side = 80;
    let mut valid = vec![true; (side * side) as usize];
    let target = coord_to_1d(side, side - 1, side - 1) as usize;
    valid[target - 1] = false;
    valid[target - side as usize] = false;
    valid[target - side as usize - 1] = false;
    let grid = NavGrid::build(side, valid);
    let mut buffer = AStarBuffer::for_nodes((side * side) as usize);
    match find_path(&grid, &mut buffer, 0, target as i32) {
        PathOutcome::Truncated(path) => {
            assert_eq!(path[0], 0);
            // the path leads to the open node that was next in line
            let last = *path.last().unwrap();
            assert_eq!(buffer.state[last], NODE_OPEN);
            assert_eq!(build_path(&buffer.parents, last), path);
            assert!(is_walk(&grid, &path));
            let closed = buffer.state.iter().filter(|s| **s == NODE_CLOSED).count();
            assert_eq!(closed, MAX_SEARCH_STEPS as usize + 1);
        }
        _ => panic!("expected the search to give up"),
    }
}

#[test]
fn adding_then_plucking_restores_the_open_list() {
    let open = vec![3, 0, 2, 1];
    let mut f = vec![70_000, 10_000, 50_000, 120_000, 60_000];
    let mut list = open.clone();
    add_to_open(&mut list, &mut f, 4, 60_000);
    assert_eq!(list, vec![3, 0, 4, 2, 1]);
    pluck_from_open(&mut list, 4);
    assert_eq!(list, open);
}
