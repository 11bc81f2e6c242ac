use grid_astar::frontier::{Frontier, FrontierItem};
use grid_astar::grid::{get_neighbor_coords, manhattan};
use grid_astar::search::{astar, find_path, PathError};

fn xy_to_idx(x: u32, y: u32, width: u32) -> u32 {
    (y * width) + x
}

fn walls_7x7() -> Vec<u32> {
    vec![
        1, 1, 1, 1, 1, 1, 1, 1, 1, 0, 1, 1, 0, 1, 1, 1, 0, 0, 1, 0, 1, 1, 1, 0, 1, 1, 0, 1, 1,
        1, 0, 0, 0, 0, 1, 1, 1, 1, 1, 1, 1, 1, 1, 1, 1, 1, 1, 1, 1,
    ]
}

fn column_wall_4x4() -> Vec<u32> {
    vec![
        1, 0, 1, 1,
        1, 0, 1, 1,
        1, 0, 1, 1,
        1, 1, 1, 1,
    ]
}

#[test]
fn xy_to_idx_works() {
    assert_eq!(xy_to_idx(1, 1, 7), 8);
    assert_eq!(xy_to_idx(1, 2, 7), 15);
}

#[test]
fn it_runs_in_a_straigh_line() {
    let grid = vec![
        1, 1, 1, 1, 1, 1, 1, 1, 1, 1, 1, 1, 1, 1, 1, 1, 1, 1, 1, 1, 1, 1, 1, 1, 1,
    ];
    let path = astar(0, 24, &grid, 5, false);
    assert_eq!(path, vec![6, 12, 18, 24]);
}

#[test]
fn it_avoids_walls() {
    let grid = walls_7x7();
    let path = astar(0, 48, &grid, 7, false);
    assert_eq!(path, vec![8, 15, 22, 29, 37, 45, 46, 47, 48]);
}

#[test]
fn it_cuts_corners() {
    let width: u32 = 4;
    let grid = column_wall_4x4();
    let path = astar(0, 15, &grid, width, false);
    assert_eq!(path, vec![
        xy_to_idx(0, 1, width),
        xy_to_idx(0, 2, width),
        xy_to_idx(1, 3, width),
        xy_to_idx(2, 3, width),
        xy_to_idx(3, 3, width),
    ]);
}

#[test]
fn it_doesnt_cut_corners_using_cardinal_directions() {
    let width: u32 = 4;
    let grid = column_wall_4x4();
    let path = astar(0, 15, &grid, width, true);
    assert_eq!(path, vec![
        xy_to_idx(0, 1, width),
        xy_to_idx(0, 2, width),
        xy_to_idx(0, 3, width),
        xy_to_idx(1, 3, width),
        xy_to_idx(2, 3, width),
        xy_to_idx(3, 3, width),
    ]);
}

#[test]
fn find_path_matches_astar_on_success() {
    let grid = walls_7x7();
    assert_eq!(find_path(0, 48, &grid, 7, false), Ok(vec![8, 15, 22, 29, 37, 45, 46, 47, 48]));
}

#[test]
fn repeated_calls_agree() {
    let grid = walls_7x7();
    let first = astar(0, 48, &grid, 7, false);
    let second = astar(0, 48, &grid, 7, false);
    assert_eq!(first, second);
    let a = find_path(0, 15, &column_wall_4x4(), 4, true);
    let b = find_path(0, 15, &column_wall_4x4(), 4, true);
    assert_eq!(a, b);
}

#[test]
fn walled_off_goal_has_no_path() {
    let mut grid = vec![1u32; 25];
    for c in [6usize, 7, 8, 11, 13, 16, 17, 18] {
        grid[c] = 0;
    }
    assert_eq!(astar(0, 12, &grid, 5, false), Vec::<u32>::new());
    assert_eq!(find_path(0, 12, &grid, 5, false), Err(PathError::Unreachable));
    assert_eq!(find_path(0, 12, &grid, 5, true), Err(PathError::Unreachable));
}

#[test]
fn start_touching_goal_moves_even_from_a_closed_cell() {
    assert_eq!(astar(0, 1, &vec![0, 1], 2, false), vec![1]);
}

#[test]
fn ties_go_to_the_higher_index() {
    assert_eq!(astar(0, 8, &vec![1u32; 9], 3, true), vec![3, 6, 7, 8]);
    assert_eq!(astar(0, 15, &vec![1u32; 16], 4, true), vec![4, 8, 12, 13, 14, 15]);
    assert_eq!(astar(0, 8, &vec![1u32; 9], 3, false), vec![4, 8]);
}

#[test]
fn expensive_cells_are_avoided() {
    let grid = vec![1, 9, 1, 1, 1, 1];
    assert_eq!(astar(0, 2, &grid, 3, true), vec![3, 4, 5, 2]);
}

#[test]
fn same_endpoints_give_an_empty_path() {
    let grid = vec![1u32; 9];
    assert_eq!(find_path(4, 4, &grid, 3, false), Ok(Vec::new()));
    assert_eq!(astar(4, 4, &grid, 3, false), Vec::<u32>::new());
}

#[test]
fn invalid_inputs_are_rejected() {
    let grid = vec![1u32; 9];
    assert_eq!(find_path(0, 8, &grid, 0, false), Err(PathError::InvalidInput));
    assert_eq!(find_path(0, 8, &grid, 2, false), Err(PathError::InvalidInput));
    assert_eq!(find_path(9, 8, &grid, 3, false), Err(PathError::InvalidInput));
    assert_eq!(find_path(0, 9, &grid, 3, false), Err(PathError::InvalidInput));
    assert_eq!(find_path(0, 0, &Vec::new(), 3, false), Err(PathError::InvalidInput));
    assert_eq!(astar(0, 9, &grid, 3, false), Vec::<u32>::new());
}

#[test]
fn manhattan_distances() {
    assert_eq!(manhattan(1, 2, 4, 0), 5);
    assert_eq!(manhattan(4, 0, 1, 2), 5);
    assert_eq!(manhattan(3, 3, 3, 3), 0);
    assert_eq!(manhattan(0, 0, u32::MAX, u32::MAX), 2 * (u32::MAX as u64));
}

#[test]
fn neighbours_of_centre_and_corner() {
    let grid = vec![1u32; 9];
    assert_eq!(get_neighbor_coords(4, &grid, 3, false).to_vec(), vec![1, 0, 2, 3, 5, 7, 6, 8]);
    assert_eq!(get_neighbor_coords(4, &grid, 3, true).to_vec(), vec![1, 3, 5, 7]);
    assert_eq!(get_neighbor_coords(0, &grid, 3, false).to_vec(), vec![1, 3, 4]);
    assert_eq!(get_neighbor_coords(8, &grid, 3, false).to_vec(), vec![5, 4, 7]);
}

#[test]
fn neighbours_skip_closed_cells() {
    let grid = column_wall_4x4();
    assert_eq!(get_neighbor_coords(8, &grid, 4, false).to_vec(), vec![4, 12, 13]);
    assert_eq!(get_neighbor_coords(8, &grid, 4, true).to_vec(), vec![4, 12]);
}

#[test]
fn frontier_pops_least_priority_then_highest_position() {
    let mut f = Frontier::new();
    assert!(f.is_empty());
    f.push(FrontierItem { position: 3, cost: 5 });
    f.push(FrontierItem { position: 7, cost: 5 });
    f.push(FrontierItem { position: 1, cost: 2 });
    assert_eq!(f.len(), 3);
    assert_eq!(f.pop(), Some(FrontierItem { position: 1, cost: 2 }));
    assert_eq!(f.pop(), Some(FrontierItem { position: 7, cost: 5 }));
    assert_eq!(f.pop(), Some(FrontierItem { position: 3, cost: 5 }));
    assert_eq!(f.pop(), None);
}

#[test]
fn frontier_item_order() {
    let a = FrontierItem { position: 2, cost: 4 };
    let b = FrontierItem { position: 9, cost: 4 };
    let c = FrontierItem { position: 0, cost: 3 };
    assert!(b.comes_before(&a));
    assert!(!a.comes_before(&b));
    assert!(c.comes_before(&b));
    assert!(a.comes_before(&a));
}
